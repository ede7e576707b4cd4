//! Small keyed maps as association lists over 128-bit identifiers.
//!
//! A match seats at most six players, so every per-player map in the game is
//! a short vector of `(id, value)` pairs with pairwise distinct keys.
use vstd::prelude::*;

verus! {

pub open spec fn al_contains<V>(m: Seq<(u128, V)>, k: u128) -> bool {
    exists|i: int| 0 <= i < m.len() && (#[trigger] m[i]).0 == k
}

/// The value at the first occurrence of `k`, if any.
pub open spec fn al_get<V>(m: Seq<(u128, V)>, k: u128) -> Option<V>
    decreases m.len(),
{
    if m.len() == 0 {
        None
    } else if m[0].0 == k {
        Some(m[0].1)
    } else {
        al_get(m.drop_first(), k)
    }
}

pub open spec fn keys_unique<V>(m: Seq<(u128, V)>) -> bool {
    forall|i: int, j: int| 0 <= i < j < m.len() ==> (#[trigger] m[i]).0 != (#[trigger] m[j]).0
}

pub open spec fn al_get_or_zero(m: Seq<(u128, u64)>, k: u128) -> int {
    match al_get(m, k) {
        Some(v) => v as int,
        None => 0,
    }
}

/// Sum of all values in the map.
pub open spec fn sum_vals(m: Seq<(u128, u64)>) -> int
    decreases m.len(),
{
    if m.len() == 0 {
        0
    } else {
        sum_vals(m.drop_last()) + m.last().1
    }
}

pub proof fn lemma_unique_drop_first<V>(m: Seq<(u128, V)>)
    requires
        keys_unique(m),
        m.len() > 0,
    ensures
        keys_unique(m.drop_first()),
{
    assert forall|i: int, j: int|
        0 <= i < j < m.drop_first().len() implies (#[trigger] m.drop_first()[i]).0 != (
    #[trigger] m.drop_first()[j]).0 by {
        assert(m.drop_first()[i] == m[i + 1]);
        assert(m.drop_first()[j] == m[j + 1]);
    }
}

pub proof fn lemma_al_get_some<V>(m: Seq<(u128, V)>, k: u128)
    ensures
        (al_get(m, k) is Some) <==> al_contains(m, k),
    decreases m.len(),
{
    if m.len() > 0 {
        if m[0].0 == k {
            assert(al_contains(m, k));
        } else {
            lemma_al_get_some(m.drop_first(), k);
            if al_contains(m, k) {
                let i = choose|i: int| 0 <= i < m.len() && (#[trigger] m[i]).0 == k;
                assert(i > 0);
                assert(m.drop_first()[i - 1].0 == k);
                assert(al_contains(m.drop_first(), k));
            }
            if al_contains(m.drop_first(), k) {
                let i = choose|i: int|
                    0 <= i < m.drop_first().len() && (#[trigger] m.drop_first()[i]).0 == k;
                assert(m[i + 1].0 == k);
            }
        }
    }
}

/// With unique keys, the entry at any index with key `k` is the value of `k`.
pub proof fn lemma_al_get_at<V>(m: Seq<(u128, V)>, k: u128, i: int)
    requires
        keys_unique(m),
        0 <= i < m.len(),
        m[i].0 == k,
    ensures
        al_get(m, k) == Some(m[i].1),
    decreases m.len(),
{
    if i > 0 {
        assert(m[0].0 != k);
        lemma_unique_drop_first(m);
        assert(m.drop_first()[i - 1] == m[i]);
        lemma_al_get_at(m.drop_first(), k, i - 1);
    }
}

/// Updating the entry of `k` in place changes only `k`'s value.
pub proof fn lemma_al_get_update<V>(m: Seq<(u128, V)>, i: int, k: u128, v: V, k2: u128)
    requires
        keys_unique(m),
        0 <= i < m.len(),
        m[i].0 == k,
    ensures
        al_get(m.update(i, (k, v)), k2) == if k2 == k {
            Some(v)
        } else {
            al_get(m, k2)
        },
    decreases m.len(),
{
    let m2 = m.update(i, (k, v));
    if i == 0 {
        if k2 != k {
            assert(m2.drop_first() =~= m.drop_first());
            assert(m[0].0 != k2 ==> al_get(m, k2) == al_get(m.drop_first(), k2));
            if m[0].0 == k2 {
                assert(k2 == k);
            }
        }
    } else {
        assert(m[0].0 != k);
        assert(m2[0] == m[0]);
        assert(m2.drop_first() =~= m.drop_first().update(i - 1, (k, v)));
        lemma_unique_drop_first(m);
        assert(m.drop_first()[i - 1] == m[i]);
        lemma_al_get_update(m.drop_first(), i - 1, k, v, k2);
    }
}

/// Appending a fresh key leaves every other lookup unchanged.
pub proof fn lemma_al_get_push<V>(m: Seq<(u128, V)>, k: u128, v: V, k2: u128)
    requires
        !al_contains(m, k),
    ensures
        al_get(m.push((k, v)), k2) == if k2 == k {
            Some(v)
        } else {
            al_get(m, k2)
        },
    decreases m.len(),
{
    let m2 = m.push((k, v));
    if m.len() == 0 {
        if k2 != k {
            assert(m2.drop_first() =~= Seq::<(u128, V)>::empty());
        }
    } else {
        assert(m[0].0 != k);
        assert(m2[0] == m[0]);
        assert(m2.drop_first() =~= m.drop_first().push((k, v)));
        assert(!al_contains(m.drop_first(), k)) by {
            if al_contains(m.drop_first(), k) {
                let i = choose|i: int|
                    0 <= i < m.drop_first().len() && (#[trigger] m.drop_first()[i]).0 == k;
                assert(m[i + 1].0 == k);
            }
        }
        lemma_al_get_push(m.drop_first(), k, v, k2);
    }
}

/// Removing the entry at `i` deletes its key and keeps the rest.
pub proof fn lemma_al_get_remove<V>(m: Seq<(u128, V)>, i: int, k2: u128)
    requires
        keys_unique(m),
        0 <= i < m.len(),
    ensures
        al_get(m.remove(i), k2) == if k2 == m[i].0 {
            None::<V>
        } else {
            al_get(m, k2)
        },
        keys_unique(m.remove(i)),
    decreases m.len(),
{
    let m2 = m.remove(i);
    assert forall|a: int, b: int|
        0 <= a < b < m2.len() implies (#[trigger] m2[a]).0 != (#[trigger] m2[b]).0 by {
        let a0 = if a < i {
            a
        } else {
            a + 1
        };
        let b0 = if b < i {
            b
        } else {
            b + 1
        };
        assert(m2[a] == m[a0]);
        assert(m2[b] == m[b0]);
    }
    if i == 0 {
        assert(m2 =~= m.drop_first());
        if m[0].0 == k2 {
            lemma_al_get_some(m.drop_first(), k2);
            if al_contains(m.drop_first(), k2) {
                let j = choose|j: int|
                    0 <= j < m.drop_first().len() && (#[trigger] m.drop_first()[j]).0 == k2;
                assert(m[j + 1].0 == k2);
                assert(false);
            }
        }
    } else {
        assert(m2[0] == m[0]);
        assert(m2.drop_first() =~= m.drop_first().remove(i - 1));
        lemma_unique_drop_first(m);
        assert(m.drop_first()[i - 1] == m[i]);
        lemma_al_get_remove(m.drop_first(), i - 1, k2);
        if m[0].0 == k2 {
        }
    }
}

/// A successful lookup is witnessed by an entry.
pub proof fn lemma_al_get_index<V>(m: Seq<(u128, V)>, k: u128)
    requires
        al_get(m, k) is Some,
    ensures
        exists|i: int|
            0 <= i < m.len() && (#[trigger] m[i]).0 == k && m[i].1 == al_get(m, k)->Some_0,
    decreases m.len(),
{
    if m.len() > 0 {
        if m[0].0 == k {
            assert(m[0].0 == k && m[0].1 == al_get(m, k)->Some_0);
        } else {
            lemma_al_get_index(m.drop_first(), k);
            let i = choose|i: int|
                0 <= i < m.drop_first().len() && (#[trigger] m.drop_first()[i]).0 == k
                    && m.drop_first()[i].1 == al_get(m.drop_first(), k)->Some_0;
            assert(m[i + 1].0 == k && m[i + 1].1 == al_get(m, k)->Some_0);
        }
    }
}

pub proof fn lemma_sum_nonneg(m: Seq<(u128, u64)>)
    ensures
        sum_vals(m) >= 0,
    decreases m.len(),
{
    if m.len() > 0 {
        lemma_sum_nonneg(m.drop_last());
    }
}

pub proof fn lemma_sum_push(m: Seq<(u128, u64)>, k: u128, v: u64)
    ensures
        sum_vals(m.push((k, v))) == sum_vals(m) + v,
{
    assert(m.push((k, v)).drop_last() =~= m);
}

pub proof fn lemma_sum_update(m: Seq<(u128, u64)>, i: int, k: u128, v: u64)
    requires
        0 <= i < m.len(),
    ensures
        sum_vals(m.update(i, (k, v))) == sum_vals(m) - m[i].1 + v,
    decreases m.len(),
{
    let m2 = m.update(i, (k, v));
    if i == m.len() - 1 {
        assert(m2.drop_last() =~= m.drop_last());
    } else {
        assert(m2.drop_last() =~= m.drop_last().update(i, (k, v)));
        assert(m2.last() == m.last());
        lemma_sum_update(m.drop_last(), i, k, v);
    }
}

/// Sum of a sequence of mathematical integers.
pub open spec fn sum_ints(s: Seq<int>) -> int
    decreases s.len(),
{
    if s.len() == 0 {
        0
    } else {
        sum_ints(s.drop_last()) + s.last()
    }
}

pub proof fn lemma_sum_ints_update(s: Seq<int>, i: int, x: int)
    requires
        0 <= i < s.len(),
    ensures
        sum_ints(s.update(i, x)) == sum_ints(s) - s[i] + x,
    decreases s.len(),
{
    let s2 = s.update(i, x);
    if i == s.len() - 1 {
        assert(s2.drop_last() =~= s.drop_last());
    } else {
        assert(s2.drop_last() =~= s.drop_last().update(i, x));
        assert(s2.last() == s.last());
        lemma_sum_ints_update(s.drop_last(), i, x);
    }
}

pub proof fn lemma_sum_ints_push(s: Seq<int>, x: int)
    ensures
        sum_ints(s.push(x)) == sum_ints(s) + x,
{
    assert(s.push(x).drop_last() =~= s);
}

pub proof fn lemma_sum_ints_nonneg(s: Seq<int>)
    requires
        forall|i: int| 0 <= i < s.len() ==> #[trigger] s[i] >= 0,
    ensures
        sum_ints(s) >= 0,
    decreases s.len(),
{
    if s.len() > 0 {
        assert(forall|i: int|
            0 <= i < s.drop_last().len() ==> #[trigger] s.drop_last()[i] == s[i]);
        lemma_sum_ints_nonneg(s.drop_last());
    }
}

pub proof fn lemma_sum_ints_elem_le(s: Seq<int>, i: int)
    requires
        forall|j: int| 0 <= j < s.len() ==> #[trigger] s[j] >= 0,
        0 <= i < s.len(),
    ensures
        s[i] <= sum_ints(s),
    decreases s.len(),
{
    if i == s.len() - 1 {
        assert(forall|j: int|
            0 <= j < s.drop_last().len() ==> #[trigger] s.drop_last()[j] == s[j]);
        lemma_sum_ints_nonneg(s.drop_last());
    } else {
        assert(forall|j: int|
            0 <= j < s.drop_last().len() ==> #[trigger] s.drop_last()[j] == s[j]);
        lemma_sum_ints_elem_le(s.drop_last(), i);
    }
}

/// A prefix of nonnegative values never exceeds the whole sum.
pub proof fn lemma_sum_ints_take_le(s: Seq<int>, k: int)
    requires
        0 <= k <= s.len(),
        forall|i: int| 0 <= i < s.len() ==> #[trigger] s[i] >= 0,
    ensures
        sum_ints(s.take(k)) <= sum_ints(s),
    decreases s.len() - k,
{
    if k < s.len() {
        assert(s.take(k + 1).drop_last() =~= s.take(k));
        assert(s.take(k + 1).last() == s[k]);
        lemma_sum_ints_take_le(s, k + 1);
    } else {
        assert(s.take(k) =~= s);
    }
}

/// Relates the head-recursive lookup to the tail-recursive sum.
pub proof fn lemma_sum_drop_first(m: Seq<(u128, u64)>)
    requires
        m.len() > 0,
    ensures
        sum_vals(m) == m[0].1 + sum_vals(m.drop_first()),
    decreases m.len(),
{
    if m.len() == 1 {
        assert(m.drop_first() =~= Seq::<(u128, u64)>::empty());
        assert(m.drop_last() =~= Seq::<(u128, u64)>::empty());
    } else {
        assert(m.drop_last()[0] == m[0]);
        lemma_sum_drop_first(m.drop_last());
        assert(m.drop_first().drop_last() =~= m.drop_last().drop_first());
        assert(m.drop_first().last() == m.last());
    }
}

/// A present value never exceeds the sum of all values.
pub proof fn lemma_get_le_sum(m: Seq<(u128, u64)>, k: u128)
    ensures
        al_get_or_zero(m, k) <= sum_vals(m),
    decreases m.len(),
{
    if m.len() == 0 {
    } else {
        lemma_sum_drop_first(m);
        if m[0].0 == k {
            lemma_sum_nonneg(m.drop_first());
        } else {
            lemma_get_le_sum(m.drop_first(), k);
        }
    }
}

/// Looks the value of `k` up.
pub fn al_get_u64(m: &Vec<(u128, u64)>, k: u128) -> (r: Option<u64>)
    requires
        keys_unique(m@),
    ensures
        r == al_get(m@, k),
{
    match al_find(m, k) {
        Some(i) => {
            proof {
                lemma_al_get_at(m@, k, i as int);
            }
            Some(m[i].1)
        },
        None => {
            proof {
                lemma_al_get_some(m@, k);
            }
            None
        },
    }
}

/// Index of an identifier in a plain id list.
pub fn al_find_id(v: &Vec<u128>, id: u128) -> (r: Option<usize>)
    ensures
        match r {
            Some(i) => 0 <= i < v@.len() && v@[i as int] == id,
            None => !v@.contains(id),
        },
{
    let mut i: usize = 0;
    while i < v.len()
        invariant
            0 <= i <= v@.len(),
            forall|j: int| 0 <= j < i ==> v@[j] != id,
        decreases v@.len() - i,
    {
        if v[i] == id {
            return Some(i);
        }
        i = i + 1;
    }
    proof {
        if v@.contains(id) {
            let j = choose|j: int| 0 <= j < v@.len() && v@[j] == id;
        }
    }
    None
}

/// Index of the first entry with key `k`.
pub fn al_find<V>(m: &Vec<(u128, V)>, k: u128) -> (r: Option<usize>)
    ensures
        match r {
            Some(i) => 0 <= i < m@.len() && m@[i as int].0 == k,
            None => !al_contains(m@, k),
        },
{
    let mut i: usize = 0;
    while i < m.len()
        invariant
            0 <= i <= m@.len(),
            forall|j: int| 0 <= j < i ==> (#[trigger] m@[j]).0 != k,
        decreases m@.len() - i,
    {
        if m[i].0 == k {
            return Some(i);
        }
        i = i + 1;
    }
    None
}

/// Inserts or replaces the value of `k`.
pub fn al_set<V>(m: &mut Vec<(u128, V)>, k: u128, v: V)
    requires
        keys_unique(old(m)@),
    ensures
        keys_unique(final(m)@),
        al_get(final(m)@, k) == Some(v),
        forall|k2: u128| k2 != k ==> al_get(final(m)@, k2) == al_get(old(m)@, k2),
        forall|k2: u128| al_contains(final(m)@, k2) <==> (al_contains(old(m)@, k2) || k2 == k),
        al_contains(old(m)@, k) ==> final(m)@.len() == old(m)@.len(),
        !al_contains(old(m)@, k) ==> final(m)@.len() == old(m)@.len() + 1,
        !al_contains(old(m)@, k) ==> final(m)@ == old(m)@.push((k, v)),
        al_contains(old(m)@, k) ==> exists|i: int|
            0 <= i < old(m)@.len() && (#[trigger] old(m)@[i]).0 == k && final(m)@ == old(
                m,
            )@.update(i, (k, v)),
{
    let gm = Ghost(m@);
    match al_find(m, k) {
        Some(i) => {
            m.set(i, (k, v));
            proof {
                assert(final(m)@ =~= gm@.update(i as int, (k, v)));
                assert forall|k2: u128| #[trigger]
                    al_get(final(m)@, k2) == if k2 == k {
                        Some(v)
                    } else {
                        al_get(gm@, k2)
                    } by {
                    lemma_al_get_update(gm@, i as int, k, v, k2);
                }
                assert(al_contains(gm@, k));
                assert forall|a: int, b: int|
                    0 <= a < b < final(m)@.len() implies (#[trigger] final(m)@[a]).0 != (
                #[trigger] final(m)@[b]).0 by {
                    assert(gm@[a].0 == final(m)@[a].0 || a == i);
                    assert(gm@[b].0 == final(m)@[b].0 || b == i);
                    assert(gm@[a].0 != gm@[b].0);
                    assert(gm@[i as int].0 == k);
                }
                assert forall|k2: u128| #[trigger]
                    al_contains(final(m)@, k2) <==> (al_contains(gm@, k2) || k2 == k) by {
                    lemma_al_get_some(final(m)@, k2);
                    lemma_al_get_some(gm@, k2);
                    lemma_al_get_update(gm@, i as int, k, v, k2);
                }
            }
        },
        None => {
            m.push((k, v));
            proof {
                assert(final(m)@ =~= gm@.push((k, v)));
                assert forall|k2: u128| #[trigger]
                    al_get(final(m)@, k2) == if k2 == k {
                        Some(v)
                    } else {
                        al_get(gm@, k2)
                    } by {
                    lemma_al_get_push(gm@, k, v, k2);
                }
                assert forall|a: int, b: int|
                    0 <= a < b < final(m)@.len() implies (#[trigger] final(m)@[a]).0 != (
                #[trigger] final(m)@[b]).0 by {
                    if b < final(m)@.len() - 1 {
                        assert(gm@[a].0 != gm@[b].0);
                    } else {
                        assert(final(m)@[b].0 == k);
                        assert(final(m)@[a] == gm@[a]);
                        if gm@[a].0 == k {
                            assert(al_contains(gm@, k));
                        }
                    }
                }
                assert forall|k2: u128| #[trigger]
                    al_contains(final(m)@, k2) <==> (al_contains(gm@, k2) || k2 == k) by {
                    lemma_al_get_some(final(m)@, k2);
                    lemma_al_get_some(gm@, k2);
                    lemma_al_get_push(gm@, k, v, k2);
                }
            }
        },
    }
}

/// Inserts or replaces the value of `k`, tracking the sum of all values.
pub fn al_set_u64(m: &mut Vec<(u128, u64)>, k: u128, v: u64)
    requires
        keys_unique(old(m)@),
    ensures
        keys_unique(final(m)@),
        al_get(final(m)@, k) == Some(v),
        forall|k2: u128| k2 != k ==> al_get(final(m)@, k2) == al_get(old(m)@, k2),
        forall|k2: u128| al_contains(final(m)@, k2) <==> (al_contains(old(m)@, k2) || k2 == k),
        sum_vals(final(m)@) == sum_vals(old(m)@) - al_get_or_zero(old(m)@, k) + v,
        al_contains(old(m)@, k) ==> final(m)@.len() == old(m)@.len(),
        !al_contains(old(m)@, k) ==> final(m)@.len() == old(m)@.len() + 1,
        !al_contains(old(m)@, k) ==> final(m)@ == old(m)@.push((k, v)),
        al_contains(old(m)@, k) ==> exists|i: int|
            0 <= i < old(m)@.len() && (#[trigger] old(m)@[i]).0 == k && final(m)@ == old(
                m,
            )@.update(i, (k, v)),
{
    let gm = Ghost(m@);
    match al_find(m, k) {
        Some(i) => {
            proof {
                lemma_al_get_at(gm@, k, i as int);
            }
            let old_v = m[i].1;
            m.set(i, (k, v));
            proof {
                assert(final(m)@ =~= gm@.update(i as int, (k, v)));
                assert forall|k2: u128| #[trigger]
                    al_get(final(m)@, k2) == if k2 == k {
                        Some(v)
                    } else {
                        al_get(gm@, k2)
                    } by {
                    lemma_al_get_update(gm@, i as int, k, v, k2);
                }
                lemma_sum_update(gm@, i as int, k, v);
                assert(al_contains(gm@, k));
                assert forall|a: int, b: int|
                    0 <= a < b < final(m)@.len() implies (#[trigger] final(m)@[a]).0 != (
                #[trigger] final(m)@[b]).0 by {
                    assert(gm@[a].0 == final(m)@[a].0 || a == i);
                    assert(gm@[b].0 == final(m)@[b].0 || b == i);
                    assert(gm@[a].0 != gm@[b].0);
                    assert(gm@[i as int].0 == k);
                }
                assert forall|k2: u128| #[trigger]
                    al_contains(final(m)@, k2) <==> (al_contains(gm@, k2) || k2 == k) by {
                    lemma_al_get_some(final(m)@, k2);
                    lemma_al_get_some(gm@, k2);
                    lemma_al_get_update(gm@, i as int, k, v, k2);
                }
            }
        },
        None => {
            m.push((k, v));
            proof {
                assert(final(m)@ =~= gm@.push((k, v)));
                lemma_al_get_some(gm@, k);
                assert forall|k2: u128| #[trigger]
                    al_get(final(m)@, k2) == if k2 == k {
                        Some(v)
                    } else {
                        al_get(gm@, k2)
                    } by {
                    lemma_al_get_push(gm@, k, v, k2);
                }
                lemma_sum_push(gm@, k, v);
                assert forall|a: int, b: int|
                    0 <= a < b < final(m)@.len() implies (#[trigger] final(m)@[a]).0 != (
                #[trigger] final(m)@[b]).0 by {
                    if b < final(m)@.len() - 1 {
                        assert(gm@[a].0 != gm@[b].0);
                    } else {
                        assert(final(m)@[b].0 == k);
                        assert(final(m)@[a] == gm@[a]);
                        if gm@[a].0 == k {
                            assert(al_contains(gm@, k));
                        }
                    }
                }
                assert forall|k2: u128| #[trigger]
                    al_contains(final(m)@, k2) <==> (al_contains(gm@, k2) || k2 == k) by {
                    lemma_al_get_some(final(m)@, k2);
                    lemma_al_get_some(gm@, k2);
                    lemma_al_get_push(gm@, k, v, k2);
                }
            }
        },
    }
}

/// Removes the entry of `k`, if present.
pub fn al_remove<V>(m: &mut Vec<(u128, V)>, k: u128)
    requires
        keys_unique(old(m)@),
    ensures
        keys_unique(final(m)@),
        al_get(final(m)@, k) == None::<V>,
        forall|k2: u128| k2 != k ==> al_get(final(m)@, k2) == al_get(old(m)@, k2),
        forall|k2: u128| al_contains(final(m)@, k2) <==> (al_contains(old(m)@, k2) && k2 != k),
        al_contains(old(m)@, k) ==> final(m)@.len() == old(m)@.len() - 1,
        !al_contains(old(m)@, k) ==> final(m)@ == old(m)@,
        al_contains(old(m)@, k) ==> exists|i: int|
            0 <= i < old(m)@.len() && (#[trigger] old(m)@[i]).0 == k && final(m)@ == old(
                m,
            )@.remove(i),
{
    let gm = Ghost(m@);
    match al_find(m, k) {
        Some(i) => {
            m.remove(i);
            proof {
                assert(final(m)@ =~= gm@.remove(i as int));
                assert forall|k2: u128| #[trigger]
                    al_get(final(m)@, k2) == if k2 == k {
                        None::<V>
                    } else {
                        al_get(gm@, k2)
                    } by {
                    lemma_al_get_remove(gm@, i as int, k2);
                }
                lemma_al_get_remove(gm@, i as int, k);
                assert(al_contains(gm@, k));
                assert forall|k2: u128| #[trigger]
                    al_contains(final(m)@, k2) <==> (al_contains(gm@, k2) && k2 != k) by {
                    lemma_al_get_some(final(m)@, k2);
                    lemma_al_get_some(gm@, k2);
                    lemma_al_get_remove(gm@, i as int, k2);
                    if k2 == k && al_contains(final(m)@, k2) {
                        assert(al_get(final(m)@, k2) is Some);
                    }
                }
            }
        },
        None => {
            proof {
                lemma_al_get_some(gm@, k);
            }
        },
    }
}

} // verus!
