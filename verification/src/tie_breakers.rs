//! Tie-break keys: rank vectors compared lexicographically inside one
//! category, in descending order of priority.
use vstd::prelude::*;

use crate::card::{CardRank, rank_value, rank_of_value};
use crate::hand_rank::{
    cnt, ranks_of, is_wheel, lemma_cnt_pos_contains, lemma_ranks_bounded, lemma_cnt_le_len,
};
use crate::card::Card;

verus! {

/// Lexicographic three-way comparison; a proper prefix orders below.
pub open spec fn lex_cmp(a: Seq<int>, b: Seq<int>) -> core::cmp::Ordering
    decreases a.len(), b.len(),
{
    if a.len() == 0 && b.len() == 0 {
        core::cmp::Ordering::Equal
    } else if a.len() == 0 {
        core::cmp::Ordering::Less
    } else if b.len() == 0 {
        core::cmp::Ordering::Greater
    } else if a[0] < b[0] {
        core::cmp::Ordering::Less
    } else if a[0] > b[0] {
        core::cmp::Ordering::Greater
    } else {
        lex_cmp(a.drop_first(), b.drop_first())
    }
}

/// Swapping the arguments reverses the comparison.
pub proof fn lemma_lex_cmp_flip(a: Seq<int>, b: Seq<int>)
    ensures
        lex_cmp(a, b) == core::cmp::Ordering::Less <==> lex_cmp(b, a)
            == core::cmp::Ordering::Greater,
        lex_cmp(a, b) == core::cmp::Ordering::Equal <==> lex_cmp(b, a)
            == core::cmp::Ordering::Equal,
    decreases a.len(), b.len(),
{
    if a.len() > 0 && b.len() > 0 && a[0] == b[0] {
        lemma_lex_cmp_flip(a.drop_first(), b.drop_first());
    }
}

/// Only equal sequences compare equal.
pub proof fn lemma_lex_cmp_eq(a: Seq<int>, b: Seq<int>)
    ensures
        lex_cmp(a, b) == core::cmp::Ordering::Equal <==> a =~= b,
    decreases a.len(), b.len(),
{
    if a.len() > 0 && b.len() > 0 && a[0] == b[0] {
        lemma_lex_cmp_eq(a.drop_first(), b.drop_first());
        if a.drop_first() =~= b.drop_first() {
            assert forall|i: int| 0 <= i < a.len() implies a[i] == b[i] by {
                if i > 0 {
                    assert(a.drop_first()[i - 1] == b.drop_first()[i - 1]);
                }
            }
            assert(a =~= b);
        } else {
            if a =~= b {
                assert(a.drop_first() =~= b.drop_first());
            }
        }
    } else {
        if a =~= b && a.len() > 0 {
            assert(a[0] == b[0]);
        }
    }
}

/// `not above` is transitive.
pub proof fn lemma_lex_cmp_trans_le(a: Seq<int>, b: Seq<int>, c: Seq<int>)
    requires
        lex_cmp(a, b) != core::cmp::Ordering::Greater,
        lex_cmp(b, c) != core::cmp::Ordering::Greater,
    ensures
        lex_cmp(a, c) != core::cmp::Ordering::Greater,
    decreases a.len(), b.len(), c.len(),
{
    if a.len() == 0 {
    } else {
        assert(b.len() > 0);
        assert(c.len() > 0);
        if a[0] == b[0] && b[0] == c[0] {
            lemma_lex_cmp_trans_le(a.drop_first(), b.drop_first(), c.drop_first());
        }
    }
}

/// Strict priority among the distinct ranks of a hand: more copies first,
/// then the higher rank.
pub open spec fn tb_before(rs: Seq<int>, a: int, b: int) -> bool {
    cnt(rs, a) > cnt(rs, b) || (cnt(rs, a) == cnt(rs, b) && a > b)
}

/// `t` lists exactly the members of `s`, in strictly descending priority.
pub open spec fn is_group_seq(rs: Seq<int>, s: Set<int>, t: Seq<int>) -> bool {
    &&& forall|i: int| 0 <= i < t.len() ==> s.contains(#[trigger] t[i])
    &&& forall|v: int| #[trigger] s.contains(v) ==> t.contains(v)
    &&& forall|i: int, j: int| 0 <= i < j < t.len() ==> tb_before(rs, t[i], t[j])
}

/// The set of rank values present in the hand.
pub open spec fn rank_set(rs: Seq<int>) -> Set<int> {
    Set::new(|v: int| cnt(rs, v) > 0)
}

/// The distinct ranks of a hand, sorted by count and then by rank, both
/// descending: quads before their kicker, the higher pair before the lower.
pub open spec fn group_key(rs: Seq<int>) -> Seq<int> {
    choose|t: Seq<int>| is_group_seq(rs, rank_set(rs), t)
}

/// Two strictly priority-sorted listings of one set are the same sequence.
pub proof fn lemma_group_seq_unique(rs: Seq<int>, s: Set<int>, t1: Seq<int>, t2: Seq<int>)
    requires
        is_group_seq(rs, s, t1),
        is_group_seq(rs, s, t2),
    ensures
        t1 =~= t2,
    decreases t1.len(),
{
    if t1.len() == 0 {
        if t2.len() > 0 {
            assert(s.contains(t2[0]));
            assert(t1.contains(t2[0]));
        }
    } else {
        assert(s.contains(t1[0]));
        assert(t2.contains(t1[0]));
        assert(t2.len() > 0);
        // The heads agree: each head is listed in the other sequence, and a
        // strictly sorted sequence puts anything after its head below it.
        if t1[0] != t2[0] {
            let i = choose|i: int| 0 <= i < t2.len() && t2[i] == t1[0];
            assert(i > 0);
            assert(tb_before(rs, t2[0], t1[0]));
            let j = choose|j: int| 0 <= j < t1.len() && t1[j] == t2[0];
            assert(j > 0);
            assert(tb_before(rs, t1[0], t2[0]));
            assert(false);
        }
        let h = t1[0];
        let s1 = s.remove(h);
        assert forall|k: int| 1 <= k < t1.len() implies t1[k] != h by {
            assert(tb_before(rs, t1[0], t1[k]));
        }
        assert forall|k: int| 1 <= k < t2.len() implies t2[k] != h by {
            assert(tb_before(rs, t2[0], t2[k]));
        }
        assert(is_group_seq(rs, s1, t1.drop_first())) by {
            assert forall|v: int| #[trigger] s1.contains(v) implies t1.drop_first().contains(
                v,
            ) by {
                assert(t1.contains(v));
                let i = choose|i: int| 0 <= i < t1.len() && t1[i] == v;
                assert(i > 0);
                assert(t1.drop_first()[i - 1] == v);
            }
        }
        assert(is_group_seq(rs, s1, t2.drop_first())) by {
            assert forall|v: int| #[trigger] s1.contains(v) implies t2.drop_first().contains(
                v,
            ) by {
                assert(t2.contains(v));
                let i = choose|i: int| 0 <= i < t2.len() && t2[i] == v;
                assert(i > 0);
                assert(t2.drop_first()[i - 1] == v);
            }
        }
        lemma_group_seq_unique(rs, s1, t1.drop_first(), t2.drop_first());
        assert forall|i: int| 0 <= i < t1.len() implies t1[i] == t2[i] by {
            if i > 0 {
                assert(t1.drop_first()[i - 1] == t2.drop_first()[i - 1]);
            }
        }
        assert(t1 =~= t2);
    }
}

/// Any strictly priority-sorted listing of the present ranks is the group
/// key.
pub proof fn lemma_group_key_agrees(rs: Seq<int>, t: Seq<int>)
    requires
        is_group_seq(rs, rank_set(rs), t),
    ensures
        group_key(rs) =~= t,
{
    let w = choose|w: Seq<int>| is_group_seq(rs, rank_set(rs), w);
    assert(is_group_seq(rs, rank_set(rs), w));
    lemma_group_seq_unique(rs, rank_set(rs), w, t);
}

/// Largest rank value in the hand.
pub open spec fn max_val(rs: Seq<int>) -> int
    recommends
        rs.len() > 0,
    decreases rs.len(),
{
    if rs.len() <= 1 {
        rs[0]
    } else {
        let m = max_val(rs.drop_last());
        if rs.last() > m {
            rs.last()
        } else {
            m
        }
    }
}

/// Top card of a straight: the highest rank, except that the wheel tops out
/// at the five.
pub open spec fn straight_top(rs: Seq<int>) -> int {
    if is_wheel(rs) {
        5
    } else {
        max_val(rs)
    }
}

/// Tie-breaker card ranks for each category, highest priority first.
#[derive(Clone, PartialEq, Eq, Debug)]
pub enum TieBreakers {
    /// Top card of the run.
    StraightFlush(CardRank),
    /// Quads rank, then the kicker.
    FourOfAKind(Vec<CardRank>),
    /// Trips rank, then the pair rank.
    FullHouse(Vec<CardRank>),
    /// All five ranks, descending.
    Flush(Vec<CardRank>),
    /// Top card of the run.
    Straight(CardRank),
    /// Trips rank, then the kickers descending.
    ThreeOfAKind(Vec<CardRank>),
    /// High pair, low pair, then the kicker.
    TwoPair(Vec<CardRank>),
    /// Pair rank, then the kickers descending.
    Pair(Vec<CardRank>),
    /// All five ranks, descending.
    HighCard(Vec<CardRank>),
}

pub open spec fn rank_values(v: Seq<CardRank>) -> Seq<int> {
    v.map_values(|r: CardRank| rank_value(r))
}

impl TieBreakers {
    /// The rank values carried, in priority order.
    pub open spec fn key(self) -> Seq<int> {
        match self {
            TieBreakers::StraightFlush(r) => seq![rank_value(r)],
            TieBreakers::FourOfAKind(v) => rank_values(v@),
            TieBreakers::FullHouse(v) => rank_values(v@),
            TieBreakers::Flush(v) => rank_values(v@),
            TieBreakers::Straight(r) => seq![rank_value(r)],
            TieBreakers::ThreeOfAKind(v) => rank_values(v@),
            TieBreakers::TwoPair(v) => rank_values(v@),
            TieBreakers::Pair(v) => rank_values(v@),
            TieBreakers::HighCard(v) => rank_values(v@),
        }
    }

    /// Which category the variant belongs to.
    pub open spec fn kind_value(self) -> int {
        match self {
            TieBreakers::StraightFlush(_) => 8,
            TieBreakers::FourOfAKind(_) => 7,
            TieBreakers::FullHouse(_) => 6,
            TieBreakers::Flush(_) => 5,
            TieBreakers::Straight(_) => 4,
            TieBreakers::ThreeOfAKind(_) => 3,
            TieBreakers::TwoPair(_) => 2,
            TieBreakers::Pair(_) => 1,
            TieBreakers::HighCard(_) => 0,
        }
    }

    /// Compares two keys of the same category lexicographically; keys of
    /// different categories do not compare.
    pub fn partial_cmp(&self, other: &TieBreakers) -> (o: Option<core::cmp::Ordering>)
        ensures
            self.kind_value() == other.kind_value() ==> o == Some(lex_cmp(self.key(), other.key())),
            self.kind_value() != other.kind_value() ==> o is None,
    {
        match (self, other) {
            (TieBreakers::StraightFlush(a), TieBreakers::StraightFlush(b)) => Some(
                cmp_single(a, b),
            ),
            (TieBreakers::Straight(a), TieBreakers::Straight(b)) => Some(cmp_single(a, b)),
            (TieBreakers::FourOfAKind(a), TieBreakers::FourOfAKind(b)) => Some(cmp_rank_vecs(a, b)),
            (TieBreakers::FullHouse(a), TieBreakers::FullHouse(b)) => Some(cmp_rank_vecs(a, b)),
            (TieBreakers::Flush(a), TieBreakers::Flush(b)) => Some(cmp_rank_vecs(a, b)),
            (TieBreakers::ThreeOfAKind(a), TieBreakers::ThreeOfAKind(b)) => Some(
                cmp_rank_vecs(a, b),
            ),
            (TieBreakers::TwoPair(a), TieBreakers::TwoPair(b)) => Some(cmp_rank_vecs(a, b)),
            (TieBreakers::Pair(a), TieBreakers::Pair(b)) => Some(cmp_rank_vecs(a, b)),
            (TieBreakers::HighCard(a), TieBreakers::HighCard(b)) => Some(cmp_rank_vecs(a, b)),
            _ => None,
        }
    }
}

fn cmp_single(a: &CardRank, b: &CardRank) -> (o: core::cmp::Ordering)
    ensures
        o == lex_cmp(seq![rank_value(*a)], seq![rank_value(*b)]),
{
    let o = a.cmp(b);
    proof {
        let sa = seq![rank_value(*a)];
        let sb = seq![rank_value(*b)];
        assert(sa.drop_first() =~= Seq::<int>::empty());
        assert(sb.drop_first() =~= Seq::<int>::empty());
        assert(sa[0] == rank_value(*a));
        assert(sb[0] == rank_value(*b));
        if rank_value(*a) == rank_value(*b) {
            assert(lex_cmp(Seq::<int>::empty(), Seq::<int>::empty()) == core::cmp::Ordering::Equal);
            assert(lex_cmp(sa, sb) == core::cmp::Ordering::Equal);
        }
    }
    o
}

/// Skipping an agreeing prefix does not change the comparison.
proof fn lemma_lex_skip(a: Seq<int>, b: Seq<int>, i: int)
    requires
        0 <= i <= a.len(),
        i <= b.len(),
        forall|j: int| 0 <= j < i ==> a[j] == b[j],
    ensures
        lex_cmp(a, b) == lex_cmp(a.skip(i), b.skip(i)),
    decreases i,
{
    if i == 0 {
        assert(a.skip(0) =~= a);
        assert(b.skip(0) =~= b);
    } else {
        assert(a.len() > 0 && b.len() > 0 && a[0] == b[0]);
        lemma_lex_skip(a.drop_first(), b.drop_first(), i - 1);
        assert(a.drop_first().skip(i - 1) =~= a.skip(i));
        assert(b.drop_first().skip(i - 1) =~= b.skip(i));
    }
}

fn cmp_rank_vecs(a: &Vec<CardRank>, b: &Vec<CardRank>) -> (o: core::cmp::Ordering)
    ensures
        o == lex_cmp(rank_values(a@), rank_values(b@)),
{
    let ga = Ghost(rank_values(a@));
    let gb = Ghost(rank_values(b@));
    let mut i: usize = 0;
    while i < a.len() && i < b.len()
        invariant
            ga@ == rank_values(a@),
            gb@ == rank_values(b@),
            ga@.len() == a@.len(),
            gb@.len() == b@.len(),
            0 <= i <= a.len(),
            i <= b.len(),
            forall|j: int| 0 <= j < i ==> ga@[j] == gb@[j],
        decreases a.len() - i,
    {
        let va = a[i].value();
        let vb = b[i].value();
        proof {
            lemma_lex_skip(ga@, gb@, i as int);
        }
        if va < vb {
            proof {
                assert(ga@.skip(i as int)[0] == va as int);
                assert(gb@.skip(i as int)[0] == vb as int);
            }
            return core::cmp::Ordering::Less;
        }
        if va > vb {
            proof {
                assert(ga@.skip(i as int)[0] == va as int);
                assert(gb@.skip(i as int)[0] == vb as int);
            }
            return core::cmp::Ordering::Greater;
        }
        proof {
            assert(ga@[i as int] == gb@[i as int]);
        }
        i = i + 1;
    }
    proof {
        lemma_lex_skip(ga@, gb@, i as int);
    }
    if a.len() == b.len() {
        proof {
            assert(ga@.skip(i as int) =~= Seq::<int>::empty());
            assert(gb@.skip(i as int) =~= Seq::<int>::empty());
        }
        core::cmp::Ordering::Equal
    } else if a.len() < b.len() {
        proof {
            assert(ga@.skip(i as int) =~= Seq::<int>::empty());
            assert(gb@.skip(i as int).len() > 0);
        }
        core::cmp::Ordering::Less
    } else {
        proof {
            assert(gb@.skip(i as int) =~= Seq::<int>::empty());
            assert(ga@.skip(i as int).len() > 0);
        }
        core::cmp::Ordering::Greater
    }
}

/// `max_val` over a prefix, extended by one entry.
proof fn lemma_max_take_step(rs: Seq<int>, i: int)
    requires
        1 <= i < rs.len(),
    ensures
        max_val(rs.take(i + 1)) == if rs[i] > max_val(rs.take(i)) {
            rs[i]
        } else {
            max_val(rs.take(i))
        },
{
    assert(rs.take(i + 1).drop_last() =~= rs.take(i));
    assert(rs.take(i + 1).last() == rs[i]);
    assert(rs.take(i + 1).len() == i + 1);
}

/// Top card of a straight: the five of a wheel, otherwise the highest card.
pub(crate) fn straight_top_exec(cards: &[Card; 5]) -> (r: CardRank)
    ensures
        rank_value(r) == straight_top(ranks_of(cards@)),
{
    if crate::hand_rank::is_wheel_exec(cards) {
        return CardRank::Five;
    }
    let rs = Ghost(ranks_of(cards@));
    let mut best = cards[0].rank;
    proof {
        assert(rs@.take(1).len() == 1);
        assert(rs@.take(1)[0] == rs@[0]);
    }
    let mut i: usize = 1;
    while i < 5
        invariant
            1 <= i <= 5,
            rs@ == ranks_of(cards@),
            rs@.len() == 5,
            rank_value(best) == max_val(rs@.take(i as int)),
        decreases 5 - i,
    {
        proof {
            lemma_max_take_step(rs@, i as int);
        }
        if cards[i].rank.value() > best.value() {
            best = cards[i].rank;
        }
        i = i + 1;
    }
    proof {
        assert(rs@.take(5) =~= rs@);
    }
    best
}

fn rank_from_value(v: u8) -> (r: CardRank)
    requires
        2 <= v <= 14,
    ensures
        rank_value(r) == v as int,
{
    if v == 2 {
        CardRank::Two
    } else if v == 3 {
        CardRank::Three
    } else if v == 4 {
        CardRank::Four
    } else if v == 5 {
        CardRank::Five
    } else if v == 6 {
        CardRank::Six
    } else if v == 7 {
        CardRank::Seven
    } else if v == 8 {
        CardRank::Eight
    } else if v == 9 {
        CardRank::Nine
    } else if v == 10 {
        CardRank::Ten
    } else if v == 11 {
        CardRank::Jack
    } else if v == 12 {
        CardRank::Queen
    } else if v == 13 {
        CardRank::King
    } else {
        CardRank::Ace
    }
}

/// Builds the distinct ranks of the hand, sorted by count and then rank,
/// both descending.
pub(crate) fn compute_group_key(cards: &[Card; 5]) -> (key: Vec<CardRank>)
    ensures
        rank_values(key@) =~= group_key(ranks_of(cards@)),
{
    let rs = Ghost(ranks_of(cards@));
    proof {
        assert forall|w: int| cnt(rs@, w) <= 5 by {
            lemma_cnt_le_len(rs@, w);
        }
    }
    let mut key: Vec<CardRank> = Vec::new();
    let mut c: u8 = 5;
    while c >= 1
        invariant
            0 <= c <= 5,
            rs@ == ranks_of(cards@),
            forall|a: int, b: int|
                0 <= a < b < key@.len() ==> tb_before(
                    rs@,
                    rank_values(key@)[a],
                    rank_values(key@)[b],
                ),
            forall|i: int|
                0 <= i < key@.len() ==> cnt(rs@, #[trigger] rank_values(key@)[i]) > c,
            forall|w: int|
                2 <= w <= 14 && cnt(rs@, w) > c ==> rank_values(key@).contains(w),
        decreases c,
    {
        let gc = Ghost(c as int);
        let mut v: u8 = 14;
        while v >= 2
            invariant
                1 <= c <= 5,
                1 <= v <= 14,
                gc@ == c as int,
                rs@ == ranks_of(cards@),
                forall|a: int, b: int|
                    0 <= a < b < key@.len() ==> tb_before(
                        rs@,
                        rank_values(key@)[a],
                        rank_values(key@)[b],
                    ),
                forall|i: int|
                    0 <= i < key@.len() ==> cnt(rs@, #[trigger] rank_values(key@)[i]) > c || (cnt(
                        rs@,
                        rank_values(key@)[i],
                    ) == c && rank_values(key@)[i] > v),
                forall|w: int|
                    2 <= w <= 14 && (cnt(rs@, w) > c || (cnt(rs@, w) == c && w > v))
                        ==> rank_values(key@).contains(w),
            decreases v,
        {
            if crate::hand_rank::cnt_of(cards, v) == c {
                let gkey0 = Ghost(rank_values(key@));
                let r = rank_from_value(v);
                key.push(r);
                proof {
                    assert(key@.drop_last() =~= key@.take(key@.len() - 1));
                    assert(rank_values(key@) =~= gkey0@.push(v as int));
                    assert forall|w: int|
                        2 <= w <= 14 && (cnt(rs@, w) > gc@ || (cnt(rs@, w) == gc@ && w >= v
                            as int)) implies rank_values(key@).contains(w) by {
                        if w == v as int {
                            assert(rank_values(key@)[rank_values(key@).len() - 1] == w);
                        } else {
                            assert(gkey0@.contains(w));
                            let i = choose|i: int| 0 <= i < gkey0@.len() && gkey0@[i] == w;
                            assert(rank_values(key@)[i] == w);
                        }
                    }
                }
            }
            v = v - 1;
        }
        proof {
            // after scanning all values for this count, everything with a
            // strictly greater-or-equal count is already listed
            assert forall|w: int| 2 <= w <= 14 && cnt(rs@, w) > gc@ - 1 implies rank_values(
                key@,
            ).contains(w) by {
                assert(cnt(rs@, w) > gc@ || (cnt(rs@, w) == gc@ && w > 1));
            }
            assert forall|i: int| 0 <= i < key@.len() implies cnt(
                rs@,
                #[trigger] rank_values(key@)[i],
            ) > gc@ - 1 by {
                assert(rank_values(key@)[i] == rank_value(key@[i]));
                assert(rank_values(key@)[i] >= 2);
            }
        }
        c = c - 1;
    }
    proof {
        let t = rank_values(key@);
        assert forall|i: int| 0 <= i < t.len() implies rank_set(rs@).contains(#[trigger] t[i]) by {
            assert(cnt(rs@, t[i]) > 0);
        }
        assert forall|w: int| #[trigger] rank_set(rs@).contains(w) implies t.contains(w) by {
            assert(cnt(rs@, w) > 0);
            lemma_cnt_pos_contains(rs@, w);
            lemma_ranks_bounded(cards@);
            assert(2 <= w <= 14);
        }
        assert(is_group_seq(rs@, rank_set(rs@), t));
        lemma_group_key_agrees(rs@, t);
    }
    key
}

/// The tie-break key of a hand: nothing for a royal flush, the top card for
/// straights, otherwise the distinct ranks by count and rank descending.
pub open spec fn spec_tie_key(cards: Seq<Card>) -> Seq<int> {
    let rs = ranks_of(cards);
    let cat = crate::hand_rank::spec_category(cards);
    if cat == crate::hand_rank::HandRank::RoyalFlush {
        seq![]
    } else if cat == crate::hand_rank::HandRank::StraightFlush || cat
        == crate::hand_rank::HandRank::Straight {
        seq![straight_top(rs)]
    } else {
        group_key(rs)
    }
}

} // verus!
