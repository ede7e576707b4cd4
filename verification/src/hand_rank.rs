//! Hand categories and the classifier for five-card hands.
//!
//! The category of a hand is decided top-down, first match wins: royal flush,
//! straight flush, four of a kind, full house, flush, straight, three of a
//! kind, two pair, pair, high card. An ace may sit at the top of a straight
//! or at the bottom of the wheel (`A 2 3 4 5`), never in the middle.
use vstd::prelude::*;

use crate::card::{Card, rank_value};

verus! {

#[derive(Clone, Copy, PartialEq, Eq, Structural, Debug)]
pub enum HandRank {
    RoyalFlush,
    StraightFlush,
    FourOfAKind,
    FullHouse,
    Flush,
    Straight,
    ThreeOfAKind,
    TwoPair,
    Pair,
    HighCard,
}

#[derive(Clone, Copy, PartialEq, Eq, Structural, Debug)]
pub enum HandParseError {
    InvalidCards,
    InvalidLength(usize),
}

/// Strength of a category: higher beats lower.
pub open spec fn category_value(r: HandRank) -> int {
    match r {
        HandRank::HighCard => 0,
        HandRank::Pair => 1,
        HandRank::TwoPair => 2,
        HandRank::ThreeOfAKind => 3,
        HandRank::Straight => 4,
        HandRank::Flush => 5,
        HandRank::FullHouse => 6,
        HandRank::FourOfAKind => 7,
        HandRank::StraightFlush => 8,
        HandRank::RoyalFlush => 9,
    }
}

/// The rank values of a sequence of cards, in card order.
pub open spec fn ranks_of(cards: Seq<Card>) -> Seq<int> {
    cards.map_values(|c: Card| rank_value(c.rank))
}

pub open spec fn b2i(b: bool) -> int {
    if b {
        1
    } else {
        0
    }
}

/// How many entries of `rs` equal `v`.
pub open spec fn cnt(rs: Seq<int>, v: int) -> int
    decreases rs.len(),
{
    if rs.len() == 0 {
        0
    } else {
        cnt(rs.drop_last(), v) + b2i(rs.last() == v)
    }
}

/// Two cards of the same rank and suit appear in the sequence.
pub open spec fn has_dupes(cards: Seq<Card>) -> bool {
    exists|i: int, j: int| 0 <= i < j < cards.len() && cards[i] == cards[j]
}

/// All cards share one suit.
pub open spec fn is_flush(cards: Seq<Card>) -> bool {
    forall|i: int| 0 <= i < cards.len() ==> #[trigger] cards[i].suit == cards[0].suit
}

/// The ranks are exactly the run `lo .. lo + 4`, one card each.
pub open spec fn straight_at(rs: Seq<int>, lo: int) -> bool {
    &&& cnt(rs, lo) == 1
    &&& cnt(rs, lo + 1) == 1
    &&& cnt(rs, lo + 2) == 1
    &&& cnt(rs, lo + 3) == 1
    &&& cnt(rs, lo + 4) == 1
}

/// The wheel: ace playing low under `2 3 4 5`.
pub open spec fn is_wheel(rs: Seq<int>) -> bool {
    &&& cnt(rs, 14) == 1
    &&& cnt(rs, 2) == 1
    &&& cnt(rs, 3) == 1
    &&& cnt(rs, 4) == 1
    &&& cnt(rs, 5) == 1
}

/// Five consecutive ranks, the ace counting high or low.
pub open spec fn is_straight(rs: Seq<int>) -> bool {
    is_wheel(rs) || exists|lo: int| 2 <= lo <= 10 && #[trigger] straight_at(rs, lo)
}

/// Some rank occurs exactly `n` times.
pub open spec fn has_n_of_a_kind(rs: Seq<int>, n: int) -> bool {
    exists|v: int| #[trigger] cnt(rs, v) == n
}

/// Number of distinct ranks below `v` that occur exactly twice.
pub open spec fn num_pairs_below(rs: Seq<int>, v: int) -> int
    decreases v,
{
    if v <= 2 {
        0
    } else {
        num_pairs_below(rs, v - 1) + b2i(cnt(rs, v - 1) == 2)
    }
}

/// Number of distinct ranks occurring exactly twice.
pub open spec fn num_pairs(rs: Seq<int>) -> int {
    num_pairs_below(rs, 15)
}

/// The classification rules of the design, evaluated top-down.
pub open spec fn spec_category(cards: Seq<Card>) -> HandRank
    recommends
        cards.len() == 5,
{
    let rs = ranks_of(cards);
    if is_flush(cards) && straight_at(rs, 10) {
        HandRank::RoyalFlush
    } else if is_flush(cards) && is_straight(rs) {
        HandRank::StraightFlush
    } else if has_n_of_a_kind(rs, 4) {
        HandRank::FourOfAKind
    } else if has_n_of_a_kind(rs, 3) && has_n_of_a_kind(rs, 2) {
        HandRank::FullHouse
    } else if is_flush(cards) {
        HandRank::Flush
    } else if is_straight(rs) {
        HandRank::Straight
    } else if has_n_of_a_kind(rs, 3) {
        HandRank::ThreeOfAKind
    } else if num_pairs(rs) == 2 {
        HandRank::TwoPair
    } else if num_pairs(rs) == 1 {
        HandRank::Pair
    } else {
        HandRank::HighCard
    }
}

/// A count over a prefix grows by one exactly when the next entry matches.
proof fn lemma_cnt_take_step(rs: Seq<int>, i: int, v: int)
    requires
        0 <= i < rs.len(),
    ensures
        cnt(rs.take(i + 1), v) == cnt(rs.take(i), v) + b2i(rs[i] == v),
{
    assert(rs.take(i + 1).drop_last() =~= rs.take(i));
    assert(rs.take(i + 1).last() == rs[i]);
}

/// A rank with a positive count occurs in the sequence.
pub proof fn lemma_cnt_pos_contains(rs: Seq<int>, v: int)
    requires
        cnt(rs, v) > 0,
    ensures
        exists|i: int| 0 <= i < rs.len() && rs[i] == v,
    decreases rs.len(),
{
    if rs.len() > 0 {
        if rs.last() == v {
            assert(rs[rs.len() - 1] == v);
        } else {
            lemma_cnt_pos_contains(rs.drop_last(), v);
            let i = choose|i: int| 0 <= i < rs.drop_last().len() && rs.drop_last()[i] == v;
            assert(rs[i] == v);
        }
    }
}

/// Every rank value of a card lies between 2 and 14.
pub proof fn lemma_ranks_bounded(cards: Seq<Card>)
    ensures
        forall|i: int|
            0 <= i < cards.len() ==> 2 <= #[trigger] ranks_of(cards)[i] && ranks_of(cards)[i]
                <= 14,
{
}

/// Counts never exceed the length of the sequence.
pub proof fn lemma_cnt_le_len(rs: Seq<int>, v: int)
    ensures
        0 <= cnt(rs, v) <= rs.len(),
    decreases rs.len(),
{
    if rs.len() > 0 {
        lemma_cnt_le_len(rs.drop_last(), v);
    }
}

fn rank_val_at(cards: &[Card; 5], i: usize) -> (v: u8)
    requires
        i < 5,
    ensures
        v as int == ranks_of(cards@)[i as int],
{
    cards[i].rank.value()
}

/// Counts how many of the five cards have rank value `v`.
pub(crate) fn cnt_of(cards: &[Card; 5], v: u8) -> (c: u8)
    ensures
        c as int == cnt(ranks_of(cards@), v as int),
{
    let rs = Ghost(ranks_of(cards@));
    let mut c: u8 = 0;
    let mut i: usize = 0;
    while i < 5
        invariant
            0 <= i <= 5,
            rs@ == ranks_of(cards@),
            rs@.len() == 5,
            c as int == cnt(rs@.take(i as int), v as int),
            c <= i,
        decreases 5 - i,
    {
        proof {
            lemma_cnt_take_step(rs@, i as int, v as int);
        }
        if rank_val_at(cards, i) == v {
            c = c + 1;
        }
        i = i + 1;
    }
    proof {
        assert(rs@.take(5) =~= rs@);
    }
    c
}

fn has_dupes_exec(cards: &[Card; 5]) -> (r: bool)
    ensures
        r == has_dupes(cards@),
{
    let mut i: usize = 0;
    while i < 5
        invariant
            0 <= i <= 5,
            forall|a: int, b: int| 0 <= a < b < 5 && a < i ==> cards@[a] != cards@[b],
        decreases 5 - i,
    {
        let mut j: usize = i + 1;
        while j < 5
            invariant
                0 <= i < 5,
                i < j <= 5,
                forall|a: int, b: int| 0 <= a < b < 5 && a < i ==> cards@[a] != cards@[b],
                forall|b: int| (i as int) < b < j ==> cards@[i as int] != cards@[b],
            decreases 5 - j,
        {
            if cards[i] == cards[j] {
                return true;
            }
            j = j + 1;
        }
        i = i + 1;
    }
    false
}

fn is_flush_exec(cards: &[Card; 5]) -> (r: bool)
    ensures
        r == is_flush(cards@),
{
    let s0 = cards[0].suit;
    let r = cards[1].suit == s0 && cards[2].suit == s0 && cards[3].suit == s0 && cards[4].suit
        == s0;
    proof {
        if r {
            assert forall|i: int| 0 <= i < 5 implies #[trigger] cards@[i].suit
                == cards@[0].suit by {}
        }
    }
    r
}

fn straight_at_exec(cards: &[Card; 5], lo: u8) -> (r: bool)
    requires
        2 <= lo <= 10,
    ensures
        r == straight_at(ranks_of(cards@), lo as int),
{
    cnt_of(cards, lo) == 1 && cnt_of(cards, lo + 1) == 1 && cnt_of(cards, lo + 2) == 1 && cnt_of(
        cards,
        lo + 3,
    ) == 1 && cnt_of(cards, lo + 4) == 1
}

pub(crate) fn is_wheel_exec(cards: &[Card; 5]) -> (r: bool)
    ensures
        r == is_wheel(ranks_of(cards@)),
{
    cnt_of(cards, 14) == 1 && cnt_of(cards, 2) == 1 && cnt_of(cards, 3) == 1 && cnt_of(cards, 4)
        == 1 && cnt_of(cards, 5) == 1
}

fn is_straight_exec(cards: &[Card; 5]) -> (r: bool)
    ensures
        r == is_straight(ranks_of(cards@)),
{
    if is_wheel_exec(cards) {
        return true;
    }
    let mut lo: u8 = 2;
    while lo <= 10
        invariant
            2 <= lo <= 11,
            forall|l: int| 2 <= l < lo ==> !straight_at(ranks_of(cards@), l),
        decreases 11 - lo,
    {
        if straight_at_exec(cards, lo) {
            return true;
        }
        lo = lo + 1;
    }
    false
}

fn has_n_exec(cards: &[Card; 5], n: u8) -> (r: bool)
    requires
        1 <= n <= 5,
    ensures
        r == has_n_of_a_kind(ranks_of(cards@), n as int),
{
    let mut v: u8 = 2;
    while v <= 14
        invariant
            2 <= v <= 15,
            1 <= n <= 5,
            forall|w: int| 2 <= w < v ==> cnt(ranks_of(cards@), w) != n,
        decreases 15 - v,
    {
        if cnt_of(cards, v) == n {
            return true;
        }
        v = v + 1;
    }
    proof {
        lemma_ranks_bounded(cards@);
        assert forall|w: int| cnt(ranks_of(cards@), w) != n as int by {
            if cnt(ranks_of(cards@), w) == n as int {
                lemma_cnt_pos_contains(ranks_of(cards@), w);
            }
        }
    }
    false
}

fn num_pairs_exec(cards: &[Card; 5]) -> (p: u8)
    ensures
        p as int == num_pairs(ranks_of(cards@)),
{
    let mut p: u8 = 0;
    let mut v: u8 = 2;
    while v <= 14
        invariant
            2 <= v <= 15,
            p as int == num_pairs_below(ranks_of(cards@), v as int),
            p < v,
        decreases 15 - v,
    {
        if cnt_of(cards, v) == 2 {
            p = p + 1;
        }
        v = v + 1;
    }
    p
}

/// Classifies five distinct-or-not cards into their category; duplicate
/// detection is the caller's business.
pub(crate) fn classify(cards: &[Card; 5]) -> (r: HandRank)
    ensures
        r == spec_category(cards@),
{
    let flush = is_flush_exec(cards);
    let straight = is_straight_exec(cards);
    if flush && straight_at_exec(cards, 10) {
        HandRank::RoyalFlush
    } else if flush && straight {
        HandRank::StraightFlush
    } else if has_n_exec(cards, 4) {
        HandRank::FourOfAKind
    } else if has_n_exec(cards, 3) && has_n_exec(cards, 2) {
        HandRank::FullHouse
    } else if flush {
        HandRank::Flush
    } else if straight {
        HandRank::Straight
    } else if has_n_exec(cards, 3) {
        HandRank::ThreeOfAKind
    } else {
        let p = num_pairs_exec(cards);
        if p == 2 {
            HandRank::TwoPair
        } else if p == 1 {
            HandRank::Pair
        } else {
            HandRank::HighCard
        }
    }
}

impl HandRank {
    /// Classifies a five-card array, rejecting hands with duplicate cards.
    pub fn try_from(cards: [Card; 5]) -> (r: Result<HandRank, HandParseError>)
        ensures
            has_dupes(cards@) ==> r == Err::<HandRank, HandParseError>(
                HandParseError::InvalidCards,
            ),
            !has_dupes(cards@) ==> r == Ok::<HandRank, HandParseError>(spec_category(cards@)),
    {
        if has_dupes_exec(&cards) {
            return Err(HandParseError::InvalidCards);
        }
        Ok(classify(&cards))
    }

    /// Three-way comparison by category strength alone.
    pub fn cmp(&self, other: &HandRank) -> (o: core::cmp::Ordering)
        ensures
            o == crate::card::int_cmp(category_value(*self), category_value(*other)),
    {
        let a = self.value();
        let b = other.value();
        if a < b {
            core::cmp::Ordering::Less
        } else if a == b {
            core::cmp::Ordering::Equal
        } else {
            core::cmp::Ordering::Greater
        }
    }

    /// Strength of the category as a number, royal flush highest.
    pub fn value(&self) -> (v: u8)
        ensures
            v as int == category_value(*self),
    {
        match self {
            HandRank::HighCard => 0,
            HandRank::Pair => 1,
            HandRank::TwoPair => 2,
            HandRank::ThreeOfAKind => 3,
            HandRank::Straight => 4,
            HandRank::Flush => 5,
            HandRank::FullHouse => 6,
            HandRank::FourOfAKind => 7,
            HandRank::StraightFlush => 8,
            HandRank::RoyalFlush => 9,
        }
    }
}

} // verus!
