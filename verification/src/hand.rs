//! A five-card hand with its cached category and tie-break key, and the
//! total order over hands that decides showdowns.
use vstd::prelude::*;

use crate::card::{Card, card_code, rank_value};
use crate::hand_rank::{
    HandRank, HandParseError, category_value, spec_category, has_dupes, ranks_of, classify,
};
use crate::tie_breakers::{
    TieBreakers, lex_cmp, spec_tie_key, straight_top, group_key, compute_group_key,
    straight_top_exec, lemma_lex_cmp_flip, lemma_lex_cmp_eq, lemma_lex_cmp_trans_le,
};

verus! {

/// Which tie-break variant a category uses; the royal flush (category value
/// 9) carries none.
pub open spec fn tie_kind_of(cat: HandRank) -> int {
    match cat {
        HandRank::RoyalFlush => 9,
        HandRank::StraightFlush => 8,
        HandRank::FourOfAKind => 7,
        HandRank::FullHouse => 6,
        HandRank::Flush => 5,
        HandRank::Straight => 4,
        HandRank::ThreeOfAKind => 3,
        HandRank::TwoPair => 2,
        HandRank::Pair => 1,
        HandRank::HighCard => 0,
    }
}

/// Canonical text of a five-card hand: card codes joined by single spaces.
pub open spec fn hand_code(cards: Seq<Card>) -> Seq<char>
    recommends
        cards.len() == 5,
{
    card_code(cards[0]) + seq![' '] + card_code(cards[1]) + seq![' '] + card_code(cards[2])
        + seq![' '] + card_code(cards[3]) + seq![' '] + card_code(cards[4])
}

/// A hand owns exactly five distinct cards and caches its category and
/// tie-break key; it is immutable once constructed.
#[derive(Clone, Debug)]
pub struct Hand {
    /// Canonical text of the hand, e.g. `AD KD QD JD 10D`.
    pub raw_hand_str: String,
    pub cards: [Card; 5],
    pub rank: HandRank,
    /// `None` exactly for a royal flush, which has no tie to break.
    pub tie_breakers: Option<TieBreakers>,
}

impl Hand {
    /// The cached fields agree with the cards.
    pub open spec fn wf(self) -> bool {
        &&& !has_dupes(self.cards@)
        &&& self.rank == spec_category(self.cards@)
        &&& match self.tie_breakers {
            None => self.rank == HandRank::RoyalFlush,
            Some(tb) => tb.kind_value() == tie_kind_of(self.rank) && tb.key() == spec_tie_key(
                self.cards@,
            ),
        }
        &&& self.raw_hand_str@ == hand_code(self.cards@)
    }

    /// Canonical text of five cards, space separated.
    pub fn cards_to_string(cards: &[Card; 5]) -> (s: String)
        ensures
            s@ == hand_code(cards@),
    {
        proof {
            reveal_strlit(" ");
        }
        let mut s = cards[0].to_code();
        s.append(" ");
        s.append(cards[1].to_code().as_str());
        s.append(" ");
        s.append(cards[2].to_code().as_str());
        s.append(" ");
        s.append(cards[3].to_code().as_str());
        s.append(" ");
        s.append(cards[4].to_code().as_str());
        proof {
            assert(s@ =~= hand_code(cards@));
        }
        s
    }

    /// Builds a hand from five cards, classifying it and computing its
    /// tie-break key; rejects duplicate cards.
    pub fn from_cards(cards: [Card; 5]) -> (r: Result<Hand, HandParseError>)
        ensures
            has_dupes(cards@) ==> r == Err::<Hand, HandParseError>(HandParseError::InvalidCards),
            !has_dupes(cards@) ==> (r matches Ok(h) && h.cards@ == cards@ && h.wf()),
    {
        let rank = match HandRank::try_from(cards) {
            Ok(r) => r,
            Err(e) => {
                return Err(e);
            },
        };
        let tie_breakers: Option<TieBreakers> = match rank {
            HandRank::RoyalFlush => None,
            HandRank::StraightFlush => Some(TieBreakers::StraightFlush(straight_top_exec(&cards))),
            HandRank::Straight => Some(TieBreakers::Straight(straight_top_exec(&cards))),
            HandRank::FourOfAKind => Some(TieBreakers::FourOfAKind(compute_group_key(&cards))),
            HandRank::FullHouse => Some(TieBreakers::FullHouse(compute_group_key(&cards))),
            HandRank::Flush => Some(TieBreakers::Flush(compute_group_key(&cards))),
            HandRank::ThreeOfAKind => Some(TieBreakers::ThreeOfAKind(compute_group_key(&cards))),
            HandRank::TwoPair => Some(TieBreakers::TwoPair(compute_group_key(&cards))),
            HandRank::Pair => Some(TieBreakers::Pair(compute_group_key(&cards))),
            HandRank::HighCard => Some(TieBreakers::HighCard(compute_group_key(&cards))),
        };
        let raw_hand_str = Hand::cards_to_string(&cards);
        Ok(Hand { raw_hand_str, cards, rank, tie_breakers })
    }

    /// An equal copy; `Hand` is not `Copy` because it owns its text.
    pub fn duplicate(&self) -> (h: Hand)
        ensures
            h.cards@ == self.cards@,
            h.rank == self.rank,
            h.raw_hand_str@ == self.raw_hand_str@,
            h.tie_view() == self.tie_view(),
            self.wf() ==> h.wf(),
    {
        let tie_breakers = match &self.tie_breakers {
            None => None,
            Some(tb) => Some(dup_tie(tb)),
        };
        Hand {
            raw_hand_str: self.raw_hand_str.clone(),
            cards: self.cards,
            rank: self.rank,
            tie_breakers,
        }
    }

    /// Kind and key of the cached tie-breakers, if any.
    pub open spec fn tie_view(self) -> Option<(int, Seq<int>)> {
        match self.tie_breakers {
            None => None,
            Some(tb) => Some((tb.kind_value(), tb.key())),
        }
    }

    /// Three-way comparison: categories first, then the tie-break keys
    /// lexicographically; two royal flushes tie.
    pub fn cmp(&self, other: &Hand) -> (o: core::cmp::Ordering)
        requires
            self.wf(),
            other.wf(),
        ensures
            o == spec_hand_cmp(self.cards@, other.cards@),
    {
        let cv = self.rank.value();
        let co = other.rank.value();
        if cv < co {
            core::cmp::Ordering::Less
        } else if cv > co {
            core::cmp::Ordering::Greater
        } else {
            proof {
                lemma_category_value_injective(self.rank, other.rank);
            }
            match (&self.tie_breakers, &other.tie_breakers) {
                (None, None) => {
                    proof {
                        assert(spec_tie_key(self.cards@) =~= Seq::<int>::empty());
                        assert(spec_tie_key(other.cards@) =~= Seq::<int>::empty());
                        assert(lex_cmp(Seq::<int>::empty(), Seq::<int>::empty())
                            == core::cmp::Ordering::Equal);
                    }
                    core::cmp::Ordering::Equal
                },
                (Some(ta), Some(tb)) => {
                    match ta.partial_cmp(tb) {
                        Some(o) => o,
                        None => {
                            proof {
                                assert(false);
                            }
                            core::cmp::Ordering::Equal
                        },
                    }
                },
                (None, Some(_)) => {
                    proof {
                        assert(false);
                    }
                    core::cmp::Ordering::Equal
                },
                (Some(_), None) => {
                    proof {
                        assert(false);
                    }
                    core::cmp::Ordering::Equal
                },
            }
        }
    }
}

fn dup_ranks(v: &Vec<crate::card::CardRank>) -> (out: Vec<crate::card::CardRank>)
    ensures
        out@ == v@,
{
    let mut out: Vec<crate::card::CardRank> = Vec::new();
    let mut i: usize = 0;
    while i < v.len()
        invariant
            0 <= i <= v.len(),
            out@ == v@.take(i as int),
        decreases v.len() - i,
    {
        out.push(v[i]);
        proof {
            assert(v@.take(i + 1) =~= v@.take(i as int).push(v@[i as int]));
        }
        i = i + 1;
    }
    proof {
        assert(v@.take(v@.len() as int) =~= v@);
    }
    out
}

fn dup_tie(tb: &TieBreakers) -> (out: TieBreakers)
    ensures
        out.kind_value() == tb.kind_value(),
        out.key() == tb.key(),
{
    match tb {
        TieBreakers::StraightFlush(r) => TieBreakers::StraightFlush(*r),
        TieBreakers::FourOfAKind(v) => TieBreakers::FourOfAKind(dup_ranks(v)),
        TieBreakers::FullHouse(v) => TieBreakers::FullHouse(dup_ranks(v)),
        TieBreakers::Flush(v) => TieBreakers::Flush(dup_ranks(v)),
        TieBreakers::Straight(r) => TieBreakers::Straight(*r),
        TieBreakers::ThreeOfAKind(v) => TieBreakers::ThreeOfAKind(dup_ranks(v)),
        TieBreakers::TwoPair(v) => TieBreakers::TwoPair(dup_ranks(v)),
        TieBreakers::Pair(v) => TieBreakers::Pair(dup_ranks(v)),
        TieBreakers::HighCard(v) => TieBreakers::HighCard(dup_ranks(v)),
    }
}

/// Distinct categories have distinct strengths.
proof fn lemma_category_value_injective(a: HandRank, b: HandRank)
    ensures
        category_value(a) == category_value(b) ==> a == b,
{
}

/// The order on hands: category strength first, then the tie-break key
/// lexicographically.
pub open spec fn spec_hand_cmp(a: Seq<Card>, b: Seq<Card>) -> core::cmp::Ordering {
    let ca = category_value(spec_category(a));
    let cb = category_value(spec_category(b));
    if ca < cb {
        core::cmp::Ordering::Less
    } else if ca > cb {
        core::cmp::Ordering::Greater
    } else {
        lex_cmp(spec_tie_key(a), spec_tie_key(b))
    }
}

/// ASCII whitespace, the separators accepted between card codes.
pub open spec fn is_ws(c: char) -> bool {
    c == ' ' || c == '\t' || c == '\n' || c == '\r'
}

/// Index just past the token starting at `i`: the first position at or
/// after `i` holding whitespace, or the end.
pub open spec fn token_end(s: Seq<char>, i: int) -> int
    decreases s.len() - i,
{
    if i < 0 || i >= s.len() || is_ws(s[i]) {
        i
    } else {
        token_end(s, i + 1)
    }
}

pub proof fn lemma_token_end_bounds(s: Seq<char>, i: int)
    requires
        0 <= i <= s.len(),
    ensures
        i <= token_end(s, i) <= s.len(),
    decreases s.len() - i,
{
    if i < s.len() && !is_ws(s[i]) {
        lemma_token_end_bounds(s, i + 1);
    }
}

/// The whitespace-separated tokens of `s` from position `i` on.
pub open spec fn split_ws_from(s: Seq<char>, i: int) -> Seq<Seq<char>>
    decreases s.len() - i,
    via split_ws_from_dec
{
    if i < 0 || i >= s.len() {
        seq![]
    } else if is_ws(s[i]) {
        split_ws_from(s, i + 1)
    } else {
        seq![s.subrange(i, token_end(s, i))] + split_ws_from(s, token_end(s, i))
    }
}

#[via_fn]
proof fn split_ws_from_dec(s: Seq<char>, i: int) {
    if 0 <= i < s.len() && !is_ws(s[i]) {
        lemma_token_end_bounds(s, i + 1);
    }
}

/// The whitespace-separated tokens of `s`.
pub open spec fn split_ws(s: Seq<char>) -> Seq<Seq<char>> {
    split_ws_from(s, 0)
}

fn is_ws_exec(c: char) -> (r: bool)
    ensures
        r == is_ws(c),
{
    c == ' ' || c == '\t' || c == '\n' || c == '\r'
}

fn chars_of(s: &str) -> (v: Vec<char>)
    ensures
        v@ == s@,
{
    let n = s.unicode_len();
    let mut v: Vec<char> = Vec::new();
    let mut i: usize = 0;
    while i < n
        invariant
            n == s@.len(),
            0 <= i <= n,
            v@ == s@.take(i as int),
        decreases n - i,
    {
        v.push(s.get_char(i));
        proof {
            assert(s@.take(i + 1) =~= s@.take(i as int).push(s@[i as int]));
        }
        i = i + 1;
    }
    proof {
        assert(s@.take(n as int) =~= s@);
    }
    v
}

fn ws_at(v: &Vec<char>, i: usize) -> (r: bool)
    requires
        i < v@.len(),
    ensures
        r == is_ws(v@[i as int]),
{
    is_ws_exec(v[i])
}

/// The view of each token, in order.
pub open spec fn token_views(tokens: Seq<String>) -> Seq<Seq<char>> {
    tokens.map_values(|t: String| t@)
}

/// Splits a string at whitespace, dropping empty pieces.
fn split_tokens(s: &str) -> (tokens: Vec<String>)
    ensures
        token_views(tokens@) == split_ws(s@),
{
    let n = s.unicode_len();
    let chars = chars_of(s);
    let mut tokens: Vec<String> = Vec::new();
    let mut i: usize = 0;
    while i < n
        invariant
            n == s@.len(),
            chars@ == s@,
            0 <= i <= n,
            token_views(tokens@) + split_ws_from(s@, i as int) == split_ws(s@),
        decreases n - i,
    {
        if ws_at(&chars, i) {
            i = i + 1;
        } else {
            let start = i;
            i = i + 1;
            while i < n && !ws_at(&chars, i)
                invariant
                    n == s@.len(),
                    chars@ == s@,
                    start < i <= n,
                    token_end(s@, start as int) == token_end(s@, i as int),
                decreases n - i,
            {
                i = i + 1;
            }
            proof {
                assert(token_end(s@, i as int) == i as int);
                assert(token_end(s@, start as int) == i as int);
            }
            let tok = s.substring_char(start, i);
            let gtoks0 = Ghost(token_views(tokens@));
            tokens.push(tok.to_owned());
            proof {
                assert(token_views(tokens@) =~= gtoks0@.push(s@.subrange(
                    start as int,
                    i as int,
                )));
                assert(split_ws_from(s@, start as int) == seq![
                    s@.subrange(start as int, i as int),
                ] + split_ws_from(s@, i as int));
                assert(token_views(tokens@) + split_ws_from(s@, i as int) =~= gtoks0@ + (seq![
                    s@.subrange(start as int, i as int),
                ] + split_ws_from(s@, i as int)));
            }
        }
    }
    proof {
        assert(split_ws_from(s@, n as int) =~= Seq::<Seq<char>>::empty());
        assert(token_views(tokens@) + Seq::<Seq<char>>::empty() =~= token_views(tokens@));
    }
    tokens
}

/// Every token is a well-formed card code.
pub open spec fn tokens_ok(toks: Seq<Seq<char>>) -> bool {
    forall|i: int| 0 <= i < toks.len() ==> crate::card::spec_parse_card(#[trigger] toks[i]) is Ok
}

/// The cards named by the tokens, assuming all parse.
pub open spec fn parsed_cards(toks: Seq<Seq<char>>) -> Seq<Card> {
    toks.map_values(|t: Seq<char>| crate::card::spec_parse_card(t)->Ok_0)
}

/// What parsing a hand string yields: exactly five tokens, each a card
/// code, naming five distinct cards.
pub open spec fn spec_parse_hand(s: Seq<char>) -> Result<Seq<Card>, HandParseError> {
    let toks = split_ws(s);
    if toks.len() != 5 {
        Err(HandParseError::InvalidLength(toks.len() as usize))
    } else if !tokens_ok(toks) {
        Err(HandParseError::InvalidCards)
    } else if has_dupes(parsed_cards(toks)) {
        Err(HandParseError::InvalidCards)
    } else {
        Ok(parsed_cards(toks))
    }
}

impl Hand {
    /// Parses a whitespace-separated hand string such as `AS KS QS JS 10S`.
    pub fn try_from(value: &str) -> (r: Result<Hand, HandParseError>)
        ensures
            spec_parse_hand(value@) is Err ==> (r is Err && r->Err_0 == spec_parse_hand(
                value@,
            )->Err_0),
            spec_parse_hand(value@) is Ok ==> (r matches Ok(h) && h.cards@ == spec_parse_hand(
                value@,
            )->Ok_0 && h.wf()),
    {
        let toks = Ghost(split_ws(value@));
        let tokens = split_tokens(value);
        if tokens.len() != 5 {
            return Err(HandParseError::InvalidLength(tokens.len()));
        }
        let c0 = match Card::try_from(tokens[0].as_str()) {
            Ok(c) => c,
            Err(_) => {
                proof {
                    assert(toks@[0] == tokens@[0]@);
                    assert(!(crate::card::spec_parse_card(toks@[0]) is Ok));
                    assert(!tokens_ok(toks@));
                }
                return Err(HandParseError::InvalidCards);
            },
        };
        let c1 = match Card::try_from(tokens[1].as_str()) {
            Ok(c) => c,
            Err(_) => {
                proof {
                    assert(toks@[1] == tokens@[1]@);
                    assert(!(crate::card::spec_parse_card(toks@[1]) is Ok));
                    assert(!tokens_ok(toks@));
                }
                return Err(HandParseError::InvalidCards);
            },
        };
        let c2 = match Card::try_from(tokens[2].as_str()) {
            Ok(c) => c,
            Err(_) => {
                proof {
                    assert(toks@[2] == tokens@[2]@);
                    assert(!(crate::card::spec_parse_card(toks@[2]) is Ok));
                    assert(!tokens_ok(toks@));
                }
                return Err(HandParseError::InvalidCards);
            },
        };
        let c3 = match Card::try_from(tokens[3].as_str()) {
            Ok(c) => c,
            Err(_) => {
                proof {
                    assert(toks@[3] == tokens@[3]@);
                    assert(!(crate::card::spec_parse_card(toks@[3]) is Ok));
                    assert(!tokens_ok(toks@));
                }
                return Err(HandParseError::InvalidCards);
            },
        };
        let c4 = match Card::try_from(tokens[4].as_str()) {
            Ok(c) => c,
            Err(_) => {
                proof {
                    assert(toks@[4] == tokens@[4]@);
                    assert(!(crate::card::spec_parse_card(toks@[4]) is Ok));
                    assert(!tokens_ok(toks@));
                }
                return Err(HandParseError::InvalidCards);
            },
        };
        let cards: [Card; 5] = [c0, c1, c2, c3, c4];
        proof {
            assert(tokens@[0]@ == toks@[0]);
            assert(tokens@[1]@ == toks@[1]);
            assert(tokens@[2]@ == toks@[2]);
            assert(tokens@[3]@ == toks@[3]);
            assert(tokens@[4]@ == toks@[4]);
            assert(tokens_ok(toks@)) by {
                assert forall|i: int|
                    0 <= i < 5 implies crate::card::spec_parse_card(#[trigger] toks@[i]) is Ok by {
                    if i == 0 {
                    } else if i == 1 {
                    } else if i == 2 {
                    } else if i == 3 {
                    } else {
                        assert(i == 4);
                    }
                }
            }
            assert(cards@ =~= parsed_cards(toks@));
        }
        Hand::from_cards(cards)
    }
}

/// No hand in the list beats this one.
pub open spec fn beats_none(cs: Seq<Seq<Card>>, c: Seq<Card>) -> bool {
    forall|j: int|
        0 <= j < cs.len() ==> spec_hand_cmp(#[trigger] cs[j], c) != core::cmp::Ordering::Greater
}

pub open spec fn seq_has(w: Seq<Seq<Card>>, c: Seq<Card>) -> bool {
    exists|j: int| 0 <= j < w.len() && w[j] == c
}

/// The winners among the first `k` hands, in first-appearance order, each
/// listed once.
pub open spec fn winners_prefix(cs: Seq<Seq<Card>>, k: int) -> Seq<Seq<Card>>
    decreases k,
{
    if k <= 0 {
        seq![]
    } else {
        let w = winners_prefix(cs, k - 1);
        let c = cs[k - 1];
        if beats_none(cs, c) && !seq_has(w, c) {
            w.push(c)
        } else {
            w
        }
    }
}

/// The hands tying for the maximum, in first-appearance order, duplicates
/// (identical card sequences) listed once.
pub open spec fn spec_winners(cs: Seq<Seq<Card>>) -> Seq<Seq<Card>> {
    winners_prefix(cs, cs.len() as int)
}

pub open spec fn cards_views(hands: Seq<Hand>) -> Seq<Seq<Card>> {
    hands.map_values(|h: Hand| h.cards@)
}

fn cards_eq(a: &[Card; 5], b: &[Card; 5]) -> (r: bool)
    ensures
        r == (a@ == b@),
{
    let r = a[0] == b[0] && a[1] == b[1] && a[2] == b[2] && a[3] == b[3] && a[4] == b[4];
    proof {
        if r {
            assert(a@ =~= b@);
        }
        if a@ == b@ {
            assert(a@[0] == b@[0]);
            assert(a@[1] == b@[1]);
            assert(a@[2] == b@[2]);
            assert(a@[3] == b@[3]);
            assert(a@[4] == b@[4]);
        }
    }
    r
}

/// Returns the hands tying for the maximum under the hand order; the empty
/// input yields the empty output, and identical duplicates appear once.
pub fn determine_winners(hands: &Vec<Hand>) -> (winners: Vec<Hand>)
    requires
        forall|i: int| 0 <= i < hands@.len() ==> (#[trigger] hands@[i]).wf(),
    ensures
        cards_views(winners@) == spec_winners(cards_views(hands@)),
        forall|i: int| 0 <= i < winners@.len() ==> (#[trigger] winners@[i]).wf(),
{
    let gcs = Ghost(cards_views(hands@));
    let mut winners: Vec<Hand> = Vec::new();
    let mut i: usize = 0;
    while i < hands.len()
        invariant
            forall|l: int| 0 <= l < hands@.len() ==> (#[trigger] hands@[l]).wf(),
            gcs@ == cards_views(hands@),
            gcs@.len() == hands@.len(),
            0 <= i <= hands@.len(),
            cards_views(winners@) == winners_prefix(gcs@, i as int),
            forall|l: int| 0 <= l < winners@.len() ==> (#[trigger] winners@[l]).wf(),
        decreases hands@.len() - i,
    {
        let mut ok = true;
        let mut j: usize = 0;
        while j < hands.len()
            invariant
                forall|l: int| 0 <= l < hands@.len() ==> (#[trigger] hands@[l]).wf(),
                gcs@ == cards_views(hands@),
                gcs@.len() == hands@.len(),
                0 <= i < hands@.len(),
                0 <= j <= hands@.len(),
                ok <==> (forall|l: int|
                    0 <= l < j ==> spec_hand_cmp(#[trigger] gcs@[l], gcs@[i as int])
                        != core::cmp::Ordering::Greater),
            decreases hands@.len() - j,
        {
            proof {
                assert(gcs@[j as int] == hands@[j as int].cards@);
                assert(gcs@[i as int] == hands@[i as int].cards@);
            }
            let o = hands[j].cmp(&hands[i]);
            match o {
                core::cmp::Ordering::Greater => {
                    ok = false;
                },
                _ => {},
            }
            j = j + 1;
        }
        let mut dup = false;
        let mut k: usize = 0;
        while k < winners.len()
            invariant
                forall|l: int| 0 <= l < winners@.len() ==> (#[trigger] winners@[l]).wf(),
                0 <= i < hands@.len(),
                gcs@ == cards_views(hands@),
                gcs@.len() == hands@.len(),
                0 <= k <= winners@.len(),
                dup <==> (exists|l: int|
                    0 <= l < k && cards_views(winners@)[l] == gcs@[i as int]),
            decreases winners@.len() - k,
        {
            proof {
                assert(cards_views(winners@)[k as int] == winners@[k as int].cards@);
                assert(gcs@[i as int] == hands@[i as int].cards@);
            }
            if cards_eq(&winners[k].cards, &hands[i].cards) {
                dup = true;
            }
            k = k + 1;
        }
        proof {
            assert(ok <==> beats_none(gcs@, gcs@[i as int]));
            assert(dup <==> seq_has(winners_prefix(gcs@, i as int), gcs@[i as int]));
        }
        if ok && !dup {
            let h = hands[i].duplicate();
            let gw0 = Ghost(cards_views(winners@));
            winners.push(h);
            proof {
                assert(cards_views(winners@) =~= gw0@.push(gcs@[i as int]));
            }
        }
        i = i + 1;
    }
    winners
}

/// Membership in the winners: present in the list and beaten by nothing.
pub proof fn lemma_winners_prefix_contains(cs: Seq<Seq<Card>>, k: int, c: Seq<Card>)
    requires
        0 <= k <= cs.len(),
    ensures
        winners_prefix(cs, k).contains(c) <==> ((exists|i: int| 0 <= i < k && cs[i] == c)
            && beats_none(cs, c)),
    decreases k,
{
    if k > 0 {
        lemma_winners_prefix_contains(cs, k - 1, c);
        let w = winners_prefix(cs, k - 1);
        let x = cs[k - 1];
        if beats_none(cs, x) && !seq_has(w, x) {
            assert(winners_prefix(cs, k) == w.push(x));
            if winners_prefix(cs, k).contains(c) {
                let j = choose|j: int|
                    0 <= j < w.push(x).len() && w.push(x)[j] == c;
                if j < w.len() {
                    assert(w.contains(c));
                } else {
                    assert(c == x);
                }
            }
            if c == x {
                assert(w.push(x)[w.len() as int] == c);
                assert(winners_prefix(cs, k).contains(c));
            }
            if w.contains(c) {
                let j = choose|j: int| 0 <= j < w.len() && w[j] == c;
                assert(w.push(x)[j] == c);
                assert(winners_prefix(cs, k).contains(c));
            }
        } else {
            if c == x && beats_none(cs, c) {
                if seq_has(w, c) {
                    let j = choose|j: int| 0 <= j < w.len() && w[j] == c;
                    assert(w.contains(c));
                }
            }
        }
    }
}

/// Being beaten by nothing depends only on which hands are present, not on
/// their order.
pub proof fn lemma_beats_none_multiset(a: Seq<Seq<Card>>, b: Seq<Seq<Card>>, c: Seq<Card>)
    requires
        a.to_multiset() == b.to_multiset(),
        beats_none(a, c),
    ensures
        beats_none(b, c),
{
    broadcast use vstd::seq_lib::group_to_multiset_ensures;

    assert forall|j: int|
        0 <= j < b.len() implies spec_hand_cmp(#[trigger] b[j], c)
        != core::cmp::Ordering::Greater by {
        assert(b.contains(b[j]));
        assert(b.to_multiset().count(b[j]) > 0);
        assert(a.to_multiset().count(b[j]) > 0);
        assert(a.contains(b[j]));
        let i = choose|i: int| 0 <= i < a.len() && a[i] == b[j];
        assert(spec_hand_cmp(a[i], c) != core::cmp::Ordering::Greater);
    }
}

/// The winning hands are invariant under any permutation of the input:
/// the same card sequences win, regardless of order or duplication.
pub proof fn lemma_winners_permutation_invariant(a: Seq<Seq<Card>>, b: Seq<Seq<Card>>)
    requires
        a.to_multiset() == b.to_multiset(),
    ensures
        spec_winners(a).to_set() == spec_winners(b).to_set(),
{
    broadcast use vstd::seq_lib::group_to_multiset_ensures;

    assert forall|c: Seq<Card>| #[trigger]
        spec_winners(a).contains(c) <==> spec_winners(b).contains(c) by {
        lemma_winners_prefix_contains(a, a.len() as int, c);
        lemma_winners_prefix_contains(b, b.len() as int, c);
        if spec_winners(a).contains(c) {
            let i = choose|i: int| 0 <= i < a.len() && a[i] == c;
            assert(a.contains(c));
            assert(a.to_multiset().count(c) > 0);
            assert(b.contains(c));
            let j = choose|j: int| 0 <= j < b.len() && b[j] == c;
            lemma_beats_none_multiset(a, b, c);
        }
        if spec_winners(b).contains(c) {
            let j = choose|j: int| 0 <= j < b.len() && b[j] == c;
            assert(b.contains(c));
            assert(b.to_multiset().count(c) > 0);
            assert(a.contains(c));
            let i = choose|i: int| 0 <= i < a.len() && a[i] == c;
            lemma_beats_none_multiset(b, a, c);
        }
    }
    assert(spec_winners(a).to_set() =~= spec_winners(b).to_set());
}

/// The order on hands is transitive: a hand no better than a second,
/// itself no better than a third, is no better than the third.
pub proof fn lemma_hand_order_transitive(a: Seq<Card>, b: Seq<Card>, c: Seq<Card>)
    requires
        spec_hand_cmp(a, b) != core::cmp::Ordering::Greater,
        spec_hand_cmp(b, c) != core::cmp::Ordering::Greater,
    ensures
        spec_hand_cmp(a, c) != core::cmp::Ordering::Greater,
{
    let ca = category_value(spec_category(a));
    let cb = category_value(spec_category(b));
    let cc = category_value(spec_category(c));
    assert(ca <= cb);
    assert(cb <= cc);
    if ca == cc {
        lemma_lex_cmp_trans_le(spec_tie_key(a), spec_tie_key(b), spec_tie_key(c));
    }
}

/// The order on hands is total: for any two hands exactly one of
/// below, equal and above holds, and swapping the hands reverses the
/// answer. Two hands compare equal exactly when their category and
/// tie-break key agree.
pub proof fn lemma_hand_order_total(a: Seq<Card>, b: Seq<Card>)
    ensures
        spec_hand_cmp(a, b) == core::cmp::Ordering::Less || spec_hand_cmp(a, b)
            == core::cmp::Ordering::Equal || spec_hand_cmp(a, b) == core::cmp::Ordering::Greater,
        spec_hand_cmp(a, b) == core::cmp::Ordering::Less <==> spec_hand_cmp(b, a)
            == core::cmp::Ordering::Greater,
        spec_hand_cmp(a, b) == core::cmp::Ordering::Equal <==> spec_hand_cmp(b, a)
            == core::cmp::Ordering::Equal,
        spec_hand_cmp(a, b) == core::cmp::Ordering::Equal <==> (spec_category(a) == spec_category(b)
            && spec_tie_key(a) =~= spec_tie_key(b)),
{
    lemma_lex_cmp_flip(spec_tie_key(a), spec_tie_key(b));
    lemma_lex_cmp_eq(spec_tie_key(a), spec_tie_key(b));
    lemma_category_value_injective(spec_category(a), spec_category(b));
}

} // verus!
