//! Card value types: ranks, suits, parsing and formatting of card codes.
//!
//! A card code is `{rank}{suit}`: rank one of `2`..`9`, `10`, `J`, `Q`, `K`,
//! `A`, suit one of `D`, `H`, `C`, `S`; parsing is case-insensitive.
use vstd::prelude::*;

verus! {

#[derive(Clone, Copy, PartialEq, Eq, Structural, Debug)]
pub enum CardRank {
    Two,
    Three,
    Four,
    Five,
    Six,
    Seven,
    Eight,
    Nine,
    Ten,
    Jack,
    Queen,
    King,
    Ace,
}

#[derive(Clone, Copy, PartialEq, Eq, Structural, Debug)]
pub enum CardSuit {
    Diamonds,
    Hearts,
    Clubs,
    Spades,
}

/// A playing card. Equality is structural (rank and suit); poker-value
/// comparisons go through `rank_value`, which ignores the suit.
#[derive(Clone, Copy, PartialEq, Eq, Structural, Debug)]
pub struct Card {
    pub rank: CardRank,
    pub suit: CardSuit,
}

#[derive(Clone, Copy, PartialEq, Eq, Structural, Debug)]
pub enum CardParseError {
    InvalidRank,
    InvalidSuit,
}

/// Numeric strength of a rank, ace high: deuce is 2, ace is 14.
pub open spec fn rank_value(r: CardRank) -> int {
    match r {
        CardRank::Two => 2,
        CardRank::Three => 3,
        CardRank::Four => 4,
        CardRank::Five => 5,
        CardRank::Six => 6,
        CardRank::Seven => 7,
        CardRank::Eight => 8,
        CardRank::Nine => 9,
        CardRank::Ten => 10,
        CardRank::Jack => 11,
        CardRank::Queen => 12,
        CardRank::King => 13,
        CardRank::Ace => 14,
    }
}

pub open spec fn rank_of_value(v: int) -> Option<CardRank> {
    if v == 2 {
        Some(CardRank::Two)
    } else if v == 3 {
        Some(CardRank::Three)
    } else if v == 4 {
        Some(CardRank::Four)
    } else if v == 5 {
        Some(CardRank::Five)
    } else if v == 6 {
        Some(CardRank::Six)
    } else if v == 7 {
        Some(CardRank::Seven)
    } else if v == 8 {
        Some(CardRank::Eight)
    } else if v == 9 {
        Some(CardRank::Nine)
    } else if v == 10 {
        Some(CardRank::Ten)
    } else if v == 11 {
        Some(CardRank::Jack)
    } else if v == 12 {
        Some(CardRank::Queen)
    } else if v == 13 {
        Some(CardRank::King)
    } else if v == 14 {
        Some(CardRank::Ace)
    } else {
        None
    }
}

pub open spec fn suit_of_char(c: char) -> Option<CardSuit> {
    if c == 'D' || c == 'd' {
        Some(CardSuit::Diamonds)
    } else if c == 'H' || c == 'h' {
        Some(CardSuit::Hearts)
    } else if c == 'C' || c == 'c' {
        Some(CardSuit::Clubs)
    } else if c == 'S' || c == 's' {
        Some(CardSuit::Spades)
    } else {
        None
    }
}

pub open spec fn rank_of_char(c: char) -> Option<CardRank> {
    if c == 'A' || c == 'a' {
        Some(CardRank::Ace)
    } else if c == 'K' || c == 'k' {
        Some(CardRank::King)
    } else if c == 'Q' || c == 'q' {
        Some(CardRank::Queen)
    } else if c == 'J' || c == 'j' {
        Some(CardRank::Jack)
    } else if c == '9' {
        Some(CardRank::Nine)
    } else if c == '8' {
        Some(CardRank::Eight)
    } else if c == '7' {
        Some(CardRank::Seven)
    } else if c == '6' {
        Some(CardRank::Six)
    } else if c == '5' {
        Some(CardRank::Five)
    } else if c == '4' {
        Some(CardRank::Four)
    } else if c == '3' {
        Some(CardRank::Three)
    } else if c == '2' {
        Some(CardRank::Two)
    } else {
        None
    }
}

/// Rank portion of a card code: a single rank character, or the two
/// characters `10`, the only multi-character rank.
pub open spec fn spec_parse_rank(s: Seq<char>) -> Option<CardRank> {
    if s.len() == 1 {
        rank_of_char(s[0])
    } else if s.len() == 2 && s[0] == '1' && s[1] == '0' {
        Some(CardRank::Ten)
    } else {
        None
    }
}

pub open spec fn spec_parse_suit(s: Seq<char>) -> Option<CardSuit> {
    if s.len() == 1 {
        suit_of_char(s[0])
    } else {
        None
    }
}

/// A card code is the rank characters followed by one suit character; the
/// rank portion is everything up to the last character.
pub open spec fn spec_parse_card(s: Seq<char>) -> Result<Card, CardParseError> {
    if s.len() < 1 {
        Err(CardParseError::InvalidRank)
    } else {
        match spec_parse_rank(s.take(s.len() - 1)) {
            None => Err(CardParseError::InvalidRank),
            Some(r) => match suit_of_char(s[s.len() - 1]) {
                None => Err(CardParseError::InvalidSuit),
                Some(t) => Ok(Card { rank: r, suit: t }),
            },
        }
    }
}

/// Canonical (upper-case) code of a rank.
pub open spec fn rank_code(r: CardRank) -> Seq<char> {
    match r {
        CardRank::Two => seq!['2'],
        CardRank::Three => seq!['3'],
        CardRank::Four => seq!['4'],
        CardRank::Five => seq!['5'],
        CardRank::Six => seq!['6'],
        CardRank::Seven => seq!['7'],
        CardRank::Eight => seq!['8'],
        CardRank::Nine => seq!['9'],
        CardRank::Ten => seq!['1', '0'],
        CardRank::Jack => seq!['J'],
        CardRank::Queen => seq!['Q'],
        CardRank::King => seq!['K'],
        CardRank::Ace => seq!['A'],
    }
}

pub open spec fn suit_char(s: CardSuit) -> char {
    match s {
        CardSuit::Diamonds => 'D',
        CardSuit::Hearts => 'H',
        CardSuit::Clubs => 'C',
        CardSuit::Spades => 'S',
    }
}

/// Canonical code of a card, e.g. `10S` or `AD`.
pub open spec fn card_code(c: Card) -> Seq<char> {
    rank_code(c.rank).push(suit_char(c.suit))
}

pub open spec fn int_cmp(a: int, b: int) -> core::cmp::Ordering {
    if a < b {
        core::cmp::Ordering::Less
    } else if a == b {
        core::cmp::Ordering::Equal
    } else {
        core::cmp::Ordering::Greater
    }
}

/// Successor in rank order, `None` above an ace.
pub open spec fn spec_rank_next(r: CardRank) -> Option<CardRank> {
    rank_of_value(rank_value(r) + 1)
}

impl CardRank {
    /// Numeric strength, ace high.
    pub fn value(&self) -> (v: u8)
        ensures
            v as int == rank_value(*self),
    {
        match self {
            CardRank::Two => 2,
            CardRank::Three => 3,
            CardRank::Four => 4,
            CardRank::Five => 5,
            CardRank::Six => 6,
            CardRank::Seven => 7,
            CardRank::Eight => 8,
            CardRank::Nine => 9,
            CardRank::Ten => 10,
            CardRank::Jack => 11,
            CardRank::Queen => 12,
            CardRank::King => 13,
            CardRank::Ace => 14,
        }
    }

    /// Parses the rank portion of a card code, case-insensitively.
    pub fn try_from(value: &str) -> (r: Result<CardRank, CardParseError>)
        ensures
            r == match spec_parse_rank(value@) {
                Some(x) => Ok::<CardRank, CardParseError>(x),
                None => Err::<CardRank, CardParseError>(CardParseError::InvalidRank),
            },
    {
        let n = value.unicode_len();
        if n == 1 {
            match rank_from_char(value.get_char(0)) {
                Some(r) => Ok(r),
                None => Err(CardParseError::InvalidRank),
            }
        } else if n == 2 {
            if value.get_char(0) == '1' && value.get_char(1) == '0' {
                Ok(CardRank::Ten)
            } else {
                Err(CardParseError::InvalidRank)
            }
        } else {
            Err(CardParseError::InvalidRank)
        }
    }

    /// The next rank up, `None` above an ace.
    pub fn next(&self) -> (r: Option<CardRank>)
        ensures
            r == spec_rank_next(*self),
    {
        match self {
            CardRank::Two => Some(CardRank::Three),
            CardRank::Three => Some(CardRank::Four),
            CardRank::Four => Some(CardRank::Five),
            CardRank::Five => Some(CardRank::Six),
            CardRank::Six => Some(CardRank::Seven),
            CardRank::Seven => Some(CardRank::Eight),
            CardRank::Eight => Some(CardRank::Nine),
            CardRank::Nine => Some(CardRank::Ten),
            CardRank::Ten => Some(CardRank::Jack),
            CardRank::Jack => Some(CardRank::Queen),
            CardRank::Queen => Some(CardRank::King),
            CardRank::King => Some(CardRank::Ace),
            CardRank::Ace => None,
        }
    }

    /// Canonical code of the rank, upper case.
    pub fn code_str(&self) -> (s: &'static str)
        ensures
            s@ == rank_code(*self),
    {
        proof {
            reveal_strlit("2");
            reveal_strlit("3");
            reveal_strlit("4");
            reveal_strlit("5");
            reveal_strlit("6");
            reveal_strlit("7");
            reveal_strlit("8");
            reveal_strlit("9");
            reveal_strlit("10");
            reveal_strlit("J");
            reveal_strlit("Q");
            reveal_strlit("K");
            reveal_strlit("A");
        }
        let s: &'static str = match self {
            CardRank::Two => "2",
            CardRank::Three => "3",
            CardRank::Four => "4",
            CardRank::Five => "5",
            CardRank::Six => "6",
            CardRank::Seven => "7",
            CardRank::Eight => "8",
            CardRank::Nine => "9",
            CardRank::Ten => "10",
            CardRank::Jack => "J",
            CardRank::Queen => "Q",
            CardRank::King => "K",
            CardRank::Ace => "A",
        };
        proof {
            assert(s@ =~= rank_code(*self));
        }
        s
    }

    /// Three-way comparison by rank strength.
    pub fn cmp(&self, other: &CardRank) -> (o: core::cmp::Ordering)
        ensures
            o == int_cmp(rank_value(*self), rank_value(*other)),
    {
        let a = self.value();
        let b = other.value();
        if a < b {
            core::cmp::Ordering::Less
        } else if a == b {
            core::cmp::Ordering::Equal
        } else {
            core::cmp::Ordering::Greater
        }
    }
}

fn rank_from_char(c: char) -> (r: Option<CardRank>)
    ensures
        r == rank_of_char(c),
{
    if c == 'A' || c == 'a' {
        Some(CardRank::Ace)
    } else if c == 'K' || c == 'k' {
        Some(CardRank::King)
    } else if c == 'Q' || c == 'q' {
        Some(CardRank::Queen)
    } else if c == 'J' || c == 'j' {
        Some(CardRank::Jack)
    } else if c == '9' {
        Some(CardRank::Nine)
    } else if c == '8' {
        Some(CardRank::Eight)
    } else if c == '7' {
        Some(CardRank::Seven)
    } else if c == '6' {
        Some(CardRank::Six)
    } else if c == '5' {
        Some(CardRank::Five)
    } else if c == '4' {
        Some(CardRank::Four)
    } else if c == '3' {
        Some(CardRank::Three)
    } else if c == '2' {
        Some(CardRank::Two)
    } else {
        None
    }
}

impl CardSuit {
    /// Parses a suit code, case-insensitively.
    pub fn try_from(value: &str) -> (r: Result<CardSuit, CardParseError>)
        ensures
            r == match spec_parse_suit(value@) {
                Some(x) => Ok::<CardSuit, CardParseError>(x),
                None => Err::<CardSuit, CardParseError>(CardParseError::InvalidSuit),
            },
    {
        let n = value.unicode_len();
        if n == 1 {
            match suit_from_char(value.get_char(0)) {
                Some(s) => Ok(s),
                None => Err(CardParseError::InvalidSuit),
            }
        } else {
            Err(CardParseError::InvalidSuit)
        }
    }

    /// Canonical code of the suit, upper case.
    pub fn code_str(&self) -> (s: &'static str)
        ensures
            s@ == seq![suit_char(*self)],
    {
        proof {
            reveal_strlit("D");
            reveal_strlit("H");
            reveal_strlit("C");
            reveal_strlit("S");
        }
        let s: &'static str = match self {
            CardSuit::Diamonds => "D",
            CardSuit::Hearts => "H",
            CardSuit::Clubs => "C",
            CardSuit::Spades => "S",
        };
        proof {
            assert(s@ =~= seq![suit_char(*self)]);
        }
        s
    }
}

fn suit_from_char(c: char) -> (r: Option<CardSuit>)
    ensures
        r == suit_of_char(c),
{
    if c == 'D' || c == 'd' {
        Some(CardSuit::Diamonds)
    } else if c == 'H' || c == 'h' {
        Some(CardSuit::Hearts)
    } else if c == 'C' || c == 'c' {
        Some(CardSuit::Clubs)
    } else if c == 'S' || c == 's' {
        Some(CardSuit::Spades)
    } else {
        None
    }
}

impl Card {
    /// Parses a card code such as `AS` or `10h`, case-insensitively.
    pub fn try_from(value: &str) -> (r: Result<Card, CardParseError>)
        ensures
            r == spec_parse_card(value@),
    {
        let n = value.unicode_len();
        if n < 1 {
            return Err(CardParseError::InvalidRank);
        }
        let rank_part = value.substring_char(0, n - 1);
        let rank = match CardRank::try_from(rank_part) {
            Ok(r) => r,
            Err(e) => {
                return Err(e);
            },
        };
        let suit = match suit_from_char(value.get_char(n - 1)) {
            Some(s) => s,
            None => {
                return Err(CardParseError::InvalidSuit);
            },
        };
        Ok(Card { rank, suit })
    }

    /// Canonical code of the card, e.g. `10S`.
    pub fn to_code(&self) -> (s: String)
        ensures
            s@ == card_code(*self),
    {
        let s = String::from_str(self.rank.code_str()).concat(self.suit.code_str());
        proof {
            assert(s@ =~= card_code(*self));
        }
        s
    }

    /// Three-way comparison by rank alone: suits carry no poker value.
    pub fn cmp(&self, other: &Card) -> (o: core::cmp::Ordering)
        ensures
            o == int_cmp(rank_value(self.rank), rank_value(other.rank)),
    {
        self.rank.cmp(&other.rank)
    }
}

/// Formatting a card and parsing the result gives the card back: parse is a
/// left inverse of format for every card.
pub proof fn lemma_card_code_round_trip(c: Card)
    ensures
        spec_parse_card(card_code(c)) == Ok::<Card, CardParseError>(c),
{
    let code = card_code(c);
    assert(code.len() == rank_code(c.rank).len() + 1);
    assert(code.take(code.len() - 1) =~= rank_code(c.rank));
    assert(code[code.len() - 1] == suit_char(c.suit));
    match c.rank {
        CardRank::Two => assert(spec_parse_rank(rank_code(c.rank)) == Some(c.rank)),
        CardRank::Three => assert(spec_parse_rank(rank_code(c.rank)) == Some(c.rank)),
        CardRank::Four => assert(spec_parse_rank(rank_code(c.rank)) == Some(c.rank)),
        CardRank::Five => assert(spec_parse_rank(rank_code(c.rank)) == Some(c.rank)),
        CardRank::Six => assert(spec_parse_rank(rank_code(c.rank)) == Some(c.rank)),
        CardRank::Seven => assert(spec_parse_rank(rank_code(c.rank)) == Some(c.rank)),
        CardRank::Eight => assert(spec_parse_rank(rank_code(c.rank)) == Some(c.rank)),
        CardRank::Nine => assert(spec_parse_rank(rank_code(c.rank)) == Some(c.rank)),
        CardRank::Ten => assert(spec_parse_rank(rank_code(c.rank)) == Some(c.rank)),
        CardRank::Jack => assert(spec_parse_rank(rank_code(c.rank)) == Some(c.rank)),
        CardRank::Queen => assert(spec_parse_rank(rank_code(c.rank)) == Some(c.rank)),
        CardRank::King => assert(spec_parse_rank(rank_code(c.rank)) == Some(c.rank)),
        CardRank::Ace => assert(spec_parse_rank(rank_code(c.rank)) == Some(c.rank)),
    }
    match c.suit {
        CardSuit::Diamonds => assert(suit_of_char(suit_char(c.suit)) == Some(c.suit)),
        CardSuit::Hearts => assert(suit_of_char(suit_char(c.suit)) == Some(c.suit)),
        CardSuit::Clubs => assert(suit_of_char(suit_char(c.suit)) == Some(c.suit)),
        CardSuit::Spades => assert(suit_of_char(suit_char(c.suit)) == Some(c.suit)),
    }
}

} // verus!
