use vstd::prelude::*;
use crate::text::{i8_text, parse_i8, parse_i8_text, signed_text, lemma_parse_signed_text};

verus! {

/// The four crops of the deck.
#[derive(Clone, Copy, PartialEq, Eq, Structural, Hash, Debug)]
pub enum Suit {
    Melon,
    Corn,
    Blueberry,
    Eggplant,
}

/// The ranks of one suit, with repetitions: one each of -3 and 3, two each of -2 to 2.
pub const RANKS_PER_SUIT: [i8; 12] = [-3, -2, -2, -1, -1, 0, 0, 1, 1, 2, 2, 3];

pub const NUM_RANKS: usize = 12;

pub const NUM_SUITS: usize = 4;

pub const DECK_SIZE: usize = NUM_RANKS * NUM_SUITS;

/// The one-letter code of a suit.
pub open spec fn suit_code(s: Suit) -> char {
    match s {
        Suit::Melon => 'M',
        Suit::Corn => 'C',
        Suit::Blueberry => 'B',
        Suit::Eggplant => 'E',
    }
}

/// The suit whose code is `c`, if any.
pub open spec fn suit_of_code(c: char) -> Option<Suit> {
    if c == 'M' {
        Some(Suit::Melon)
    } else if c == 'C' {
        Some(Suit::Corn)
    } else if c == 'B' {
        Some(Suit::Blueberry)
    } else if c == 'E' {
        Some(Suit::Eggplant)
    } else {
        None
    }
}

impl Suit {
    /// The suits in the order in which a fresh deck lists them.
    pub fn all() -> (r: [Suit; 4])
        ensures
            r@ == seq![Suit::Melon, Suit::Corn, Suit::Blueberry, Suit::Eggplant],
    {
        [Suit::Melon, Suit::Corn, Suit::Blueberry, Suit::Eggplant]
    }

    pub fn code(self) -> (r: char)
        ensures
            r == suit_code(self),
    {
        match self {
            Suit::Melon => 'M',
            Suit::Corn => 'C',
            Suit::Blueberry => 'B',
            Suit::Eggplant => 'E',
        }
    }

    pub fn from_code(c: char) -> (r: Option<Self>)
        ensures
            r == suit_of_code(c),
    {
        match c {
            'M' => Some(Suit::Melon),
            'C' => Some(Suit::Corn),
            'B' => Some(Suit::Blueberry),
            'E' => Some(Suit::Eggplant),
            _ => None,
        }
    }
}

/// Decoding a suit's code gives the suit back, and only the four codes decode.
pub proof fn lemma_suit_code_roundtrip(s: Suit, c: char)
    ensures
        suit_of_code(suit_code(s)) == Some(s),
        suit_of_code(c) matches Some(t) ==> suit_code(t) == c,
{
}

#[derive(Clone, Copy, PartialEq, Eq, Structural, Hash, Debug)]
pub struct Card {
    pub rank: i8,
    pub suit: Suit,
}

/// The text code of a card: its rank in decimal, then its suit's letter (as in `-1M`).
pub open spec fn card_code(c: Card) -> Seq<char> {
    signed_text(c.rank as int) + seq![suit_code(c.suit)]
}

/// The card whose code is `s`, if any: the last character names the suit, and what
/// precedes it is the rank as `str::parse::<i8>` reads it.
pub open spec fn card_of_code(s: Seq<char>) -> Option<Card> {
    if s.len() == 0 {
        None
    } else {
        match suit_of_code(s.last()) {
            None => None,
            Some(suit) => match parse_i8_text(s.drop_last()) {
                None => None,
                Some(rank) => Some(Card { rank, suit }),
            },
        }
    }
}

impl Suit {
    fn code_str(self) -> (r: &'static str)
        ensures
            r@ == seq![suit_code(self)],
    {
        proof {
            reveal_strlit("M");
            reveal_strlit("C");
            reveal_strlit("B");
            reveal_strlit("E");
        }
        match self {
            Suit::Melon => "M",
            Suit::Corn => "C",
            Suit::Blueberry => "B",
            Suit::Eggplant => "E",
        }
    }
}

impl Card {
    pub fn code(self) -> (r: String)
        ensures
            r@ == card_code(self),
    {
        let mut s = i8_text(self.rank);
        s.append(self.suit.code_str());
        s
    }

    pub fn from_code(code: &str) -> (r: Option<Self>)
        ensures
            r == card_of_code(code@),
    {
        let n = code.unicode_len();
        let mut chars: Vec<char> = Vec::new();
        let mut i: usize = 0;
        while i < n
            invariant
                n == code@.len(),
                i <= n,
                chars@ == code@.take(i as int),
            decreases n - i,
        {
            chars.push(code.get_char(i));
            i = i + 1;
            assert(chars@ =~= code@.take(i as int));
        }
        assert(chars@ =~= code@);
        if n == 0 {
            return None;
        }
        let suit = match Suit::from_code(chars[n - 1]) {
            Some(suit) => suit,
            None => return None,
        };
        assert(chars@.take(n - 1) =~= code@.drop_last());
        match parse_i8(&chars, n - 1) {
            Some(rank) => Some(Card { rank, suit }),
            None => None,
        }
    }
}

/// Reading a card's code gives the card back.
pub proof fn lemma_card_code_roundtrip(c: Card)
    ensures
        card_of_code(card_code(c)) == Some(c),
{
    let t = signed_text(c.rank as int);
    let s = card_code(c);
    assert(s.drop_last() =~= t);
    lemma_parse_signed_text(c.rank);
}

} // verus!
