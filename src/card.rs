//! Single cards: suits, ranks and their two- or three-byte codes.

use vstd::prelude::*;
use vstd::string::StringSliceAdditionalSpecFns;

verus! {

/// One of the four suits. Suits never decide the value of a hand; they
/// matter for flushes and as the second key when ordering cards.
#[derive(Debug, Clone, Copy, PartialEq, Eq, Structural, PartialOrd, Ord, Hash)]
pub enum Suit {
    Hearts,
    Diamonds,
    Clubs,
    Spades,
}

/// One of the thirteen ranks, Two (lowest) to Ace (highest).
#[derive(Debug, Clone, Copy, PartialEq, Eq, Structural, PartialOrd, Ord, Hash)]
pub enum Rank {
    Two,
    Three,
    Four,
    Five,
    Six,
    Seven,
    Eight,
    Nine,
    Ten,
    Jack,
    Queen,
    King,
    Ace,
}

/// A card: a rank and a suit.
#[derive(Debug, Clone, Copy, PartialEq, Eq, Structural, PartialOrd, Ord, Hash)]
pub struct Card {
    pub rank: Rank,
    pub suit: Suit,
}

/// The single-byte code of a suit.
pub open spec fn suit_code(s: Suit) -> u8 {
    match s {
        Suit::Hearts => 72u8,  // 'H'
        Suit::Diamonds => 68u8,  // 'D'
        Suit::Clubs => 67u8,  // 'C'
        Suit::Spades => 83u8,  // 'S'
    }
}

/// The text of a rank: one byte, or "10" for Ten.
pub open spec fn rank_text(r: Rank) -> Seq<u8> {
    match r {
        Rank::Two => seq![50u8],  // '2'
        Rank::Three => seq![51u8],  // '3'
        Rank::Four => seq![52u8],  // '4'
        Rank::Five => seq![53u8],  // '5'
        Rank::Six => seq![54u8],  // '6'
        Rank::Seven => seq![55u8],  // '7'
        Rank::Eight => seq![56u8],  // '8'
        Rank::Nine => seq![57u8],  // '9'
        Rank::Ten => seq![49u8, 48u8],  // "10"
        Rank::Jack => seq![74u8],  // 'J'
        Rank::Queen => seq![81u8],  // 'Q'
        Rank::King => seq![75u8],  // 'K'
        Rank::Ace => seq![65u8],  // 'A'
    }
}

/// The text of a card: its rank's text followed by its suit's code.
pub open spec fn card_text(c: Card) -> Seq<u8> {
    rank_text(c.rank).push(suit_code(c.suit))
}

/// The suit whose code is the byte `c`, if any.
pub open spec fn suit_of_code(c: u8) -> Option<Suit> {
    if c == 72 {  // 'H'
        Some(Suit::Hearts)
    } else if c == 68 {  // 'D'
        Some(Suit::Diamonds)
    } else if c == 67 {  // 'C'
        Some(Suit::Clubs)
    } else if c == 83 {  // 'S'
        Some(Suit::Spades)
    } else {
        None
    }
}

/// The suit whose code is the text `b`, if any.
pub open spec fn suit_of_text(b: Seq<u8>) -> Option<Suit> {
    if b.len() == 1 {
        suit_of_code(b[0])
    } else {
        None
    }
}

/// The rank whose one-byte code is `c`, if any.
pub open spec fn rank_of_code(c: u8) -> Option<Rank> {
    if c == 50 {  // '2'
        Some(Rank::Two)
    } else if c == 51 {  // '3'
        Some(Rank::Three)
    } else if c == 52 {  // '4'
        Some(Rank::Four)
    } else if c == 53 {  // '5'
        Some(Rank::Five)
    } else if c == 54 {  // '6'
        Some(Rank::Six)
    } else if c == 55 {  // '7'
        Some(Rank::Seven)
    } else if c == 56 {  // '8'
        Some(Rank::Eight)
    } else if c == 57 {  // '9'
        Some(Rank::Nine)
    } else if c == 74 {  // 'J'
        Some(Rank::Jack)
    } else if c == 81 {  // 'Q'
        Some(Rank::Queen)
    } else if c == 75 {  // 'K'
        Some(Rank::King)
    } else if c == 65 {  // 'A'
        Some(Rank::Ace)
    } else {
        None
    }
}

/// The rank whose text is `b`, if any: a one-byte code, or "10" for Ten.
pub open spec fn rank_of_text(b: Seq<u8>) -> Option<Rank> {
    if b.len() == 1 {
        rank_of_code(b[0])
    } else if b.len() == 2 && b[0] == 49 && b[1] == 48 {  // "10"
        Some(Rank::Ten)
    } else {
        None
    }
}

/// The card whose text is `b`, if any: the last byte names the suit, the
/// one or two bytes before it the rank.
pub open spec fn card_of_text(b: Seq<u8>) -> Option<Card> {
    if 2 <= b.len() <= 3 {
        match (rank_of_text(b.drop_last()), suit_of_code(b.last())) {
            (Some(rank), Some(suit)) => Some(Card { rank, suit }),
            _ => None,
        }
    } else {
        None
    }
}

impl Suit {
    /// Position of the suit in the order Hearts, Diamonds, Clubs, Spades.
    pub open spec fn spec_index(&self) -> u8 {
        match self {
            Suit::Hearts => 0u8,
            Suit::Diamonds => 1u8,
            Suit::Clubs => 2u8,
            Suit::Spades => 3u8,
        }
    }

    /// Position of the suit in the order Hearts, Diamonds, Clubs, Spades.
    #[verifier::when_used_as_spec(spec_index)]
    pub fn index(&self) -> (r: u8)
        ensures
            r == self.spec_index(),
    {
        match self {
            Suit::Hearts => 0,
            Suit::Diamonds => 1,
            Suit::Clubs => 2,
            Suit::Spades => 3,
        }
    }

    /// The suit at position `i` of the order Hearts, Diamonds, Clubs, Spades.
    pub fn from_index(i: u8) -> (r: Suit)
        requires
            i < 4,
        ensures
            r.spec_index() == i,
    {
        if i == 0 {
            Suit::Hearts
        } else if i == 1 {
            Suit::Diamonds
        } else if i == 2 {
            Suit::Clubs
        } else {
            Suit::Spades
        }
    }

    /// Parses a one-letter suit code: "H", "D", "C" or "S".
    pub fn from_str(s: &str) -> (r: Option<Suit>)
        ensures
            r == suit_of_text(s.spec_bytes()),
    {
        let b = s.as_bytes();
        if b.len() != 1 {
            return None;
        }
        suit_of_byte(b[0])
    }
}

/// The suit whose code is the byte `c`, if any.
fn suit_of_byte(c: u8) -> (r: Option<Suit>)
    ensures
        r == suit_of_code(c),
{
    if c == 72 {  // 'H'
        Some(Suit::Hearts)
    } else if c == 68 {  // 'D'
        Some(Suit::Diamonds)
    } else if c == 67 {  // 'C'
        Some(Suit::Clubs)
    } else if c == 83 {  // 'S'
        Some(Suit::Spades)
    } else {
        None
    }
}

/// The rank whose one-byte code is `c`, if any.
fn rank_of_byte(c: u8) -> (r: Option<Rank>)
    ensures
        r == rank_of_code(c),
{
    match c {
        50 => Some(Rank::Two),  // '2'
        51 => Some(Rank::Three),  // '3'
        52 => Some(Rank::Four),  // '4'
        53 => Some(Rank::Five),  // '5'
        54 => Some(Rank::Six),  // '6'
        55 => Some(Rank::Seven),  // '7'
        56 => Some(Rank::Eight),  // '8'
        57 => Some(Rank::Nine),  // '9'
        74 => Some(Rank::Jack),  // 'J'
        81 => Some(Rank::Queen),  // 'Q'
        75 => Some(Rank::King),  // 'K'
        65 => Some(Rank::Ace),  // 'A'
        _ => None,
    }
}

/// The rank whose text is `b[lo..hi]`, if any.
fn rank_of_bytes(b: &[u8], lo: usize, hi: usize) -> (r: Option<Rank>)
    requires
        lo <= hi <= b@.len(),
    ensures
        r == rank_of_text(b@.subrange(lo as int, hi as int)),
{
    if hi - lo == 1 {
        rank_of_byte(b[lo])
    } else if hi - lo == 2 && b[lo] == 49 && b[lo + 1] == 48 {  // "10"
        Some(Rank::Ten)
    } else {
        None
    }
}

impl Rank {
    /// The rank's number: Two is 2, Ten is 10, Jack 11, Queen 12, King 13
    /// and Ace 14.
    pub open spec fn spec_value(&self) -> u8 {
        match self {
            Rank::Two => 2u8,
            Rank::Three => 3u8,
            Rank::Four => 4u8,
            Rank::Five => 5u8,
            Rank::Six => 6u8,
            Rank::Seven => 7u8,
            Rank::Eight => 8u8,
            Rank::Nine => 9u8,
            Rank::Ten => 10u8,
            Rank::Jack => 11u8,
            Rank::Queen => 12u8,
            Rank::King => 13u8,
            Rank::Ace => 14u8,
        }
    }

    /// The rank's number, from 2 for Two to 14 for Ace.
    #[verifier::when_used_as_spec(spec_value)]
    pub fn value(&self) -> (r: u8)
        ensures
            r == self.spec_value(),
    {
        match self {
            Rank::Two => 2,
            Rank::Three => 3,
            Rank::Four => 4,
            Rank::Five => 5,
            Rank::Six => 6,
            Rank::Seven => 7,
            Rank::Eight => 8,
            Rank::Nine => 9,
            Rank::Ten => 10,
            Rank::Jack => 11,
            Rank::Queen => 12,
            Rank::King => 13,
            Rank::Ace => 14,
        }
    }

    /// The rank whose number is `v`.
    pub fn from_value(v: u8) -> (r: Rank)
        requires
            2 <= v <= 14,
        ensures
            r.spec_value() == v,
    {
        match v {
            2 => Rank::Two,
            3 => Rank::Three,
            4 => Rank::Four,
            5 => Rank::Five,
            6 => Rank::Six,
            7 => Rank::Seven,
            8 => Rank::Eight,
            9 => Rank::Nine,
            10 => Rank::Ten,
            11 => Rank::Jack,
            12 => Rank::Queen,
            13 => Rank::King,
            _ => Rank::Ace,
        }
    }

    /// Parses a rank: "2" to "9", "10", "J", "Q", "K" or "A".
    pub fn from_str(s: &str) -> (r: Option<Rank>)
        ensures
            r == rank_of_text(s.spec_bytes()),
    {
        let b = s.as_bytes();
        assert(b@.subrange(0, b@.len() as int) =~= b@);
        rank_of_bytes(b, 0, b.len())
    }
}

impl Card {
    /// The number of the card in the order by rank, then suit: four times
    /// its rank's number plus its suit's position.
    pub open spec fn spec_key(&self) -> u8 {
        (4 * self.rank.spec_value() + self.suit.spec_index()) as u8
    }

    /// The card's place in the order by rank, then suit.
    #[verifier::when_used_as_spec(spec_key)]
    pub fn key(&self) -> (r: u8)
        ensures
            r == self.spec_key(),
    {
        4 * self.rank.value() + self.suit.index()
    }

    /// The card whose key is `k`.
    pub fn from_key(k: u8) -> (r: Card)
        requires
            8 <= k < 60,
        ensures
            r.spec_key() == k,
    {
        Card { rank: Rank::from_value(k / 4), suit: Suit::from_index(k % 4) }
    }

    /// Parses a card: a rank followed by a suit code, as in "2H", "10D" or
    /// "QS".
    pub fn from_str(s: &str) -> (r: Option<Card>)
        ensures
            r == card_of_text(s.spec_bytes()),
    {
        let b = s.as_bytes();
        assert(b@.subrange(0, b@.len() as int) =~= b@);
        card_of_bytes(b, 0, b.len())
    }
}

/// The card whose text is `b[lo..hi]`, if any.
pub fn card_of_bytes(b: &[u8], lo: usize, hi: usize) -> (r: Option<Card>)
    requires
        lo <= hi <= b@.len(),
    ensures
        r == card_of_text(b@.subrange(lo as int, hi as int)),
{
    let ghost t = b@.subrange(lo as int, hi as int);
    let n = hi - lo;
    if n < 2 || n > 3 {
        return None;
    }
    let suit = suit_of_byte(b[hi - 1]);
    let rank = rank_of_bytes(b, lo, hi - 1);
    assert(t.drop_last() =~= b@.subrange(lo as int, hi - 1));
    match (rank, suit) {
        (Some(rank), Some(suit)) => Some(Card { rank, suit }),
        _ => None,
    }
}

} // verus!
