//! Cards, hole-card hands, boards and packed hand ranks.
//!
//! A card is one byte `rank << 2 | suit`, with rank `0 = Two .. 12 = Ace`
//! and suit `0 = clubs, 1 = diamonds, 2 = hearts, 3 = spades`. A card is
//! valid when its byte is below 52.

use vstd::prelude::*;
use crate::text::chars_of;

verus! {

/// One playing card, `rank << 2 | suit`.
#[derive(Debug, Clone, Copy, PartialEq, Eq, Structural, Hash)]
pub struct Card(pub u8);

/// Two hole cards, higher byte first when built with [`Hand::new`].
#[derive(Debug, Clone, Copy, PartialEq, Eq, Hash)]
pub struct Hand(pub [Card; 2]);

/// Up to five community cards; only the first `len` are dealt.
#[derive(Debug, Clone, Copy, PartialEq, Eq)]
pub struct Board {
    /// Card slots; slots at or after `len` are unused.
    pub cards: [Card; 5],
    /// Number of dealt cards (0, 3, 4 or 5 in play).
    pub len: u8,
}

/// Packed hand strength: 4-bit category above a 28-bit kicker field.
/// Higher is better.
#[derive(Debug, Clone, Copy, PartialEq, Eq, Hash)]
pub struct HandRank(pub u32);

/// Rank of a card byte (`0 = Two .. 12 = Ace` for valid cards).
pub open spec fn rank_of(c: Card) -> int {
    c.0 as int / 4
}

/// Suit of a card byte (`0 .. 4`).
pub open spec fn suit_of(c: Card) -> int {
    c.0 as int % 4
}

/// A card byte names one of the 52 cards.
pub open spec fn valid_card(c: Card) -> bool {
    c.0 < 52
}

/// The rank character for rank `r`: `'2'..'9'`, `'T'`, `'J'`, `'Q'`,
/// `'K'`, `'A'`, and `'?'` outside `0..13`.
pub open spec fn spec_rank_char(r: u8) -> char {
    if r == 0 { '2' }
    else if r == 1 { '3' }
    else if r == 2 { '4' }
    else if r == 3 { '5' }
    else if r == 4 { '6' }
    else if r == 5 { '7' }
    else if r == 6 { '8' }
    else if r == 7 { '9' }
    else if r == 8 { 'T' }
    else if r == 9 { 'J' }
    else if r == 10 { 'Q' }
    else if r == 11 { 'K' }
    else if r == 12 { 'A' }
    else { '?' }
}

/// The rank named by a rank character (`2-9`, `T`, `J`, `Q`, `K`, `A`;
/// the letters in either case).
pub open spec fn spec_rank_value(c: char) -> Option<u8> {
    if c == '2' { Some(0u8) }
    else if c == '3' { Some(1u8) }
    else if c == '4' { Some(2u8) }
    else if c == '5' { Some(3u8) }
    else if c == '6' { Some(4u8) }
    else if c == '7' { Some(5u8) }
    else if c == '8' { Some(6u8) }
    else if c == '9' { Some(7u8) }
    else if c == 'T' || c == 't' { Some(8u8) }
    else if c == 'J' || c == 'j' { Some(9u8) }
    else if c == 'Q' || c == 'q' { Some(10u8) }
    else if c == 'K' || c == 'k' { Some(11u8) }
    else if c == 'A' || c == 'a' { Some(12u8) }
    else { None }
}

/// The suit named by a suit character (`c`, `d`, `h`, `s`).
pub open spec fn spec_suit_value(c: char) -> Option<u8> {
    if c == 'c' { Some(0u8) }
    else if c == 'd' { Some(1u8) }
    else if c == 'h' { Some(2u8) }
    else if c == 's' { Some(3u8) }
    else { None }
}

/// The suit character for suit `s` (`0..4`).
pub open spec fn spec_suit_char(s: u8) -> char {
    if s == 0 { 'c' } else if s == 1 { 'd' } else if s == 2 { 'h' } else { 's' }
}

/// The card named by a two-character string such as `"Ah"`.
pub open spec fn spec_parse_card(s: Seq<char>) -> Option<Card> {
    if s.len() == 2 && spec_rank_value(s[0]).is_some() && spec_suit_value(s[1]).is_some() {
        Some(Card((spec_rank_value(s[0]).unwrap() * 4 + spec_suit_value(s[1]).unwrap()) as u8))
    } else {
        None
    }
}

/// Map rank 0..13 to its character. 0 = '2', 8 = 'T', 12 = 'A'.
pub fn rank_char(r: u8) -> (c: char)
    ensures
        c == spec_rank_char(r),
{
    match r {
        0 => '2',
        1 => '3',
        2 => '4',
        3 => '5',
        4 => '6',
        5 => '7',
        6 => '8',
        7 => '9',
        8 => 'T',
        9 => 'J',
        10 => 'Q',
        11 => 'K',
        12 => 'A',
        _ => '?',
    }
}

/// Map rank char (2-9, T, J, Q, K, A; case-insensitive) to 0..13.
pub fn rank_value(c: char) -> (r: Option<u8>)
    ensures
        r == spec_rank_value(c),
{
    match c {
        '2' => Some(0),
        '3' => Some(1),
        '4' => Some(2),
        '5' => Some(3),
        '6' => Some(4),
        '7' => Some(5),
        '8' => Some(6),
        '9' => Some(7),
        'T' | 't' => Some(8),
        'J' | 'j' => Some(9),
        'Q' | 'q' => Some(10),
        'K' | 'k' => Some(11),
        'A' | 'a' => Some(12),
        _ => None,
    }
}

/// Map a suit character to 0..4.
pub fn suit_value(c: char) -> (r: Option<u8>)
    ensures
        r == spec_suit_value(c),
{
    match c {
        'c' => Some(0),
        'd' => Some(1),
        'h' => Some(2),
        's' => Some(3),
        _ => None,
    }
}

/// Every rank below 13 has a character that maps back to it.
pub proof fn lemma_rank_char_roundtrip(r: u8)
    requires
        r < 13,
    ensures
        spec_rank_value(spec_rank_char(r)) == Some(r),
{
}

impl Card {
    /// Rank of the card (`self.0 >> 2`).
    pub fn rank(self) -> (r: u8)
        ensures
            r == rank_of(self),
    {
        let b = self.0;
        assert(b >> 2 == b / 4) by (bit_vector);
        b >> 2
    }

    /// Suit of the card (`self.0 & 3`).
    pub fn suit(self) -> (s: u8)
        ensures
            s == suit_of(self),
    {
        let b = self.0;
        assert(b & 3 == b % 4) by (bit_vector);
        b & 3
    }

    /// Parse a two-character card such as `"Ah"` or `"7c"`.
    pub fn parse(s: &str) -> (r: Option<Card>)
        ensures
            r == spec_parse_card(s@),
            r matches Some(c) ==> valid_card(c),
    {
        let v = chars_of(s);
        if v.len() != 2 {
            return None;
        }
        match (rank_value(v[0]), suit_value(v[1])) {
            (Some(rk), Some(st)) => Some(Card(rk * 4 + st)),
            _ => None,
        }
    }

    /// The two-character name of a valid card, e.g. `"Ah"`.
    pub fn name(self) -> (v: Vec<char>)
        requires
            valid_card(self),
        ensures
            v@ == seq![spec_rank_char((rank_of(self)) as u8), spec_suit_char((suit_of(self)) as u8)],
    {
        let mut v = Vec::new();
        v.push(rank_char(self.rank()));
        let s = self.suit();
        v.push(if s == 0 { 'c' } else if s == 1 { 'd' } else if s == 2 { 'h' } else { 's' });
        v
    }
}

/// Parsing the name of a valid card gives back the card.
pub proof fn lemma_card_name_roundtrip(c: Card)
    requires
        valid_card(c),
    ensures
        spec_parse_card(seq![spec_rank_char((rank_of(c)) as u8), spec_suit_char((suit_of(c)) as u8)])
            == Some(c),
{
    let r = (rank_of(c)) as u8;
    lemma_rank_char_roundtrip(r);
    assert(spec_rank_value(spec_rank_char(r)) == Some(r));
}

impl Hand {
    /// A hand from two cards, the card with the higher byte first.
    pub fn new(a: Card, b: Card) -> (h: Hand)
        ensures
            h.0[0] == (if a.0 >= b.0 { a } else { b }),
            h.0[1] == (if a.0 >= b.0 { b } else { a }),
    {
        if a.0 >= b.0 { Hand([a, b]) } else { Hand([b, a]) }
    }
}

impl Board {
    /// The dealt cards, in order.
    pub open spec fn dealt(self) -> Seq<Card> {
        self.cards@.take(self.len as int)
    }
}

} // verus!
