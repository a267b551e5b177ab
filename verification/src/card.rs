//! A card is encoded in a single byte: `suit * 13 + rank0`.
//! - `rank0` goes from 0 (Ace) to 12 (King).
//! - `suit` goes from 0 to 3: 0 = hearts, 1 = diamonds, 2 = spades, 3 = clubs
//!   (hearts and diamonds are red, spades and clubs are black).
//!
//! One byte per card keeps every table indexable directly by the card and
//! keeps the whole game state free of heap allocation.
use vstd::prelude::*;

verus! {

pub type Card = u8;

/// Sentinel "no card" (empty slot in a fixed-size buffer).
pub const NONE: Card = 255;

pub const NUM_SUITS: usize = 4;

pub const NUM_RANKS: usize = 13;

pub const NUM_CARDS: usize = 52;

pub const COEUR: usize = 0;

pub const CARREAU: usize = 1;

pub const PIQUE: usize = 2;

pub const TREFLE: usize = 3;

/// Suit of a card byte.
pub open spec fn suit_spec(c: u8) -> int {
    c as int / 13
}

/// 0-indexed rank of a card byte (0 = Ace .. 12 = King).
pub open spec fn rank0_spec(c: u8) -> int {
    c as int % 13
}

/// Usual rank value (1 = Ace .. 13 = King).
pub open spec fn rank_spec(c: u8) -> int {
    rank0_spec(c) + 1
}

/// Hearts and diamonds are red.
pub open spec fn red_spec(c: u8) -> bool {
    suit_spec(c) == COEUR as int || suit_spec(c) == CARREAU as int
}

/// A byte that names one of the 52 cards.
pub open spec fn is_card(c: u8) -> bool {
    c < NUM_CARDS
}

pub fn make_card(suit: usize, rank0: u8) -> (c: Card)
    requires
        suit < NUM_SUITS,
        rank0 < NUM_RANKS,
    ensures
        c == suit * 13 + rank0,
        is_card(c),
        suit_spec(c) == suit,
        rank0_spec(c) == rank0,
{
    let c: u8 = (suit as u8) * 13 + rank0;
    assert(suit_spec(c) == suit && rank0_spec(c) == rank0) by (nonlinear_arith)
        requires
            c == suit * 13 + rank0,
            suit < 4,
            rank0 < 13,
    ;
    c
}

pub fn suit_of(c: Card) -> (s: usize)
    ensures
        s == suit_spec(c),
        is_card(c) ==> s < NUM_SUITS,
{
    (c / 13) as usize
}

/// 0-indexed rank: 0 = Ace .. 12 = King.
pub fn rank0_of(c: Card) -> (r: u8)
    ensures
        r == rank0_spec(c),
        r < 13,
{
    c % 13
}

/// Usual rank value: 1 = Ace .. 13 = King (handy to compare with foundations).
pub fn rank_value(c: Card) -> (r: u8)
    ensures
        r == rank_spec(c),
        1 <= r <= 13,
{
    rank0_of(c) + 1
}

pub fn is_red(c: Card) -> (b: bool)
    ensures
        b == red_spec(c),
{
    let s = suit_of(c);
    s == COEUR || s == CARREAU
}

pub fn opposite_color(a: Card, b: Card) -> (r: bool)
    ensures
        r == (red_spec(a) != red_spec(b)),
{
    is_red(a) != is_red(b)
}

/// The 52 cards in canonical order (suit by suit, Ace to King): the card at
/// position `i` is the byte `i`.
pub fn all_cards() -> (out: [Card; NUM_CARDS])
    ensures
        forall|i: int| 0 <= i < NUM_CARDS ==> out@[i] == i,
{
    let mut out = [0u8; 52];
    let mut i: usize = 0;
    let mut suit: usize = 0;
    while suit < NUM_SUITS
        invariant
            suit <= NUM_SUITS,
            i == suit * 13,
            forall|k: int| 0 <= k < i ==> out@[k] == k,
        decreases NUM_SUITS - suit,
    {
        let mut rank0: usize = 0;
        while rank0 < NUM_RANKS
            invariant
                suit < NUM_SUITS,
                rank0 <= NUM_RANKS,
                i == suit * 13 + rank0,
                forall|k: int| 0 <= k < i ==> out@[k] == k,
            decreases NUM_RANKS - rank0,
        {
            out[i] = make_card(suit, rank0 as u8);
            i += 1;
            rank0 += 1;
        }
        suit += 1;
    }
    out
}

} // verus!
