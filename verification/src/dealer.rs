//! Building a `State` from a shuffled 52-card deck.
use vstd::prelude::*;
use vstd::multiset::Multiset;
use crate::card::{Card, NUM_CARDS, all_cards, is_card};
use crate::rng::{shuffle, shuffle_spec};
use crate::state::State;
use crate::apply::{cards_of, column_cards, fits, foundation_cards, suit_cards};
use crate::state::{ColumnView, StateView};
use crate::card::rank_spec;
use crate::zobrist::{MAX_STOCK, NUM_COLUMNS};

verus! {

/// Index in the deck of the first card of column `c`: columns get 1, 2, ...,
/// 7 cards in turn.
pub open spec fn deal_offset(c: int) -> int
    decreases c,
{
    if c <= 0 {
        0
    } else {
        deal_offset(c - 1) + c
    }
}

/// Number of cards dealt to the columns.
pub const TABLEAU_CARDS: usize = 28;

/// The 52 cards in canonical order.
pub open spec fn canonical_deck() -> Seq<u8> {
    Seq::new(NUM_CARDS as nat, |i: int| i as u8)
}

/// Every card of `deck` is one of the 52.
pub open spec fn all_cards_valid(deck: Seq<u8>) -> bool {
    forall|i: int| 0 <= i < deck.len() ==> is_card(#[trigger] deck[i])
}

proof fn lemma_offsets()
    ensures
        deal_offset(0) == 0,
        deal_offset(1) == 1,
        deal_offset(2) == 3,
        deal_offset(3) == 6,
        deal_offset(4) == 10,
        deal_offset(5) == 15,
        deal_offset(6) == 21,
        deal_offset(7) == 28,
        forall|c: int| 0 <= c <= 7 ==> 0 <= #[trigger] deal_offset(c) <= 28,
        forall|c: int| 0 <= c < 7 ==> #[trigger] deal_offset(c + 1) == deal_offset(c) + c + 1,
{
    reveal_with_fuel(deal_offset, 8);
    assert forall|c: int| 0 <= c <= 7 implies 0 <= #[trigger] deal_offset(c) <= 28 by {
        if c == 0 {} else if c == 1 {} else if c == 2 {} else if c == 3 {} else if c == 4 {}
        else if c == 5 {} else if c == 6 {} else {}
    }
}

/// Deals a shuffled deck: column `c` gets the next `c + 1` cards (bottom
/// first), all face down but the top one; the 24 cards left form the stock,
/// in drawing order.
pub fn deal_from_shuffle(shuffled: &[Card; NUM_CARDS]) -> (state: State)
    requires
        all_cards_valid(shuffled@),
    ensures
        state.wf(),
        forall|c: int|
            0 <= c < NUM_COLUMNS ==> (#[trigger] state@.columns[c]).cards == shuffled@.subrange(
                deal_offset(c),
                deal_offset(c) + c + 1,
            ) && state@.columns[c].face_down == c,
        state@.foundations == seq![0u8, 0u8, 0u8, 0u8],
        state@.stock == shuffled@.subrange(TABLEAU_CARDS as int, NUM_CARDS as int),
        state@.stock_pointer == 0,
        fits(state@),
{
    proof {
        lemma_offsets();
    }
    let mut column_cards: [Vec<Card>; NUM_COLUMNS] = [
        Vec::new(),
        Vec::new(),
        Vec::new(),
        Vec::new(),
        Vec::new(),
        Vec::new(),
        Vec::new(),
    ];
    let mut column_facedown = [0u8; 7];
    let mut idx: usize = 0;
    let mut col: usize = 0;
    while col < NUM_COLUMNS
        invariant
            col <= NUM_COLUMNS,
            idx == deal_offset(col as int),
            all_cards_valid(shuffled@),
            deal_offset(7) == 28,
            forall|c: int| 0 <= c <= 7 ==> 0 <= #[trigger] deal_offset(c) <= 28,
            forall|c: int| 0 <= c < 7 ==> #[trigger] deal_offset(c + 1) == deal_offset(c) + c + 1,
            forall|c: int|
                0 <= c < col ==> (#[trigger] column_cards@[c])@ == shuffled@.subrange(
                    deal_offset(c),
                    deal_offset(c) + c + 1,
                ) && column_facedown@[c] == c,
            forall|c: int|
                col <= c < NUM_COLUMNS ==> (#[trigger] column_cards@[c])@.len() == 0
                    && column_facedown@[c] == 0,
        decreases NUM_COLUMNS - col,
    {
        assert(deal_offset(col + 1) == deal_offset(col as int) + col + 1);
        assert(deal_offset(col + 1) <= 28);
        assert(0 <= deal_offset(col as int));
        let size = col + 1;
        let mut cards: Vec<Card> = Vec::new();
        let mut facedown: u8 = 0;
        let mut i: usize = 0;
        while i < size
            invariant
                col < NUM_COLUMNS,
                size == col + 1,
                i <= size,
                idx == deal_offset(col as int) + i,
                deal_offset(col + 1) == deal_offset(col as int) + col + 1,
                deal_offset(col + 1) <= 28,
                0 <= deal_offset(col as int),
                cards@ == shuffled@.subrange(deal_offset(col as int), deal_offset(col as int) + i),
                facedown == if i < size - 1 {
                    i as int
                } else {
                    size - 1
                },
            decreases size - i,
        {
            assert(idx < 28);
            let ghost before = cards@;
            cards.push(shuffled[idx]);
            assert(cards@ == before.push(shuffled@[idx as int]));
            let ghost o = deal_offset(col as int);
            assert(o + i + 1 <= 28);
            assert(shuffled@.len() == 52);
            assert(0 <= o);
            assert(shuffled@.subrange(o, o + i + 1) =~= shuffled@.subrange(o, o + i).push(shuffled@[o + i]));
            idx += 1;
            if i < size - 1 {
                facedown += 1;
            }
            assert(cards@ =~= shuffled@.subrange(
                deal_offset(col as int),
                deal_offset(col as int) + i + 1,
            ));
            i += 1;
        }
        let ghost cc = cards@;
        let ghost before = column_cards@;
        let ghost fbefore = column_facedown@;
        column_cards[col] = cards;
        column_facedown[col] = facedown;
        assert(column_cards@[col as int]@ == cc);
        assert(forall|c: int| 0 <= c < NUM_COLUMNS && c != col ==> #[trigger] column_cards@[c] == before[c]);
        assert(forall|c: int| 0 <= c < NUM_COLUMNS && c != col ==> #[trigger] column_facedown@[c] == fbefore[c]);
        assert(facedown == col);
        assert(cc == shuffled@.subrange(deal_offset(col as int), deal_offset(col as int) + col + 1));
        col += 1;
    }
    let mut stock: Vec<Card> = Vec::new();
    while idx < NUM_CARDS
        invariant
            TABLEAU_CARDS <= idx <= NUM_CARDS,
            stock@ == shuffled@.subrange(TABLEAU_CARDS as int, idx as int),
        decreases NUM_CARDS - idx,
    {
        stock.push(shuffled[idx]);
        idx += 1;
        assert(stock@ =~= shuffled@.subrange(TABLEAU_CARDS as int, idx as int));
    }
    proof {
        assert forall|c: int| 0 <= c < NUM_COLUMNS implies {
            let cc = #[trigger] column_cards@[c];
            &&& cc@.len() <= 24
            &&& column_facedown@[c] <= cc@.len()
            &&& column_facedown@[c] < 24
            &&& forall|j: int| 0 <= j < cc@.len() ==> is_card(#[trigger] cc@[j])
        } by {
            assert(deal_offset(c) + c + 1 <= 28) by {
                reveal_with_fuel(deal_offset, 8);
            }
            assert forall|j: int| 0 <= j < column_cards@[c]@.len() implies is_card(
                #[trigger] column_cards@[c]@[j],
            ) by {
                assert(column_cards@[c]@[j] == shuffled@[deal_offset(c) + j]);
            }
        }
        assert forall|j: int| 0 <= j < stock@.len() implies is_card(#[trigger] stock@[j]) by {
            assert(stock@[j] == shuffled@[28 + j]);
        }
    }
    let state = State::deal(&column_cards, &column_facedown, stock.as_slice());
    proof {
        assert forall|c: int, i: int|
            0 <= c < NUM_COLUMNS && 0 <= i < state@.columns[c].len() implies i + rank_spec(
            #[trigger] state@.columns[c].cards[i],
        ) <= 24 by {
            assert(state@.columns[c].cards == column_cards@[c]@);
            assert(is_card(column_cards@[c]@[i]));
        }
    }
    state
}

/// The 52 cards shuffled with `seed`.
pub fn shuffled_deck(seed: u64) -> (deck: [Card; NUM_CARDS])
    ensures
        deck@ == shuffle_spec(canonical_deck(), seed),
        deck@.to_multiset() == canonical_deck().to_multiset(),
        all_cards_valid(deck@),
{
    let mut deck = all_cards();
    assert(deck@ =~= canonical_deck());
    shuffle(&mut deck, seed);
    proof {
        lemma_permutation_of_cards(deck@);
    }
    deck
}

/// A permutation of the 52 cards holds only cards.
proof fn lemma_permutation_of_cards(deck: Seq<u8>)
    requires
        deck.to_multiset() == canonical_deck().to_multiset(),
    ensures
        all_cards_valid(deck),
{
    broadcast use vstd::seq_lib::to_multiset_contains;

    assert forall|i: int| 0 <= i < deck.len() implies is_card(#[trigger] deck[i]) by {
        assert(deck.contains(deck[i]));
        assert(canonical_deck().to_multiset().count(deck[i]) > 0);
        assert(canonical_deck().contains(deck[i]));
    }
}

/// The deal of the deck shuffled with `seed`.
pub fn random_deal(seed: u64) -> (state: State)
    ensures
        state.wf(),
        ({
            let deck = shuffle_spec(canonical_deck(), seed);
            &&& forall|c: int|
                0 <= c < NUM_COLUMNS ==> (#[trigger] state@.columns[c]).cards == deck.subrange(
                    deal_offset(c),
                    deal_offset(c) + c + 1,
                ) && state@.columns[c].face_down == c
            &&& state@.foundations == seq![0u8, 0u8, 0u8, 0u8]
            &&& state@.stock == deck.subrange(TABLEAU_CARDS as int, NUM_CARDS as int)
            &&& state@.stock_pointer == 0
        }),
        fits(state@),
        cards_of(state@) == canonical_deck().to_multiset(),
{
    let deck = shuffled_deck(seed);
    let state = deal_from_shuffle(&deck);
    proof {
        lemma_deal_holds_the_deck(state@, deck@);
    }
    state
}

proof fn lemma_dealt_columns(cols: Seq<ColumnView>, deck: Seq<u8>, n: int)
    requires
        0 <= n <= 7,
        deck.len() == 52,
        cols.len() == 7,
        forall|c: int| 0 <= c <= 7 ==> 0 <= #[trigger] deal_offset(c) <= 28,
        forall|c: int| 0 <= c < 7 ==> #[trigger] deal_offset(c + 1) == deal_offset(c) + c + 1,
        deal_offset(0) == 0,
        forall|c: int|
            0 <= c < 7 ==> (#[trigger] cols[c]).cards == deck.subrange(
                deal_offset(c),
                deal_offset(c) + c + 1,
            ),
    ensures
        column_cards(cols, n) == deck.subrange(0, deal_offset(n)).to_multiset(),
    decreases n,
{
    broadcast use vstd::seq_lib::lemma_multiset_commutative;
    broadcast use vstd::seq_lib::group_to_multiset_ensures;
    broadcast use vstd::multiset::group_multiset_axioms;

    if n == 0 {
        assert(deck.subrange(0, 0) =~= Seq::<u8>::empty());
        assert(deck.subrange(0, 0).to_multiset() =~= Multiset::<u8>::empty());
    } else {
        lemma_dealt_columns(cols, deck, n - 1);
        let o = deal_offset(n - 1);
        assert(deal_offset(n) == o + n);
        assert(cols[n - 1].cards == deck.subrange(o, o + n));
        assert(deck.subrange(0, o + n) =~= deck.subrange(0, o) + deck.subrange(o, o + n));
    }
}

/// A deal holds each card of the deck it was dealt from, the stock included,
/// and none on the foundations.
pub proof fn lemma_deal_holds_the_deck(v: StateView, deck: Seq<u8>)
    requires
        deck.len() == 52,
        v.columns.len() == 7,
        forall|c: int|
            0 <= c < NUM_COLUMNS ==> (#[trigger] v.columns[c]).cards == deck.subrange(
                deal_offset(c),
                deal_offset(c) + c + 1,
            ),
        v.stock == deck.subrange(TABLEAU_CARDS as int, NUM_CARDS as int),
        v.foundations == seq![0u8, 0u8, 0u8, 0u8],
    ensures
        cards_of(v) == deck.to_multiset(),
{
    broadcast use vstd::seq_lib::lemma_multiset_commutative;
    broadcast use vstd::multiset::group_multiset_axioms;

    lemma_offsets();
    lemma_dealt_columns(v.columns, deck, 7);
    assert(deck =~= deck.subrange(0, 28) + deck.subrange(28, 52));
    assert(suit_cards(0, 0) == Multiset::<u8>::empty());
    assert(foundation_cards(v.foundations) =~= Multiset::<u8>::empty());
    assert(cards_of(v) =~= deck.to_multiset());
}

} // verus!
