//! Full state of a Klondike game that is **entirely determined**: every card,
//! face-down ones and those still in the stock included, has a known
//! identity. Uncertainty about cards the player has not seen is resolved
//! before a state is built, by sampling a plausible world (see
//! `determinize`).
//!
//! Representation: fixed-size buffers, no heap allocation. A column is a
//! card buffer indexed from the bottom (index 0, the first card laid) to the
//! top (`len - 1`, the visible top card). `face_down` counts how many cards,
//! from the bottom, are still turned over. Taking the top card only
//! decrements `len`; the bytes past `len` stay in memory but are no longer
//! part of the column.
use vstd::prelude::*;
use crate::card::{Card, NONE, is_card};
use crate::zobrist::{
    MAX_COL_LEN, MAX_STOCK, NUM_COLUMNS, key_col_card, key_col_facedown, key_foundation,
    key_stock_pos, key_stock_pointer, lemma_xor_assoc, lemma_xor_self, col_card_key,
    col_facedown_key, foundation_key, stock_pos_key, stock_pointer_key,
};

verus! {

/// Abstract column: its cards from bottom to top, and how many of them, from
/// the bottom, are face down.
#[verifier::ext_equal]
pub struct ColumnView {
    pub cards: Seq<u8>,
    pub face_down: nat,
}

impl ColumnView {
    pub open spec fn len(self) -> nat {
        self.cards.len()
    }

    /// Sizes fit the buffers and every card is one of the 52.
    pub open spec fn shape_ok(self) -> bool {
        &&& self.cards.len() <= MAX_COL_LEN
        &&& self.face_down <= self.cards.len()
        &&& self.face_down < MAX_COL_LEN
        &&& forall|i: int| 0 <= i < self.cards.len() ==> is_card(#[trigger] self.cards[i])
    }

    /// The column shows a face-up card.
    pub open spec fn has_top(self) -> bool {
        self.face_down < self.cards.len()
    }

    pub open spec fn top(self) -> u8 {
        self.cards.last()
    }

    pub open spec fn face_up(self) -> nat {
        (self.cards.len() - self.face_down) as nat
    }

    pub open spec fn push(self, c: u8) -> ColumnView {
        ColumnView { cards: self.cards.push(c), face_down: self.face_down }
    }

    pub open spec fn pop(self) -> ColumnView {
        ColumnView { cards: self.cards.drop_last(), face_down: self.face_down }
    }

    /// The column without its top `n` cards.
    pub open spec fn pop_n(self, n: nat) -> ColumnView {
        ColumnView { cards: self.cards.take(self.cards.len() - n), face_down: self.face_down }
    }

    /// The column with `run` laid on top of it.
    pub open spec fn push_all(self, run: Seq<u8>) -> ColumnView {
        ColumnView { cards: self.cards + run, face_down: self.face_down }
    }

    /// Turns over the new top card when no face-up card is left.
    pub open spec fn reveal_if_needed(self) -> ColumnView {
        if self.cards.len() == self.face_down && self.face_down > 0 {
            ColumnView { cards: self.cards, face_down: (self.face_down - 1) as nat }
        } else {
            self
        }
    }

    /// Turns the lowest face-up card back over.
    pub open spec fn unreveal(self) -> ColumnView {
        ColumnView { cards: self.cards, face_down: self.face_down + 1 }
    }
}

/// Abstract game state.
#[verifier::ext_equal]
pub struct StateView {
    pub columns: Seq<ColumnView>,
    pub foundations: Seq<u8>,
    /// The stock and the waste: `[0, stock_pointer)` is the waste (already
    /// drawn), `[stock_pointer, len)` what is left to draw.
    pub stock: Seq<u8>,
    pub stock_pointer: nat,
}

impl StateView {
    pub open spec fn shape_ok(self) -> bool {
        &&& self.columns.len() == NUM_COLUMNS
        &&& forall|c: int| 0 <= c < NUM_COLUMNS ==> (#[trigger] self.columns[c]).shape_ok()
        &&& self.foundations.len() == 4
        &&& forall|s: int| 0 <= s < 4 ==> #[trigger] self.foundations[s] <= 13
        &&& self.stock.len() <= MAX_STOCK
        &&& self.stock_pointer <= self.stock.len()
        &&& forall|i: int| 0 <= i < self.stock.len() ==> is_card(#[trigger] self.stock[i])
    }

    pub open spec fn set_column(self, c: int, col: ColumnView) -> StateView {
        StateView { columns: self.columns.update(c, col), ..self }
    }

    pub open spec fn set_foundation(self, s: int, level: u8) -> StateView {
        StateView { foundations: self.foundations.update(s, level), ..self }
    }

    pub open spec fn set_pointer(self, p: nat) -> StateView {
        StateView { stock_pointer: p, ..self }
    }

    /// The waste's top card.
    pub open spec fn waste_top(self) -> u8 {
        self.stock[self.stock_pointer - 1]
    }

    /// The waste's top card taken out of the stock for good.
    pub open spec fn remove_waste_top(self) -> StateView {
        StateView {
            stock: self.stock.remove(self.stock_pointer - 1),
            stock_pointer: (self.stock_pointer - 1) as nat,
            ..self
        }
    }

    /// `card` put back into the stock just below pointer `old_pointer`.
    pub open spec fn reinsert(self, card: u8, old_pointer: nat) -> StateView {
        StateView {
            stock: self.stock.insert(old_pointer - 1, card),
            stock_pointer: old_pointer,
            ..self
        }
    }

    pub open spec fn is_won(self) -> bool {
        &&& self.foundations[0] == 13
        &&& self.foundations[1] == 13
        &&& self.foundations[2] == 13
        &&& self.foundations[3] == 13
    }

    pub open spec fn foundation_count(self) -> int {
        self.foundations[0] + self.foundations[1] + self.foundations[2] + self.foundations[3]
    }
}

// ---- The hash of a state: the XOR of the keys of the facts that hold ----
/// XOR of the keys of the face-up cards `cards[lo..hi]` of column `c`.
pub open spec fn cards_hash(c: int, cards: Seq<u8>, lo: int, hi: int) -> u64
    decreases hi - lo,
{
    if hi <= lo {
        0
    } else {
        cards_hash(c, cards, lo, hi - 1) ^ key_col_card(c, hi - 1, cards[hi - 1] as int)
    }
}

/// Contribution of column `c` to the hash.
pub open spec fn col_hash(c: int, col: ColumnView) -> u64 {
    key_col_facedown(c, col.face_down as int) ^ cards_hash(
        c,
        col.cards,
        col.face_down as int,
        col.cards.len() as int,
    )
}

/// Contribution of the first `n` columns.
pub open spec fn cols_hash(cols: Seq<ColumnView>, n: int) -> u64
    decreases n,
{
    if n <= 0 {
        0
    } else {
        cols_hash(cols, n - 1) ^ col_hash(n - 1, cols[n - 1])
    }
}

/// Contribution of the first `n` foundations.
pub open spec fn foundations_hash(f: Seq<u8>, n: int) -> u64
    decreases n,
{
    if n <= 0 {
        0
    } else {
        foundations_hash(f, n - 1) ^ key_foundation(n - 1, f[n - 1] as int)
    }
}

/// Contribution of the first `n` stock positions.
pub open spec fn stock_hash_spec(stock: Seq<u8>, n: int) -> u64
    decreases n,
{
    if n <= 0 {
        0
    } else {
        stock_hash_spec(stock, n - 1) ^ key_stock_pos(n - 1, stock[n - 1] as int)
    }
}

/// The hash of a state.
pub open spec fn state_hash(v: StateView) -> u64 {
    ((cols_hash(v.columns, 7) ^ foundations_hash(v.foundations, 4)) ^ stock_hash_spec(
        v.stock,
        v.stock.len() as int,
    )) ^ key_stock_pointer(v.stock_pointer as int)
}

// ---- Hash lemmas ----
proof fn lemma_cards_hash_ext(c: int, a: Seq<u8>, b: Seq<u8>, lo: int, hi: int)
    requires
        forall|i: int| lo <= i < hi ==> a[i] == b[i],
    ensures
        cards_hash(c, a, lo, hi) == cards_hash(c, b, lo, hi),
    decreases hi - lo,
{
    if hi > lo {
        lemma_cards_hash_ext(c, a, b, lo, hi - 1);
    }
}

/// Peeling the lowest card of the range.
proof fn lemma_cards_hash_low(c: int, cards: Seq<u8>, lo: int, hi: int)
    requires
        lo < hi,
    ensures
        cards_hash(c, cards, lo, hi) == key_col_card(c, lo, cards[lo] as int) ^ cards_hash(
            c,
            cards,
            lo + 1,
            hi,
        ),
    decreases hi - lo,
{
    let k = key_col_card(c, lo, cards[lo] as int);
    if hi == lo + 1 {
        assert(cards_hash(c, cards, lo, lo) == 0);
        assert(cards_hash(c, cards, lo + 1, hi) == 0);
        lemma_xor_self(k, 0);
    } else {
        lemma_cards_hash_low(c, cards, lo, hi - 1);
        let x = cards_hash(c, cards, lo + 1, hi - 1);
        let kh = key_col_card(c, hi - 1, cards[hi - 1] as int);
        lemma_xor_assoc(k, x, kh);
    }
}

proof fn lemma_stock_hash_ext(a: Seq<u8>, b: Seq<u8>, n: int)
    requires
        forall|i: int| 0 <= i < n ==> a[i] == b[i],
    ensures
        stock_hash_spec(a, n) == stock_hash_spec(b, n),
    decreases n,
{
    if n > 0 {
        lemma_stock_hash_ext(a, b, n - 1);
    }
}

/// Changing one column changes the columns' contribution by the XOR of the
/// old and new contributions of that column.
proof fn lemma_cols_hash_update(cols: Seq<ColumnView>, n: int, c: int, col: ColumnView)
    requires
        0 <= c < cols.len(),
        n <= cols.len(),
    ensures
        c < n ==> cols_hash(cols.update(c, col), n) == cols_hash(cols, n) ^ (col_hash(c, cols[c])
            ^ col_hash(c, col)),
        c >= n ==> cols_hash(cols.update(c, col), n) == cols_hash(cols, n),
    decreases n,
{
    let cols2 = cols.update(c, col);
    if n > 0 {
        lemma_cols_hash_update(cols, n - 1, c, col);
        let d = col_hash(c, cols[c]) ^ col_hash(c, col);
        if c == n - 1 {
            let a = cols_hash(cols, n - 1);
            let o = col_hash(c, cols[c]);
            let nw = col_hash(c, col);
            assert((a ^ nw) == (a ^ o) ^ (o ^ nw)) by (bit_vector);
        } else if c < n - 1 {
            let a = cols_hash(cols, n - 1);
            let x = col_hash(n - 1, cols[n - 1]);
            assert(((a ^ d) ^ x) == (a ^ x) ^ d) by (bit_vector);
        }
    }
}

proof fn lemma_foundations_hash_update(f: Seq<u8>, n: int, s: int, level: u8)
    requires
        0 <= s < f.len(),
        n <= f.len(),
    ensures
        s < n ==> foundations_hash(f.update(s, level), n) == foundations_hash(f, n) ^ (
        key_foundation(s, f[s] as int) ^ key_foundation(s, level as int)),
        s >= n ==> foundations_hash(f.update(s, level), n) == foundations_hash(f, n),
    decreases n,
{
    if n > 0 {
        lemma_foundations_hash_update(f, n - 1, s, level);
        let d = key_foundation(s, f[s] as int) ^ key_foundation(s, level as int);
        let a = foundations_hash(f, n - 1);
        if s == n - 1 {
            let o = key_foundation(s, f[s] as int);
            let nw = key_foundation(s, level as int);
            assert((a ^ nw) == (a ^ o) ^ (o ^ nw)) by (bit_vector);
        } else if s < n - 1 {
            let x = key_foundation(n - 1, f[n - 1] as int);
            assert(((a ^ d) ^ x) == (a ^ x) ^ d) by (bit_vector);
        }
    }
}

/// The whole hash moves by `d` when one of its four parts moves by `d`.
proof fn lemma_hash_parts(h: u64, a: u64, b: u64, c: u64, e: u64, d: u64)
    requires
        h == ((a ^ b) ^ c) ^ e,
    ensures
        h ^ d == (((a ^ d) ^ b) ^ c) ^ e,
        h ^ d == ((a ^ (b ^ d)) ^ c) ^ e,
        h ^ d == ((a ^ b) ^ (c ^ d)) ^ e,
        h ^ d == ((a ^ b) ^ c) ^ (e ^ d),
{
    assert(h ^ d == (((a ^ d) ^ b) ^ c) ^ e) by (bit_vector)
        requires
            h == ((a ^ b) ^ c) ^ e,
    ;
    assert(h ^ d == ((a ^ (b ^ d)) ^ c) ^ e) by (bit_vector)
        requires
            h == ((a ^ b) ^ c) ^ e,
    ;
    assert(h ^ d == ((a ^ b) ^ (c ^ d)) ^ e) by (bit_vector)
        requires
            h == ((a ^ b) ^ c) ^ e,
    ;
    assert(h ^ d == ((a ^ b) ^ c) ^ (e ^ d)) by (bit_vector)
        requires
            h == ((a ^ b) ^ c) ^ e,
    ;
}


/// The stock buffer after the card at `p` left it and the cards above slid
/// down one place (`len` cards before).
pub open spec fn stock_after_removal(s: Seq<u8>, p: int, len: int) -> Seq<u8> {
    Seq::new(
        MAX_STOCK as nat,
        |i: int|
            if p <= i < len - 1 {
                s[i + 1]
            } else if i == len - 1 {
                NONE
            } else {
                s[i]
            },
    )
}

/// The stock buffer after `card` went back in at `at`, the cards from `at`
/// up sliding one place up (`len` cards after).
pub open spec fn stock_after_insertion(s: Seq<u8>, at: int, len: int, card: u8) -> Seq<u8> {
    Seq::new(
        MAX_STOCK as nat,
        |i: int|
            if at < i < len {
                s[i - 1]
            } else if i == at {
                card
            } else {
                s[i]
            },
    )
}

/// A fixed-size column: `cards[0..len]` from bottom to top, the lowest
/// `face_down` of them turned over.
#[derive(Clone, Copy)]
pub struct Column {
    pub cards: [Card; MAX_COL_LEN],
    pub len: u8,
    pub face_down: u8,
}

impl View for Column {
    type V = ColumnView;

    open spec fn view(&self) -> ColumnView {
        ColumnView { cards: self.cards@.take(self.len as int), face_down: self.face_down as nat }
    }
}

impl Column {
    pub fn empty() -> (c: Column)
        ensures
            c.len == 0,
            c.face_down == 0,
            forall|i: int| 0 <= i < MAX_COL_LEN ==> c.cards@[i] == NONE,
            c@.cards.len() == 0,
    {
        let c = Column { cards: [NONE; 24], len: 0, face_down: 0 };
        assert(c@.cards =~= Seq::<u8>::empty());
        c
    }

    pub fn face_up_count(&self) -> (n: u8)
        requires
            self.face_down <= self.len,
        ensures
            n == self.len - self.face_down,
    {
        self.len - self.face_down
    }

    pub fn is_empty(&self) -> (b: bool)
        ensures
            b == (self.len == 0),
    {
        self.len == 0
    }

    /// The top card when it is face up.
    pub fn top(&self) -> (t: Option<Card>)
        requires
            self.len <= MAX_COL_LEN,
        ensures
            t == (if self.len > self.face_down {
                Some(self.cards@[self.len - 1])
            } else {
                None
            }),
            t == (if self@.has_top() {
                Some(self@.top())
            } else {
                None
            }),
    {
        if self.len > self.face_down {
            Some(self.cards[(self.len - 1) as usize])
        } else {
            None
        }
    }

    /// The face-up card at index `idx` counted from the lowest face-up card
    /// (0 is the card just above the face-down pile).
    pub fn card_at(&self, idx: u8) -> (c: Card)
        requires
            self.face_down <= self.len <= MAX_COL_LEN,
            idx < self.len - self.face_down,
        ensures
            c == self.cards@[self.face_down + idx],
            c == self@.cards[self.face_down + idx],
    {
        self.cards[(self.face_down + idx) as usize]
    }
}

#[derive(Clone, Copy)]
pub struct State {
    pub columns: [Column; NUM_COLUMNS],
    /// Level reached by each foundation: 0 = no card, 13 = complete.
    pub foundations: [u8; 4],
    pub stock: [Card; MAX_STOCK],
    pub stock_len: u8,
    /// `[0, pointer)` is the waste (already drawn), `[pointer, stock_len)`
    /// what is left to draw.
    pub stock_pointer: u8,
    pub hash: u64,
    /// Contribution of the stock to `hash`, cached so that it can be taken out
    /// and recomputed after a card leaves the stock.
    pub stock_hash: u64,
}

impl View for State {
    type V = StateView;

    open spec fn view(&self) -> StateView {
        StateView {
            columns: self.columns@.map_values(|c: Column| c@),
            foundations: self.foundations@,
            stock: self.stock@.take(self.stock_len as int),
            stock_pointer: self.stock_pointer as nat,
        }
    }
}

impl State {
    /// Buffer sizes hold the abstract state.
    pub open spec fn sizes_ok(&self) -> bool {
        &&& forall|c: int| 0 <= c < NUM_COLUMNS ==> (#[trigger] self.columns@[c]).len <= MAX_COL_LEN
        &&& self.stock_len <= MAX_STOCK
    }

    /// The sizes fit and every card is one of the 52 (well-formedness
    /// without the hash).
    pub open spec fn shaped(&self) -> bool {
        &&& self.sizes_ok()
        &&& self@.shape_ok()
    }

    /// Well-formed: the sizes fit, every card is one of the 52, and `hash`
    /// (with its cached stock part) is the hash of the state.
    pub open spec fn wf(&self) -> bool {
        &&& self.sizes_ok()
        &&& self@.shape_ok()
        &&& self.hash == state_hash(self@)
        &&& self.stock_hash == stock_hash_spec(self@.stock, self@.stock.len() as int)
    }

    /// Everything but column `col` and the hash is as in `other`.
    pub open spec fn same_but_column(&self, other: &State, col: int) -> bool {
        &&& forall|c: int| 0 <= c < NUM_COLUMNS && c != col ==> #[trigger] self.columns@[c]
            == other.columns@[c]
        &&& self.foundations == other.foundations
        &&& self.stock == other.stock
        &&& self.stock_len == other.stock_len
        &&& self.stock_pointer == other.stock_pointer
        &&& self.stock_hash == other.stock_hash
    }

    /// The columns and foundations are as in `other`.
    pub open spec fn same_tableau(&self, other: &State) -> bool {
        &&& self.columns == other.columns
        &&& self.foundations == other.foundations
    }

    proof fn lemma_view_columns(&self)
        ensures
            self@.columns.len() == NUM_COLUMNS,
            forall|c: int| 0 <= c < NUM_COLUMNS ==> #[trigger] self@.columns[c] == self.columns@[c]@,
    {
    }

    /// Changing column `col` only: the view changes at `col` only.
    proof fn lemma_view_set_column(&self, old: &State, col: int)
        requires
            0 <= col < NUM_COLUMNS,
            self.same_but_column(old, col),
        ensures
            self@ == old@.set_column(col, self.columns@[col]@),
    {
        assert(self@.columns =~= old@.columns.update(col, self.columns@[col]@));
    }


    /// A change of column `col` alone, with the hash moved by the change of
    /// that column's contribution, keeps the state well formed.
    proof fn lemma_column_change(&self, old: &State, col: int, d: u64)
        requires
            0 <= col < NUM_COLUMNS,
            old.wf(),
            self.same_but_column(old, col),
            self.columns@[col].len <= MAX_COL_LEN,
            self.columns@[col]@.shape_ok(),
            d == col_hash(col, old.columns@[col]@) ^ col_hash(col, self.columns@[col]@),
            self.hash == old.hash ^ d,
        ensures
            self.wf(),
            self@ == old@.set_column(col, self.columns@[col]@),
    {
        self.lemma_view_set_column(old, col);
        old.lemma_view_columns();
        self.lemma_view_columns();
        lemma_cols_hash_update(old@.columns, 7, col, self.columns@[col]@);
        lemma_hash_parts(
            old.hash,
            cols_hash(old@.columns, 7),
            foundations_hash(old@.foundations, 4),
            stock_hash_spec(old@.stock, old@.stock.len() as int),
            key_stock_pointer(old@.stock_pointer as int),
            d,
        );
        assert forall|c: int| 0 <= c < NUM_COLUMNS implies (#[trigger] self@.columns[c]).shape_ok() by {
            if c != col {
                assert(self@.columns[c] == old@.columns[c]);
            }
        }
    }


    proof fn lemma_push_wf(&self, old: &State, col: int, card: u8)
        requires
            0 <= col < NUM_COLUMNS,
            old.wf(),
            is_card(card),
            old.columns@[col].len < MAX_COL_LEN,
            self.same_but_column(old, col),
            self.columns@[col].cards@ == old.columns@[col].cards@.update(
                old.columns@[col].len as int,
                card,
            ),
            self.columns@[col].len == old.columns@[col].len + 1,
            self.columns@[col].face_down == old.columns@[col].face_down,
            self.hash == old.hash ^ key_col_card(col, old.columns@[col].len as int, card as int),
        ensures
            self.wf(),
            self@ == old@.set_column(col, old@.columns[col].push(card)),
    {
        old.lemma_view_columns();
        let oc = old.columns@[col]@;
        let nc = self.columns@[col]@;
        let idx = old.columns@[col].len as int;
        assert(old@.columns[col] == oc);
        assert(oc.shape_ok());
        assert(nc.cards =~= oc.cards.push(card));
        assert(nc == oc.push(card));
        let fd = oc.face_down as int;
        lemma_cards_hash_ext(col, nc.cards, oc.cards, fd, idx);
        assert(nc.cards[idx] == card);
        assert(cards_hash(col, nc.cards, fd, idx + 1) == cards_hash(col, nc.cards, fd, idx)
            ^ key_col_card(col, idx, card as int));
        let x = cards_hash(col, oc.cards, fd, idx);
        let a = key_col_facedown(col, fd);
        let k = key_col_card(col, idx, card as int);
        assert(col_hash(col, nc) == a ^ (x ^ k));
        assert((a ^ x) ^ (a ^ (x ^ k)) == k) by (bit_vector);
        assert(oc.shape_ok());
        assert(nc.shape_ok());
        self.lemma_column_change(old, col, k);
    }

    proof fn lemma_reveal_wf(&self, old: &State, col: int, k1: u64, k2: u64, k3: u64)
        requires
            0 <= col < NUM_COLUMNS,
            old.wf(),
            old.columns@[col].len == old.columns@[col].face_down,
            old.columns@[col].face_down > 0,
            self.same_but_column(old, col),
            self.columns@[col].cards == old.columns@[col].cards,
            self.columns@[col].len == old.columns@[col].len,
            self.columns@[col].face_down == old.columns@[col].face_down - 1,
            k1 == key_col_facedown(col, old.columns@[col].face_down as int),
            k2 == key_col_facedown(col, old.columns@[col].face_down - 1),
            k3 == key_col_card(
                col,
                old.columns@[col].face_down - 1,
                old.columns@[col].cards@[old.columns@[col].face_down - 1] as int,
            ),
            self.hash == ((old.hash ^ k1) ^ k2) ^ k3,
        ensures
            self.wf(),
            self@ == old@.set_column(col, old@.columns[col].reveal_if_needed()),
    {
        old.lemma_view_columns();
        let oc = old.columns@[col]@;
        let nc = self.columns@[col]@;
        assert(old@.columns[col] == oc);
        assert(oc.shape_ok());
        assert(nc.cards == oc.cards);
        assert(nc == oc.reveal_if_needed());
        let fd = oc.face_down as int;
        assert(cards_hash(col, oc.cards, fd, fd) == 0);
        assert(cards_hash(col, nc.cards, fd - 1, fd - 1) == 0);
        assert(cards_hash(col, nc.cards, fd - 1, fd) == 0 ^ k3);
        let h = old.hash;
        assert((((h ^ k1) ^ k2) ^ k3) == h ^ ((k1 ^ 0) ^ (k2 ^ (0 ^ k3)))) by (bit_vector);
        self.lemma_column_change(old, col, (k1 ^ 0) ^ (k2 ^ (0 ^ k3)));
    }

    /// Pushes `card` on top of column `col` (face up).
    pub fn col_push(&mut self, col: usize, card: Card)
        requires
            col < NUM_COLUMNS,
            old(self).columns@[col as int].len < MAX_COL_LEN,
            is_card(card),
        ensures
            final(self).same_but_column(old(self), col as int),
            final(self).columns@[col as int].cards@ == old(self).columns@[col as int].cards@.update(
                old(self).columns@[col as int].len as int,
                card,
            ),
            final(self).columns@[col as int].len == old(self).columns@[col as int].len + 1,
            final(self).columns@[col as int].face_down == old(self).columns@[col as int].face_down,
            final(self).hash == old(self).hash ^ key_col_card(
                col as int,
                old(self).columns@[col as int].len as int,
                card as int,
            ),
            old(self).wf() ==> final(self).wf() && final(self)@ == old(self)@.set_column(
                col as int,
                old(self)@.columns[col as int].push(card),
            ),
    {
        let idx = self.columns[col].len as usize;
        let k = col_card_key(col, idx, card);
        self.columns[col].cards[idx] = card;
        self.columns[col].len = self.columns[col].len + 1;
        self.hash = self.hash ^ k;
        proof {
            if old(self).wf() {
                self.lemma_push_wf(old(self), col as int, card);
            }
        }
    }

    /// Takes the top card of column `col` (does NOT turn over the card below:
    /// see `maybe_reveal`).
    pub fn col_pop(&mut self, col: usize) -> (card: Card)
        requires
            col < NUM_COLUMNS,
            0 < old(self).columns@[col as int].len <= MAX_COL_LEN,
            is_card(old(self).columns@[col as int].cards@[old(self).columns@[col as int].len - 1]),
        ensures
            card == old(self).columns@[col as int].cards@[old(self).columns@[col as int].len - 1],
            final(self).same_but_column(old(self), col as int),
            final(self).columns@[col as int].cards == old(self).columns@[col as int].cards,
            final(self).columns@[col as int].len == old(self).columns@[col as int].len - 1,
            final(self).columns@[col as int].face_down == old(self).columns@[col as int].face_down,
            final(self).hash == old(self).hash ^ key_col_card(
                col as int,
                old(self).columns@[col as int].len - 1,
                card as int,
            ),
            old(self).wf() && old(self)@.columns[col as int].has_top() ==> final(self).wf()
                && card == old(self)@.columns[col as int].top() && final(self)@ == old(self)@.set_column(col as int, old(self)@.columns[col as int].pop()),
    {
        let newlen = self.columns[col].len - 1;
        self.columns[col].len = newlen;
        let idx = newlen as usize;
        let card = self.columns[col].cards[idx];
        let k = col_card_key(col, idx, card);
        self.hash = self.hash ^ k;
        proof {
            if old(self).wf() && old(self)@.columns[col as int].has_top() {
                let oc = old(self).columns@[col as int]@;
                let nc = self.columns@[col as int]@;
                assert(nc.cards =~= oc.cards.drop_last());
                let c = col as int;
                let fd = oc.face_down as int;
                lemma_cards_hash_ext(c, nc.cards, oc.cards, fd, idx as int);
                let x = cards_hash(c, nc.cards, fd, idx as int);
                let a = key_col_facedown(c, fd);
                assert(col_hash(c, oc) == a ^ (x ^ k));
                assert((a ^ (x ^ k)) ^ (a ^ x) == k) by (bit_vector);
                self.lemma_column_change(old(self), c, k);
            }
        }
        card
    }

    /// After one or more `col_pop`: when column `col` has no face-up card left
    /// but still has face-down cards, turns over its new top card. Returns
    /// whether a card was turned over.
    pub fn maybe_reveal(&mut self, col: usize) -> (revealed: bool)
        requires
            col < NUM_COLUMNS,
            old(self).columns@[col as int].len == old(self).columns@[col as int].face_down
                && old(self).columns@[col as int].face_down > 0 ==> {
                &&& old(self).columns@[col as int].face_down < MAX_COL_LEN
                &&& is_card(
                    old(self).columns@[col as int].cards@[old(self).columns@[col as int].face_down
                        - 1],
                )
            },
        ensures
            revealed == (old(self).columns@[col as int].len == old(self).columns@[col as int].face_down
                && old(self).columns@[col as int].face_down > 0),
            !revealed ==> *final(self) == *old(self),
            revealed ==> {
                let fd = old(self).columns@[col as int].face_down;
                &&& final(self).same_but_column(old(self), col as int)
                &&& final(self).columns@[col as int].cards == old(self).columns@[col as int].cards
                &&& final(self).columns@[col as int].len == old(self).columns@[col as int].len
                &&& final(self).columns@[col as int].face_down == fd - 1
                &&& final(self).hash == ((old(self).hash ^ key_col_facedown(col as int, fd as int))
                    ^ key_col_facedown(col as int, fd - 1)) ^ key_col_card(
                    col as int,
                    fd - 1,
                    old(self).columns@[col as int].cards@[fd - 1] as int,
                )
            },
            old(self).wf() ==> final(self).wf() && final(self)@ == old(self)@.set_column(
                col as int,
                old(self)@.columns[col as int].reveal_if_needed(),
            ),
    {
        if self.columns[col].len == self.columns[col].face_down && self.columns[col].face_down > 0 {
            let old_fd = self.columns[col].face_down as usize;
            let k1 = col_facedown_key(col, old_fd);
            self.hash = self.hash ^ k1;
            self.columns[col].face_down = self.columns[col].face_down - 1;
            let new_fd = self.columns[col].face_down as usize;
            let k2 = col_facedown_key(col, new_fd);
            self.hash = self.hash ^ k2;
            let revealed_card = self.columns[col].cards[new_fd];
            let k3 = col_card_key(col, new_fd, revealed_card);
            self.hash = self.hash ^ k3;
            proof {
                if old(self).wf() {
                    self.lemma_reveal_wf(old(self), col as int, k1, k2, k3);
                }
            }
            true
        } else {
            proof {
                if old(self).wf() {
                    assert(old(self)@.columns[col as int].reveal_if_needed() == old(self)@.columns[col as int]);
                    assert(old(self)@.columns =~= old(self)@.columns.update(col as int, old(self)@.columns[col as int]));
                }
            }
            false
        }
    }

    /// Exact inverse of `maybe_reveal` (used when a move is taken back).
    pub fn unreveal(&mut self, col: usize)
        requires
            col < NUM_COLUMNS,
            old(self).columns@[col as int].face_down + 1 < MAX_COL_LEN,
            is_card(old(self).columns@[col as int].cards@[old(self).columns@[col as int].face_down as int]),
        ensures
            ({
                let fd = old(self).columns@[col as int].face_down;
                &&& final(self).same_but_column(old(self), col as int)
                &&& final(self).columns@[col as int].cards == old(self).columns@[col as int].cards
                &&& final(self).columns@[col as int].len == old(self).columns@[col as int].len
                &&& final(self).columns@[col as int].face_down == fd + 1
                &&& final(self).hash == ((old(self).hash ^ key_col_card(
                    col as int,
                    fd as int,
                    old(self).columns@[col as int].cards@[fd as int] as int,
                )) ^ key_col_facedown(col as int, fd as int)) ^ key_col_facedown(col as int, fd + 1)
            }),
            old(self).wf() && old(self)@.columns[col as int].has_top() ==> final(self).wf()
                && final(self)@ == old(self)@.set_column(
                col as int,
                old(self)@.columns[col as int].unreveal(),
            ),
    {
        let fd = self.columns[col].face_down as usize;
        let revealed_card = self.columns[col].cards[fd];
        let k1 = col_card_key(col, fd, revealed_card);
        self.hash = self.hash ^ k1;
        let k2 = col_facedown_key(col, fd);
        self.hash = self.hash ^ k2;
        self.columns[col].face_down = self.columns[col].face_down + 1;
        let k3 = col_facedown_key(col, self.columns[col].face_down as usize);
        self.hash = self.hash ^ k3;
        proof {
            if old(self).wf() && old(self)@.columns[col as int].has_top() {
                let oc = old(self).columns@[col as int]@;
                let nc = self.columns@[col as int]@;
                assert(nc.cards == oc.cards);
                assert(nc == oc.unreveal());
                let c = col as int;
                let len = oc.cards.len() as int;
                lemma_cards_hash_low(c, oc.cards, fd as int, len);
                let x = cards_hash(c, oc.cards, fd + 1, len);
                let h = old(self).hash;
                assert((((h ^ k1) ^ k2) ^ k3) == h ^ ((k2 ^ (k1 ^ x)) ^ (k3 ^ x))) by (bit_vector);
                self.lemma_column_change(old(self), c, (k2 ^ (k1 ^ x)) ^ (k3 ^ x));
            }
        }
    }


    /// Everything but the foundations and the hash is as in `other`.
    pub open spec fn same_but_foundations(&self, other: &State) -> bool {
        &&& self.columns == other.columns
        &&& self.stock == other.stock
        &&& self.stock_len == other.stock_len
        &&& self.stock_pointer == other.stock_pointer
        &&& self.stock_hash == other.stock_hash
    }

    /// Everything but the stock pointer and the hash is as in `other`.
    pub open spec fn same_but_pointer(&self, other: &State) -> bool {
        &&& self.columns == other.columns
        &&& self.foundations == other.foundations
        &&& self.stock == other.stock
        &&& self.stock_len == other.stock_len
        &&& self.stock_hash == other.stock_hash
    }

    proof fn lemma_foundation_change(&self, old: &State, suit: int, level: u8)
        requires
            0 <= suit < 4,
            level <= 13,
            old.wf(),
            self.same_but_foundations(old),
            self.foundations@ == old.foundations@.update(suit, level),
            self.hash == old.hash ^ (key_foundation(suit, old.foundations@[suit] as int)
                ^ key_foundation(suit, level as int)),
        ensures
            self.wf(),
            self@ == old@.set_foundation(suit, level),
    {
        assert(self@.columns == old@.columns);
        assert(self@ == old@.set_foundation(suit, level));
        lemma_foundations_hash_update(old@.foundations, 4, suit, level);
        lemma_hash_parts(
            old.hash,
            cols_hash(old@.columns, 7),
            foundations_hash(old@.foundations, 4),
            stock_hash_spec(old@.stock, old@.stock.len() as int),
            key_stock_pointer(old@.stock_pointer as int),
            key_foundation(suit, old.foundations@[suit] as int) ^ key_foundation(suit, level as int),
        );
    }

    proof fn lemma_pointer_change(&self, old: &State)
        requires
            old.wf(),
            self.same_but_pointer(old),
            self.stock_pointer <= self.stock_len,
            self.hash == old.hash ^ (key_stock_pointer(old.stock_pointer as int) ^ key_stock_pointer(
                self.stock_pointer as int,
            )),
        ensures
            self.wf(),
            self@ == old@.set_pointer(self.stock_pointer as nat),
    {
        assert(self@.columns == old@.columns);
        assert(self@ == old@.set_pointer(self.stock_pointer as nat));
        lemma_hash_parts(
            old.hash,
            cols_hash(old@.columns, 7),
            foundations_hash(old@.foundations, 4),
            stock_hash_spec(old@.stock, old@.stock.len() as int),
            key_stock_pointer(old@.stock_pointer as int),
            key_stock_pointer(old.stock_pointer as int) ^ key_stock_pointer(self.stock_pointer as int),
        );
        let a = key_stock_pointer(old.stock_pointer as int);
        let b = key_stock_pointer(self.stock_pointer as int);
        assert(a ^ (a ^ b) == b) by (bit_vector);
    }

    /// Sets foundation `suit` to `new_level`.
    pub fn set_foundation(&mut self, suit: usize, new_level: u8)
        requires
            suit < 4,
            old(self).foundations@[suit as int] < 14,
            new_level < 14,
        ensures
            final(self).same_but_foundations(old(self)),
            final(self).foundations@ == old(self).foundations@.update(suit as int, new_level),
            final(self).hash == (old(self).hash ^ key_foundation(
                suit as int,
                old(self).foundations@[suit as int] as int,
            )) ^ key_foundation(suit as int, new_level as int),
            old(self).wf() && new_level <= 13 ==> final(self).wf() && final(self)@ == old(self)@.set_foundation(suit as int, new_level),
    {
        let old_level = self.foundations[suit];
        let k1 = foundation_key(suit, old_level);
        self.hash = self.hash ^ k1;
        self.foundations[suit] = new_level;
        let k2 = foundation_key(suit, new_level);
        self.hash = self.hash ^ k2;
        proof {
            if old(self).wf() && new_level <= 13 {
                lemma_xor_assoc(old(self).hash, k1, k2);
                self.lemma_foundation_change(old(self), suit as int, new_level);
            }
        }
    }

    /// Draws one card from the stock onto the waste.
    pub fn draw(&mut self)
        requires
            old(self).stock_pointer < MAX_STOCK,
        ensures
            final(self).same_but_pointer(old(self)),
            final(self).stock_pointer == old(self).stock_pointer + 1,
            final(self).hash == (old(self).hash ^ key_stock_pointer(
                old(self).stock_pointer as int,
            )) ^ key_stock_pointer(old(self).stock_pointer + 1),
            old(self).wf() && old(self).stock_pointer < old(self).stock_len ==> final(self).wf()
                && final(self)@ == old(self)@.set_pointer(old(self)@.stock_pointer + 1),
    {
        let k1 = stock_pointer_key(self.stock_pointer);
        self.hash = self.hash ^ k1;
        self.stock_pointer = self.stock_pointer + 1;
        let k2 = stock_pointer_key(self.stock_pointer);
        self.hash = self.hash ^ k2;
        proof {
            if old(self).wf() && old(self).stock_pointer < old(self).stock_len {
                lemma_xor_assoc(old(self).hash, k1, k2);
                self.lemma_pointer_change(old(self));
            }
        }
    }

    /// Puts the waste's top card back onto the stock.
    pub fn undraw(&mut self)
        requires
            0 < old(self).stock_pointer <= MAX_STOCK,
        ensures
            final(self).same_but_pointer(old(self)),
            final(self).stock_pointer == old(self).stock_pointer - 1,
            final(self).hash == (old(self).hash ^ key_stock_pointer(
                old(self).stock_pointer as int,
            )) ^ key_stock_pointer(old(self).stock_pointer - 1),
            old(self).wf() ==> final(self).wf() && final(self)@ == old(self)@.set_pointer(
                (old(self)@.stock_pointer - 1) as nat,
            ),
    {
        let k1 = stock_pointer_key(self.stock_pointer);
        self.hash = self.hash ^ k1;
        self.stock_pointer = self.stock_pointer - 1;
        let k2 = stock_pointer_key(self.stock_pointer);
        self.hash = self.hash ^ k2;
        proof {
            if old(self).wf() {
                lemma_xor_assoc(old(self).hash, k1, k2);
                self.lemma_pointer_change(old(self));
            }
        }
    }

    /// Turns the whole waste back over into the stock.
    pub fn recycle(&mut self)
        requires
            old(self).stock_pointer <= MAX_STOCK,
        ensures
            final(self).same_but_pointer(old(self)),
            final(self).stock_pointer == 0,
            final(self).hash == (old(self).hash ^ key_stock_pointer(
                old(self).stock_pointer as int,
            )) ^ key_stock_pointer(0),
            old(self).wf() ==> final(self).wf() && final(self)@ == old(self)@.set_pointer(0),
    {
        let k1 = stock_pointer_key(self.stock_pointer);
        self.hash = self.hash ^ k1;
        self.stock_pointer = 0;
        let k2 = stock_pointer_key(0);
        self.hash = self.hash ^ k2;
        proof {
            if old(self).wf() {
                lemma_xor_assoc(old(self).hash, k1, k2);
                self.lemma_pointer_change(old(self));
            }
        }
    }

    /// Takes back a `recycle`: the pointer returns to `old_pointer`.
    pub fn unrecycle(&mut self, old_pointer: u8)
        requires
            old(self).stock_pointer <= MAX_STOCK,
            old_pointer <= MAX_STOCK,
        ensures
            final(self).same_but_pointer(old(self)),
            final(self).stock_pointer == old_pointer,
            final(self).hash == (old(self).hash ^ key_stock_pointer(
                old(self).stock_pointer as int,
            )) ^ key_stock_pointer(old_pointer as int),
            old(self).wf() && old_pointer <= old(self).stock_len ==> final(self).wf() && final(self)@ == old(self)@.set_pointer(old_pointer as nat),
    {
        let k1 = stock_pointer_key(self.stock_pointer);
        self.hash = self.hash ^ k1;
        self.stock_pointer = old_pointer;
        let k2 = stock_pointer_key(self.stock_pointer);
        self.hash = self.hash ^ k2;
        proof {
            if old(self).wf() && old_pointer <= old(self).stock_len {
                lemma_xor_assoc(old(self).hash, k1, k2);
                self.lemma_pointer_change(old(self));
            }
        }
    }


    proof fn lemma_stock_change(&self, old: &State)
        requires
            old.wf(),
            self.columns == old.columns,
            self.foundations == old.foundations,
            self.stock_len <= MAX_STOCK,
            self.stock_pointer <= self.stock_len,
            forall|i: int| 0 <= i < self.stock_len ==> is_card(#[trigger] self.stock@[i]),
            self.stock_hash == stock_hash_spec(self@.stock, self@.stock.len() as int),
            self.hash == (((old.hash ^ old.stock_hash) ^ key_stock_pointer(
                old.stock_pointer as int,
            )) ^ key_stock_pointer(self.stock_pointer as int)) ^ self.stock_hash,
        ensures
            self.wf(),
    {
        assert(self@.columns == old@.columns);
        let c = cols_hash(old@.columns, 7);
        let f = foundations_hash(old@.foundations, 4);
        let s1 = old.stock_hash;
        let p1 = key_stock_pointer(old.stock_pointer as int);
        let s2 = self.stock_hash;
        let p2 = key_stock_pointer(self.stock_pointer as int);
        assert((((((((c ^ f) ^ s1) ^ p1) ^ s1) ^ p1) ^ p2) ^ s2) == ((c ^ f) ^ s2) ^ p2)
            by (bit_vector);
        assert forall|i: int| 0 <= i < self@.stock.len() implies is_card(#[trigger] self@.stock[i]) by {
            assert(self@.stock[i] == self.stock@[i]);
        }
    }

    fn compute_stock_hash(stock: &[Card; MAX_STOCK], stock_len: u8) -> (h: u64)
        requires
            stock_len <= MAX_STOCK,
            forall|i: int| 0 <= i < stock_len ==> is_card(#[trigger] stock@[i]),
        ensures
            h == stock_hash_spec(stock@, stock_len as int),
    {
        let mut h: u64 = 0;
        let mut i: usize = 0;
        while i < stock_len as usize
            invariant
                stock_len <= MAX_STOCK,
                i <= stock_len,
                forall|j: int| 0 <= j < stock_len ==> is_card(#[trigger] stock@[j]),
                h == stock_hash_spec(stock@, i as int),
            decreases stock_len - i,
        {
            let k = stock_pos_key(i, stock[i]);
            h = h ^ k;
            i += 1;
        }
        h
    }

    fn retract_stock_hash(&mut self)
        ensures
            *final(self) == (State { hash: old(self).hash ^ old(self).stock_hash, ..*old(self) }),
    {
        self.hash = self.hash ^ self.stock_hash;
    }

    fn apply_stock_hash(&mut self)
        requires
            old(self).stock_len <= MAX_STOCK,
            forall|i: int| 0 <= i < old(self).stock_len ==> is_card(#[trigger] old(self).stock@[i]),
        ensures
            final(self).stock_hash == stock_hash_spec(old(self).stock@, old(self).stock_len as int),
            *final(self) == (State {
                hash: old(self).hash ^ final(self).stock_hash,
                stock_hash: final(self).stock_hash,
                ..*old(self)
            }),
    {
        self.stock_hash = Self::compute_stock_hash(&self.stock, self.stock_len);
        self.hash = self.hash ^ self.stock_hash;
    }

    /// Takes the waste's top card out of the stock for good (it is played to
    /// a column or a foundation) and closes the gap: the cards above it slide
    /// down one place.
    pub fn stock_remove_top(&mut self) -> (card: Card)
        requires
            0 < old(self).stock_pointer <= MAX_STOCK,
            0 < old(self).stock_len <= MAX_STOCK,
            forall|i: int|
                0 <= i < old(self).stock_len - 1 ==> is_card(
                    #[trigger] stock_after_removal(
                        old(self).stock@,
                        old(self).stock_pointer - 1,
                        old(self).stock_len as int,
                    )[i],
                ),
        ensures
            card == old(self).stock@[old(self).stock_pointer - 1],
            final(self).same_tableau(old(self)),
            final(self).stock@ == stock_after_removal(
                old(self).stock@,
                old(self).stock_pointer - 1,
                old(self).stock_len as int,
            ),
            final(self).stock_len == old(self).stock_len - 1,
            final(self).stock_pointer == old(self).stock_pointer - 1,
            final(self).stock_hash == stock_hash_spec(
                final(self).stock@,
                final(self).stock_len as int,
            ),
            final(self).hash == (((old(self).hash ^ old(self).stock_hash) ^ key_stock_pointer(
                old(self).stock_pointer as int,
            )) ^ key_stock_pointer(old(self).stock_pointer - 1)) ^ final(self).stock_hash,
            old(self).wf() ==> final(self).wf() && card == old(self)@.waste_top() && final(self)@
                == old(self)@.remove_waste_top(),
    {
        self.retract_stock_hash();
        let k1 = stock_pointer_key(self.stock_pointer);
        self.hash = self.hash ^ k1;
        let p = (self.stock_pointer - 1) as usize;
        let card = self.stock[p];
        let last = self.stock_len as usize - 1;
        let mut i = p;
        while i < last
            invariant
                p <= i,
                i <= last || i == p,
                last < MAX_STOCK,
                p < MAX_STOCK,
                self.hash == (old(self).hash ^ old(self).stock_hash) ^ k1,
                self.stock_hash == old(self).stock_hash,
                self.columns == old(self).columns,
                self.foundations == old(self).foundations,
                self.stock_len == old(self).stock_len,
                self.stock_pointer == old(self).stock_pointer,
                forall|j: int|
                    0 <= j < MAX_STOCK ==> #[trigger] self.stock@[j] == if p <= j < i {
                        old(self).stock@[j + 1]
                    } else {
                        old(self).stock@[j]
                    },
            decreases last - i,
        {
            self.stock[i] = self.stock[i + 1];
            i += 1;
        }
        self.stock[last] = NONE;
        self.stock_len = self.stock_len - 1;
        self.stock_pointer = self.stock_pointer - 1;
        assert(self.stock@ =~= stock_after_removal(
            old(self).stock@,
            old(self).stock_pointer - 1,
            old(self).stock_len as int,
        ));
        let k2 = stock_pointer_key(self.stock_pointer);
        self.hash = self.hash ^ k2;
        self.apply_stock_hash();
        proof {
            if old(self).wf() {
                assert(self@.stock =~= old(self)@.stock.remove(p as int));
                lemma_stock_hash_ext(self.stock@, self@.stock, self.stock_len as int);
                self.lemma_stock_change(old(self));
                assert(self@.columns == old(self)@.columns);
            }
        }
        card
    }

    /// Inverse of `stock_remove_top`: puts `card` back where it was (just
    /// below the old pointer).
    pub fn stock_reinsert(&mut self, card: Card, old_pointer: u8, old_len: u8)
        requires
            0 < old_pointer <= MAX_STOCK,
            0 < old_len <= MAX_STOCK,
            old(self).stock_pointer <= MAX_STOCK,
            forall|i: int|
                0 <= i < old_len ==> is_card(
                    #[trigger] stock_after_insertion(
                        old(self).stock@,
                        old_pointer - 1,
                        old_len as int,
                        card,
                    )[i],
                ),
        ensures
            final(self).same_tableau(old(self)),
            final(self).stock@ == stock_after_insertion(
                old(self).stock@,
                old_pointer - 1,
                old_len as int,
                card,
            ),
            final(self).stock_len == old_len,
            final(self).stock_pointer == old_pointer,
            final(self).stock_hash == stock_hash_spec(final(self).stock@, old_len as int),
            final(self).hash == (((old(self).hash ^ old(self).stock_hash) ^ key_stock_pointer(
                old(self).stock_pointer as int,
            )) ^ key_stock_pointer(old_pointer as int)) ^ final(self).stock_hash,
            old(self).wf() && old_len == old(self).stock_len + 1 && old_pointer <= old_len
                ==> final(self).wf() && final(self)@ == old(self)@.reinsert(
                card,
                old_pointer as nat,
            ),
    {
        self.retract_stock_hash();
        let k1 = stock_pointer_key(self.stock_pointer);
        self.hash = self.hash ^ k1;
        let insert_at = (old_pointer - 1) as usize;
        let mut i = old_len as usize - 1;
        while i > insert_at
            invariant
                insert_at < MAX_STOCK,
                i < old_len <= MAX_STOCK,
                self.hash == (old(self).hash ^ old(self).stock_hash) ^ k1,
                self.stock_hash == old(self).stock_hash,
                self.columns == old(self).columns,
                self.foundations == old(self).foundations,
                self.stock_len == old(self).stock_len,
                self.stock_pointer == old(self).stock_pointer,
                forall|j: int|
                    0 <= j < MAX_STOCK ==> #[trigger] self.stock@[j] == if i < j < old_len
                        && insert_at < j {
                        old(self).stock@[j - 1]
                    } else {
                        old(self).stock@[j]
                    },
            decreases i,
        {
            self.stock[i] = self.stock[i - 1];
            i -= 1;
        }
        self.stock[insert_at] = card;
        self.stock_len = old_len;
        self.stock_pointer = old_pointer;
        assert(self.stock@ =~= stock_after_insertion(
            old(self).stock@,
            old_pointer - 1,
            old_len as int,
            card,
        ));
        let k2 = stock_pointer_key(self.stock_pointer);
        self.hash = self.hash ^ k2;
        self.apply_stock_hash();
        proof {
            if old(self).wf() && old_len == old(self).stock_len + 1 && old_pointer <= old_len {
                assert(self@.stock =~= old(self)@.stock.insert(insert_at as int, card));
                lemma_stock_hash_ext(self.stock@, self@.stock, self.stock_len as int);
                self.lemma_stock_change(old(self));
                assert(self@.columns == old(self)@.columns);
            }
        }
    }


    /// The buffers can be hashed: sizes fit the key tables and every hashed
    /// card is one of the 52.
    pub open spec fn hashable(&self) -> bool {
        &&& forall|c: int|
            0 <= c < NUM_COLUMNS ==> {
                let col = #[trigger] self.columns@[c];
                &&& col.len <= MAX_COL_LEN
                &&& col.face_down < MAX_COL_LEN
                &&& forall|i: int| col.face_down <= i < col.len ==> is_card(#[trigger] col.cards@[i])
            }
        &&& forall|s: int| 0 <= s < 4 ==> #[trigger] self.foundations@[s] < 14
        &&& self.stock_len <= MAX_STOCK
        &&& self.stock_pointer <= MAX_STOCK
        &&& forall|i: int| 0 <= i < self.stock_len ==> is_card(#[trigger] self.stock@[i])
    }

    fn columns_hash(&self) -> (h: u64)
        requires
            self.hashable(),
        ensures
            h == cols_hash(self@.columns, 7),
    {
        let mut h: u64 = 0;
        let mut col: usize = 0;
        while col < NUM_COLUMNS
            invariant
                col <= NUM_COLUMNS,
                self.hashable(),
                h == cols_hash(self@.columns, col as int),
            decreases NUM_COLUMNS - col,
        {
            let c = self.columns[col];
            let ghost cv = self@.columns[col as int];
            assert(cv == c@);
            let kfd = col_facedown_key(col, c.face_down as usize);
            let ghost base = h;
            h = h ^ kfd;
            let mut idx = c.face_down as usize;
            proof {
                lemma_xor_self(kfd, 0);
                assert(cards_hash(col as int, cv.cards, idx as int, idx as int) == 0);
                lemma_xor_assoc(base, kfd, 0);
            }
            while idx < c.len as usize
                invariant
                    c.face_down <= idx <= c.len || (idx == c.face_down && c.len < c.face_down),
                    c.len <= MAX_COL_LEN,
                    col < NUM_COLUMNS,
                    forall|i: int| c.face_down <= i < c.len ==> is_card(#[trigger] c.cards@[i]),
                    cv == c@,
                    h == base ^ (kfd ^ cards_hash(col as int, cv.cards, c.face_down as int, idx as int)),
                decreases c.len - idx,
            {
                let k = col_card_key(col, idx, c.cards[idx]);
                let ghost x = cards_hash(col as int, cv.cards, c.face_down as int, idx as int);
                assert(cv.cards[idx as int] == c.cards@[idx as int]);
                assert((base ^ (kfd ^ x)) ^ k == base ^ (kfd ^ (x ^ k))) by (bit_vector);
                h = h ^ k;
                idx += 1;
            }
            proof {
                if c.len < c.face_down {
                    assert(cards_hash(col as int, cv.cards, c.face_down as int, cv.cards.len() as int) == 0);
                }
            }
            col += 1;
        }
        h
    }

    /// Recomputes the whole hash (used when a world is built, never in the
    /// solver's inner loop).
    pub fn recompute_hash_from_scratch(&mut self)
        requires
            old(self).hashable(),
        ensures
            final(self).columns == old(self).columns,
            final(self).foundations == old(self).foundations,
            final(self).stock == old(self).stock,
            final(self).stock_len == old(self).stock_len,
            final(self).stock_pointer == old(self).stock_pointer,
            final(self).stock_hash == stock_hash_spec(final(self)@.stock, final(self)@.stock.len() as int),
            final(self).hash == state_hash(final(self)@),
            old(self).sizes_ok() && old(self)@.shape_ok() ==> final(self).wf(),
    {
        let mut h = self.columns_hash();
        let ghost c = h;
        proof {
            lemma_xor_self(c, 0);
        }
        let mut suit: usize = 0;
        while suit < 4
            invariant
                suit <= 4,
                self.hashable(),
                h == c ^ foundations_hash(self@.foundations, suit as int),
            decreases 4 - suit,
        {
            let k = foundation_key(suit, self.foundations[suit]);
            proof {
                lemma_xor_assoc(c, foundations_hash(self@.foundations, suit as int), k);
            }
            h = h ^ k;
            suit += 1;
        }
        self.stock_hash = Self::compute_stock_hash(&self.stock, self.stock_len);
        h = h ^ self.stock_hash;
        let kp = stock_pointer_key(self.stock_pointer);
        h = h ^ kp;
        self.hash = h;
        proof {
            lemma_stock_hash_ext(self.stock@, self@.stock, self.stock_len as int);
            assert(self@.columns == old(self)@.columns);
        }
    }

    /// Builds a state from a fully determined world. `column_cards[i]` goes
    /// from bottom to top; the lowest `column_facedown[i]` of them start face
    /// down. `stock_cards` is the drawing order (index 0 is drawn first).
    pub fn deal(
        column_cards: &[Vec<Card>; NUM_COLUMNS],
        column_facedown: &[u8; NUM_COLUMNS],
        stock_cards: &[Card],
    ) -> (state: State)
        requires
            forall|i: int|
                0 <= i < NUM_COLUMNS ==> {
                    &&& (#[trigger] column_cards@[i])@.len() <= MAX_COL_LEN
                    &&& column_facedown@[i] <= column_cards@[i]@.len()
                    &&& column_facedown@[i] < MAX_COL_LEN
                    &&& forall|j: int|
                        0 <= j < column_cards@[i]@.len() ==> is_card(#[trigger] column_cards@[i]@[j])
                },
            stock_cards@.len() <= MAX_STOCK,
            forall|j: int| 0 <= j < stock_cards@.len() ==> is_card(#[trigger] stock_cards@[j]),
        ensures
            state.wf(),
            forall|i: int|
                0 <= i < NUM_COLUMNS ==> (#[trigger] state@.columns[i]).cards == column_cards@[i]@
                    && state@.columns[i].face_down == column_facedown@[i],
            state@.foundations == seq![0u8, 0u8, 0u8, 0u8],
            state@.stock == stock_cards@,
            state@.stock_pointer == 0,
            forall|i: int, j: int|
                0 <= i < NUM_COLUMNS && column_cards@[i]@.len() <= j < MAX_COL_LEN
                    ==> #[trigger] state.columns@[i].cards@[j] == NONE,
            forall|j: int| stock_cards@.len() <= j < MAX_STOCK ==> #[trigger] state.stock@[j] == NONE,
    {
        let mut columns = [Column::empty();7];
        let mut i: usize = 0;
        while i < NUM_COLUMNS
            invariant
                i <= NUM_COLUMNS,
                forall|c: int|
                    0 <= c < NUM_COLUMNS ==> {
                        &&& (#[trigger] column_cards@[c])@.len() <= MAX_COL_LEN
                        &&& column_facedown@[c] <= column_cards@[c]@.len()
                        &&& column_facedown@[c] < MAX_COL_LEN
                        &&& forall|j: int|
                            0 <= j < column_cards@[c]@.len() ==> is_card(
                                #[trigger] column_cards@[c]@[j],
                            )
                    },
                forall|c: int|
                    0 <= c < i ==> (#[trigger] columns@[c]).len == column_cards@[c]@.len()
                        && columns@[c].face_down == column_facedown@[c] && (forall|j: int|
                        0 <= j < MAX_COL_LEN ==> #[trigger] columns@[c].cards@[j] == if j
                            < column_cards@[c]@.len() {
                            column_cards@[c]@[j]
                        } else {
                            NONE
                        }),
                forall|c: int, j: int|
                    i <= c < NUM_COLUMNS && 0 <= j < MAX_COL_LEN ==> #[trigger] columns@[c].cards@[j]
                        == NONE,
            decreases NUM_COLUMNS - i,
        {
            let src = &column_cards[i];
            let n = src.len();
            let mut idx: usize = 0;
            let ghost before = columns@;
            while idx < n
                invariant
                    i < NUM_COLUMNS,
                    idx <= n,
                    n == src@.len(),
                    n <= MAX_COL_LEN,
                    src == column_cards@[i as int],
                    forall|c: int|
                        0 <= c < NUM_COLUMNS && c != i ==> #[trigger] columns@[c] == before[c],
                    columns@[i as int].len == before[i as int].len,
                    columns@[i as int].face_down == before[i as int].face_down,
                    forall|j: int|
                        0 <= j < MAX_COL_LEN ==> #[trigger] columns@[i as int].cards@[j] == if j
                            < idx {
                            src@[j]
                        } else {
                            NONE
                        },
                decreases n - idx,
            {
                columns[i].cards[idx] = src[idx];
                idx += 1;
            }
            columns[i].len = n as u8;
            columns[i].face_down = column_facedown[i];
            i += 1;
        }
        let mut stock = [NONE;24];
        let mut j: usize = 0;
        while j < stock_cards.len()
            invariant
                j <= stock_cards@.len() <= MAX_STOCK,
                forall|k: int|
                    0 <= k < MAX_STOCK ==> #[trigger] stock@[k] == if k < j {
                        stock_cards@[k]
                    } else {
                        NONE
                    },
            decreases stock_cards@.len() - j,
        {
            stock[j] = stock_cards[j];
            j += 1;
        }
        let mut state = State {
            columns,
            foundations: [0;4],
            stock,
            stock_len: stock_cards.len() as u8,
            stock_pointer: 0,
            hash: 0,
            stock_hash: 0,
        };
        state.recompute_hash_from_scratch();
        state
    }

    /// Column `c` of a well-formed state, as the view sees it.
    pub proof fn lemma_wf_column(&self, c: int)
        requires
            self.shaped(),
            0 <= c < NUM_COLUMNS,
        ensures
            self@.columns[c] == self.columns@[c]@,
            self.columns@[c]@.shape_ok(),
            self.columns@[c].len <= MAX_COL_LEN,
            self.columns@[c]@.len() == self.columns@[c].len,
            self.columns@[c]@.face_down == self.columns@[c].face_down,
            forall|i: int| 0 <= i < self.columns@[c].len ==> #[trigger] self.columns@[c]@.cards[i] == self.columns@[c].cards@[i],
    {
        assert(self@.columns[c] == self.columns@[c]@);
    }

    /// What well-formedness says of the buffers.
    pub proof fn lemma_wf_facts(&self)
        requires
            self.shaped(),
        ensures
            self@.stock.len() == self.stock_len,
            self.stock_len <= MAX_STOCK,
            self@.stock_pointer == self.stock_pointer,
            self.stock_pointer <= self.stock_len,
            forall|i: int| 0 <= i < self.stock_len ==> is_card(#[trigger] self.stock@[i]),
            forall|i: int| 0 <= i < self.stock_len ==> #[trigger] self@.stock[i] == self.stock@[i],
            self@.foundations == self.foundations@,
            forall|s: int| 0 <= s < 4 ==> #[trigger] self.foundations@[s] <= 13,
            self@.columns.len() == NUM_COLUMNS,
            forall|c: int| 0 <= c < NUM_COLUMNS ==> #[trigger] self@.columns[c] == self.columns@[c]@,
            forall|c: int| 0 <= c < NUM_COLUMNS ==> (#[trigger] self.columns@[c]).len <= MAX_COL_LEN,
            forall|c: int| 0 <= c < NUM_COLUMNS ==> (#[trigger] self.columns@[c])@.shape_ok(),
    {
        assert forall|i: int| 0 <= i < self.stock_len implies is_card(#[trigger] self.stock@[i]) by {
            assert(self@.stock[i] == self.stock@[i]);
        }
        assert forall|c: int| 0 <= c < NUM_COLUMNS implies (#[trigger] self.columns@[c])@.shape_ok() by {
            assert(self@.columns[c] == self.columns@[c]@);
        }
    }

    pub fn is_won(&self) -> (b: bool)
        ensures
            b == self@.is_won(),
    {
        self.foundations[0] == 13 && self.foundations[1] == 13 && self.foundations[2] == 13
            && self.foundations[3] == 13
    }

    /// Number of cards already on the foundations (progress measure, 0..52).
    pub fn foundation_count(&self) -> (n: u32)
        ensures
            n == self@.foundation_count(),
    {
        self.foundations[0] as u32 + self.foundations[1] as u32 + self.foundations[2] as u32
            + self.foundations[3] as u32
    }

    /// The waste's top card, if the waste is not empty.
    pub fn stock_top(&self) -> (t: Option<Card>)
        requires
            self.stock_pointer <= MAX_STOCK,
        ensures
            t == (if self.stock_pointer > 0 {
                Some(self.stock@[self.stock_pointer - 1])
            } else {
                None
            }),
            self.shaped() ==> t == (if self@.stock_pointer > 0 {
                Some(self@.waste_top())
            } else {
                None
            }),
    {
        if self.stock_pointer > 0 {
            Some(self.stock[(self.stock_pointer - 1) as usize])
        } else {
            None
        }
    }
}

// ---- Laws of the primitives ----
/// The hash of a well-formed state depends on its position alone: two
/// well-formed states showing the same position have the same hash.
pub proof fn lemma_hash_is_positional(a: State, b: State)
    requires
        a.wf(),
        b.wf(),
        a@ == b@,
    ensures
        a.hash == b.hash,
{
}

/// `unreveal` exactly undoes the turn made by `maybe_reveal`.
pub proof fn lemma_unreveal_undoes_reveal(v: StateView, c: int)
    requires
        v.shape_ok(),
        0 <= c < NUM_COLUMNS,
        v.columns[c].len() == v.columns[c].face_down,
        v.columns[c].face_down > 0,
    ensures
        ({
            let revealed = v.set_column(c, v.columns[c].reveal_if_needed());
            revealed.set_column(c, revealed.columns[c].unreveal()) == v
        }),
{
    let revealed = v.set_column(c, v.columns[c].reveal_if_needed());
    assert(revealed.set_column(c, revealed.columns[c].unreveal()).columns =~= v.columns);
}

/// Popping a column gives back what it was before a push.
pub proof fn lemma_pop_undoes_push(v: StateView, c: int, card: u8)
    requires
        v.shape_ok(),
        0 <= c < NUM_COLUMNS,
    ensures
        ({
            let pushed = v.set_column(c, v.columns[c].push(card));
            pushed.set_column(c, pushed.columns[c].pop()) == v
        }),
{
    let pushed = v.set_column(c, v.columns[c].push(card));
    assert(v.columns[c].push(card).pop().cards =~= v.columns[c].cards);
    assert(pushed.set_column(c, pushed.columns[c].pop()).columns =~= v.columns);
}

/// `stock_reinsert` puts the waste's top card back where
/// `stock_remove_top` took it from.
pub proof fn lemma_reinsert_undoes_remove(v: StateView)
    requires
        v.shape_ok(),
        v.stock_pointer > 0,
    ensures
        v.remove_waste_top().reinsert(v.waste_top(), v.stock_pointer) == v,
{
    let r = v.remove_waste_top().reinsert(v.waste_top(), v.stock_pointer);
    assert(r.stock =~= v.stock);
}

/// Drawing back, and recycling back to the pointer held before, restore the
/// position.
pub proof fn lemma_pointer_moves_undone(v: StateView, p: nat)
    ensures
        v.set_pointer(p).set_pointer(v.stock_pointer) == v,
{
}

} // verus!
