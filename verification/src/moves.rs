//! Generation of the legal moves of a `State`.
//!
//! `MoveList` is a fixed-size buffer (no `Vec`): moves are generated at every
//! node the solver explores, possibly millions of times per solve, and a heap
//! allocation per node would be the first bottleneck.
use vstd::prelude::*;
use crate::card::{Card, is_card, opposite_color, rank_spec, rank_value, red_spec, suit_of, suit_spec};
use crate::state::{Column, ColumnView, State, StateView};
use crate::zobrist::{MAX_COL_LEN, NUM_COLUMNS};

verus! {

pub const MAX_MOVES: usize = 64;

#[derive(Clone, Copy, Debug, PartialEq, Eq, Hash, Structural)]
pub enum Move {
    Draw,
    Recycle,
    WasteToFoundation,
    WasteToColumn { dest: u8 },
    ColumnToFoundation { from: u8 },
    ColumnToColumn { from: u8, dest: u8, count: u8 },
}

impl Default for Move {
    fn default() -> (m: Move)
        ensures
            m == Move::Draw,
    {
        Move::Draw
    }
}

// ---- The rules ----
/// `card` may be laid on column `dest`: a King on an empty column, otherwise
/// a card of the other colour and one rank below the face-up top card.
pub open spec fn placeable(card: u8, dest: ColumnView) -> bool {
    if dest.len() == 0 {
        rank_spec(card) == 13
    } else if dest.has_top() {
        red_spec(card) != red_spec(dest.top()) && rank_spec(card) + 1 == rank_spec(dest.top())
    } else {
        false
    }
}

/// `b` may sit on `a` in a run: other colour, one rank below.
pub open spec fn links(a: u8, b: u8) -> bool {
    rank_spec(a) == rank_spec(b) + 1 && red_spec(a) != red_spec(b)
}

/// Walking down from index `i`, the lowest index (not below `fd`) reached
/// while each card sits on the one below it.
pub open spec fn run_down(cards: Seq<u8>, fd: int, i: int) -> int
    decreases i,
{
    if i > fd && i > 0 && links(cards[i - 1], cards[i]) {
        run_down(cards, fd, i - 1)
    } else {
        i
    }
}

/// Lowest physical index from which the cards up to the top form a run
/// (alternating colours, ranks decreasing by one going up): every index in
/// `[result, len - 1]` is a valid start of a move.
pub open spec fn run_start(col: ColumnView) -> int {
    if col.face_up() == 0 {
        col.len() as int
    } else {
        run_down(col.cards, col.face_down as int, col.len() - 1)
    }
}

/// `card` may go to its foundation.
pub open spec fn fits_foundation(v: StateView, card: u8) -> bool {
    v.foundations[suit_spec(card)] + 1 == rank_spec(card)
}

/// The rules of Klondike (draw one): when `mv` may be played in `v`.
pub open spec fn legal(v: StateView, mv: Move) -> bool {
    match mv {
        Move::Draw => v.stock_pointer < v.stock.len(),
        Move::Recycle => v.stock_pointer == v.stock.len() && v.stock.len() > 0,
        Move::WasteToFoundation => v.stock_pointer > 0 && fits_foundation(v, v.waste_top()),
        Move::WasteToColumn { dest } => v.stock_pointer > 0 && dest < NUM_COLUMNS && placeable(
            v.waste_top(),
            v.columns[dest as int],
        ),
        Move::ColumnToFoundation { from } => from < NUM_COLUMNS && v.columns[from as int].has_top()
            && fits_foundation(v, v.columns[from as int].top()),
        Move::ColumnToColumn { from, dest, count } => {
            let col = v.columns[from as int];
            let start = col.len() - count;
            &&& from < NUM_COLUMNS
            &&& dest < NUM_COLUMNS
            &&& from != dest
            &&& 1 <= count <= col.face_up()
            &&& run_start(col) <= start
            &&& placeable(col.cards[start], v.columns[dest as int])
        },
    }
}

// ---- The generated list, in generation order ----
pub open spec fn stock_moves(v: StateView) -> Seq<Move> {
    if v.stock_pointer < v.stock.len() {
        seq![Move::Draw]
    } else if v.stock_pointer == v.stock.len() && v.stock.len() > 0 {
        seq![Move::Recycle]
    } else {
        seq![]
    }
}

/// Moves of `card` from the waste to the columns `0..n`.
pub open spec fn waste_column_moves(v: StateView, card: u8, n: int) -> Seq<Move>
    decreases n,
{
    if n <= 0 {
        seq![]
    } else {
        waste_column_moves(v, card, n - 1) + if placeable(card, v.columns[n - 1]) {
            seq![Move::WasteToColumn { dest: (n - 1) as u8 }]
        } else {
            seq![]
        }
    }
}

pub open spec fn waste_moves(v: StateView) -> Seq<Move> {
    if v.stock_pointer > 0 {
        let card = v.waste_top();
        (if fits_foundation(v, card) {
            seq![Move::WasteToFoundation]
        } else {
            seq![]
        }) + waste_column_moves(v, card, NUM_COLUMNS as int)
    } else {
        seq![]
    }
}

/// Moves of the run starting at `start` of column `from` to the columns
/// `0..n` (other than `from`).
pub open spec fn run_dest_moves(v: StateView, from: int, start: int, n: int) -> Seq<Move>
    decreases n,
{
    if n <= 0 {
        seq![]
    } else {
        let col = v.columns[from];
        run_dest_moves(v, from, start, n - 1) + if n - 1 != from && placeable(
            col.cards[start],
            v.columns[n - 1],
        ) {
            seq![
                Move::ColumnToColumn {
                    from: from as u8,
                    dest: (n - 1) as u8,
                    count: (col.len() - start) as u8,
                },
            ]
        } else {
            seq![]
        }
    }
}

/// Moves of the runs of column `from` starting at `top`, `top - 1`, ...,
/// down to `low + 1`, in that order.
pub open spec fn run_moves(v: StateView, from: int, top: int, low: int) -> Seq<Move>
    decreases top - low,
{
    if low >= top {
        seq![]
    } else {
        run_moves(v, from, top, low + 1) + run_dest_moves(v, from, low + 1, NUM_COLUMNS as int)
    }
}

pub open spec fn column_moves(v: StateView, from: int) -> Seq<Move> {
    let col = v.columns[from];
    (if col.has_top() && fits_foundation(v, col.top()) {
        seq![Move::ColumnToFoundation { from: from as u8 }]
    } else {
        seq![]
    }) + if col.face_up() > 0 {
        run_moves(v, from, col.len() - 1, run_start(col) - 1)
    } else {
        seq![]
    }
}

/// Moves out of the columns `0..n`.
pub open spec fn columns_moves(v: StateView, n: int) -> Seq<Move>
    decreases n,
{
    if n <= 0 {
        seq![]
    } else {
        columns_moves(v, n - 1) + column_moves(v, n - 1)
    }
}

/// Every legal move, in generation order: stock, then waste, then each
/// column in turn (foundation first, then runs from the shortest).
pub open spec fn moves_spec(v: StateView) -> Seq<Move> {
    stock_moves(v) + waste_moves(v) + columns_moves(v, NUM_COLUMNS as int)
}

/// What a list of capacity `MAX_MOVES` keeps of `s`: its first `MAX_MOVES`
/// moves.
pub open spec fn capped(s: Seq<Move>) -> Seq<Move> {
    if s.len() <= MAX_MOVES {
        s
    } else {
        s.take(MAX_MOVES as int)
    }
}

proof fn lemma_capped_push(s: Seq<Move>, m: Move)
    ensures
        capped(s.push(m)) == if capped(s).len() < MAX_MOVES {
            capped(s).push(m)
        } else {
            capped(s)
        },
{
    if s.len() < MAX_MOVES {
    } else if s.len() == MAX_MOVES {
        assert(s.push(m).take(64) =~= s);
    } else {
        assert(s.push(m).take(64) =~= s.take(64));
    }
}

pub struct MoveList {
    pub items: [Move; MAX_MOVES],
    pub len: usize,
}

impl View for MoveList {
    type V = Seq<Move>;

    open spec fn view(&self) -> Seq<Move> {
        self.items@.take(self.len as int)
    }
}

impl MoveList {
    pub fn new() -> (l: MoveList)
        ensures
            l.len == 0,
            l@ == Seq::<Move>::empty(),
            forall|i: int| 0 <= i < MAX_MOVES ==> #[trigger] l.items@[i] == Move::Draw,
    {
        let l = MoveList { items: [Move::Draw; 64], len: 0 };
        assert(l@ =~= Seq::<Move>::empty());
        l
    }

    /// Appends `m` when there is room; a full list stays as it is.
    fn push(&mut self, m: Move)
        requires
            old(self).len <= MAX_MOVES,
        ensures
            final(self).len <= MAX_MOVES,
            old(self).len < MAX_MOVES ==> final(self).len == old(self).len + 1 && final(self).items@
                == old(self).items@.update(old(self).len as int, m),
            old(self).len == MAX_MOVES ==> *final(self) == *old(self),
            final(self)@ == if old(self).len < MAX_MOVES {
                old(self)@.push(m)
            } else {
                old(self)@
            },
    {
        if self.len < MAX_MOVES {
            self.items[self.len] = m;
            self.len = self.len + 1;
            assert(self@ =~= old(self)@.push(m));
        }
    }

    pub fn as_slice(&self) -> (s: &[Move])
        requires
            self.len <= MAX_MOVES,
        ensures
            s@ == self@,
    {
        &self.items[0..self.len]
    }
}


/// The cards from the run start up to the top each sit on the card below.
pub proof fn lemma_run_down_links(cards: Seq<u8>, fd: int, i: int)
    requires
        0 <= fd <= i < cards.len(),
    ensures
        fd <= run_down(cards, fd, i) <= i,
        forall|j: int| run_down(cards, fd, i) <= j < i ==> links(#[trigger] cards[j], cards[j + 1]),
    decreases i,
{
    if i > fd && i > 0 && links(cards[i - 1], cards[i]) {
        lemma_run_down_links(cards, fd, i - 1);
    }
}

proof fn lemma_waste_column_moves_legal(v: StateView, n: int)
    requires
        v.stock_pointer > 0,
        0 <= n <= NUM_COLUMNS,
    ensures
        forall|k: int|
            0 <= k < waste_column_moves(v, v.waste_top(), n).len() ==> legal(
                v,
                #[trigger] waste_column_moves(v, v.waste_top(), n)[k],
            ),
    decreases n,
{
    if n > 0 {
        lemma_waste_column_moves_legal(v, n - 1);
        let a = waste_column_moves(v, v.waste_top(), n - 1);
        let b = waste_column_moves(v, v.waste_top(), n);
        assert forall|k: int| 0 <= k < b.len() implies legal(v, #[trigger] b[k]) by {
            if k < a.len() {
                assert(b[k] == a[k]);
            }
        }
    }
}

proof fn lemma_run_dest_moves_legal(v: StateView, from: int, start: int, n: int)
    requires
        v.shape_ok(),
        0 <= from < NUM_COLUMNS,
        run_start(v.columns[from]) <= start < v.columns[from].len(),
        v.columns[from].face_down <= start,
        0 <= n <= NUM_COLUMNS,
    ensures
        forall|k: int|
            0 <= k < run_dest_moves(v, from, start, n).len() ==> legal(
                v,
                #[trigger] run_dest_moves(v, from, start, n)[k],
            ),
    decreases n,
{
    if n > 0 {
        lemma_run_dest_moves_legal(v, from, start, n - 1);
        let a = run_dest_moves(v, from, start, n - 1);
        let b = run_dest_moves(v, from, start, n);
        assert forall|k: int| 0 <= k < b.len() implies legal(v, #[trigger] b[k]) by {
            if k < a.len() {
                assert(b[k] == a[k]);
            } else {
                let col = v.columns[from];
                assert(col.shape_ok());
                assert(b[k] == Move::ColumnToColumn {
                    from: from as u8,
                    dest: (n - 1) as u8,
                    count: (col.len() - start) as u8,
                });
            }
        }
    }
}

proof fn lemma_run_moves_legal(v: StateView, from: int, top: int, low: int)
    requires
        v.shape_ok(),
        0 <= from < NUM_COLUMNS,
        top == v.columns[from].len() - 1,
        v.columns[from].face_up() > 0,
        run_start(v.columns[from]) - 1 <= low,
    ensures
        forall|k: int|
            0 <= k < run_moves(v, from, top, low).len() ==> legal(
                v,
                #[trigger] run_moves(v, from, top, low)[k],
            ),
    decreases top - low,
{
    if low < top {
        let col = v.columns[from];
        assert(col.shape_ok());
        lemma_run_down_links(col.cards, col.face_down as int, col.len() - 1);
        lemma_run_moves_legal(v, from, top, low + 1);
        lemma_run_dest_moves_legal(v, from, low + 1, NUM_COLUMNS as int);
        let a = run_moves(v, from, top, low + 1);
        let c = run_dest_moves(v, from, low + 1, NUM_COLUMNS as int);
        let b = run_moves(v, from, top, low);
        assert forall|k: int| 0 <= k < b.len() implies legal(v, #[trigger] b[k]) by {
            if k < a.len() {
                assert(b[k] == a[k]);
            } else {
                assert(b[k] == c[k - a.len()]);
            }
        }
    }
}

proof fn lemma_columns_moves_legal(v: StateView, n: int)
    requires
        v.shape_ok(),
        0 <= n <= NUM_COLUMNS,
    ensures
        forall|k: int|
            0 <= k < columns_moves(v, n).len() ==> legal(v, #[trigger] columns_moves(v, n)[k]),
    decreases n,
{
    if n > 0 {
        lemma_columns_moves_legal(v, n - 1);
        let from = n - 1;
        let col = v.columns[from];
        assert(col.shape_ok());
        let f: Seq<Move> = if col.has_top() && fits_foundation(v, col.top()) {
            seq![Move::ColumnToFoundation { from: from as u8 }]
        } else {
            seq![]
        };
        let r: Seq<Move> = if col.face_up() > 0 {
            run_moves(v, from, col.len() - 1, run_start(col) - 1)
        } else {
            seq![]
        };
        if col.face_up() > 0 {
            lemma_run_down_links(col.cards, col.face_down as int, col.len() - 1);
            lemma_run_moves_legal(v, from, col.len() - 1, run_start(col) - 1);
        }
        let a = columns_moves(v, n - 1);
        let b = columns_moves(v, n);
        assert(column_moves(v, from) == f + r);
        assert forall|k: int| 0 <= k < b.len() implies legal(v, #[trigger] b[k]) by {
            if k < a.len() {
                assert(b[k] == a[k]);
            } else if k < a.len() + f.len() {
                assert(b[k] == f[k - a.len()]);
            } else {
                assert(b[k] == r[k - a.len() - f.len()]);
            }
        }
    }
}

/// Every generated move is legal.
pub proof fn lemma_moves_legal(v: StateView)
    requires
        v.shape_ok(),
    ensures
        forall|k: int| 0 <= k < moves_spec(v).len() ==> legal(v, #[trigger] moves_spec(v)[k]),
        forall|k: int|
            0 <= k < capped(moves_spec(v)).len() ==> legal(v, #[trigger] capped(moves_spec(v))[k]),
{
    let s = stock_moves(v);
    let w = waste_moves(v);
    let c = columns_moves(v, NUM_COLUMNS as int);
    lemma_columns_moves_legal(v, NUM_COLUMNS as int);
    if v.stock_pointer > 0 {
        lemma_waste_column_moves_legal(v, NUM_COLUMNS as int);
    }
    let m = moves_spec(v);
    assert forall|k: int| 0 <= k < m.len() implies legal(v, #[trigger] m[k]) by {
        if k < s.len() {
            assert(m[k] == s[k]);
        } else if k < s.len() + w.len() {
            assert(m[k] == w[k - s.len()]);
            if v.stock_pointer > 0 {
                let f: Seq<Move> = if fits_foundation(v, v.waste_top()) {
                    seq![Move::WasteToFoundation]
                } else {
                    seq![]
                };
                let wc = waste_column_moves(v, v.waste_top(), NUM_COLUMNS as int);
                assert(w == f + wc);
                if k - s.len() >= f.len() {
                    assert(w[k - s.len()] == wc[k - s.len() - f.len()]);
                }
            }
        } else {
            assert(m[k] == c[k - s.len() - w.len()]);
        }
    }
    assert forall|k: int| 0 <= k < capped(m).len() implies legal(v, #[trigger] capped(m)[k]) by {
        assert(capped(m)[k] == m[k]);
    }
}

/// The list holds the first `MAX_MOVES` moves of `g`, and past its length
/// the buffer is as in `orig`.
pub open spec fn holds(l: MoveList, g: Seq<Move>, orig: Seq<Move>) -> bool {
    &&& l.len <= MAX_MOVES
    &&& l@ == capped(g)
    &&& forall|i: int| l.len <= i < MAX_MOVES ==> #[trigger] l.items@[i] == orig[i]
}

/// Appends `m` to the generated sequence `g`.
fn append(moves: &mut MoveList, m: Move, Ghost(g): Ghost<Seq<Move>>, Ghost(orig): Ghost<Seq<Move>>)
    requires
        holds(*old(moves), g, orig),
    ensures
        holds(*final(moves), g.push(m), orig),
{
    proof {
        lemma_capped_push(g, m);
    }
    moves.push(m);
}

fn push_waste_column_moves(
    state: &State,
    card: Card,
    moves: &mut MoveList,
    Ghost(g): Ghost<Seq<Move>>,
    Ghost(orig): Ghost<Seq<Move>>,
)
    requires
        state.shaped(),
        holds(*old(moves), g, orig),
    ensures
        holds(*final(moves), g + waste_column_moves(state@, card, NUM_COLUMNS as int), orig),
{
    let ghost v = state@;
    let mut dest: usize = 0;
    while dest < NUM_COLUMNS
        invariant
            dest <= NUM_COLUMNS,
            state.shaped(),
            v == state@,
            holds(*moves, g + waste_column_moves(v, card, dest as int), orig),
        decreases NUM_COLUMNS - dest,
    {
        let ghost before = g + waste_column_moves(v, card, dest as int);
        proof {
            state.lemma_wf_column(dest as int);
        }
        if can_place_on_tableau(card, &state.columns[dest]) {
            append(moves, Move::WasteToColumn { dest: dest as u8 }, Ghost(before), Ghost(orig));
            assert(before.push(Move::WasteToColumn { dest: dest as u8 }) =~= g + waste_column_moves(
                v,
                card,
                dest + 1,
            ));
        } else {
            assert(before =~= g + waste_column_moves(v, card, dest + 1));
        }
        dest += 1;
    }
}

fn push_run_dest_moves(
    state: &State,
    from: usize,
    start: u8,
    moves: &mut MoveList,
    Ghost(g): Ghost<Seq<Move>>,
    Ghost(orig): Ghost<Seq<Move>>,
)
    requires
        state.shaped(),
        from < NUM_COLUMNS,
        start < state.columns@[from as int].len,
        holds(*old(moves), g, orig),
    ensures
        holds(*final(moves), g + run_dest_moves(state@, from as int, start as int, NUM_COLUMNS as int), orig),
{
    let ghost v = state@;
    proof {
        state.lemma_wf_column(from as int);
    }
    let col = &state.columns[from];
    let count = col.len - start;
    let bottom_of_run = col.cards[start as usize];
    assert(bottom_of_run == v.columns[from as int].cards[start as int]);
    let mut dest: usize = 0;
    while dest < NUM_COLUMNS
        invariant
            dest <= NUM_COLUMNS,
            from < NUM_COLUMNS,
            state.shaped(),
            v == state@,
            count == v.columns[from as int].len() - start,
            bottom_of_run == v.columns[from as int].cards[start as int],
            holds(*moves, g + run_dest_moves(v, from as int, start as int, dest as int), orig),
        decreases NUM_COLUMNS - dest,
    {
        let ghost before = g + run_dest_moves(v, from as int, start as int, dest as int);
        if dest == from {
            assert(before =~= g + run_dest_moves(v, from as int, start as int, dest + 1));
            dest += 1;
            continue;
        }
        proof {
            state.lemma_wf_column(dest as int);
        }
        if can_place_on_tableau(bottom_of_run, &state.columns[dest]) {
            let m = Move::ColumnToColumn { from: from as u8, dest: dest as u8, count };
            append(moves, m, Ghost(before), Ghost(orig));
            assert(before.push(m) =~= g + run_dest_moves(v, from as int, start as int, dest + 1));
        } else {
            assert(before =~= g + run_dest_moves(v, from as int, start as int, dest + 1));
        }
        dest += 1;
    }
}

fn push_column_moves(
    state: &State,
    from: usize,
    moves: &mut MoveList,
    Ghost(g): Ghost<Seq<Move>>,
    Ghost(orig): Ghost<Seq<Move>>,
)
    requires
        state.shaped(),
        from < NUM_COLUMNS,
        holds(*old(moves), g, orig),
    ensures
        holds(*final(moves), g + column_moves(state@, from as int), orig),
{
    let ghost v = state@;
    proof {
        state.lemma_wf_column(from as int);
    }
    let col = &state.columns[from];
    let ghost cv = v.columns[from as int];
    let ghost g1 = g;
    if let Some(top) = col.top() {
        let suit = suit_of(top);
        if state.foundations[suit] + 1 == rank_value(top) {
            append(moves, Move::ColumnToFoundation { from: from as u8 }, Ghost(g), Ghost(orig));
            proof {
                g1 = g.push(Move::ColumnToFoundation { from: from as u8 });
            }
        }
    }
    assert(g1 =~= g + (if cv.has_top() && fits_foundation(v, cv.top()) {
        seq![Move::ColumnToFoundation { from: from as u8 }]
    } else {
        seq![]
    }));
    if col.face_up_count() > 0 {
        let min_start = valid_run_start_min(col);
        let mut start = col.len - 1;
        let ghost top = cv.len() - 1;
        proof {
            lemma_run_down_bounds(cv.cards, cv.face_down as int, top);
        }
        loop
            invariant_except_break
                holds(*moves, g1 + run_moves(v, from as int, top, start as int), orig),
            invariant
                state.shaped(),
                v == state@,
                from < NUM_COLUMNS,
                cv == v.columns[from as int],
                col == state.columns@[from as int],
                cv == col@,
                top == cv.len() - 1,
                cv.face_up() > 0,
                min_start == run_start(cv),
                min_start <= start <= top,
            ensures
                holds(*moves, g1 + run_moves(v, from as int, top, min_start - 1), orig),
            decreases start,
        {
            let ghost before = g1 + run_moves(v, from as int, top, start as int);
            push_run_dest_moves(state, from, start, moves, Ghost(before), Ghost(orig));
            assert(before + run_dest_moves(v, from as int, start as int, NUM_COLUMNS as int) =~= g1
                + run_moves(v, from as int, top, start - 1));
            if start == min_start {
                break;
            }
            start -= 1;
        }
        assert(g1 + run_moves(v, from as int, top, min_start - 1) =~= g + column_moves(v, from as int));
    } else {
        assert(g1 =~= g + column_moves(v, from as int));
    }
}

proof fn lemma_run_down_bounds(cards: Seq<u8>, fd: int, i: int)
    requires
        fd <= i,
    ensures
        fd <= run_down(cards, fd, i) <= i,
    decreases i,
{
    if i > fd && i > 0 && links(cards[i - 1], cards[i]) {
        lemma_run_down_bounds(cards, fd, i - 1);
    }
}

fn can_place_on_tableau(card: Card, dest: &Column) -> (b: bool)
    requires
        dest.len <= MAX_COL_LEN,
    ensures
        b == placeable(card, dest@),
{
    if dest.is_empty() {
        rank_value(card) == 13
    } else {
        match dest.top() {
            Some(top) => opposite_color(card, top) && rank_value(card) + 1 == rank_value(top),
            None => false,
        }
    }
}

/// Lowest physical index from which the cards up to the top form a run.
fn valid_run_start_min(col: &Column) -> (r: u8)
    requires
        col@.shape_ok(),
        col.len <= MAX_COL_LEN,
    ensures
        r == run_start(col@),
{
    if col.face_up_count() == 0 {
        return col.len;
    }
    let mut i = col.len - 1;
    while i > col.face_down
        invariant
            col@.shape_ok(),
            col.len <= MAX_COL_LEN,
            col.face_down <= i < col.len,
            run_down(col@.cards, col.face_down as int, col.len - 1) == run_down(
                col@.cards,
                col.face_down as int,
                i as int,
            ),
        ensures
            run_down(col@.cards, col.face_down as int, i as int) == i,
        decreases i,
    {
        let a = col.cards[(i - 1) as usize];
        let b = col.cards[i as usize];
        assert(col@.cards[i - 1] == a && col@.cards[i as int] == b);
        if rank_value(a) == rank_value(b) + 1 && opposite_color(a, b) {
            i -= 1;
        } else {
            assert(run_down(col@.cards, col.face_down as int, i as int) == i);
            break;
        }
    }
    i
}

/// Fills `moves` with the legal moves of `state`, in generation order (up to
/// `MAX_MOVES` of them).
pub fn gen_moves(state: &State, moves: &mut MoveList)
    requires
        state.shaped(),
    ensures
        final(moves).len <= MAX_MOVES,
        final(moves)@ == capped(moves_spec(state@)),
        forall|i: int|
            final(moves).len <= i < MAX_MOVES ==> #[trigger] final(moves).items@[i] == old(
                moves,
            ).items@[i],
{
    let ghost v = state@;
    let ghost orig = moves.items@;
    moves.len = 0;
    assert(moves@ =~= capped(seq![]));
    let ghost mut g: Seq<Move> = seq![];
    if state.stock_pointer < state.stock_len {
        append(moves, Move::Draw, Ghost(g), Ghost(orig));
        proof {
            g = g.push(Move::Draw);
        }
    } else if state.stock_pointer == state.stock_len && state.stock_len > 0 {
        append(moves, Move::Recycle, Ghost(g), Ghost(orig));
        proof {
            g = g.push(Move::Recycle);
        }
    }
    assert(g =~= stock_moves(v));
    if let Some(card) = state.stock_top() {
        let suit = suit_of(card);
        let ghost g0 = g;
        if state.foundations[suit] + 1 == rank_value(card) {
            append(moves, Move::WasteToFoundation, Ghost(g), Ghost(orig));
            proof {
                g = g.push(Move::WasteToFoundation);
            }
        }
        push_waste_column_moves(state, card, moves, Ghost(g), Ghost(orig));
        proof {
            g = g + waste_column_moves(v, card, NUM_COLUMNS as int);
        }
        assert(g =~= stock_moves(v) + waste_moves(v));
    } else {
        assert(g =~= stock_moves(v) + waste_moves(v));
    }
    let ghost g2 = g;
    let mut from: usize = 0;
    while from < NUM_COLUMNS
        invariant
            from <= NUM_COLUMNS,
            state.shaped(),
            v == state@,
            g == g2 + columns_moves(v, from as int),
            holds(*moves, g, orig),
        decreases NUM_COLUMNS - from,
    {
        push_column_moves(state, from, moves, Ghost(g), Ghost(orig));
        proof {
            g = g + column_moves(v, from as int);
        }
        assert(g =~= g2 + columns_moves(v, from + 1));
        from += 1;
    }
    assert(g =~= moves_spec(v));
}

// ---- Every legal move is generated ----
proof fn lemma_contains_left(a: Seq<Move>, b: Seq<Move>, m: Move)
    requires
        a.contains(m),
    ensures
        (a + b).contains(m),
{
    let i = choose|i: int| 0 <= i < a.len() && a[i] == m;
    assert((a + b)[i] == m);
}

proof fn lemma_contains_right(a: Seq<Move>, b: Seq<Move>, m: Move)
    requires
        b.contains(m),
    ensures
        (a + b).contains(m),
{
    let i = choose|i: int| 0 <= i < b.len() && b[i] == m;
    assert((a + b)[a.len() + i] == m);
}

proof fn lemma_waste_column_moves_complete(v: StateView, card: u8, n: int, dest: int)
    requires
        0 <= dest < n,
        placeable(card, v.columns[dest]),
    ensures
        waste_column_moves(v, card, n).contains(Move::WasteToColumn { dest: dest as u8 }),
    decreases n,
{
    let m = Move::WasteToColumn { dest: dest as u8 };
    if dest < n - 1 {
        lemma_waste_column_moves_complete(v, card, n - 1, dest);
        lemma_contains_left(
            waste_column_moves(v, card, n - 1),
            if placeable(card, v.columns[n - 1]) {
                seq![Move::WasteToColumn { dest: (n - 1) as u8 }]
            } else {
                seq![]
            },
            m,
        );
    } else {
        assert(seq![m][0] == m);
        lemma_contains_right(waste_column_moves(v, card, n - 1), seq![m], m);
    }
}

proof fn lemma_run_dest_moves_complete(v: StateView, from: int, start: int, n: int, dest: int)
    requires
        0 <= dest < n,
        dest != from,
        placeable(v.columns[from].cards[start], v.columns[dest]),
    ensures
        run_dest_moves(v, from, start, n).contains(
            Move::ColumnToColumn {
                from: from as u8,
                dest: dest as u8,
                count: (v.columns[from].len() - start) as u8,
            },
        ),
    decreases n,
{
    let m = Move::ColumnToColumn {
        from: from as u8,
        dest: dest as u8,
        count: (v.columns[from].len() - start) as u8,
    };
    let col = v.columns[from];
    let tail = if n - 1 != from && placeable(col.cards[start], v.columns[n - 1]) {
        seq![
            Move::ColumnToColumn {
                from: from as u8,
                dest: (n - 1) as u8,
                count: (col.len() - start) as u8,
            },
        ]
    } else {
        seq![]
    };
    if dest < n - 1 {
        lemma_run_dest_moves_complete(v, from, start, n - 1, dest);
        lemma_contains_left(run_dest_moves(v, from, start, n - 1), tail, m);
    } else {
        assert(tail[0] == m);
        lemma_contains_right(run_dest_moves(v, from, start, n - 1), tail, m);
    }
}

proof fn lemma_run_moves_complete(v: StateView, from: int, top: int, low: int, start: int, m: Move)
    requires
        low < start <= top,
        run_dest_moves(v, from, start, NUM_COLUMNS as int).contains(m),
    ensures
        run_moves(v, from, top, low).contains(m),
    decreases top - low,
{
    if start == low + 1 {
        lemma_contains_right(
            run_moves(v, from, top, low + 1),
            run_dest_moves(v, from, low + 1, NUM_COLUMNS as int),
            m,
        );
    } else {
        lemma_run_moves_complete(v, from, top, low + 1, start, m);
        lemma_contains_left(
            run_moves(v, from, top, low + 1),
            run_dest_moves(v, from, low + 1, NUM_COLUMNS as int),
            m,
        );
    }
}

proof fn lemma_columns_moves_complete(v: StateView, n: int, from: int, m: Move)
    requires
        0 <= from < n,
        column_moves(v, from).contains(m),
    ensures
        columns_moves(v, n).contains(m),
    decreases n,
{
    if from < n - 1 {
        lemma_columns_moves_complete(v, n - 1, from, m);
        lemma_contains_left(columns_moves(v, n - 1), column_moves(v, n - 1), m);
    } else {
        lemma_contains_right(columns_moves(v, n - 1), column_moves(v, n - 1), m);
    }
}

/// Every legal move is generated.
pub proof fn lemma_moves_complete(v: StateView, m: Move)
    requires
        v.shape_ok(),
        legal(v, m),
    ensures
        moves_spec(v).contains(m),
{
    let s = stock_moves(v);
    let w = waste_moves(v);
    let c = columns_moves(v, NUM_COLUMNS as int);
    assert(moves_spec(v) == s + w + c);
    match m {
        Move::Draw => {
            assert(s[0] == m);
            lemma_contains_left(s, w, m);
            lemma_contains_left(s + w, c, m);
        },
        Move::Recycle => {
            assert(s[0] == m);
            lemma_contains_left(s, w, m);
            lemma_contains_left(s + w, c, m);
        },
        Move::WasteToFoundation => {
            let card = v.waste_top();
            let f = seq![Move::WasteToFoundation];
            assert(f[0] == m);
            lemma_contains_left(f, waste_column_moves(v, card, NUM_COLUMNS as int), m);
            lemma_contains_right(s, w, m);
            lemma_contains_left(s + w, c, m);
        },
        Move::WasteToColumn { dest } => {
            let card = v.waste_top();
            let f = if fits_foundation(v, card) {
                seq![Move::WasteToFoundation]
            } else {
                seq![]
            };
            lemma_waste_column_moves_complete(v, card, NUM_COLUMNS as int, dest as int);
            lemma_contains_right(f, waste_column_moves(v, card, NUM_COLUMNS as int), m);
            lemma_contains_right(s, w, m);
            lemma_contains_left(s + w, c, m);
        },
        Move::ColumnToFoundation { from } => {
            let col = v.columns[from as int];
            let f = seq![Move::ColumnToFoundation { from: from as u8 }];
            let r = if col.face_up() > 0 {
                run_moves(v, from as int, col.len() - 1, run_start(col) - 1)
            } else {
                seq![]
            };
            assert(f[0] == m);
            lemma_contains_left(f, r, m);
            lemma_columns_moves_complete(v, NUM_COLUMNS as int, from as int, m);
            lemma_contains_right(s + w, c, m);
        },
        Move::ColumnToColumn { from, dest, count } => {
            let col = v.columns[from as int];
            let start = col.len() - count;
            let f = if col.has_top() && fits_foundation(v, col.top()) {
                seq![Move::ColumnToFoundation { from: from as u8 }]
            } else {
                seq![]
            };
            let r = run_moves(v, from as int, col.len() - 1, run_start(col) - 1);
            assert(v.columns[from as int].shape_ok());
            lemma_run_dest_moves_complete(v, from as int, start, NUM_COLUMNS as int, dest as int);
            assert((col.len() - start) as u8 == count);
            lemma_run_moves_complete(v, from as int, col.len() - 1, run_start(col) - 1, start, m);
            lemma_contains_right(f, r, m);
            lemma_columns_moves_complete(v, NUM_COLUMNS as int, from as int, m);
            lemma_contains_right(s + w, c, m);
        },
    }
}

} // verus!
