//! `make_move` / `unmake_move`: playing a move and taking it back, the heart
//! of the solver's speed.
use vstd::prelude::*;
use vstd::multiset::Multiset;
use crate::card::{Card, is_card, rank_spec, suit_of, suit_spec};
use crate::moves::{Move, legal, links, placeable, run_down, run_start, lemma_run_down_links};
use crate::state::{ColumnView, State, StateView};
use crate::zobrist::{MAX_COL_LEN, MAX_STOCK, NUM_COLUMNS};

verus! {

/// What it takes to put a move back.
pub enum UndoKind {
    Draw,
    Recycle { old_pointer: u8 },
    WasteToFoundation { suit: usize, old_level: u8, card: Card, old_pointer: u8, old_stock_len: u8 },
    WasteToColumn { dest: usize, card: Card, old_pointer: u8, old_stock_len: u8 },
    ColumnToFoundation { from: usize, suit: usize, old_level: u8, card: Card, revealed: bool },
    ColumnToColumn { from: usize, dest: usize, count: u8, revealed: bool },
}

pub struct Undo {
    pub kind: UndoKind,
}

/// The top `count` cards of column `from` of `v`.
pub open spec fn run_of(col: ColumnView, count: nat) -> Seq<u8> {
    col.cards.subrange(col.len() - count, col.len() as int)
}

/// `mv` can be played on `v` without leaving the buffers or the rules of a
/// state: a card to draw, a waste card or face-up cards to move, room on the
/// destination column, a foundation below the King.
pub open spec fn applicable(v: StateView, mv: Move) -> bool {
    match mv {
        Move::Draw => v.stock_pointer < v.stock.len(),
        Move::Recycle => true,
        Move::WasteToFoundation => v.stock_pointer > 0 && v.foundations[suit_spec(v.waste_top())]
            < 13,
        Move::WasteToColumn { dest } => v.stock_pointer > 0 && dest < NUM_COLUMNS
            && v.columns[dest as int].len() < MAX_COL_LEN,
        Move::ColumnToFoundation { from } => from < NUM_COLUMNS && v.columns[from as int].has_top()
            && v.foundations[suit_spec(v.columns[from as int].top())] < 13,
        Move::ColumnToColumn { from, dest, count } => {
            let col = v.columns[from as int];
            &&& from < NUM_COLUMNS
            &&& dest < NUM_COLUMNS
            &&& count <= col.face_up()
            &&& from != dest ==> v.columns[dest as int].len() + count <= MAX_COL_LEN
        },
    }
}

/// The state after `mv`.
pub open spec fn apply_spec(v: StateView, mv: Move) -> StateView {
    match mv {
        Move::Draw => v.set_pointer(v.stock_pointer + 1),
        Move::Recycle => v.set_pointer(0),
        Move::WasteToFoundation => {
            let card = v.waste_top();
            let suit = suit_spec(card);
            v.remove_waste_top().set_foundation(suit, (v.foundations[suit] + 1) as u8)
        },
        Move::WasteToColumn { dest } => {
            let card = v.waste_top();
            v.remove_waste_top().set_column(dest as int, v.columns[dest as int].push(card))
        },
        Move::ColumnToFoundation { from } => {
            let col = v.columns[from as int];
            let card = col.top();
            let suit = suit_spec(card);
            v.set_column(from as int, col.pop().reveal_if_needed()).set_foundation(
                suit,
                (v.foundations[suit] + 1) as u8,
            )
        },
        Move::ColumnToColumn { from, dest, count } => {
            let col = v.columns[from as int];
            let v1 = v.set_column(from as int, col.pop_n(count as nat).reveal_if_needed());
            v1.set_column(dest as int, v1.columns[dest as int].push_all(run_of(col, count as nat)))
        },
    }
}

/// The undo record `make_move` returns for `mv` played on `v`.
pub open spec fn undo_of(v: StateView, mv: Move) -> UndoKind {
    match mv {
        Move::Draw => UndoKind::Draw,
        Move::Recycle => UndoKind::Recycle { old_pointer: v.stock_pointer as u8 },
        Move::WasteToFoundation => {
            let card = v.waste_top();
            let suit = suit_spec(card);
            UndoKind::WasteToFoundation {
                suit: suit as usize,
                old_level: v.foundations[suit],
                card,
                old_pointer: v.stock_pointer as u8,
                old_stock_len: v.stock.len() as u8,
            }
        },
        Move::WasteToColumn { dest } => UndoKind::WasteToColumn {
            dest: dest as usize,
            card: v.waste_top(),
            old_pointer: v.stock_pointer as u8,
            old_stock_len: v.stock.len() as u8,
        },
        Move::ColumnToFoundation { from } => {
            let col = v.columns[from as int];
            let card = col.top();
            let suit = suit_spec(card);
            UndoKind::ColumnToFoundation {
                from: from as usize,
                suit: suit as usize,
                old_level: v.foundations[suit],
                card,
                revealed: col.len() - 1 == col.face_down && col.face_down > 0,
            }
        },
        Move::ColumnToColumn { from, dest, count } => {
            let col = v.columns[from as int];
            UndoKind::ColumnToColumn {
                from: from as usize,
                dest: dest as usize,
                count,
                revealed: col.len() - count == col.face_down && col.face_down > 0,
            }
        },
    }
}

/// `undo` can be taken back on `v` without leaving the buffers or the rules
/// of a state.
pub open spec fn undo_ok(v: StateView, undo: UndoKind) -> bool {
    match undo {
        UndoKind::Draw => v.stock_pointer > 0,
        UndoKind::Recycle { old_pointer } => old_pointer <= v.stock.len(),
        UndoKind::WasteToFoundation { suit, old_level, card, old_pointer, old_stock_len } => {
            &&& suit < 4
            &&& old_level <= 13
            &&& is_card(card)
            &&& old_stock_len == v.stock.len() + 1
            &&& old_stock_len <= MAX_STOCK
            &&& 1 <= old_pointer <= old_stock_len
        },
        UndoKind::WasteToColumn { dest, card, old_pointer, old_stock_len } => {
            &&& dest < NUM_COLUMNS
            &&& v.columns[dest as int].has_top()
            &&& is_card(card)
            &&& old_stock_len == v.stock.len() + 1
            &&& old_stock_len <= MAX_STOCK
            &&& 1 <= old_pointer <= old_stock_len
        },
        UndoKind::ColumnToFoundation { from, suit, old_level, card, revealed } => {
            let col = v.columns[from as int];
            &&& from < NUM_COLUMNS
            &&& suit < 4
            &&& old_level <= 13
            &&& is_card(card)
            &&& revealed ==> col.has_top() && col.face_down + 1 < MAX_COL_LEN
            &&& col.len() < MAX_COL_LEN
        },
        UndoKind::ColumnToColumn { from, dest, count, revealed } => {
            let d = v.columns[dest as int];
            let v1 = v.set_column(dest as int, d.pop_n(count as nat));
            let col = v1.columns[from as int];
            &&& from < NUM_COLUMNS
            &&& dest < NUM_COLUMNS
            &&& count <= d.face_up()
            &&& revealed ==> col.has_top() && col.face_down + 1 < MAX_COL_LEN
            &&& col.len() + count <= MAX_COL_LEN
        },
    }
}

/// The state after `undo` is taken back.
pub open spec fn unapply_spec(v: StateView, undo: UndoKind) -> StateView {
    match undo {
        UndoKind::Draw => v.set_pointer((v.stock_pointer - 1) as nat),
        UndoKind::Recycle { old_pointer } => v.set_pointer(old_pointer as nat),
        UndoKind::WasteToFoundation { suit, old_level, card, old_pointer, old_stock_len } => v.set_foundation(
            suit as int,
            old_level,
        ).reinsert(card, old_pointer as nat),
        UndoKind::WasteToColumn { dest, card, old_pointer, old_stock_len } => v.set_column(
            dest as int,
            v.columns[dest as int].pop(),
        ).reinsert(card, old_pointer as nat),
        UndoKind::ColumnToFoundation { from, suit, old_level, card, revealed } => {
            let v1 = v.set_foundation(suit as int, old_level);
            let col = v1.columns[from as int];
            let col2 = if revealed {
                col.unreveal()
            } else {
                col
            };
            v1.set_column(from as int, col2.push(card))
        },
        UndoKind::ColumnToColumn { from, dest, count, revealed } => {
            let d = v.columns[dest as int];
            let v1 = v.set_column(dest as int, d.pop_n(count as nat));
            let col = v1.columns[from as int];
            let col2 = if revealed {
                col.unreveal()
            } else {
                col
            };
            v1.set_column(from as int, col2.push_all(run_of(d, count as nat)))
        },
    }
}

/// Plays `mv` on `state` and returns what it takes to put it back.
pub fn make_move(state: &mut State, mv: Move) -> (undo: Undo)
    requires
        old(state).wf(),
        applicable(old(state)@, mv),
    ensures
        final(state).wf(),
        final(state)@ == apply_spec(old(state)@, mv),
        undo.kind == undo_of(old(state)@, mv),
{
    let ghost v = state@;
    proof {
        state.lemma_wf_facts();
    }
    let kind = match mv {
        Move::Draw => {
            state.draw();
            UndoKind::Draw
        },
        Move::Recycle => {
            let old_pointer = state.stock_pointer;
            state.recycle();
            UndoKind::Recycle { old_pointer }
        },
        Move::WasteToFoundation => {
            let old_pointer = state.stock_pointer;
            let old_stock_len = state.stock_len;
            proof {
                lemma_removal_cards(state);
            }
            let card = state.stock_remove_top();
            let suit = suit_of(card);
            proof {
                state.lemma_wf_facts();
            }
            let old_level = state.foundations[suit];
            state.set_foundation(suit, old_level + 1);
            UndoKind::WasteToFoundation { suit, old_level, card, old_pointer, old_stock_len }
        },
        Move::WasteToColumn { dest } => {
            let old_pointer = state.stock_pointer;
            let old_stock_len = state.stock_len;
            proof {
                lemma_removal_cards(state);
            }
            let card = state.stock_remove_top();
            proof {
                state.lemma_wf_facts();
            }
            state.col_push(dest as usize, card);
            UndoKind::WasteToColumn { dest: dest as usize, card, old_pointer, old_stock_len }
        },
        Move::ColumnToFoundation { from } => {
            let card = state.columns[from as usize].top().unwrap();
            let suit = suit_of(card);
            let old_level = state.foundations[suit];
            proof {
                state.lemma_wf_column(from as int);
                let cur = state.columns@[from as int];
                assert(cur@.cards[cur.len - 1] == cur.cards@[cur.len - 1]);
            }
            state.col_pop(from as usize);
            proof {
                state.lemma_wf_column(from as int);
                let cur = state.columns@[from as int];
                if cur.len == cur.face_down && cur.face_down > 0 {
                    assert(cur@.cards[cur.face_down - 1] == cur.cards@[cur.face_down - 1]);
                }
            }
            let revealed = state.maybe_reveal(from as usize);
            proof {
                state.lemma_wf_facts();
            }
            state.set_foundation(suit, old_level + 1);
            UndoKind::ColumnToFoundation { from: from as usize, suit, old_level, card, revealed }
        },
        Move::ColumnToColumn { from, dest, count } => {
            let revealed = move_run(state, from as usize, dest as usize, count);
            UndoKind::ColumnToColumn { from: from as usize, dest: dest as usize, count, revealed }
        },
    };
    Undo { kind }
}

proof fn lemma_removal_cards(state: &State)
    requires
        state.wf(),
        state.stock_pointer > 0,
    ensures
        forall|i: int|
            0 <= i < state.stock_len - 1 ==> is_card(
                #[trigger] crate::state::stock_after_removal(
                    state.stock@,
                    state.stock_pointer - 1,
                    state.stock_len as int,
                )[i],
            ),
{
    state.lemma_wf_facts();
}

/// Moves the top `count` cards of column `from` onto column `dest`, turning
/// over the card below them when it was the last face-down one. Returns
/// whether a card was turned over.
fn move_run(state: &mut State, from: usize, dest: usize, count: u8) -> (revealed: bool)
    requires
        old(state).wf(),
        from < NUM_COLUMNS,
        dest < NUM_COLUMNS,
        applicable(old(state)@, Move::ColumnToColumn { from: from as u8, dest: dest as u8, count }),
    ensures
        final(state).wf(),
        final(state)@ == apply_spec(
            old(state)@,
            Move::ColumnToColumn { from: from as u8, dest: dest as u8, count },
        ),
        revealed == (old(state)@.columns[from as int].len() - count == old(
            state,
        )@.columns[from as int].face_down && old(state)@.columns[from as int].face_down > 0),
{
    let ghost v = state@;
    let ghost col = v.columns[from as int];
    proof {
        state.lemma_wf_column(from as int);
        assert(col.pop_n(0) =~= col);
        assert(v.set_column(from as int, col.pop_n(0)) =~= v);
    }
    let mut buf = [0u8; 24];
    let mut i: u8 = 0;
    while i < count
        invariant
            i <= count <= col.face_up(),
            from < NUM_COLUMNS,
            col == v.columns[from as int],
            col.shape_ok(),
            v.shape_ok(),
            state.wf(),
            state@ == v.set_column(from as int, col.pop_n(i as nat)),
            forall|k: int| 0 <= k < i ==> #[trigger] buf@[k] == col.cards[col.len() - 1 - k],
        decreases count - i,
    {
        proof {
            state.lemma_wf_column(from as int);
            let cur = state.columns@[from as int];
            assert(cur@ == col.pop_n(i as nat));
            assert(cur@.cards[cur.len - 1] == cur.cards@[cur.len - 1]);
            assert(cur@.cards[cur.len - 1] == col.cards[col.len() - 1 - i]);
        }
        let c = state.col_pop(from);
        buf[i as usize] = c;
        proof {
            assert(col.pop_n(i as nat).pop() =~= col.pop_n((i + 1) as nat));
            assert(v.set_column(from as int, col.pop_n(i as nat)).set_column(
                from as int,
                col.pop_n((i + 1) as nat),
            ) =~= v.set_column(from as int, col.pop_n((i + 1) as nat)));
        }
        i += 1;
    }
    proof {
        state.lemma_wf_column(from as int);
        let cur = state.columns@[from as int];
        if cur.len == cur.face_down && cur.face_down > 0 {
            assert(cur@.cards[cur.face_down - 1] == cur.cards@[cur.face_down - 1]);
        }
    }
    let revealed = state.maybe_reveal(from);
    let ghost v1 = state@;
    proof {
        state.lemma_wf_facts();
    }
    assert(v1 =~= v.set_column(from as int, col.pop_n(count as nat).reveal_if_needed()));
    let ghost run = run_of(col, count as nat);
    proof {
        assert(run.take(0) =~= Seq::<u8>::empty());
        assert(v1.columns[dest as int].push_all(run.take(0)) =~= v1.columns[dest as int]);
        assert(v1.set_column(dest as int, v1.columns[dest as int].push_all(run.take(0))) =~= v1);
    }
    let mut j: u8 = 0;
    while j < count
        invariant
            j <= count <= col.face_up(),
            from < NUM_COLUMNS,
            dest < NUM_COLUMNS,
            col == v.columns[from as int],
            col.shape_ok(),
            v.shape_ok(),
            v1.columns.len() == NUM_COLUMNS,
            run == run_of(col, count as nat),
            forall|k: int| 0 <= k < count ==> #[trigger] buf@[k] == col.cards[col.len() - 1 - k],
            v1.columns[dest as int].len() + count <= MAX_COL_LEN,
            state.wf(),
            state@ == v1.set_column(
                dest as int,
                v1.columns[dest as int].push_all(run.take(j as int)),
            ),
        decreases count - j,
    {
        proof {
            state.lemma_wf_column(dest as int);
        }
        let c = buf[(count - 1 - j) as usize];
        proof {
            assert(c == col.cards[col.len() - 1 - (count - 1 - j)]);
            assert(c == run[j as int]);
            assert(is_card(c));
        }
        state.col_push(dest, c);
        proof {
            assert(run.take(j + 1) =~= run.take(j as int).push(c));
            assert(v1.columns[dest as int].push_all(run.take(j as int)).push(c) =~= v1.columns[dest as int].push_all(run.take(j + 1)));
            assert(v1.set_column(dest as int, v1.columns[dest as int].push_all(run.take(j as int))).set_column(
                dest as int, v1.columns[dest as int].push_all(run.take(j + 1))) =~= v1.set_column(dest as int, v1.columns[dest as int].push_all(run.take(j + 1))));
        }
        j += 1;
    }
    proof {
        assert(run.take(count as int) =~= run);
    }
    revealed
}

/// Takes back the move that `undo` records.
pub fn unmake_move(state: &mut State, undo: &Undo)
    requires
        old(state).wf(),
        undo_ok(old(state)@, undo.kind),
    ensures
        final(state).wf(),
        final(state)@ == unapply_spec(old(state)@, undo.kind),
{
    proof {
        state.lemma_wf_facts();
    }
    match undo.kind {
        UndoKind::Draw => state.undraw(),
        UndoKind::Recycle { old_pointer } => state.unrecycle(old_pointer),
        UndoKind::WasteToFoundation { suit, old_level, card, old_pointer, old_stock_len } => {
            state.set_foundation(suit, old_level);
            proof {
                lemma_insertion_cards(state, card, old_pointer, old_stock_len);
            }
            state.stock_reinsert(card, old_pointer, old_stock_len);
        },
        UndoKind::WasteToColumn { dest, card, old_pointer, old_stock_len } => {
            proof {
                state.lemma_wf_column(dest as int);
                let cur = state.columns@[dest as int];
                assert(cur@.cards[cur.len - 1] == cur.cards@[cur.len - 1]);
            }
            state.col_pop(dest);
            proof {
                lemma_insertion_cards(state, card, old_pointer, old_stock_len);
            }
            state.stock_reinsert(card, old_pointer, old_stock_len);
        },
        UndoKind::ColumnToFoundation { from, suit, old_level, card, revealed } => {
            state.set_foundation(suit, old_level);
            if revealed {
                proof {
                    state.lemma_wf_column(from as int);
                    let cur = state.columns@[from as int];
                    assert(cur@.cards[cur.face_down as int] == cur.cards@[cur.face_down as int]);
                }
                state.unreveal(from);
            }
            proof {
                state.lemma_wf_column(from as int);
            }
            state.col_push(from, card);
        },
        UndoKind::ColumnToColumn { from, dest, count, revealed } => {
            move_run_back(state, from, dest, count, revealed);
        },
    }
}

proof fn lemma_insertion_cards(state: &State, card: u8, old_pointer: u8, old_len: u8)
    requires
        state.wf(),
        is_card(card),
        old_len == state.stock_len + 1,
        old_len <= MAX_STOCK,
        1 <= old_pointer <= old_len,
    ensures
        forall|i: int|
            0 <= i < old_len ==> is_card(
                #[trigger] crate::state::stock_after_insertion(
                    state.stock@,
                    old_pointer - 1,
                    old_len as int,
                    card,
                )[i],
            ),
{
    state.lemma_wf_facts();
    let s2 = crate::state::stock_after_insertion(state.stock@, old_pointer - 1, old_len as int, card);
    assert forall|i: int| 0 <= i < old_len implies is_card(#[trigger] s2[i]) by {
        if old_pointer - 1 < i < old_len {
            assert(s2[i] == state.stock@[i - 1]);
        } else if i == old_pointer - 1 {
            assert(s2[i] == card);
        } else {
            assert(s2[i] == state.stock@[i]);
        }
    }
}

/// Takes back a run move: the top `count` cards of column `dest` go back on
/// column `from`, after its top card is turned back over if the move had
/// turned it.
fn move_run_back(state: &mut State, from: usize, dest: usize, count: u8, revealed: bool)
    requires
        old(state).wf(),
        undo_ok(old(state)@, UndoKind::ColumnToColumn { from, dest, count, revealed }),
    ensures
        final(state).wf(),
        final(state)@ == unapply_spec(
            old(state)@,
            UndoKind::ColumnToColumn { from, dest, count, revealed },
        ),
{
    let ghost v = state@;
    let ghost d = v.columns[dest as int];
    proof {
        state.lemma_wf_facts();
        state.lemma_wf_column(dest as int);
        assert(d.pop_n(0) =~= d);
        assert(v.set_column(dest as int, d.pop_n(0)) =~= v);
    }
    let mut buf = [0u8; 24];
    let mut i: u8 = 0;
    while i < count
        invariant
            i <= count <= d.face_up(),
            dest < NUM_COLUMNS,
            d == v.columns[dest as int],
            d.shape_ok(),
            v.shape_ok(),
            state.wf(),
            state@ == v.set_column(dest as int, d.pop_n(i as nat)),
            forall|k: int| 0 <= k < i ==> #[trigger] buf@[k] == d.cards[d.len() - 1 - k],
        decreases count - i,
    {
        proof {
            state.lemma_wf_column(dest as int);
            let cur = state.columns@[dest as int];
            assert(cur@ == d.pop_n(i as nat));
            assert(cur@.cards[cur.len - 1] == cur.cards@[cur.len - 1]);
            assert(cur@.cards[cur.len - 1] == d.cards[d.len() - 1 - i]);
        }
        let c = state.col_pop(dest);
        buf[i as usize] = c;
        proof {
            assert(d.pop_n(i as nat).pop() =~= d.pop_n((i + 1) as nat));
            assert(v.set_column(dest as int, d.pop_n(i as nat)).set_column(
                dest as int,
                d.pop_n((i + 1) as nat),
            ) =~= v.set_column(dest as int, d.pop_n((i + 1) as nat)));
        }
        i += 1;
    }
    let ghost v0 = state@;
    proof {
        state.lemma_wf_facts();
    }
    if revealed {
        proof {
            state.lemma_wf_column(from as int);
            let cur = state.columns@[from as int];
            assert(cur@.cards[cur.face_down as int] == cur.cards@[cur.face_down as int]);
        }
        state.unreveal(from);
    }
    let ghost v1 = state@;
    let ghost col = v0.columns[from as int];
    assert(v1 =~= v0.set_column(from as int, if revealed { col.unreveal() } else { col }));
    let ghost run = run_of(d, count as nat);
    proof {
        state.lemma_wf_facts();
        assert(run.take(0) =~= Seq::<u8>::empty());
        assert(v1.columns[from as int].push_all(run.take(0)) =~= v1.columns[from as int]);
        assert(v1.set_column(from as int, v1.columns[from as int].push_all(run.take(0))) =~= v1);
    }
    let mut j: u8 = 0;
    while j < count
        invariant
            j <= count <= d.face_up(),
            from < NUM_COLUMNS,
            dest < NUM_COLUMNS,
            d == v.columns[dest as int],
            d.shape_ok(),
            v.shape_ok(),
            v1.columns.len() == NUM_COLUMNS,
            run == run_of(d, count as nat),
            forall|k: int| 0 <= k < count ==> #[trigger] buf@[k] == d.cards[d.len() - 1 - k],
            v1.columns[from as int].len() + count <= MAX_COL_LEN,
            state.wf(),
            state@ == v1.set_column(
                from as int,
                v1.columns[from as int].push_all(run.take(j as int)),
            ),
        decreases count - j,
    {
        proof {
            state.lemma_wf_column(from as int);
        }
        let c = buf[(count - 1 - j) as usize];
        proof {
            assert(c == d.cards[d.len() - 1 - (count - 1 - j)]);
            assert(c == run[j as int]);
            assert(is_card(c));
        }
        state.col_push(from, c);
        proof {
            assert(run.take(j + 1) =~= run.take(j as int).push(c));
            assert(v1.columns[from as int].push_all(run.take(j as int)).push(c) =~= v1.columns[from as int].push_all(run.take(j + 1)));
            assert(v1.set_column(from as int, v1.columns[from as int].push_all(run.take(j as int))).set_column(
                from as int, v1.columns[from as int].push_all(run.take(j + 1))) =~= v1.set_column(from as int, v1.columns[from as int].push_all(run.take(j + 1))));
        }
        j += 1;
    }
    proof {
        assert(run.take(count as int) =~= run);
    }
}

/// Taking a move back restores the state exactly: on a well-formed state, the
/// record `make_move` returns for a move it can play can be taken back on the
/// state the move leads to, and taking it back gives the first state again,
/// hash included.
pub proof fn lemma_unmake_undoes_make(v: StateView, mv: Move)
    requires
        v.shape_ok(),
        applicable(v, mv),
    ensures
        undo_ok(apply_spec(v, mv), undo_of(v, mv)),
        unapply_spec(apply_spec(v, mv), undo_of(v, mv)) == v,
        crate::state::state_hash(unapply_spec(apply_spec(v, mv), undo_of(v, mv)))
            == crate::state::state_hash(v),
{
    let a = apply_spec(v, mv);
    let u = undo_of(v, mv);
    match mv {
        Move::Draw => {
            assert(unapply_spec(a, u) =~= v);
        },
        Move::Recycle => {
            assert(unapply_spec(a, u) =~= v);
        },
        Move::WasteToFoundation => {
            let card = v.waste_top();
            let suit = suit_spec(card);
            assert(is_card(card));
            assert(a.stock.len() + 1 == v.stock.len());
            let r = unapply_spec(a, u);
            assert(r.stock =~= v.stock);
            assert(r.foundations =~= v.foundations);
            assert(r =~= v);
        },
        Move::WasteToColumn { dest } => {
            let card = v.waste_top();
            assert(is_card(card));
            let col = v.columns[dest as int];
            assert(col.shape_ok());
            assert(a.columns[dest as int] == col.push(card));
            assert(col.push(card).pop() =~= col);
            let r = unapply_spec(a, u);
            assert(r.stock =~= v.stock);
            assert(r.columns =~= v.columns);
            assert(r =~= v);
        },
        Move::ColumnToFoundation { from } => {
            let col = v.columns[from as int];
            assert(col.shape_ok());
            let card = col.top();
            assert(is_card(card));
            let c1 = col.pop().reveal_if_needed();
            assert(a.columns[from as int] == c1);
            let revealed = col.len() - 1 == col.face_down && col.face_down > 0;
            let c2 = if revealed {
                c1.unreveal()
            } else {
                c1
            };
            assert(c2 =~= col.pop());
            assert(col.pop().push(card) =~= col);
            let r = unapply_spec(a, u);
            assert(r.foundations =~= v.foundations);
            assert(r.columns =~= v.columns);
            assert(r =~= v);
        },
        Move::ColumnToColumn { from, dest, count } => {
            let col = v.columns[from as int];
            assert(col.shape_ok());
            let run = run_of(col, count as nat);
            let c1 = col.pop_n(count as nat).reveal_if_needed();
            let v1 = v.set_column(from as int, c1);
            let dcol = v1.columns[dest as int];
            assert(dcol.shape_ok() || from == dest) by {
                if from != dest {
                    assert(dcol == v.columns[dest as int]);
                }
            }
            assert(dcol.face_down <= dcol.len());
            let d = dcol.push_all(run);
            assert(a.columns[dest as int] == d);
            assert(d.pop_n(count as nat) =~= dcol);
            assert(run_of(d, count as nat) =~= run);
            let v3 = a.set_column(dest as int, d.pop_n(count as nat));
            assert(v3 =~= v1);
            let revealed = col.len() - count == col.face_down && col.face_down > 0;
            let c2 = if revealed {
                c1.unreveal()
            } else {
                c1
            };
            assert(c2 =~= col.pop_n(count as nat));
            assert(col.pop_n(count as nat).push_all(run) =~= col);
            let r = unapply_spec(a, u);
            assert(r.columns =~= v.columns);
            assert(r =~= v);
        },
    }
}

/// Room in the columns: a card at height `i` of a column has rank at most
/// `24 - i`, so the longest run that can ever be built on it still fits in
/// the column's 24 places.
pub open spec fn fits(v: StateView) -> bool {
    forall|c: int, i: int|
        0 <= c < NUM_COLUMNS && 0 <= i < v.columns[c].len() ==> i + rank_spec(
            #[trigger] v.columns[c].cards[i],
        ) <= MAX_COL_LEN
}

/// Along a run, ranks go down by one per card.
proof fn lemma_run_ranks(cards: Seq<u8>, lo: int, hi: int, start: int)
    requires
        0 <= lo <= start < hi <= cards.len(),
        forall|j: int| lo <= j < hi - 1 ==> links(#[trigger] cards[j], cards[j + 1]),
    ensures
        forall|k: int| 0 <= k < hi - start ==> rank_spec(#[trigger] cards[start + k]) == rank_spec(cards[start]) - k,
{
    assert forall|k: int| 0 <= k < hi - start implies rank_spec(#[trigger] cards[start + k]) == rank_spec(cards[start]) - k by {
        lemma_run_ranks_k(cards, lo, hi, start, k);
    }
}

proof fn lemma_run_ranks_k(cards: Seq<u8>, lo: int, hi: int, start: int, k: int)
    requires
        0 <= lo <= start < hi <= cards.len(),
        0 <= k < hi - start,
        forall|j: int| lo <= j < hi - 1 ==> links(#[trigger] cards[j], cards[j + 1]),
    ensures
        rank_spec(cards[start + k]) == rank_spec(cards[start]) - k,
    decreases k,
{
    if k > 0 {
        lemma_run_ranks_k(cards, lo, hi, start, k - 1);
        assert(links(cards[start + k - 1], cards[start + k - 1 + 1]));
    }
}

/// A legal move on a state with room in its columns can be played.
pub proof fn lemma_legal_applicable(v: StateView, mv: Move)
    requires
        v.shape_ok(),
        fits(v),
        legal(v, mv),
    ensures
        applicable(v, mv),
{
    match mv {
        Move::WasteToColumn { dest } => {
            let d = v.columns[dest as int];
            if d.len() > 0 {
                assert(d.len() - 1 + rank_spec(d.cards[d.len() - 1]) <= MAX_COL_LEN);
            }
        },
        Move::ColumnToColumn { from, dest, count } => {
            let col = v.columns[from as int];
            let d = v.columns[dest as int];
            assert(col.shape_ok());
            let start = col.len() - count;
            lemma_run_down_links(col.cards, col.face_down as int, col.len() - 1);
            lemma_run_ranks(col.cards, run_start(col), col.len() as int, start);
            assert(rank_spec(col.cards[start + (count - 1)]) == rank_spec(col.cards[start]) - (count - 1));
            if d.len() > 0 {
                assert(d.len() - 1 + rank_spec(d.cards[d.len() - 1]) <= MAX_COL_LEN);
            }
        },
        _ => {},
    }
}

/// Legal moves keep room in the columns.
pub proof fn lemma_apply_fits(v: StateView, mv: Move)
    requires
        v.shape_ok(),
        fits(v),
        legal(v, mv),
    ensures
        fits(apply_spec(v, mv)),
{
    let a = apply_spec(v, mv);
    match mv {
        Move::WasteToColumn { dest } => {
            let d = v.columns[dest as int];
            let card = v.waste_top();
            assert forall|c: int, i: int|
                0 <= c < NUM_COLUMNS && 0 <= i < a.columns[c].len() implies i + rank_spec(
                #[trigger] a.columns[c].cards[i],
            ) <= MAX_COL_LEN by {
                if c == dest && i == d.len() {
                    if d.len() > 0 {
                        assert(d.len() - 1 + rank_spec(d.cards[d.len() - 1]) <= MAX_COL_LEN);
                    }
                } else if c == dest {
                    assert(a.columns[c].cards[i] == d.cards[i]);
                } else {
                    assert(a.columns[c] == v.columns[c]);
                }
            }
        },
        Move::ColumnToFoundation { from } => {
            assert forall|c: int, i: int|
                0 <= c < NUM_COLUMNS && 0 <= i < a.columns[c].len() implies i + rank_spec(
                #[trigger] a.columns[c].cards[i],
            ) <= MAX_COL_LEN by {
                if c == from {
                    assert(a.columns[c].cards[i] == v.columns[c].cards[i]);
                } else {
                    assert(a.columns[c] == v.columns[c]);
                }
            }
        },
        Move::ColumnToColumn { from, dest, count } => {
            let col = v.columns[from as int];
            let d = v.columns[dest as int];
            assert(col.shape_ok());
            let start = col.len() - count;
            lemma_run_down_links(col.cards, col.face_down as int, col.len() - 1);
            lemma_run_ranks(col.cards, run_start(col), col.len() as int, start);
            let r = rank_spec(col.cards[start]);
            if d.len() > 0 {
                assert(d.len() - 1 + rank_spec(d.cards[d.len() - 1]) <= MAX_COL_LEN);
            }
            assert forall|c: int, i: int|
                0 <= c < NUM_COLUMNS && 0 <= i < a.columns[c].len() implies i + rank_spec(
                #[trigger] a.columns[c].cards[i],
            ) <= MAX_COL_LEN by {
                if c == dest {
                    if i < d.len() {
                        assert(a.columns[c].cards[i] == d.cards[i]);
                    } else {
                        let k = i - d.len();
                        assert(a.columns[c].cards[i] == col.cards[start + k]);
                        assert(rank_spec(col.cards[start + k]) == r - k);
                    }
                } else if c == from {
                    assert(a.columns[c].cards[i] == col.cards[i]);
                } else {
                    assert(a.columns[c] == v.columns[c]);
                }
            }
        },
        _ => {
            assert(a.columns == v.columns);
        },
    }
}

// ---- Legal play keeps face-up cards in runs ----
/// The face-up cards of `col` form a run: each sits on the one below it.
pub open spec fn col_runs(col: ColumnView) -> bool {
    forall|i: int|
        col.face_down <= i && i + 1 < col.len() ==> links(#[trigger] col.cards[i], col.cards[i + 1])
}

/// The face-up cards of every column form a run.
pub open spec fn runs_ok(v: StateView) -> bool {
    forall|c: int| 0 <= c < NUM_COLUMNS ==> col_runs(#[trigger] v.columns[c])
}

proof fn lemma_runs_pop_n(col: ColumnView, n: nat)
    requires
        col_runs(col),
        n <= col.len(),
        col.face_down <= col.len(),
    ensures
        col_runs(col.pop_n(n).reveal_if_needed()),
{
    let p = col.pop_n(n);
    assert forall|i: int| p.face_down <= i && i + 1 < p.len() implies links(
        #[trigger] p.cards[i],
        p.cards[i + 1],
    ) by {
        assert(p.cards[i] == col.cards[i] && p.cards[i + 1] == col.cards[i + 1]);
    }
}

proof fn lemma_runs_push_all(col: ColumnView, run: Seq<u8>)
    requires
        col_runs(col),
        col.face_down <= col.len(),
        run.len() > 0,
        placeable(run[0], col),
        forall|j: int| 0 <= j < run.len() - 1 ==> links(#[trigger] run[j], run[j + 1]),
    ensures
        col_runs(col.push_all(run)),
{
    let d = col.push_all(run);
    let n = col.len() as int;
    assert forall|i: int| d.face_down <= i && i + 1 < d.len() implies links(
        #[trigger] d.cards[i],
        d.cards[i + 1],
    ) by {
        if i + 1 < n {
            assert(d.cards[i] == col.cards[i] && d.cards[i + 1] == col.cards[i + 1]);
        } else if i + 1 == n {
            assert(d.cards[i] == col.top() && d.cards[i + 1] == run[0]);
        } else {
            assert(d.cards[i] == run[i - n] && d.cards[i + 1] == run[i - n + 1]);
        }
    }
}

/// Playing a legal move keeps the face-up cards of every column in runs.
pub proof fn lemma_legal_play_keeps_runs(v: StateView, mv: Move)
    requires
        v.shape_ok(),
        runs_ok(v),
        legal(v, mv),
    ensures
        runs_ok(apply_spec(v, mv)),
{
    let w = apply_spec(v, mv);
    match mv {
        Move::WasteToColumn { dest } => {
            let col = v.columns[dest as int];
            assert(col.shape_ok());
            assert(col_runs(col));
            lemma_runs_push_all(col, seq![v.waste_top()]);
            assert(col.push_all(seq![v.waste_top()]) =~= col.push(v.waste_top()));
            assert forall|c: int| 0 <= c < NUM_COLUMNS implies col_runs(#[trigger] w.columns[c]) by {
                if c != dest {
                    assert(w.columns[c] == v.columns[c]);
                }
            }
        },
        Move::ColumnToFoundation { from } => {
            let col = v.columns[from as int];
            assert(col.shape_ok());
            assert(col_runs(col));
            lemma_runs_pop_n(col, 1);
            assert(col.pop_n(1) =~= col.pop());
            assert forall|c: int| 0 <= c < NUM_COLUMNS implies col_runs(#[trigger] w.columns[c]) by {
                if c != from {
                    assert(w.columns[c] == v.columns[c]);
                }
            }
        },
        Move::ColumnToColumn { from, dest, count } => {
            let col = v.columns[from as int];
            let dcol = v.columns[dest as int];
            let start = col.len() - count;
            assert(col.shape_ok() && dcol.shape_ok());
            assert(col_runs(col) && col_runs(dcol));
            lemma_runs_pop_n(col, count as nat);
            let run = run_of(col, count as nat);
            lemma_run_down_links(col.cards, col.face_down as int, col.len() - 1);
            assert forall|j: int| 0 <= j < run.len() - 1 implies links(#[trigger] run[j], run[j + 1]) by {
                assert(run[j] == col.cards[start + j] && run[j + 1] == col.cards[start + j + 1]);
            }
            assert(run[0] == col.cards[start]);
            lemma_runs_push_all(dcol, run);
            let v1 = v.set_column(from as int, col.pop_n(count as nat).reveal_if_needed());
            assert(v1.columns[dest as int] == dcol);
            assert forall|c: int| 0 <= c < NUM_COLUMNS implies col_runs(#[trigger] w.columns[c]) by {
                if c != from && c != dest {
                    assert(w.columns[c] == v.columns[c]);
                }
            }
        },
        _ => {
            assert forall|c: int| 0 <= c < NUM_COLUMNS implies col_runs(#[trigger] w.columns[c]) by {
                assert(w.columns[c] == v.columns[c]);
            }
        },
    }
}

// ---- Legal play keeps the cards ----
/// The cards of suit `s` on a foundation at level `n`.
pub open spec fn suit_cards(s: int, n: int) -> Multiset<u8>
    decreases n,
{
    if n <= 0 {
        Multiset::empty()
    } else {
        suit_cards(s, n - 1).insert((s * 13 + n - 1) as u8)
    }
}

/// The cards on the foundations.
pub open spec fn foundation_cards(f: Seq<u8>) -> Multiset<u8> {
    suit_cards(0, f[0] as int).add(suit_cards(1, f[1] as int)).add(suit_cards(2, f[2] as int)).add(
        suit_cards(3, f[3] as int),
    )
}

/// The cards of the columns `0..n`.
pub open spec fn column_cards(cols: Seq<ColumnView>, n: int) -> Multiset<u8>
    decreases n,
{
    if n <= 0 {
        Multiset::empty()
    } else {
        column_cards(cols, n - 1).add(cols[n - 1].cards.to_multiset())
    }
}

/// Every card of a position: in the columns, in the stock and waste, and on
/// the foundations.
pub open spec fn cards_of(v: StateView) -> Multiset<u8> {
    column_cards(v.columns, NUM_COLUMNS as int).add(v.stock.to_multiset()).add(
        foundation_cards(v.foundations),
    )
}

proof fn lemma_column_cards_ext(a: Seq<ColumnView>, b: Seq<ColumnView>, n: int)
    requires
        forall|i: int| 0 <= i < n ==> #[trigger] a[i] == b[i],
    ensures
        column_cards(a, n) == column_cards(b, n),
    decreases n,
{
    if n > 0 {
        lemma_column_cards_ext(a, b, n - 1);
        assert(a[n - 1] == b[n - 1]);
    }
}

proof fn lemma_column_cards_update(cols: Seq<ColumnView>, c: int, col: ColumnView, n: int, x: u8)
    requires
        0 <= c < n <= cols.len(),
    ensures
        column_cards(cols.update(c, col), n).count(x) == column_cards(cols, n).count(x)
            - cols[c].cards.to_multiset().count(x) + col.cards.to_multiset().count(x),
    decreases n,
{
    broadcast use vstd::multiset::group_multiset_axioms;

    let u = cols.update(c, col);
    if c < n - 1 {
        lemma_column_cards_update(cols, c, col, n - 1, x);
        assert(u[n - 1] == cols[n - 1]);
    } else {
        lemma_column_cards_ext(u, cols, n - 1);
        assert(u[n - 1] == col);
    }
}

proof fn lemma_foundation_raise(f: Seq<u8>, s: int, x: u8)
    requires
        f.len() == 4,
        0 <= s < 4,
        f[s] < 13,
    ensures
        foundation_cards(f.update(s, (f[s] + 1) as u8)).count(x) == foundation_cards(f).count(x)
            + if x == (s * 13 + f[s]) as u8 {
            1int
        } else {
            0int
        },
{
    broadcast use vstd::multiset::group_multiset_axioms;

    let g = f.update(s, (f[s] + 1) as u8);
    let k = (s * 13 + f[s]) as u8;
    assert(g[s] == f[s] + 1);
    assert(suit_cards(s, f[s] + 1) == suit_cards(s, f[s] as int).insert(k));
    let a0 = suit_cards(0, f[0] as int);
    let a1 = suit_cards(1, f[1] as int);
    let a2 = suit_cards(2, f[2] as int);
    let a3 = suit_cards(3, f[3] as int);
    if s == 0 {
        assert(g[1] == f[1] && g[2] == f[2] && g[3] == f[3]);
        assert(foundation_cards(g) == a0.insert(k).add(a1).add(a2).add(a3));
    } else if s == 1 {
        assert(g[0] == f[0] && g[2] == f[2] && g[3] == f[3]);
        assert(foundation_cards(g) == a0.add(a1.insert(k)).add(a2).add(a3));
    } else if s == 2 {
        assert(g[0] == f[0] && g[1] == f[1] && g[3] == f[3]);
        assert(foundation_cards(g) == a0.add(a1).add(a2.insert(k)).add(a3));
    } else {
        assert(g[0] == f[0] && g[1] == f[1] && g[2] == f[2]);
        assert(foundation_cards(g) == a0.add(a1).add(a2).add(a3.insert(k)));
    }
}

proof fn lemma_card_code(card: u8)
    requires
        is_card(card),
    ensures
        card == (suit_spec(card) * 13 + card as int % 13) as u8,
{
}

/// Playing a legal move neither loses nor makes a card: the cards of the
/// columns, the stock and the foundations stay the same.
pub proof fn lemma_legal_play_keeps_cards(v: StateView, mv: Move)
    requires
        v.shape_ok(),
        legal(v, mv),
    ensures
        cards_of(apply_spec(v, mv)) == cards_of(v),
{
    broadcast use vstd::multiset::group_multiset_axioms;
    broadcast use vstd::seq_lib::to_multiset_remove;
    broadcast use vstd::seq_lib::to_multiset_build;
    broadcast use vstd::seq_lib::to_multiset_contains;
    broadcast use vstd::seq_lib::lemma_multiset_commutative;

    let w = apply_spec(v, mv);
    match mv {
        Move::Draw => {},
        Move::Recycle => {},
        Move::WasteToFoundation => {
            let p = v.stock_pointer - 1;
            let card = v.waste_top();
            let suit = suit_spec(card);
            assert(is_card(card));
            lemma_card_code(card);
            assert(v.stock.contains(card)) by {
                assert(v.stock[p] == card);
            }
            assert forall|x: u8| #[trigger] cards_of(w).count(x) == cards_of(v).count(x) by {
                lemma_foundation_raise(v.foundations, suit, x);
            }
            assert(cards_of(w) =~= cards_of(v));
        },
        Move::WasteToColumn { dest } => {
            let p = v.stock_pointer - 1;
            let card = v.waste_top();
            let col = v.columns[dest as int];
            assert(v.stock.contains(card)) by {
                assert(v.stock[p] == card);
            }
            let v1 = v.remove_waste_top();
            assert(v1.columns == v.columns);
            assert forall|x: u8| #[trigger] cards_of(w).count(x) == cards_of(v).count(x) by {
                lemma_column_cards_update(v.columns, dest as int, col.push(card), NUM_COLUMNS as int, x);
            }
            assert(cards_of(w) =~= cards_of(v));
        },
        Move::ColumnToFoundation { from } => {
            let col = v.columns[from as int];
            let card = col.top();
            let suit = suit_spec(card);
            assert(col.shape_ok());
            assert(is_card(card));
            lemma_card_code(card);
            let ncol = col.pop().reveal_if_needed();
            assert(col.cards =~= ncol.cards.push(card));
            let v1 = v.set_column(from as int, ncol);
            assert forall|x: u8| #[trigger] cards_of(w).count(x) == cards_of(v).count(x) by {
                lemma_column_cards_update(v.columns, from as int, ncol, NUM_COLUMNS as int, x);
                lemma_foundation_raise(v.foundations, suit, x);
            }
            assert(cards_of(w) =~= cards_of(v));
        },
        Move::ColumnToColumn { from, dest, count } => {
            let col = v.columns[from as int];
            let dcol = v.columns[dest as int];
            let run = run_of(col, count as nat);
            let ncol = col.pop_n(count as nat).reveal_if_needed();
            assert(col.shape_ok());
            assert(col.cards =~= ncol.cards + run);
            let v1 = v.set_column(from as int, ncol);
            assert(v1.columns[dest as int] == dcol);
            let ndest = dcol.push_all(run);
            assert forall|x: u8| #[trigger] cards_of(w).count(x) == cards_of(v).count(x) by {
                lemma_column_cards_update(v.columns, from as int, ncol, NUM_COLUMNS as int, x);
                lemma_column_cards_update(v1.columns, dest as int, ndest, NUM_COLUMNS as int, x);
            }
            assert(cards_of(w) =~= cards_of(v));
        },
    }
}

} // verus!
