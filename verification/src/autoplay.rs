//! Playing a safe card to its foundation at once never loses a win.
//!
//! A winning line from a position is turned into a shorter winning line from
//! the position where the safe card already sits on its foundation. The two
//! games are kept side by side: in the second one, some cards (the safe
//! card, and Aces laid on it when it is a Two) are already on their
//! foundations, while in the first they still sit at the top of a column or
//! in the stock.
use vstd::prelude::*;
use crate::apply::apply_spec;
use crate::card::{is_card, rank0_spec, rank_spec, red_spec, suit_spec};
use crate::moves::{
    Move, fits_foundation, legal, lemma_run_down_links, links, placeable, run_down, run_start,
};
use crate::apply::run_of;
use crate::solver::{
    autoplay_spec, column_autoplay, lemma_replay_first, lemma_winning_tail, line_ok, replay,
    safe_autoplay, winning_line,
};
use crate::state::{ColumnView, StateView};
use crate::zobrist::NUM_COLUMNS;

verus! {

/// Each card sits in at most one place, and no card on a foundation is
/// also in a column or in the stock.
pub open spec fn places_distinct(v: StateView) -> bool {
    &&& forall|x: int, i: int, y: int, j: int|
        0 <= x < NUM_COLUMNS && 0 <= y < NUM_COLUMNS && 0 <= i < v.columns[x].len() && 0 <= j
            < v.columns[y].len() && (x != y || i != j) ==> #[trigger] v.columns[x].cards[i]
            != #[trigger] v.columns[y].cards[j]
    &&& forall|i: int, j: int|
        0 <= i < v.stock.len() && 0 <= j < v.stock.len() && i != j ==> #[trigger] v.stock[i]
            != #[trigger] v.stock[j]
    &&& forall|x: int, i: int, j: int|
        0 <= x < NUM_COLUMNS && 0 <= i < v.columns[x].len() && 0 <= j < v.stock.len()
            ==> #[trigger] v.columns[x].cards[i] != #[trigger] v.stock[j]
    &&& forall|x: int, i: int|
        0 <= x < NUM_COLUMNS && 0 <= i < v.columns[x].len() ==> rank0_spec(
            #[trigger] v.columns[x].cards[i],
        ) >= v.foundations[suit_spec(v.columns[x].cards[i])]
    &&& forall|j: int|
        0 <= j < v.stock.len() ==> rank0_spec(#[trigger] v.stock[j]) >= v.foundations[suit_spec(
            v.stock[j],
        )]
}

/// Suit `t` is one card higher in `m` than in `o`.
pub open spec fn raised(o: StateView, m: StateView, t: int) -> bool {
    m.foundations[t] == o.foundations[t] + 1
}

/// Card `x` is on its foundation in `m` but not yet in `o`.
pub open spec fn absorbed(o: StateView, m: StateView, x: u8) -> bool {
    &&& is_card(x)
    &&& raised(o, m, suit_spec(x))
    &&& rank0_spec(x) == o.foundations[suit_spec(x)]
}

/// How many of the top cards of `col` are absorbed (at most two).
pub open spec fn top_k(o: StateView, m: StateView, col: ColumnView) -> int {
    if col.len() >= 1 && absorbed(o, m, col.cards[col.len() - 1]) {
        if col.len() >= 2 && absorbed(o, m, col.cards[col.len() - 2]) {
            2
        } else {
            1
        }
    } else {
        0
    }
}

/// `col` without its top `k` cards, turning the new top over if needed.
pub open spec fn strip(col: ColumnView, k: int) -> ColumnView {
    if k <= 0 {
        col
    } else {
        col.pop_n(k as nat).reveal_if_needed()
    }
}

/// Suit `t` is red.
pub open spec fn red_suit(t: int) -> bool {
    t == 0 || t == 1
}

pub open spec fn col_sim(o: StateView, m: StateView, x: int) -> bool {
    let col = o.columns[x];
    let k = top_k(o, m, col);
    &&& m.columns[x] == strip(col, k)
    &&& k <= col.face_up()
    &&& k == 2 ==> links(col.cards[col.len() - 2], col.cards[col.len() - 1])
    &&& forall|i: int| 0 <= i < col.len() - k ==> !absorbed(o, m, #[trigger] col.cards[i])
}

/// The stocks agree, and none of its cards is absorbed.
pub open spec fn stock_same(o: StateView, m: StateView) -> bool {
    &&& m.stock == o.stock
    &&& m.stock_pointer == o.stock_pointer
    &&& forall|i: int| 0 <= i < o.stock.len() ==> !absorbed(o, m, #[trigger] o.stock[i])
}

/// The stock of `m` is that of `o` without its absorbed card at `j`.
pub open spec fn stock_without(o: StateView, m: StateView, j: int) -> bool {
    &&& 0 <= j < o.stock.len()
    &&& absorbed(o, m, o.stock[j])
    &&& forall|i: int| 0 <= i < o.stock.len() && i != j ==> !absorbed(o, m, #[trigger] o.stock[i])
    &&& m.stock == o.stock.remove(j)
    &&& m.stock_pointer == if j < o.stock_pointer {
        (o.stock_pointer - 1) as nat
    } else {
        o.stock_pointer
    }
}

/// `m` is `o` with some cards already on their foundations: the safe card
/// of suit `s` and rank `r`, and, when it is a Two, Aces of the other colour
/// laid on it.
pub open spec fn sim(o: StateView, m: StateView, s: int, r: int) -> bool {
    &&& 0 <= s < 4
    &&& 1 <= r <= 13
    &&& o.shape_ok()
    &&& m.foundations.len() == 4
    &&& m.columns.len() == NUM_COLUMNS
    &&& forall|t: int|
        0 <= t < 4 ==> #[trigger] m.foundations[t] == o.foundations[t] || (raised(o, m, t)
            && o.foundations[t] < 13)
    &&& raised(o, m, s) ==> o.foundations[s] == r - 1
    &&& forall|t: int|
        0 <= t < 4 && t != s && #[trigger] raised(o, m, t) ==> r == 2 && o.foundations[t] == 0
            && red_suit(t) != red_suit(s)
    &&& r >= 3 ==> forall|t: int|
        0 <= t < 4 && red_suit(t) != red_suit(s) ==> #[trigger] o.foundations[t] >= r - 1
    &&& forall|x: int| 0 <= x < NUM_COLUMNS ==> #[trigger] col_sim(o, m, x)
    &&& stock_same(o, m) || exists|j: int| #[trigger] stock_without(o, m, j)
}

/// How many cards `m` has on its foundations that `o` has not.
pub open spec fn ahead(o: StateView, m: StateView) -> int {
    (m.foundations[0] - o.foundations[0]) + (m.foundations[1] - o.foundations[1]) + (
    m.foundations[2] - o.foundations[2]) + (m.foundations[3] - o.foundations[3])
}

/// One move `x` of the first game, answered by `y` in the second: nothing, or
/// one legal move; the games stay side by side, and the second stays as far
/// ahead as the count of moves allows.
pub open spec fn step_ok(o: StateView, m: StateView, s: int, r: int, x: Move, y: Option<Move>) -> bool {
    match y {
        None => sim(apply_spec(o, x), m, s, r) && ahead(o, m) <= ahead(apply_spec(o, x), m) + 1,
        Some(z) => legal(m, z) && sim(apply_spec(o, x), apply_spec(m, z), s, r) && ahead(o, m)
            <= ahead(apply_spec(o, x), apply_spec(m, z)),
    }
}

/// Moves that leave the columns and foundations alone keep what is absorbed.
proof fn lemma_same_absorbed(o: StateView, m: StateView, o2: StateView, m2: StateView)
    requires
        o2.foundations == o.foundations,
        m2.foundations == m.foundations,
    ensures
        forall|z: u8| absorbed(o2, m2, z) == absorbed(o, m, z),
        forall|col: ColumnView| top_k(o2, m2, col) == top_k(o, m, col),
{
}

proof fn lemma_step_draw(o: StateView, m: StateView, s: int, r: int) -> (y: Option<Move>)
    requires
        sim(o, m, s, r),
        legal(o, Move::Draw),
    ensures
        step_ok(o, m, s, r, Move::Draw, y),
{
    let o2 = apply_spec(o, Move::Draw);
    if stock_same(o, m) {
        let m2 = apply_spec(m, Move::Draw);
        lemma_same_absorbed(o, m, o2, m2);
        assert forall|x: int| 0 <= x < NUM_COLUMNS implies #[trigger] col_sim(o2, m2, x) by {
            assert(col_sim(o, m, x));
        }
        assert(stock_same(o2, m2));
        Some(Move::Draw)
    } else {
        let j = choose|j: int| #[trigger] stock_without(o, m, j);
        lemma_same_absorbed(o, m, o2, m);
        assert forall|x: int| 0 <= x < NUM_COLUMNS implies #[trigger] col_sim(o2, m, x) by {
            assert(col_sim(o, m, x));
        }
        if j == o.stock_pointer {
            assert(stock_without(o2, m, j));
            None
        } else {
            let m2 = apply_spec(m, Move::Draw);
            lemma_same_absorbed(o, m, o2, m2);
            assert forall|x: int| 0 <= x < NUM_COLUMNS implies #[trigger] col_sim(o2, m2, x) by {
                assert(col_sim(o, m, x));
            }
            assert(stock_without(o2, m2, j));
            Some(Move::Draw)
        }
    }
}

proof fn lemma_step_recycle(o: StateView, m: StateView, s: int, r: int) -> (y: Option<Move>)
    requires
        sim(o, m, s, r),
        legal(o, Move::Recycle),
    ensures
        step_ok(o, m, s, r, Move::Recycle, y),
{
    let o2 = apply_spec(o, Move::Recycle);
    if stock_same(o, m) {
        let m2 = apply_spec(m, Move::Recycle);
        lemma_same_absorbed(o, m, o2, m2);
        assert forall|x: int| 0 <= x < NUM_COLUMNS implies #[trigger] col_sim(o2, m2, x) by {
            assert(col_sim(o, m, x));
        }
        assert(stock_same(o2, m2));
        Some(Move::Recycle)
    } else {
        let j = choose|j: int| #[trigger] stock_without(o, m, j);
        if o.stock.len() == 1 {
            lemma_same_absorbed(o, m, o2, m);
            assert forall|x: int| 0 <= x < NUM_COLUMNS implies #[trigger] col_sim(o2, m, x) by {
                assert(col_sim(o, m, x));
            }
            assert(stock_without(o2, m, j));
            None
        } else {
            let m2 = apply_spec(m, Move::Recycle);
            lemma_same_absorbed(o, m, o2, m2);
            assert forall|x: int| 0 <= x < NUM_COLUMNS implies #[trigger] col_sim(o2, m2, x) by {
                assert(col_sim(o, m, x));
            }
            assert(stock_without(o2, m2, j));
            Some(Move::Recycle)
        }
    }
}

proof fn lemma_card_eq(a: u8, b: u8)
    requires
        is_card(a),
        is_card(b),
        suit_spec(a) == suit_spec(b),
        rank0_spec(a) == rank0_spec(b),
    ensures
        a == b,
{
}

/// After the waste's top card (not absorbed) is played in both games, the
/// stocks still agree.
proof fn lemma_waste_played(o: StateView, m: StateView, o2: StateView, m2: StateView)
    requires
        o.stock_pointer > 0,
        o.stock_pointer <= o.stock.len(),
        !absorbed(o, m, o.waste_top()),
        stock_same(o, m) || exists|j: int| #[trigger] stock_without(o, m, j),
        o2.stock == o.remove_waste_top().stock,
        o2.stock_pointer == o.remove_waste_top().stock_pointer,
        m2.stock == m.remove_waste_top().stock,
        m2.stock_pointer == m.remove_waste_top().stock_pointer,
        forall|i: int|
            0 <= i < o.stock.len() && i != o.stock_pointer - 1 ==> absorbed(o2, m2, #[trigger] o.stock[i])
                == absorbed(o, m, o.stock[i]),
    ensures
        m.stock_pointer > 0,
        m.waste_top() == o.waste_top(),
        stock_same(o2, m2) || exists|j: int| #[trigger] stock_without(o2, m2, j),
{
    let p = o.stock_pointer - 1;
    if stock_same(o, m) {
        assert forall|i: int| 0 <= i < o2.stock.len() implies !absorbed(o2, m2, #[trigger] o2.stock[i]) by {
            if i < p {
                assert(o2.stock[i] == o.stock[i]);
            } else {
                assert(o2.stock[i] == o.stock[i + 1]);
            }
        }
        assert(stock_same(o2, m2));
    } else {
        let j = choose|j: int| #[trigger] stock_without(o, m, j);
        assert(j != p);
        let j2 = if j < p { j } else { j - 1 };
        if j < p {
            assert(m.stock[p - 1] == o.stock[p]);
            assert(o2.stock.remove(j2) =~= m2.stock);
        } else {
            assert(m.stock[p] == o.stock[p]);
            assert(o2.stock.remove(j2) =~= m2.stock);
        }
        assert(o2.stock[j2] == o.stock[j]);
        assert forall|i: int| 0 <= i < o2.stock.len() && i != j2 implies !absorbed(
            o2,
            m2,
            #[trigger] o2.stock[i],
        ) by {
            if i < p {
                assert(o2.stock[i] == o.stock[i]);
            } else {
                assert(o2.stock[i] == o.stock[i + 1]);
            }
        }
        assert(stock_without(o2, m2, j2));
    }
}

proof fn lemma_step_waste_foundation(o: StateView, m: StateView, s: int, r: int) -> (y: Option<Move>)
    requires
        sim(o, m, s, r),
        places_distinct(o),
        apply_spec(o, Move::WasteToFoundation).shape_ok(),
        legal(o, Move::WasteToFoundation),
    ensures
        step_ok(o, m, s, r, Move::WasteToFoundation, y),
{
    let x = Move::WasteToFoundation;
    let o2 = apply_spec(o, x);
    let p = o.stock_pointer - 1;
    let c = o.waste_top();
    let t = suit_spec(c);
    assert(is_card(c));
    if absorbed(o, m, c) {
        let j = choose|j: int| #[trigger] stock_without(o, m, j);
        assert(j == p);
        assert(o2.stock =~= m.stock);
        // no column holds the card played
        assert forall|z: int, i: int| 0 <= z < NUM_COLUMNS && 0 <= i < o.columns[z].len() implies absorbed(
            o2,
            m,
            #[trigger] o.columns[z].cards[i],
        ) == absorbed(o, m, o.columns[z].cards[i]) by {
            let w = o.columns[z].cards[i];
            assert(w != o.stock[p]);
            if absorbed(o, m, w) && suit_spec(w) == t {
                lemma_card_eq(w, c);
            }
        }
        assert forall|z: int| 0 <= z < NUM_COLUMNS implies #[trigger] col_sim(o2, m, z) by {
            assert(col_sim(o, m, z));
            let col = o.columns[z];
            assert(o2.columns[z] == col);
            if col.len() >= 1 {
                assert(absorbed(o2, m, col.cards[col.len() - 1]) == absorbed(o, m, col.cards[col.len() - 1]));
            }
            if col.len() >= 2 {
                assert(absorbed(o2, m, col.cards[col.len() - 2]) == absorbed(o, m, col.cards[col.len() - 2]));
            }
            assert(top_k(o2, m, col) == top_k(o, m, col));
            assert forall|i: int| 0 <= i < col.len() - top_k(o2, m, col) implies !absorbed(
                o2,
                m,
                #[trigger] col.cards[i],
            ) by {
                assert(absorbed(o2, m, col.cards[i]) == absorbed(o, m, col.cards[i]));
            }
        }
        assert forall|i: int| 0 <= i < o2.stock.len() implies !absorbed(o2, m, #[trigger] o2.stock[i]) by {
            if i < p {
                assert(o2.stock[i] == o.stock[i]);
            } else {
                assert(o2.stock[i] == o.stock[i + 1]);
            }
        }
        assert(stock_same(o2, m));
        None
    } else {
        assert(m.foundations[t] == o.foundations[t]);
        let z = Move::WasteToFoundation;
        let m2 = apply_spec(m, z);
        assert forall|w: u8| #[trigger] absorbed(o2, m2, w) == absorbed(o, m, w) by {}
        lemma_waste_played(o, m, o2, m2);
        assert forall|q: int| 0 <= q < NUM_COLUMNS implies #[trigger] col_sim(o2, m2, q) by {
            assert(col_sim(o, m, q));
            let col = o.columns[q];
            assert(top_k(o2, m2, col) == top_k(o, m, col));
        }
        Some(z)
    }
}

/// A card laid on an absorbed top card is an Ace on a safe Two: anything
/// else would be a card already on its foundation, or a rank below the Ace.
proof fn lemma_laid_on_absorbed(o: StateView, m: StateView, s: int, r: int, y: u8, z: u8)
    requires
        sim(o, m, s, r),
        is_card(y),
        is_card(z),
        absorbed(o, m, z),
        links(z, y),
        rank0_spec(y) >= o.foundations[suit_spec(y)],
    ensures
        r == 2,
        suit_spec(z) == s,
        rank_spec(y) == 1,
        o.foundations[suit_spec(y)] == 0,
        red_suit(suit_spec(y)) != red_suit(s),
{
    let tz = suit_spec(z);
    let ty = suit_spec(y);
    assert(m.foundations[tz] == o.foundations[tz] + 1);
    if tz != s {
        assert(raised(o, m, tz));
    } else {
        if r >= 3 {
            assert(red_suit(ty) != red_suit(s));
            assert(o.foundations[ty] >= r - 1);
        }
    }
}

proof fn lemma_step_waste_column(o: StateView, m: StateView, s: int, r: int, dest: u8) -> (y: Option<Move>)
    requires
        sim(o, m, s, r),
        places_distinct(o),
        apply_spec(o, Move::WasteToColumn { dest }).shape_ok(),
        legal(o, Move::WasteToColumn { dest }),
    ensures
        step_ok(o, m, s, r, Move::WasteToColumn { dest }, y),
{
    let x = Move::WasteToColumn { dest };
    let o2 = apply_spec(o, x);
    let p = o.stock_pointer - 1;
    let c = o.waste_top();
    let d = dest as int;
    let col = o.columns[d];
    let n = col.len() as int;
    assert(is_card(c));
    assert(col_sim(o, m, d));
    let k = top_k(o, m, col);
    if absorbed(o, m, c) {
        let j = choose|j: int| #[trigger] stock_without(o, m, j);
        assert(j == p);
        assert(o2.stock =~= m.stock);
        let col2 = o2.columns[d];
        assert(col2 == col.push(c));
        if k >= 1 {
            lemma_laid_on_absorbed(o, m, s, r, c, col.cards[n - 1]);
            if k == 2 {
                lemma_laid_on_absorbed(o, m, s, r, col.cards[n - 1], col.cards[n - 2]);
            }
        }
        assert(k <= 1);
        assert(col2.cards[n] == c);
        if n >= 1 {
            assert(col2.cards[n - 1] == col.cards[n - 1]);
        }
        assert(top_k(o2, m, col2) == k + 1);
        assert(col2.pop_n((k + 1) as nat).cards =~= col.pop_n(k as nat).cards);
        if k == 0 {
            assert(col.pop_n(0).cards =~= col.cards);
        }
        assert(strip(col2, k + 1) == strip(col, k));
        assert forall|q: int| 0 <= q < NUM_COLUMNS implies #[trigger] col_sim(o2, m, q) by {
            assert(col_sim(o, m, q));
            if q == d {
                assert forall|i: int| 0 <= i < col2.len() - (k + 1) implies !absorbed(
                    o2,
                    m,
                    #[trigger] col2.cards[i],
                ) by {
                    assert(col2.cards[i] == col.cards[i]);
                }
            }
        }
        assert forall|i: int| 0 <= i < o2.stock.len() implies !absorbed(o2, m, #[trigger] o2.stock[i]) by {
            if i < p {
                assert(o2.stock[i] == o.stock[i]);
            } else {
                assert(o2.stock[i] == o.stock[i + 1]);
            }
        }
        assert(stock_same(o2, m));
        None
    } else if k == 0 {
        let z = x;
        let m2 = apply_spec(m, z);
        lemma_waste_played(o, m, o2, m2);
        assert(m.columns[d] == col);
        let col2 = o2.columns[d];
        assert(col2 == col.push(c));
        assert(m2.columns[d] == col2);
        assert(col2.cards[n] == c);
        assert(top_k(o2, m2, col2) == 0);
        assert forall|q: int| 0 <= q < NUM_COLUMNS implies #[trigger] col_sim(o2, m2, q) by {
            assert(col_sim(o, m, q));
            if q == d {
                assert forall|i: int| 0 <= i < col2.len() implies !absorbed(
                    o2,
                    m2,
                    #[trigger] col2.cards[i],
                ) by {
                    if i < n {
                        assert(col2.cards[i] == col.cards[i]);
                    }
                }
            }
        }
        Some(z)
    } else {
        // an Ace laid on the safe Two: the other game plays it up at once
        lemma_laid_on_absorbed(o, m, s, r, c, col.cards[n - 1]);
        let t = suit_spec(c);
        assert(!raised(o, m, t));
        assert(m.foundations[t] == 0);
        let z = Move::WasteToFoundation;
        let m2 = apply_spec(m, z);
        lemma_waste_played(o, m, o2, m2);
        assert(raised(o2, m2, t));
        assert(absorbed(o2, m2, c));
        assert forall|w: u8| w != c ==> #[trigger] absorbed(o2, m2, w) == absorbed(o, m, w) by {
            if suit_spec(w) == t && is_card(w) && rank0_spec(w) == 0 {
                lemma_card_eq(w, c);
            }
        }
        if k == 2 {
            lemma_laid_on_absorbed(o, m, s, r, col.cards[n - 1], col.cards[n - 2]);
        }
        assert(k == 1);
        let col2 = o2.columns[d];
        assert(col2 == col.push(c));
        assert(col2.cards[n] == c && col2.cards[n - 1] == col.cards[n - 1]);
        assert(col.cards[n - 1] != c);
        assert(top_k(o2, m2, col2) == 2);
        assert(col2.pop_n(2).cards =~= col.pop_n(1).cards);
        assert forall|q: int| 0 <= q < NUM_COLUMNS implies #[trigger] col_sim(o2, m2, q) by {
            assert(col_sim(o, m, q));
            let cq = o.columns[q];
            if q == d {
                assert forall|i: int| 0 <= i < col2.len() - 2 implies !absorbed(
                    o2,
                    m2,
                    #[trigger] col2.cards[i],
                ) by {
                    assert(col2.cards[i] == col.cards[i]);
                    assert(col.cards[i] != o.stock[p]);
                }
            } else {
                assert(o2.columns[q] == cq);
                assert forall|i: int| 0 <= i < cq.len() implies absorbed(
                    o2,
                    m2,
                    #[trigger] cq.cards[i],
                ) == absorbed(o, m, cq.cards[i]) by {
                    assert(cq.cards[i] != o.stock[p]);
                }
                if cq.len() >= 1 {
                    assert(absorbed(o2, m2, cq.cards[cq.len() - 1]) == absorbed(o, m, cq.cards[cq.len() - 1]));
                }
                if cq.len() >= 2 {
                    assert(absorbed(o2, m2, cq.cards[cq.len() - 2]) == absorbed(o, m, cq.cards[cq.len() - 2]));
                }
                assert(top_k(o2, m2, cq) == top_k(o, m, cq));
            }
        }
        Some(z)
    }
}

/// A column left alone in both games, whose cards keep their absorbed
/// status, stays side by side.
proof fn lemma_col_kept(o: StateView, m: StateView, o2: StateView, m2: StateView, q: int)
    requires
        col_sim(o, m, q),
        o2.columns[q] == o.columns[q],
        m2.columns[q] == m.columns[q],
        forall|i: int|
            0 <= i < o.columns[q].len() ==> absorbed(o2, m2, #[trigger] o.columns[q].cards[i])
                == absorbed(o, m, o.columns[q].cards[i]),
    ensures
        col_sim(o2, m2, q),
{
    let cq = o.columns[q];
    if cq.len() >= 1 {
        assert(absorbed(o2, m2, cq.cards[cq.len() - 1]) == absorbed(o, m, cq.cards[cq.len() - 1]));
    }
    if cq.len() >= 2 {
        assert(absorbed(o2, m2, cq.cards[cq.len() - 2]) == absorbed(o, m, cq.cards[cq.len() - 2]));
    }
    assert(top_k(o2, m2, cq) == top_k(o, m, cq));
}

/// The stock left alone in both games, its cards keeping their absorbed
/// status, stays side by side.
proof fn lemma_stock_kept(o: StateView, m: StateView, o2: StateView, m2: StateView)
    requires
        stock_same(o, m) || exists|j: int| #[trigger] stock_without(o, m, j),
        o2.stock == o.stock,
        o2.stock_pointer == o.stock_pointer,
        m2.stock == m.stock,
        m2.stock_pointer == m.stock_pointer,
        forall|i: int|
            0 <= i < o.stock.len() ==> absorbed(o2, m2, #[trigger] o.stock[i]) == absorbed(
                o,
                m,
                o.stock[i],
            ),
    ensures
        stock_same(o2, m2) || exists|j: int| #[trigger] stock_without(o2, m2, j),
{
    if !stock_same(o, m) {
        let j = choose|j: int| #[trigger] stock_without(o, m, j);
        assert(stock_without(o2, m2, j));
    }
}

#[verifier::rlimit(50)]
proof fn lemma_c2f_absorbed(o: StateView, m: StateView, s: int, r: int, from: u8)
    requires
        sim(o, m, s, r),
        places_distinct(o),
        apply_spec(o, Move::ColumnToFoundation { from }).shape_ok(),
        legal(o, Move::ColumnToFoundation { from }),
        absorbed(o, m, o.columns[from as int].top()),
    ensures
        step_ok(o, m, s, r, Move::ColumnToFoundation { from }, None),
{
    let x = Move::ColumnToFoundation { from };
    let o2 = apply_spec(o, x);
    let f = from as int;
    let col = o.columns[f];
    let n = col.len() as int;
    let c = col.top();
    let t = suit_spec(c);
    assert(col.shape_ok());
    assert(is_card(c));
    assert(col_sim(o, m, f));
    let k = top_k(o, m, col);
    let col2 = o2.columns[f];
    assert(col2 == col.pop().reveal_if_needed());
        // every other place keeps its status: the card played is nowhere else
        assert forall|q: int, i: int|
            0 <= q < NUM_COLUMNS && 0 <= i < o.columns[q].len() && (q != f || i != n - 1) implies absorbed(
            o2,
            m,
            #[trigger] o.columns[q].cards[i],
        ) == absorbed(o, m, o.columns[q].cards[i]) by {
            let w = o.columns[q].cards[i];
            assert(w != col.cards[n - 1]);
            if absorbed(o, m, w) && suit_spec(w) == t {
                lemma_card_eq(w, c);
            }
        }
        assert forall|i: int| 0 <= i < o.stock.len() implies absorbed(o2, m, #[trigger] o.stock[i])
            == absorbed(o, m, o.stock[i]) by {
            let w = o.stock[i];
            assert(col.cards[n - 1] != w);
            if absorbed(o, m, w) && suit_spec(w) == t {
                lemma_card_eq(w, c);
            }
        }
        lemma_stock_kept(o, m, o2, m);
        assert(col.pop_n(1).cards =~= col.pop().cards);
        if k == 2 {
            assert(col2 == col.pop());
            assert(col2.cards[n - 2] == col.cards[n - 2]);
            assert(top_k(o2, m, col2) == 1);
            assert(col2.pop_n(1).cards =~= col.pop_n(2).cards);
        } else {
            if n >= 2 {
                assert(col2.cards[n - 2] == col.cards[n - 2]);
            }
            assert(top_k(o2, m, col2) == 0);
        }
        assert forall|q: int| 0 <= q < NUM_COLUMNS implies #[trigger] col_sim(o2, m, q) by {
            assert(col_sim(o, m, q));
            if q == f {
                assert forall|i: int| 0 <= i < col2.len() - top_k(o2, m, col2) implies !absorbed(
                    o2,
                    m,
                    #[trigger] col2.cards[i],
                ) by {
                    assert(col2.cards[i] == col.cards[i]);
                }
            } else {
                lemma_col_kept(o, m, o2, m, q);
            }
        }
}

#[verifier::rlimit(50)]
proof fn lemma_c2f_plain(o: StateView, m: StateView, s: int, r: int, from: u8)
    requires
        sim(o, m, s, r),
        places_distinct(o),
        apply_spec(o, Move::ColumnToFoundation { from }).shape_ok(),
        legal(o, Move::ColumnToFoundation { from }),
        !absorbed(o, m, o.columns[from as int].top()),
    ensures
        step_ok(o, m, s, r, Move::ColumnToFoundation { from }, Some(Move::ColumnToFoundation { from })),
{
    let x = Move::ColumnToFoundation { from };
    let o2 = apply_spec(o, x);
    let f = from as int;
    let col = o.columns[f];
    let n = col.len() as int;
    let c = col.top();
    let t = suit_spec(c);
    assert(col.shape_ok());
    assert(is_card(c));
    assert(col_sim(o, m, f));
    let k = top_k(o, m, col);
    let col2 = o2.columns[f];
    assert(col2 == col.pop().reveal_if_needed());
        assert(m.foundations[t] == o.foundations[t]);
        assert(k == 0);
        let m2 = apply_spec(m, x);
        assert(m.columns[f] == col);
        assert forall|w: u8| #[trigger] absorbed(o2, m2, w) == absorbed(o, m, w) by {}
        lemma_stock_kept(o, m, o2, m2);
        if n >= 2 {
            assert(col2.cards[n - 2] == col.cards[n - 2]);
        }
        assert(top_k(o2, m2, col2) == 0);
        assert forall|q: int| 0 <= q < NUM_COLUMNS implies #[trigger] col_sim(o2, m2, q) by {
            assert(col_sim(o, m, q));
            if q == f {
                assert forall|i: int| 0 <= i < col2.len() implies !absorbed(o2, m2, #[trigger] col2.cards[i]) by {
                    assert(col2.cards[i] == col.cards[i]);
                }
            } else {
                lemma_col_kept(o, m, o2, m2, q);
            }
        }
}

proof fn lemma_step_column_foundation(o: StateView, m: StateView, s: int, r: int, from: u8) -> (y: Option<Move>)
    requires
        sim(o, m, s, r),
        places_distinct(o),
        apply_spec(o, Move::ColumnToFoundation { from }).shape_ok(),
        legal(o, Move::ColumnToFoundation { from }),
    ensures
        step_ok(o, m, s, r, Move::ColumnToFoundation { from }, y),
{
    if absorbed(o, m, o.columns[from as int].top()) {
        lemma_c2f_absorbed(o, m, s, r, from);
        None
    } else {
        lemma_c2f_plain(o, m, s, r, from);
        Some(Move::ColumnToFoundation { from })
    }
}

/// A chain of links from `lo` up to `i` brings the run's start down to `lo`
/// at least.
proof fn lemma_run_down_le(cards: Seq<u8>, fd: int, i: int, lo: int)
    requires
        0 <= fd <= lo <= i < cards.len(),
        forall|j: int| lo <= j < i ==> links(#[trigger] cards[j], cards[j + 1]),
    ensures
        run_down(cards, fd, i) <= lo,
    decreases i,
{
    lemma_run_down_links(cards, fd, i);
    if i > lo {
        assert(links(cards[i - 1], cards[i]));
        lemma_run_down_le(cards, fd, i - 1, lo);
    }
}

/// Moving only absorbed cards: the other game does nothing.
#[verifier::rlimit(50)]
proof fn lemma_c2c_absorbed_only(o: StateView, m: StateView, s: int, r: int, from: u8, dest: u8, count: u8)
    requires
        sim(o, m, s, r),
        places_distinct(o),
        apply_spec(o, Move::ColumnToColumn { from, dest, count }).shape_ok(),
        legal(o, Move::ColumnToColumn { from, dest, count }),
        count <= top_k(o, m, o.columns[from as int]),
    ensures
        step_ok(o, m, s, r, Move::ColumnToColumn { from, dest, count }, None),
{
    let x = Move::ColumnToColumn { from, dest, count };
    let o2 = apply_spec(o, x);
    let f = from as int;
    let d = dest as int;
    let n = count as int;
    let col = o.columns[f];
    let dcol = o.columns[d];
    let len = col.len() as int;
    let dl = dcol.len() as int;
    assert(col.shape_ok() && dcol.shape_ok());
    assert(col_sim(o, m, f) && col_sim(o, m, d));
    let kx = top_k(o, m, col);
    let ky = top_k(o, m, dcol);
    let run = run_of(col, n as nat);
    let c1 = col.pop_n(n as nat).reveal_if_needed();
    let c2 = dcol.push_all(run);
    assert(o2.columns[f] == c1);
    assert(o2.columns[d] == c2);
    assert(o2.foundations == o.foundations);
    assert(run[0] == col.cards[len - n]);
    assert(absorbed(o, m, run[0]));
    if ky >= 1 {
        lemma_laid_on_absorbed(o, m, s, r, run[0], dcol.cards[dl - 1]);
        if ky == 2 {
            lemma_laid_on_absorbed(o, m, s, r, dcol.cards[dl - 1], dcol.cards[dl - 2]);
        }
        if n == 2 {
            lemma_laid_on_absorbed(o, m, s, r, col.cards[len - 1], col.cards[len - 2]);
        }
    }
    // the source column
    if kx == 2 && n == 1 {
        assert(c1 == col.pop_n(1));
        assert(c1.cards[len - 2] == col.cards[len - 2]);
        assert(top_k(o, m, c1) == 1);
        assert(c1.pop_n(1).cards =~= col.pop_n(2).cards);
    } else {
        assert(n == kx);
        if len - n >= 1 {
            assert(c1.cards[len - n - 1] == col.cards[len - n - 1]);
        }
        assert(top_k(o, m, c1) == 0);
    }
    // the destination column
    assert(c2.cards[dl + n - 1] == col.cards[len - 1]);
    assert(c2.cards[dl] == col.cards[len - n]);
    if n == 2 {
        assert(c2.cards[dl + n - 2] == col.cards[len - 2]);
    } else if dl >= 1 {
        assert(c2.cards[dl - 1] == dcol.cards[dl - 1]);
    }
    assert(top_k(o, m, c2) == ky + n);
    assert(c2.pop_n((ky + n) as nat).cards =~= dcol.pop_n(ky as nat).cards);
    if ky == 0 {
        assert(dcol.pop_n(0).cards =~= dcol.cards);
    }
    assert forall|q: int| 0 <= q < NUM_COLUMNS implies #[trigger] col_sim(o2, m, q) by {
        assert(col_sim(o, m, q));
        if q == f {
            assert forall|i: int| 0 <= i < c1.len() - top_k(o, m, c1) implies !absorbed(
                o2,
                m,
                #[trigger] c1.cards[i],
            ) by {
                assert(c1.cards[i] == col.cards[i]);
            }
        } else if q == d {
            assert forall|i: int| 0 <= i < c2.len() - (ky + n) implies !absorbed(
                o2,
                m,
                #[trigger] c2.cards[i],
            ) by {
                assert(c2.cards[i] == dcol.cards[i]);
            }
        } else {
            lemma_col_kept(o, m, o2, m, q);
        }
    }
    lemma_stock_kept(o, m, o2, m);
}

/// An Ace laid on the safe Two: the other game plays it to its foundation.
#[verifier::rlimit(80)]
proof fn lemma_c2c_ace(o: StateView, m: StateView, s: int, r: int, from: u8, dest: u8, count: u8)
    requires
        sim(o, m, s, r),
        places_distinct(o),
        apply_spec(o, Move::ColumnToColumn { from, dest, count }).shape_ok(),
        legal(o, Move::ColumnToColumn { from, dest, count }),
        count > top_k(o, m, o.columns[from as int]),
        top_k(o, m, o.columns[dest as int]) >= 1,
    ensures
        step_ok(o, m, s, r, Move::ColumnToColumn { from, dest, count }, Some(Move::ColumnToFoundation { from })),
{
    let x = Move::ColumnToColumn { from, dest, count };
    let o2 = apply_spec(o, x);
    let f = from as int;
    let d = dest as int;
    let n = count as int;
    let col = o.columns[f];
    let dcol = o.columns[d];
    let len = col.len() as int;
    let dl = dcol.len() as int;
    let start = len - n;
    assert(col.shape_ok() && dcol.shape_ok());
    assert(col_sim(o, m, f) && col_sim(o, m, d));
    let kx = top_k(o, m, col);
    let ky = top_k(o, m, dcol);
    let run = run_of(col, n as nat);
    let c1 = col.pop_n(n as nat).reveal_if_needed();
    let c2 = dcol.push_all(run);
    assert(o2.columns[f] == c1);
    assert(o2.columns[d] == c2);
    assert(o2.foundations == o.foundations);
    assert(run[0] == col.cards[start]);
    lemma_run_down_links(col.cards, col.face_down as int, len - 1);
    assert(forall|j: int| start <= j < len - 1 ==> links(#[trigger] col.cards[j], col.cards[j + 1]));
    let ace = col.cards[start];
    let ta = suit_spec(ace);
    lemma_laid_on_absorbed(o, m, s, r, ace, dcol.cards[dl - 1]);
    if n >= 2 {
        assert(links(col.cards[start], col.cards[start + 1]));
    }
    assert(n == 1 && kx == 0);
    if ky == 2 {
        lemma_laid_on_absorbed(o, m, s, r, dcol.cards[dl - 1], dcol.cards[dl - 2]);
    }
    assert(ky == 1);
    assert(!raised(o, m, ta));
    assert(m.foundations[ta] == 0);
    let z = Move::ColumnToFoundation { from };
    let m2 = apply_spec(m, z);
    assert(m.columns[f] == col);
    assert(col.pop_n(1).cards =~= col.pop().cards);
    assert(m2.columns[f] == c1);
    assert(m2.columns[d] == m.columns[d]);
    assert(raised(o2, m2, ta));
    assert(absorbed(o2, m2, ace));
    assert forall|w: u8| w != ace ==> #[trigger] absorbed(o2, m2, w) == absorbed(o, m, w) by {
        if suit_spec(w) == ta && is_card(w) && rank0_spec(w) == 0 {
            lemma_card_eq(w, ace);
        }
    }
    assert(c2.cards[dl] == ace && c2.cards[dl - 1] == dcol.cards[dl - 1]);
    assert(dcol.cards[dl - 1] != ace);
    assert(top_k(o2, m2, c2) == 2);
    assert(c2.pop_n(2).cards =~= dcol.pop_n(1).cards);
    if len >= 2 {
        assert(c1.cards[len - 2] == col.cards[len - 2]);
        assert(col.cards[len - 2] != ace);
    }
    assert(top_k(o2, m2, c1) == 0);
    assert forall|q: int| 0 <= q < NUM_COLUMNS implies #[trigger] col_sim(o2, m2, q) by {
        assert(col_sim(o, m, q));
        if q == f {
            assert forall|i: int| 0 <= i < c1.len() implies !absorbed(o2, m2, #[trigger] c1.cards[i]) by {
                assert(c1.cards[i] == col.cards[i]);
                assert(col.cards[i] != ace);
            }
        } else if q == d {
            assert forall|i: int| 0 <= i < c2.len() - 2 implies !absorbed(o2, m2, #[trigger] c2.cards[i]) by {
                assert(c2.cards[i] == dcol.cards[i]);
                assert(dcol.cards[i] != ace);
            }
        } else {
            assert forall|i: int| 0 <= i < o.columns[q].len() implies absorbed(
                o2,
                m2,
                #[trigger] o.columns[q].cards[i],
            ) == absorbed(o, m, o.columns[q].cards[i]) by {
                assert(o.columns[q].cards[i] != ace);
            }
            lemma_col_kept(o, m, o2, m2, q);
        }
    }
    assert forall|i: int| 0 <= i < o.stock.len() implies absorbed(o2, m2, #[trigger] o.stock[i])
        == absorbed(o, m, o.stock[i]) by {
        assert(o.stock[i] != ace);
    }
    lemma_stock_kept(o, m, o2, m2);
}

/// The source column of a run that carries `kx` absorbed cards on top, as
/// the other game sees it.
proof fn lemma_plain_source(col: ColumnView, kx: int, n: int)
    requires
        col.face_down <= col.len(),
        0 <= kx < n <= col.face_up(),
        run_start(col) <= col.len() - n,
    ensures
        ({
            let mc = strip(col, kx);
            let start = col.len() - n;
            &&& mc == col.pop_n(kx as nat)
            &&& mc.face_up() >= n - kx
            &&& mc.cards[start] == col.cards[start]
            &&& run_start(mc) <= start
            &&& mc.pop_n((n - kx) as nat) == col.pop_n(n as nat)
            &&& run_of(mc, (n - kx) as nat) == col.cards.subrange(start, col.len() - kx)
        }),
{
    let len = col.len() as int;
    let start = len - n;
    let mc = col.pop_n(kx as nat);
    lemma_run_down_links(col.cards, col.face_down as int, len - 1);
    if kx == 0 {
        assert(col.pop_n(0) =~= col);
    }
    assert(strip(col, kx) == mc);
    assert forall|j: int| start <= j < len - kx - 1 implies links(#[trigger] mc.cards[j], mc.cards[j + 1]) by {
        assert(mc.cards[j] == col.cards[j] && mc.cards[j + 1] == col.cards[j + 1]);
    }
    lemma_run_down_le(mc.cards, col.face_down as int, len - kx - 1, start);
    assert(mc.pop_n((n - kx) as nat) =~= col.pop_n(n as nat));
    assert(run_of(mc, (n - kx) as nat) =~= col.cards.subrange(start, len - kx));
}

/// A run with cards that are not absorbed: the other game moves the run
/// without its absorbed top cards.
#[verifier::rlimit(80)]
proof fn lemma_c2c_plain(o: StateView, m: StateView, s: int, r: int, from: u8, dest: u8, count: u8)
    requires
        sim(o, m, s, r),
        places_distinct(o),
        apply_spec(o, Move::ColumnToColumn { from, dest, count }).shape_ok(),
        legal(o, Move::ColumnToColumn { from, dest, count }),
        count > top_k(o, m, o.columns[from as int]),
        top_k(o, m, o.columns[dest as int]) == 0,
    ensures
        step_ok(
            o,
            m,
            s,
            r,
            Move::ColumnToColumn { from, dest, count },
            Some(
                Move::ColumnToColumn {
                    from,
                    dest,
                    count: (count - top_k(o, m, o.columns[from as int])) as u8,
                },
            ),
        ),
{
    let x = Move::ColumnToColumn { from, dest, count };
    let o2 = apply_spec(o, x);
    let f = from as int;
    let d = dest as int;
    let n = count as int;
    let col = o.columns[f];
    let dcol = o.columns[d];
    let len = col.len() as int;
    let dl = dcol.len() as int;
    let start = len - n;
    assert(col.shape_ok() && dcol.shape_ok());
    assert(col_sim(o, m, f) && col_sim(o, m, d));
    let kx = top_k(o, m, col);
    let run = run_of(col, n as nat);
    let c1 = col.pop_n(n as nat).reveal_if_needed();
    let c2 = dcol.push_all(run);
    assert(o2.columns[f] == c1);
    assert(o2.columns[d] == c2);
    assert(o2.foundations == o.foundations);
    lemma_plain_source(col, kx, n);
    let n2 = n - kx;
    let z = Move::ColumnToColumn { from, dest, count: n2 as u8 };
    let mc = m.columns[f];
    assert(mc.cards[start] == col.cards[start]);
    assert(legal(m, z));
    let m2 = apply_spec(m, z);
    lemma_same_absorbed(o, m, o2, m2);
    assert(m2.columns[f] == c1);
    let mrun = run_of(mc, n2 as nat);
    assert(m2.columns[d] == dcol.push_all(mrun));
    assert(c2.pop_n(kx as nat).cards =~= dcol.push_all(mrun).cards);
    assert(c2.cards[dl + n - 1] == col.cards[len - 1]);
    if kx == 2 {
        assert(c2.cards[dl + n - 2] == col.cards[len - 2]);
        assert(c2.cards[dl + n - 3] == col.cards[len - 3]);
    } else if kx == 1 {
        assert(c2.cards[dl + n - 2] == col.cards[len - 2]);
    }
    assert(top_k(o2, m2, c2) == kx);
    if kx == 0 {
        assert(c2 == dcol.push_all(mrun));
    }
    if start >= 1 {
        assert(c1.cards[start - 1] == col.cards[start - 1]);
    }
    assert(top_k(o2, m2, c1) == 0);
    assert(col_sim(o2, m2, f)) by {
        assert forall|i: int| 0 <= i < c1.len() implies !absorbed(o2, m2, #[trigger] c1.cards[i]) by {
            assert(c1.cards[i] == col.cards[i]);
        }
    }
    assert(col_sim(o2, m2, d)) by {
        assert forall|i: int| 0 <= i < c2.len() - kx implies !absorbed(o2, m2, #[trigger] c2.cards[i]) by {
            if i < dl {
                assert(c2.cards[i] == dcol.cards[i]);
            } else {
                assert(c2.cards[i] == col.cards[start + i - dl]);
            }
        }
    }
    assert forall|q: int| 0 <= q < NUM_COLUMNS implies #[trigger] col_sim(o2, m2, q) by {
        if q != f && q != d {
            assert(col_sim(o, m, q));
            lemma_col_kept(o, m, o2, m2, q);
        }
    }
    lemma_stock_kept(o, m, o2, m2);
}

proof fn lemma_sim_step(o: StateView, m: StateView, s: int, r: int, x: Move) -> (y: Option<Move>)
    requires
        sim(o, m, s, r),
        places_distinct(o),
        apply_spec(o, x).shape_ok(),
        legal(o, x),
    ensures
        step_ok(o, m, s, r, x, y),
{
    match x {
        Move::Draw => lemma_step_draw(o, m, s, r),
        Move::Recycle => lemma_step_recycle(o, m, s, r),
        Move::WasteToFoundation => lemma_step_waste_foundation(o, m, s, r),
        Move::WasteToColumn { dest } => lemma_step_waste_column(o, m, s, r, dest),
        Move::ColumnToFoundation { from } => lemma_step_column_foundation(o, m, s, r, from),
        Move::ColumnToColumn { from, dest, count } => {
            let kx = top_k(o, m, o.columns[from as int]);
            if count <= kx {
                lemma_c2c_absorbed_only(o, m, s, r, from, dest, count);
                None
            } else if top_k(o, m, o.columns[dest as int]) >= 1 {
                lemma_c2c_ace(o, m, s, r, from, dest, count);
                Some(Move::ColumnToFoundation { from })
            } else {
                lemma_c2c_plain(o, m, s, r, from, dest, count);
                Some(Move::ColumnToColumn { from, dest, count: (count - kx) as u8 })
            }
        },
    }
}

proof fn lemma_winning_cons(v: StateView, z: Move, t: Seq<Move>)
    requires
        legal(v, z),
        winning_line(apply_spec(v, z), t),
    ensures
        winning_line(v, seq![z] + t),
{
    let ms = seq![z] + t;
    let w = apply_spec(v, z);
    assert(ms[0] == z);
    assert(ms.drop_first() =~= t);
    lemma_replay_first(v, ms);
    assert forall|k: int| 0 <= k < ms.len() implies legal(replay(v, ms.take(k)), #[trigger] ms[k]) by {
        if k == 0 {
            assert(ms.take(0) =~= Seq::<Move>::empty());
        } else {
            lemma_replay_first(v, ms.take(k));
            assert(ms.take(k).drop_first() =~= t.take(k - 1));
            assert(ms.take(k)[0] == z);
            assert(ms[k] == t[k - 1]);
            assert(legal(replay(w, t.take(k - 1)), t[k - 1]));
        }
    }
}

/// Positions that may be met in play: each card in one place at most, the
/// buffers' shape kept, and legal moves staying among them.
pub open spec fn play_closed(reach: spec_fn(StateView) -> bool) -> bool {
    &&& forall|p: StateView| #[trigger] reach(p) ==> p.shape_ok() && places_distinct(p)
    &&& forall|p: StateView, mv: Move|
        #![trigger reach(p), legal(p, mv)]
        reach(p) && legal(p, mv) ==> reach(apply_spec(p, mv))
}

proof fn lemma_sim_win(
    reach: spec_fn(StateView) -> bool,
    o: StateView,
    m: StateView,
    s: int,
    r: int,
    ms: Seq<Move>,
)
    requires
        play_closed(reach),
        reach(o),
        sim(o, m, s, r),
        winning_line(o, ms),
    ensures
        exists|ms2: Seq<Move>| #[trigger] winning_line(m, ms2) && ms2.len() + ahead(o, m) <= ms.len(),
    decreases ms.len(),
{
    if ms.len() == 0 {
        assert(replay(o, ms) == o);
        assert(forall|t: int| 0 <= t < 4 ==> #[trigger] m.foundations[t] == o.foundations[t]);
        let e = Seq::<Move>::empty();
        assert(replay(m, e) == m);
        assert(winning_line(m, e));
    } else {
        lemma_winning_tail(o, ms);
        let x = ms[0];
        let o2 = apply_spec(o, x);
        let t = ms.drop_first();
        assert(reach(o2));
        let y = lemma_sim_step(o, m, s, r, x);
        match y {
            None => {
                lemma_sim_win(reach, o2, m, s, r, t);
                let ms2 = choose|ms2: Seq<Move>| #[trigger] winning_line(m, ms2) && ms2.len() + ahead(o2, m) <= t.len();
                assert(winning_line(m, ms2));
            },
            Some(z) => {
                let m2 = apply_spec(m, z);
                lemma_sim_win(reach, o2, m2, s, r, t);
                let ms2 = choose|ms2: Seq<Move>| #[trigger] winning_line(m2, ms2) && ms2.len() + ahead(o2, m2) <= t.len();
                lemma_winning_cons(m, z, ms2);
                assert(winning_line(m, seq![z] + ms2));
            },
        }
    }
}

proof fn lemma_column_autoplay_at(v: StateView, c: int)
    requires
        0 <= c <= NUM_COLUMNS,
    ensures
        column_autoplay(v, c) matches Some(mv) ==> mv matches Move::ColumnToFoundation { from } && from
            < NUM_COLUMNS && v.columns[from as int].has_top() && fits_foundation(
            v,
            v.columns[from as int].top(),
        ) && safe_autoplay(v, v.columns[from as int].top()),
    decreases NUM_COLUMNS - c,
{
    if c < NUM_COLUMNS {
        lemma_column_autoplay_at(v, c + 1);
    }
}

/// The safe card `card` of `v`, already played in `m`: the two games start
/// side by side, one card apart.
proof fn lemma_sim_start_common(v: StateView, m: StateView, card: u8)
    requires
        v.shape_ok(),
        is_card(card),
        fits_foundation(v, card),
        safe_autoplay(v, card),
        m.foundations == v.foundations.update(suit_spec(card), (v.foundations[suit_spec(card)] + 1) as u8),
    ensures
        forall|w: u8| #[trigger] absorbed(v, m, w) <==> w == card,
        ({
            let s = suit_spec(card);
            let r = rank_spec(card);
            &&& 0 <= s < 4
            &&& 1 <= r <= 13
            &&& m.foundations.len() == 4
            &&& forall|t: int|
                0 <= t < 4 ==> #[trigger] m.foundations[t] == v.foundations[t] || (raised(v, m, t)
                    && v.foundations[t] < 13)
            &&& raised(v, m, s) ==> v.foundations[s] == r - 1
            &&& forall|t: int| 0 <= t < 4 && t != s && #[trigger] raised(v, m, t) ==> false
            &&& r >= 3 ==> forall|t: int|
                0 <= t < 4 && red_suit(t) != red_suit(s) ==> #[trigger] v.foundations[t] >= r - 1
            &&& ahead(v, m) == 1
        }),
{
    let s = suit_spec(card);
    assert forall|w: u8| #[trigger] absorbed(v, m, w) <==> w == card by {
        if absorbed(v, m, w) {
            lemma_card_eq(w, card);
        }
    }
    assert(red_spec(card) == red_suit(s));
}

proof fn lemma_sim_start(p: StateView, a: Move) -> (sr: (int, int))
    requires
        p.shape_ok(),
        places_distinct(p),
        autoplay_spec(p) == Some(a),
    ensures
        sim(p, apply_spec(p, a), sr.0, sr.1),
        ahead(p, apply_spec(p, a)) == 1,
{
    let m = apply_spec(p, a);
    if p.stock_pointer > 0 && fits_foundation(p, p.waste_top()) && safe_autoplay(p, p.waste_top()) {
        let card = p.waste_top();
        let j = p.stock_pointer - 1;
        assert(a == Move::WasteToFoundation);
        assert(is_card(card));
        lemma_sim_start_common(p, m, card);
        assert(m.columns == p.columns);
        assert forall|q: int| 0 <= q < NUM_COLUMNS implies #[trigger] col_sim(p, m, q) by {
            let col = p.columns[q];
            assert forall|i: int| 0 <= i < col.len() implies !absorbed(p, m, #[trigger] col.cards[i]) by {
                assert(col.cards[i] != p.stock[j]);
            }
            if col.len() >= 1 {
                assert(!absorbed(p, m, col.cards[col.len() - 1]));
            }
            assert(top_k(p, m, col) == 0);
        }
        assert forall|i: int| 0 <= i < p.stock.len() && i != j implies !absorbed(p, m, #[trigger] p.stock[i]) by {
            assert(p.stock[i] != p.stock[j]);
        }
        assert(stock_without(p, m, j));
        (suit_spec(card), rank_spec(card))
    } else {
        lemma_column_autoplay_at(p, 0);
        let from = a->ColumnToFoundation_from;
        let f = from as int;
        let col = p.columns[f];
        let n = col.len() as int;
        let card = col.top();
        assert(col.shape_ok());
        assert(is_card(card));
        lemma_sim_start_common(p, m, card);
        let c1 = col.pop().reveal_if_needed();
        assert(m.columns[f] == c1);
        assert(col.pop_n(1).cards =~= col.pop().cards);
        if n >= 2 {
            assert(col.cards[n - 2] != col.cards[n - 1]);
        }
        assert(top_k(p, m, col) == 1);
        assert forall|q: int| 0 <= q < NUM_COLUMNS implies #[trigger] col_sim(p, m, q) by {
            let cq = p.columns[q];
            if q == f {
                assert forall|i: int| 0 <= i < n - 1 implies !absorbed(p, m, #[trigger] cq.cards[i]) by {
                    assert(cq.cards[i] != col.cards[n - 1]);
                }
            } else {
                assert(m.columns[q] == cq);
                assert forall|i: int| 0 <= i < cq.len() implies !absorbed(p, m, #[trigger] cq.cards[i]) by {
                    assert(cq.cards[i] != col.cards[n - 1]);
                }
                if cq.len() >= 1 {
                    assert(!absorbed(p, m, cq.cards[cq.len() - 1]));
                }
                assert(top_k(p, m, cq) == 0);
            }
        }
        assert forall|i: int| 0 <= i < p.stock.len() implies !absorbed(p, m, #[trigger] p.stock[i]) by {
            assert(col.cards[n - 1] != p.stock[i]);
        }
        assert(stock_same(p, m));
        (suit_spec(card), rank_spec(card))
    }
}

/// In play, playing the safe card to its foundation first keeps a win, with
/// a shorter line.
pub proof fn lemma_autoplay_keeps_win(
    reach: spec_fn(StateView) -> bool,
    p: StateView,
    ms: Seq<Move>,
    a: Move,
)
    requires
        play_closed(reach),
        reach(p),
        autoplay_spec(p) == Some(a),
        winning_line(p, ms),
    ensures
        exists|ms2: Seq<Move>| #[trigger] winning_line(apply_spec(p, a), ms2) && ms2.len() < ms.len(),
{
    assert(p.shape_ok() && places_distinct(p));
    let sr = lemma_sim_start(p, a);
    let m = apply_spec(p, a);
    lemma_sim_win(reach, p, m, sr.0, sr.1, ms);
    let ms2 = choose|ms2: Seq<Move>| #[trigger] winning_line(m, ms2) && ms2.len() + ahead(p, m) <= ms.len();
    assert(winning_line(m, ms2) && ms2.len() < ms.len());
}

} // verus!
