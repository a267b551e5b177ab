//! Search for a solution of a fully determined world.
//!
//! A depth-first search over the legal moves, with the explored positions
//! remembered by hash, "safe" foundation moves played without branching, the
//! other moves tried in order of priority, and a budget of explored nodes.
//! The search keeps its own stack of frames, so its depth does not depend on
//! the thread's stack.
use std::collections::HashSet;
use vstd::prelude::*;
use crate::apply::{
    Undo, applicable, apply_spec, fits, lemma_apply_fits, lemma_legal_applicable,
    lemma_unmake_undoes_make, make_move, undo_of, undo_ok, unmake_move,
};
use crate::card::{
    CARREAU, COEUR, Card, PIQUE, TREFLE, is_card, is_red, rank_spec, rank_value, red_spec, suit_of,
    suit_spec,
};
use crate::moves::{
    Move, MoveList, capped, fits_foundation, gen_moves, legal, lemma_moves_complete,
    lemma_moves_legal, moves_spec,
};
use crate::state::{State, StateView, state_hash};
use crate::autoplay::{lemma_autoplay_keeps_win, places_distinct, play_closed};
use crate::zobrist::NUM_COLUMNS;

verus! {

// ---- Lines of play ----
/// The state reached from `v` by playing `ms` in order.
pub open spec fn replay(v: StateView, ms: Seq<Move>) -> StateView
    decreases ms.len(),
{
    if ms.len() == 0 {
        v
    } else {
        apply_spec(replay(v, ms.drop_last()), ms.last())
    }
}

/// Each move of `ms` is legal where it is played.
pub open spec fn line_ok(v: StateView, ms: Seq<Move>) -> bool {
    forall|k: int| 0 <= k < ms.len() ==> legal(replay(v, ms.take(k)), #[trigger] ms[k])
}

/// `ms` is a line of legal moves that wins the game from `v`.
pub open spec fn winning_line(v: StateView, ms: Seq<Move>) -> bool {
    line_ok(v, ms) && replay(v, ms).is_won()
}

// ---- Safe automatic moves ----
/// Playing `card` to its foundation cannot hurt: Aces and Twos always, and
/// otherwise once both foundations of the other colour have reached the rank
/// just below.
pub open spec fn safe_autoplay(v: StateView, card: u8) -> bool {
    let r = rank_spec(card);
    let (a, b) = if red_spec(card) {
        (PIQUE as int, TREFLE as int)
    } else {
        (COEUR as int, CARREAU as int)
    };
    let m = if v.foundations[a] <= v.foundations[b] {
        v.foundations[a]
    } else {
        v.foundations[b]
    };
    r <= 2 || m >= r - 1
}

/// A top card of the columns `c..` that may and should go to its foundation.
pub open spec fn column_autoplay(v: StateView, c: int) -> Option<Move>
    decreases NUM_COLUMNS - c,
{
    if c >= NUM_COLUMNS {
        None
    } else {
        let col = v.columns[c];
        if col.has_top() && fits_foundation(v, col.top()) && safe_autoplay(v, col.top()) {
            Some(Move::ColumnToFoundation { from: c as u8 })
        } else {
            column_autoplay(v, c + 1)
        }
    }
}

/// The safe foundation move played without branching, if any: the waste's
/// top card first, then the columns in order.
pub open spec fn autoplay_spec(v: StateView) -> Option<Move> {
    if v.stock_pointer > 0 && fits_foundation(v, v.waste_top()) && safe_autoplay(
        v,
        v.waste_top(),
    ) {
        Some(Move::WasteToFoundation)
    } else {
        column_autoplay(v, 0)
    }
}

proof fn lemma_column_autoplay_legal(v: StateView, c: int)
    requires
        0 <= c <= NUM_COLUMNS,
    ensures
        column_autoplay(v, c) matches Some(m) ==> legal(v, m),
    decreases NUM_COLUMNS - c,
{
    if c < NUM_COLUMNS {
        lemma_column_autoplay_legal(v, c + 1);
    }
}

fn is_safe_to_autoplay(state: &State, card: Card) -> (b: bool)
    ensures
        b == safe_autoplay(state@, card),
{
    let r = rank_value(card);
    if r <= 2 {
        return true;
    }
    let opp: [usize; 2] = if is_red(card) {
        [PIQUE, TREFLE]
    } else {
        [COEUR, CARREAU]
    };
    let a = state.foundations[opp[0]];
    let b = state.foundations[opp[1]];
    let min_opp = if a <= b {
        a
    } else {
        b
    };
    min_opp >= r - 1
}

fn find_safe_autoplay(state: &State) -> (m: Option<Move>)
    requires
        state.wf(),
    ensures
        m == autoplay_spec(state@),
{
    proof {
        state.lemma_wf_facts();
    }
    if let Some(card) = state.stock_top() {
        let suit = suit_of(card);
        if state.foundations[suit] + 1 == rank_value(card) && is_safe_to_autoplay(state, card) {
            return Some(Move::WasteToFoundation);
        }
    }
    let ghost v = state@;
    let mut from: usize = 0;
    while from < NUM_COLUMNS
        invariant
            from <= NUM_COLUMNS,
            state.wf(),
            v == state@,
            autoplay_spec(v) == column_autoplay(v, from as int),
        decreases NUM_COLUMNS - from,
    {
        proof {
            state.lemma_wf_column(from as int);
        }
        if let Some(card) = state.columns[from].top() {
            let suit = suit_of(card);
            if state.foundations[suit] + 1 == rank_value(card) && is_safe_to_autoplay(state, card) {
                return Some(Move::ColumnToFoundation { from: from as u8 });
            }
        }
        from += 1;
    }
    None
}

// ---- Move ordering ----
/// Priority of a move: foundation moves first, then moves that uncover a
/// face-down card, waste moves, other column moves, drawing, recycling.
pub open spec fn priority_spec(v: StateView, mv: Move) -> i32 {
    match mv {
        Move::ColumnToFoundation { .. } => 1000,
        Move::WasteToFoundation => 1000,
        Move::ColumnToColumn { from, count, .. } => {
            let col = v.columns[from as int];
            if count == col.face_up() && col.face_down > 0 {
                500
            } else {
                100
            }
        },
        Move::WasteToColumn { .. } => 200,
        Move::Draw => 10,
        Move::Recycle => 5,
    }
}

/// The moves of `s` of priority `p`, in their order in `s`.
pub open spec fn with_priority(v: StateView, s: Seq<Move>, p: i32) -> Seq<Move>
    decreases s.len(),
{
    if s.len() == 0 {
        seq![]
    } else {
        with_priority(v, s.drop_last(), p) + if priority_spec(v, s.last()) == p {
            seq![s.last()]
        } else {
            seq![]
        }
    }
}

/// The priority classes, highest first.
pub open spec fn priority_class(k: int) -> i32 {
    if k == 0 {
        1000
    } else if k == 1 {
        500
    } else if k == 2 {
        200
    } else if k == 3 {
        100
    } else if k == 4 {
        10
    } else {
        5
    }
}

/// The moves of the first `k` priority classes, class by class.
pub open spec fn ordered_classes(v: StateView, s: Seq<Move>, k: int) -> Seq<Move>
    decreases k,
{
    if k <= 0 {
        seq![]
    } else {
        ordered_classes(v, s, k - 1) + with_priority(v, s, priority_class(k - 1))
    }
}

/// `s` stably sorted by decreasing priority (every priority is one of the six
/// classes).
pub open spec fn ordered_spec(v: StateView, s: Seq<Move>) -> Seq<Move> {
    ordered_classes(v, s, 6)
}

fn move_priority(state: &State, mv: &Move) -> (p: i32)
    requires
        state.wf(),
        legal(state@, *mv),
    ensures
        p == priority_spec(state@, *mv),
{
    match *mv {
        Move::ColumnToFoundation { .. } | Move::WasteToFoundation => 1000,
        Move::ColumnToColumn { from, count, .. } => {
            proof {
                state.lemma_wf_column(from as int);
            }
            let col = &state.columns[from as usize];
            let reveals = count == col.face_up_count() && col.face_down > 0;
            if reveals {
                500
            } else {
                100
            }
        },
        Move::WasteToColumn { .. } => 200,
        Move::Draw => 10,
        Move::Recycle => 5,
    }
}

proof fn lemma_with_priority_legal(v: StateView, s: Seq<Move>, p: i32)
    requires
        forall|j: int| 0 <= j < s.len() ==> legal(v, #[trigger] s[j]),
    ensures
        forall|j: int|
            0 <= j < with_priority(v, s, p).len() ==> legal(v, #[trigger] with_priority(v, s, p)[j]),
    decreases s.len(),
{
    if s.len() > 0 {
        let a = with_priority(v, s.drop_last(), p);
        assert forall|j: int| 0 <= j < s.drop_last().len() implies legal(
            v,
            #[trigger] s.drop_last()[j],
        ) by {
            assert(s.drop_last()[j] == s[j]);
        }
        lemma_with_priority_legal(v, s.drop_last(), p);
        let b = with_priority(v, s, p);
        assert forall|j: int| 0 <= j < b.len() implies legal(v, #[trigger] b[j]) by {
            if j < a.len() {
                assert(b[j] == a[j]);
            } else {
                assert(b[j] == s.last());
            }
        }
    }
}

proof fn lemma_ordered_legal(v: StateView, s: Seq<Move>, k: int)
    requires
        forall|j: int| 0 <= j < s.len() ==> legal(v, #[trigger] s[j]),
    ensures
        forall|j: int|
            0 <= j < ordered_classes(v, s, k).len() ==> legal(
                v,
                #[trigger] ordered_classes(v, s, k)[j],
            ),
    decreases k,
{
    if k > 0 {
        lemma_ordered_legal(v, s, k - 1);
        lemma_with_priority_legal(v, s, priority_class(k - 1));
        let a = ordered_classes(v, s, k - 1);
        let c = with_priority(v, s, priority_class(k - 1));
        let b = ordered_classes(v, s, k);
        assert forall|j: int| 0 <= j < b.len() implies legal(v, #[trigger] b[j]) by {
            if j < a.len() {
                assert(b[j] == a[j]);
            } else {
                assert(b[j] == c[j - a.len()]);
            }
        }
    }
}

proof fn lemma_with_priority_complete(v: StateView, s: Seq<Move>, m: Move)
    requires
        s.contains(m),
    ensures
        with_priority(v, s, priority_spec(v, m)).contains(m),
    decreases s.len(),
{
    let p = priority_spec(v, m);
    let a = with_priority(v, s.drop_last(), p);
    let t = if priority_spec(v, s.last()) == p {
        seq![s.last()]
    } else {
        seq![]
    };
    assert(with_priority(v, s, p) == a + t);
    if s.last() == m {
        assert(t[0] == m);
        assert((a + t)[a.len() as int] == m);
    } else {
        let i = choose|i: int| 0 <= i < s.len() && s[i] == m;
        assert(s.drop_last()[i] == m);
        lemma_with_priority_complete(v, s.drop_last(), m);
        let j = choose|j: int| 0 <= j < a.len() && a[j] == m;
        assert((a + t)[j] == m);
    }
}

proof fn lemma_ordered_classes_complete(v: StateView, s: Seq<Move>, k: int, j: int, m: Move)
    requires
        0 <= j < k,
        with_priority(v, s, priority_class(j)).contains(m),
    ensures
        ordered_classes(v, s, k).contains(m),
    decreases k,
{
    let a = ordered_classes(v, s, k - 1);
    let b = with_priority(v, s, priority_class(k - 1));
    if j == k - 1 {
        let i = choose|i: int| 0 <= i < b.len() && b[i] == m;
        assert((a + b)[a.len() + i] == m);
    } else {
        lemma_ordered_classes_complete(v, s, k - 1, j, m);
        let i = choose|i: int| 0 <= i < a.len() && a[i] == m;
        assert((a + b)[i] == m);
    }
}

/// Sorting by priority keeps every move.
proof fn lemma_ordered_complete(v: StateView, s: Seq<Move>, m: Move)
    requires
        s.contains(m),
    ensures
        ordered_spec(v, s).contains(m),
{
    lemma_with_priority_complete(v, s, m);
    let p = priority_spec(v, m);
    let j = if p == 1000 {
        0int
    } else if p == 500 {
        1int
    } else if p == 200 {
        2int
    } else if p == 100 {
        3int
    } else if p == 10 {
        4int
    } else {
        5int
    };
    assert(priority_class(j) == p);
    lemma_ordered_classes_complete(v, s, 6, j, m);
}

/// Where no safe move to a foundation applies and at most `MAX_MOVES` moves
/// are legal, the search tries every legal move.
pub proof fn lemma_node_moves_complete(v: StateView, m: Move)
    requires
        v.shape_ok(),
        legal(v, m),
        autoplay_spec(v) is None,
        moves_spec(v).len() <= crate::moves::MAX_MOVES,
    ensures
        node_moves(v).contains(m),
{
    lemma_moves_complete(v, m);
    lemma_ordered_complete(v, capped(moves_spec(v)), m);
}

/// The generated moves, stably sorted by decreasing priority.
fn order_moves(state: &State, moves: &MoveList) -> (ordered: Vec<Move>)
    requires
        state.wf(),
        moves.len <= crate::moves::MAX_MOVES,
        forall|j: int| 0 <= j < moves@.len() ==> legal(state@, #[trigger] moves@[j]),
    ensures
        ordered@ == ordered_spec(state@, moves@),
{
    let ghost v = state@;
    let ghost s = moves@;
    let list = moves.as_slice();
    let classes: [i32; 6] = [1000, 500, 200, 100, 10, 5];
    let mut ordered: Vec<Move> = Vec::new();
    let mut k: usize = 0;
    while k < 6
        invariant
            k <= 6,
            state.wf(),
            v == state@,
            list@ == s,
            forall|j: int| 0 <= j < s.len() ==> legal(v, #[trigger] s[j]),
            forall|i: int| 0 <= i < 6 ==> #[trigger] classes@[i] == priority_class(i),
            ordered@ == ordered_classes(v, s, k as int),
        decreases 6 - k,
    {
        let p = classes[k];
        let ghost base = ordered@;
        let mut i: usize = 0;
        while i < list.len()
            invariant
                i <= list@.len(),
                state.wf(),
                v == state@,
                list@ == s,
                forall|j: int| 0 <= j < s.len() ==> legal(v, #[trigger] s[j]),
                ordered@ == base + with_priority(v, s.take(i as int), p),
            decreases list@.len() - i,
        {
            let m = list[i];
            assert(s.take(i + 1).drop_last() =~= s.take(i as int));
            if move_priority(state, &m) == p {
                ordered.push(m);
            }
            assert(ordered@ =~= base + with_priority(v, s.take(i + 1), p));
            i += 1;
        }
        assert(s.take(s.len() as int) =~= s);
        assert(ordered@ =~= ordered_classes(v, s, k + 1));
        k += 1;
    }
    ordered
}

// ---- The search ----
enum Outcome {
    Won,
    Exhausted,
    BudgetReached,
}

struct Ctx {
    visited: HashSet<u64>,
    nodes: u64,
    budget: u64,
    best_foundation_count: u32,
}

spec fn search_ctx(c: Ctx) -> SearchCtx {
    SearchCtx { visited: c.visited@, nodes: c.nodes as int, best: c.best_foundation_count as int }
}

/// The search's result of an outcome, `path` being the line played.
spec fn outcome_result(o: Outcome, path: Seq<Move>, s: SearchCtx) -> (SearchResult, SearchCtx) {
    match o {
        Outcome::Won => (SearchResult::Found(path), s),
        Outcome::Exhausted => (SearchResult::Exhausted, s),
        Outcome::BudgetReached => (SearchResult::BudgetReached, s),
    }
}

// ---- What the search computes ----
/// The search's bookkeeping: the hashes of the positions entered, the
/// number of moves played so far, and the best foundation count met.
pub struct SearchCtx {
    pub visited: Set<u64>,
    pub nodes: int,
    pub best: int,
}

/// What a search returns: a winning line from the position searched, or the
/// moves ran out, or the budget did.
pub enum SearchResult {
    Found(Seq<Move>),
    Exhausted,
    BudgetReached,
}

/// The moves tried from `v`, in order: a safe move to a foundation alone if
/// there is one, otherwise the generated moves sorted by priority.
pub open spec fn node_moves(v: StateView) -> Seq<Move> {
    match autoplay_spec(v) {
        Some(m) => seq![m],
        None => ordered_spec(v, capped(moves_spec(v))),
    }
}

/// The bookkeeping once `v` is entered: its hash is remembered and its
/// foundation count taken into account.
pub open spec fn entered(v: StateView, s: SearchCtx) -> SearchCtx {
    SearchCtx {
        visited: s.visited.insert(state_hash(v)),
        nodes: s.nodes,
        best: if v.foundation_count() > s.best {
            v.foundation_count()
        } else {
            s.best
        },
    }
}

/// The bookkeeping once one more move is played.
pub open spec fn played(s: SearchCtx) -> SearchCtx {
    SearchCtx { nodes: s.nodes + 1, ..s }
}

/// The search from `v`, nested at most `fuel` deep: stop on a won position,
/// on an exhausted budget or on a position already entered; otherwise enter
/// it and try its moves.
pub open spec fn search_node_fuel(v: StateView, s: SearchCtx, budget: int, fuel: nat) -> (
    SearchResult,
    SearchCtx,
)
    decreases fuel,
{
    if fuel == 0 {
        (SearchResult::Exhausted, s)
    } else if v.is_won() {
        (SearchResult::Found(seq![]), s)
    } else if s.nodes >= budget {
        (SearchResult::BudgetReached, s)
    } else if s.visited.contains(state_hash(v)) {
        (SearchResult::Exhausted, s)
    } else {
        search_moves_fuel(v, node_moves(v), 0, entered(v, s), budget, (fuel - 1) as nat)
    }
}

/// The search trying the moves `ms[k..]` from `v` in turn, each one counted
/// against the budget, until one leads to a win or the budget runs out.
pub open spec fn search_moves_fuel(
    v: StateView,
    ms: Seq<Move>,
    k: int,
    s: SearchCtx,
    budget: int,
    fuel: nat,
) -> (SearchResult, SearchCtx)
    decreases fuel,
{
    if fuel == 0 || k < 0 || k >= ms.len() {
        (SearchResult::Exhausted, s)
    } else if s.nodes >= budget {
        (SearchResult::BudgetReached, s)
    } else {
        let child = search_node_fuel(apply_spec(v, ms[k]), played(s), budget, (fuel - 1) as nat);
        match child.0 {
            SearchResult::Found(line) => (SearchResult::Found(seq![ms[k]] + line), child.1),
            SearchResult::BudgetReached => child,
            SearchResult::Exhausted => search_moves_fuel(
                v,
                ms,
                k + 1,
                child.1,
                budget,
                (fuel - 1) as nat,
            ),
        }
    }
}

/// The search from `v`. Every move played counts against the budget, so
/// the nesting never goes deeper than twice what is left of it: this fuel
/// never runs out.
pub open spec fn search_node(v: StateView, s: SearchCtx, budget: int) -> (SearchResult, SearchCtx) {
    search_node_fuel(v, s, budget, (2 * (budget - s.nodes) + 2) as nat)
}

/// The search trying the moves `ms[k..]` from `v` (see `search_node`).
pub open spec fn search_moves(v: StateView, ms: Seq<Move>, k: int, s: SearchCtx, budget: int) -> (
    SearchResult,
    SearchCtx,
) {
    search_moves_fuel(v, ms, k, s, budget, (2 * (budget - s.nodes) + 1) as nat)
}

/// The bookkeeping a search starts with.
pub open spec fn start_ctx(v: StateView) -> SearchCtx {
    SearchCtx { visited: Set::empty(), nodes: 0, best: v.foundation_count() }
}

proof fn lemma_node_fuel(v: StateView, s: SearchCtx, budget: int, f1: nat, f2: nat)
    requires
        0 <= s.nodes <= budget,
        f1 >= 2 * (budget - s.nodes) + 2,
        f2 >= 2 * (budget - s.nodes) + 2,
    ensures
        search_node_fuel(v, s, budget, f1) == search_node_fuel(v, s, budget, f2),
        s.nodes <= search_node_fuel(v, s, budget, f1).1.nodes <= budget,
    decreases f1,
{
    if !v.is_won() && s.nodes < budget && !s.visited.contains(state_hash(v)) {
        lemma_moves_fuel(v, node_moves(v), 0, entered(v, s), budget, (f1 - 1) as nat, (f2 - 1) as nat);
    }
}

proof fn lemma_moves_fuel(
    v: StateView,
    ms: Seq<Move>,
    k: int,
    s: SearchCtx,
    budget: int,
    f1: nat,
    f2: nat,
)
    requires
        0 <= s.nodes <= budget,
        f1 >= 2 * (budget - s.nodes) + 1,
        f2 >= 2 * (budget - s.nodes) + 1,
    ensures
        search_moves_fuel(v, ms, k, s, budget, f1) == search_moves_fuel(v, ms, k, s, budget, f2),
        s.nodes <= search_moves_fuel(v, ms, k, s, budget, f1).1.nodes <= budget,
    decreases f1,
{
    if 0 <= k < ms.len() && s.nodes < budget {
        let c = played(s);
        let cv = apply_spec(v, ms[k]);
        lemma_node_fuel(cv, c, budget, (f1 - 1) as nat, (f2 - 1) as nat);
        let child = search_node_fuel(cv, c, budget, (f1 - 1) as nat);
        if child.0 is Exhausted {
            lemma_moves_fuel(v, ms, k + 1, child.1, budget, (f1 - 1) as nat, (f2 - 1) as nat);
        }
    }
}

/// Each move of `line` is one the search tries at the position where it is
/// played.
pub open spec fn searched_line(v: StateView, line: Seq<Move>) -> bool
    decreases line.len(),
{
    line.len() == 0 || (node_moves(v).contains(line[0]) && searched_line(
        apply_spec(v, line[0]),
        line.drop_first(),
    ))
}

proof fn lemma_node_found(v: StateView, s: SearchCtx, budget: int, f: nat)
    ensures
        search_node_fuel(v, s, budget, f).1.nodes >= s.nodes,
        search_node_fuel(v, s, budget, f).0 matches SearchResult::Found(line) ==> line.len()
            <= search_node_fuel(v, s, budget, f).1.nodes - s.nodes && searched_line(v, line),
    decreases f,
{
    if f > 0 && !v.is_won() && s.nodes < budget && !s.visited.contains(state_hash(v)) {
        lemma_moves_found(v, node_moves(v), 0, entered(v, s), budget, (f - 1) as nat);
    }
}

proof fn lemma_moves_found(v: StateView, ms: Seq<Move>, k: int, s: SearchCtx, budget: int, f: nat)
    ensures
        search_moves_fuel(v, ms, k, s, budget, f).1.nodes >= s.nodes,
        search_moves_fuel(v, ms, k, s, budget, f).0 matches SearchResult::Found(line) ==> line.len()
            <= search_moves_fuel(v, ms, k, s, budget, f).1.nodes - s.nodes && line.len() > 0
            && ms.contains(line[0]) && searched_line(apply_spec(v, line[0]), line.drop_first()),
    decreases f,
{
    if f > 0 && 0 <= k < ms.len() && s.nodes < budget {
        let c = played(s);
        let cv = apply_spec(v, ms[k]);
        lemma_node_found(cv, c, budget, (f - 1) as nat);
        let child = search_node_fuel(cv, c, budget, (f - 1) as nat);
        match child.0 {
            SearchResult::Found(line) => {
                let full = seq![ms[k]] + line;
                assert(full[0] == ms[k]);
                assert(full.drop_first() =~= line);
                assert(ms.contains(ms[k]));
            },
            SearchResult::Exhausted => {
                lemma_moves_found(v, ms, k + 1, child.1, budget, (f - 1) as nat);
            },
            SearchResult::BudgetReached => {},
        }
    }
}

/// A line the search finds is no longer than the number of moves it played,
/// and each of its moves is one the search tries where it is played.
pub proof fn lemma_found_line_shape(v: StateView, s: SearchCtx, budget: int)
    ensures
        search_node(v, s, budget).0 matches SearchResult::Found(line) ==> line.len() <= search_node(
            v,
            s,
            budget,
        ).1.nodes - s.nodes && searched_line(v, line),
{
    lemma_node_found(v, s, budget, (2 * (budget - s.nodes) + 2) as nat);
}

proof fn lemma_node_budget(v: StateView, s: SearchCtx, b1: int, b2: int, f: nat)
    requires
        b1 <= b2,
        !(search_node_fuel(v, s, b1, f).0 is BudgetReached),
    ensures
        search_node_fuel(v, s, b2, f) == search_node_fuel(v, s, b1, f),
    decreases f,
{
    if f > 0 && !v.is_won() && s.nodes < b1 && !s.visited.contains(state_hash(v)) {
        lemma_moves_budget(v, node_moves(v), 0, entered(v, s), b1, b2, (f - 1) as nat);
    }
}

proof fn lemma_moves_budget(
    v: StateView,
    ms: Seq<Move>,
    k: int,
    s: SearchCtx,
    b1: int,
    b2: int,
    f: nat,
)
    requires
        b1 <= b2,
        !(search_moves_fuel(v, ms, k, s, b1, f).0 is BudgetReached),
    ensures
        search_moves_fuel(v, ms, k, s, b2, f) == search_moves_fuel(v, ms, k, s, b1, f),
    decreases f,
{
    if f > 0 && 0 <= k < ms.len() && s.nodes < b1 {
        let c = played(s);
        let cv = apply_spec(v, ms[k]);
        let child = search_node_fuel(cv, c, b1, (f - 1) as nat);
        lemma_node_budget(cv, c, b1, b2, (f - 1) as nat);
        if child.0 is Exhausted {
            lemma_moves_budget(v, ms, k + 1, child.1, b1, b2, (f - 1) as nat);
        }
    }
}

/// A search that did not run out of budget returns the same with any larger
/// budget.
pub proof fn lemma_larger_budget_same(v: StateView, s: SearchCtx, b1: int, b2: int)
    requires
        0 <= s.nodes <= b1 <= b2,
        !(search_node(v, s, b1).0 is BudgetReached),
    ensures
        search_node(v, s, b2) == search_node(v, s, b1),
{
    let f1 = (2 * (b1 - s.nodes) + 2) as nat;
    let f2 = (2 * (b2 - s.nodes) + 2) as nat;
    lemma_node_fuel(v, s, b1, f2, f1);
    lemma_node_budget(v, s, b1, b2, f2);
}

proof fn lemma_search_node_unfold(v: StateView, s: SearchCtx, budget: int)
    requires
        0 <= s.nodes <= budget,
    ensures
        search_node(v, s, budget) == (if v.is_won() {
            (SearchResult::Found(seq![]), s)
        } else if s.nodes >= budget {
            (SearchResult::BudgetReached, s)
        } else if s.visited.contains(state_hash(v)) {
            (SearchResult::Exhausted, s)
        } else {
            search_moves(v, node_moves(v), 0, entered(v, s), budget)
        }),
        s.nodes <= search_node(v, s, budget).1.nodes <= budget,
{
    lemma_node_fuel(v, s, budget, (2 * (budget - s.nodes) + 2) as nat, (2 * (budget - s.nodes) + 2) as nat);
}

proof fn lemma_search_moves_unfold(v: StateView, ms: Seq<Move>, k: int, s: SearchCtx, budget: int)
    requires
        0 <= s.nodes <= budget,
        0 <= k,
    ensures
        search_moves(v, ms, k, s, budget) == (if k >= ms.len() {
            (SearchResult::Exhausted, s)
        } else if s.nodes >= budget {
            (SearchResult::BudgetReached, s)
        } else {
            let child = search_node(apply_spec(v, ms[k]), played(s), budget);
            match child.0 {
                SearchResult::Found(line) => (SearchResult::Found(seq![ms[k]] + line), child.1),
                SearchResult::BudgetReached => child,
                SearchResult::Exhausted => search_moves(v, ms, k + 1, child.1, budget),
            }
        }),
        s.nodes <= search_moves(v, ms, k, s, budget).1.nodes <= budget,
{
    let f = (2 * (budget - s.nodes) + 1) as nat;
    lemma_moves_fuel(v, ms, k, s, budget, f, f);
    if k < ms.len() && s.nodes < budget {
        let c = played(s);
        let cv = apply_spec(v, ms[k]);
        lemma_node_fuel(cv, c, budget, (f - 1) as nat, (f - 1) as nat);
        let child = search_node_fuel(cv, c, budget, (f - 1) as nat);
        assert(child == search_node(cv, c, budget));
        if child.0 is Exhausted {
            lemma_moves_fuel(
                v,
                ms,
                k + 1,
                child.1,
                budget,
                (f - 1) as nat,
                (2 * (budget - child.1.nodes) + 1) as nat,
            );
        }
    }
}

/// What the whole search returns once the frames `0..=t` of its stack are
/// done, `r` being what frame `t` returns: a win gets the move that led to
/// the frame in front of it, an exhausted frame hands over to the frame
/// below, which goes on with its next move.
pub open spec fn resume(
    states: Seq<StateView>,
    frames: Seq<Vec<Move>>,
    next: Seq<usize>,
    path: Seq<Move>,
    t: int,
    r: (SearchResult, SearchCtx),
    budget: int,
) -> (SearchResult, SearchCtx)
    decreases t,
{
    if t <= 0 {
        r
    } else {
        match r.0 {
            SearchResult::Found(line) => resume(
                states,
                frames,
                next,
                path,
                t - 1,
                (SearchResult::Found(seq![path[t - 1]] + line), r.1),
                budget,
            ),
            SearchResult::BudgetReached => resume(states, frames, next, path, t - 1, r, budget),
            SearchResult::Exhausted => resume(
                states,
                frames,
                next,
                path,
                t - 1,
                search_moves(states[t - 1], frames[t - 1]@, next[t - 1] as int, r.1, budget),
                budget,
            ),
        }
    }
}

/// What the search returns from its stack of frames, its bookkeeping being
/// `s`.
pub open spec fn stack_result(
    states: Seq<StateView>,
    frames: Seq<Vec<Move>>,
    next: Seq<usize>,
    path: Seq<Move>,
    s: SearchCtx,
    budget: int,
) -> (SearchResult, SearchCtx) {
    let t = frames.len() - 1;
    resume(
        states,
        frames,
        next,
        path,
        t,
        search_moves(states[t], frames[t]@, next[t] as int, s, budget),
        budget,
    )
}

proof fn lemma_resume_ext(
    states: Seq<StateView>,
    frames: Seq<Vec<Move>>,
    next: Seq<usize>,
    path: Seq<Move>,
    states2: Seq<StateView>,
    frames2: Seq<Vec<Move>>,
    next2: Seq<usize>,
    path2: Seq<Move>,
    t: int,
    r: (SearchResult, SearchCtx),
    budget: int,
)
    requires
        forall|i: int| 0 <= i < t ==> #[trigger] states[i] == states2[i],
        forall|i: int| 0 <= i < t ==> #[trigger] frames[i] == frames2[i],
        forall|i: int| 0 <= i < t ==> #[trigger] next[i] == next2[i],
        forall|i: int| 0 <= i < t ==> #[trigger] path[i] == path2[i],
    ensures
        resume(states, frames, next, path, t, r, budget) == resume(
            states2,
            frames2,
            next2,
            path2,
            t,
            r,
            budget,
        ),
    decreases t,
{
    if t > 0 {
        let i = t - 1;
        assert(states[i] == states2[i] && frames[i] == frames2[i] && next[i] == next2[i]
            && path[i] == path2[i]);
        match r.0 {
            SearchResult::Found(line) => {
                lemma_resume_ext(
                    states,
                    frames,
                    next,
                    path,
                    states2,
                    frames2,
                    next2,
                    path2,
                    t - 1,
                    (SearchResult::Found(seq![path[t - 1]] + line), r.1),
                    budget,
                );
            },
            SearchResult::BudgetReached => {
                lemma_resume_ext(
                    states,
                    frames,
                    next,
                    path,
                    states2,
                    frames2,
                    next2,
                    path2,
                    t - 1,
                    r,
                    budget,
                );
            },
            SearchResult::Exhausted => {
                lemma_resume_ext(
                    states,
                    frames,
                    next,
                    path,
                    states2,
                    frames2,
                    next2,
                    path2,
                    t - 1,
                    search_moves(states[t - 1], frames[t - 1]@, next[t - 1] as int, r.1, budget),
                    budget,
                );
            },
        }
    }
}

proof fn lemma_resume_budget(
    states: Seq<StateView>,
    frames: Seq<Vec<Move>>,
    next: Seq<usize>,
    path: Seq<Move>,
    t: int,
    s: SearchCtx,
    budget: int,
)
    ensures
        resume(states, frames, next, path, t, (SearchResult::BudgetReached, s), budget) == (
            SearchResult::BudgetReached,
            s,
        ),
    decreases t,
{
    if t > 0 {
        lemma_resume_budget(states, frames, next, path, t - 1, s, budget);
    }
}

proof fn lemma_resume_found(
    states: Seq<StateView>,
    frames: Seq<Vec<Move>>,
    next: Seq<usize>,
    path: Seq<Move>,
    t: int,
    line: Seq<Move>,
    s: SearchCtx,
    budget: int,
)
    requires
        0 <= t <= path.len(),
    ensures
        resume(states, frames, next, path, t, (SearchResult::Found(line), s), budget) == (
            SearchResult::Found(path.take(t) + line),
            s,
        ),
    decreases t,
{
    if t > 0 {
        lemma_resume_found(states, frames, next, path, t - 1, seq![path[t - 1]] + line, s, budget);
        assert(path.take(t - 1) + (seq![path[t - 1]] + line) =~= path.take(t) + line);
    } else {
        assert(path.take(0) + line =~= line);
    }
}

/// What the search does on arriving at a position: stop (won, out of
/// budget, or already explored) or list the moves to try, in order.
fn enter_node(state: &State, ctx: &mut Ctx) -> (r: Result<Vec<Move>, Outcome>)
    requires
        state.wf(),
        old(ctx).nodes <= old(ctx).budget,
        old(ctx).best_foundation_count <= 52,
    ensures
        final(ctx).nodes == old(ctx).nodes,
        final(ctx).budget == old(ctx).budget,
        old(ctx).best_foundation_count <= final(ctx).best_foundation_count <= 52,
        (r matches Err(Outcome::Won)) <==> state@.is_won(),
        (r matches Err(Outcome::BudgetReached)) ==> old(ctx).nodes == old(ctx).budget,
        !state@.is_won() && old(ctx).nodes == old(ctx).budget ==> (r matches Err(
            Outcome::BudgetReached,
        )),
        r is Ok ==> old(ctx).nodes < old(ctx).budget,
        r matches Ok(ms) ==> forall|j: int| 0 <= j < ms@.len() ==> legal(state@, #[trigger] ms@[j]),
        search_node(state@, search_ctx(*old(ctx)), old(ctx).budget as int) == match r {
            Err(o) => outcome_result(o, seq![], search_ctx(*final(ctx))),
            Ok(ms) => search_moves(state@, ms@, 0, search_ctx(*final(ctx)), old(ctx).budget as int),
        },
{
    broadcast use vstd::std_specs::hash::group_hash_axioms;

    proof {
        lemma_search_node_unfold(state@, search_ctx(*ctx), ctx.budget as int);
    }
    if state.is_won() {
        return Err(Outcome::Won);
    }
    if ctx.nodes >= ctx.budget {
        return Err(Outcome::BudgetReached);
    }
    let ghost before = ctx.visited@;
    if !ctx.visited.insert(state.hash) {
        assert(ctx.visited@ =~= before);
        return Err(Outcome::Exhausted);
    }
    proof {
        state.lemma_wf_facts();
    }
    let fc = state.foundation_count();
    if fc > ctx.best_foundation_count {
        ctx.best_foundation_count = fc;
    }
    if let Some(mv) = find_safe_autoplay(state) {
        proof {
            lemma_column_autoplay_legal(state@, 0);
        }
        let mut single: Vec<Move> = Vec::new();
        single.push(mv);
        return Ok(single);
    }
    let mut moves = MoveList::new();
    gen_moves(state, &mut moves);
    proof {
        lemma_moves_legal(state@);
    }
    let ordered = order_moves(state, &moves);
    proof {
        lemma_ordered_legal(state@, moves@, 6);
    }
    Ok(ordered)
}

/// `states` are the states met along `path` from `init`: each move is legal
/// where it is played and leads to the next state.
pub open spec fn chain(init: StateView, path: Seq<Move>, states: Seq<StateView>) -> bool {
    &&& states.len() == path.len() + 1
    &&& states[0] == init
    &&& forall|k: int|
        0 <= k < path.len() ==> legal(states[k], #[trigger] path[k]) && states[k + 1]
            == apply_spec(states[k], path[k])
}

proof fn lemma_chain_replay(init: StateView, path: Seq<Move>, states: Seq<StateView>)
    requires
        chain(init, path, states),
    ensures
        states.last() == replay(init, path),
        line_ok(init, path),
    decreases path.len(),
{
    if path.len() > 0 {
        let p2 = path.drop_last();
        let s2 = states.drop_last();
        assert(chain(init, p2, s2)) by {
            assert forall|k: int| 0 <= k < p2.len() implies legal(s2[k], #[trigger] p2[k])
                && s2[k + 1] == apply_spec(s2[k], p2[k]) by {
                assert(p2[k] == path[k]);
            }
        }
        lemma_chain_replay(init, p2, s2);
        let n = path.len() - 1;
        assert(states[n] == s2.last());
        assert forall|k: int| 0 <= k < path.len() implies legal(
            replay(init, path.take(k)),
            #[trigger] path[k],
        ) by {
            if k < n {
                assert(path.take(k) =~= p2.take(k));
                assert(p2[k] == path[k]);
            } else {
                assert(path.take(k) =~= p2);
            }
        }
    }
}

/// The search's stack: for each depth, the moves to try and how many were
/// tried; for each move of the path, its undo record.
pub open spec fn frames_ok(
    path: Seq<Move>,
    states: Seq<StateView>,
    frame_moves: Seq<Vec<Move>>,
    frame_next: Seq<usize>,
    undos: Seq<Undo>,
) -> bool {
    &&& frame_moves.len() == states.len()
    &&& frame_next.len() == states.len()
    &&& undos.len() == path.len()
    &&& forall|k: int| 0 <= k < states.len() ==> #[trigger] frame_next[k] <= frame_moves[k]@.len()
    &&& forall|k: int, j: int|
        0 <= k < states.len() && 0 <= j < frame_moves[k]@.len() ==> legal(
            states[k],
            #[trigger] frame_moves[k]@[j],
        )
    &&& forall|k: int|
        0 <= k < path.len() ==> (#[trigger] undos[k]).kind == undo_of(states[k], path[k])
    &&& forall|k: int|
        0 <= k < states.len() ==> (#[trigger] states[k]).shape_ok() && fits(states[k])
}

/// The search's invariant: `state` is the last of the `states` met along
/// `path` from `init`, and the stack of frames agrees with them.
#[verifier::opaque]
spec fn dfs_inv(
    init: StateView,
    state: State,
    path: Seq<Move>,
    states: Seq<StateView>,
    frame_moves: Seq<Vec<Move>>,
    frame_next: Seq<usize>,
    undos: Seq<Undo>,
) -> bool {
    &&& state.wf()
    &&& fits(state@)
    &&& chain(init, path, states)
    &&& state@ == states.last()
    &&& frames_ok(path, states, frame_moves, frame_next, undos)
}

/// Plays the next move of the top frame and enters the position it leads to.
/// `None` means the search goes on.
fn advance(
    state: &mut State,
    path: &mut Vec<Move>,
    frame_moves: &mut Vec<Vec<Move>>,
    frame_next: &mut Vec<usize>,
    undos: &mut Vec<Undo>,
    ctx: &mut Ctx,
    Ghost(init): Ghost<StateView>,
    Ghost(states): Ghost<Seq<StateView>>,
) -> (r: (Option<Outcome>, Ghost<Seq<StateView>>))
    requires
        dfs_inv(init, *old(state), old(path)@, states, old(frame_moves)@, old(frame_next)@, old(undos)@),
        old(frame_moves)@.len() > 0,
        old(frame_next)@[old(frame_moves)@.len() - 1] < old(frame_moves)@[old(frame_moves)@.len() - 1]@.len(),
        old(ctx).nodes < old(ctx).budget,
        old(ctx).best_foundation_count <= 52,
    ensures
        final(ctx).nodes == old(ctx).nodes + 1,
        final(ctx).budget == old(ctx).budget,
        old(ctx).best_foundation_count <= final(ctx).best_foundation_count <= 52,
        (r.0 is None || r.0 matches Some(Outcome::BudgetReached)) ==> dfs_inv(init, *final(state), final(path)@, r.1@, final(frame_moves)@, final(frame_next)@, final(undos)@)
            && old(frame_moves)@.len() <= final(frame_moves)@.len() <= old(frame_moves)@.len() + 1
            && final(frame_next)@.len() == final(frame_moves)@.len(),
        r.0 matches Some(Outcome::Won) ==> winning_line(init, final(path)@) && final(state).wf()
            && final(state)@ == replay(init, final(path)@),
        r.0 matches Some(Outcome::BudgetReached) ==> final(ctx).nodes == final(ctx).budget,
        !(r.0 matches Some(Outcome::Exhausted)),
        r.0 is None ==> stack_result(
            r.1@,
            final(frame_moves)@,
            final(frame_next)@,
            final(path)@,
            search_ctx(*final(ctx)),
            old(ctx).budget as int,
        ) == stack_result(
            states,
            old(frame_moves)@,
            old(frame_next)@,
            old(path)@,
            search_ctx(*old(ctx)),
            old(ctx).budget as int,
        ),
        r.0 matches Some(o) ==> outcome_result(o, final(path)@, search_ctx(*final(ctx)))
            == stack_result(
            states,
            old(frame_moves)@,
            old(frame_next)@,
            old(path)@,
            search_ctx(*old(ctx)),
            old(ctx).budget as int,
        ),
{
    proof {
        reveal(dfs_inv);
    }
    let ghost budget = ctx.budget as int;
    let ghost s0 = search_ctx(*ctx);
    let ghost old_frames0 = frame_moves@;
    let ghost old_next0 = frame_next@;
    let ghost old_path0 = path@;
    let top = frame_moves.len() - 1;
    let k = frame_next[top];
    let n = frame_moves[top].len();
    assert(k < n);
    let mv = frame_moves[top][k];
    let ghost top_ms = frame_moves@[top as int]@;
    proof {
        lemma_search_moves_unfold(states[top as int], top_ms, k as int, s0, budget);
    }
    frame_next.set(top, k + 1);
    ctx.nodes = ctx.nodes + 1;
    let ghost prev = state@;
    let ghost old_next = old(frame_next)@;
    proof {
        assert(prev == states[top as int]);
        assert(legal(prev, mv));
        assert(prev.shape_ok() && fits(prev));
        lemma_legal_applicable(prev, mv);
        lemma_apply_fits(prev, mv);
    }
    let undo = make_move(state, mv);
    let ghost old_path = path@;
    path.push(mv);
    let ghost states2 = states.push(state@);
    proof {
        assert(chain(init, path@, states2)) by {
            assert forall|i: int| 0 <= i < path@.len() implies legal(states2[i], #[trigger] path@[i])
                && states2[i + 1] == apply_spec(states2[i], path@[i]) by {
                if i < old_path.len() {
                    assert(path@[i] == old_path[i]);
                }
            }
        }
    }
    let ghost s1 = search_ctx(*ctx);
    assert(s1 == played(s0));
    match enter_node(state, ctx) {
        Err(Outcome::Won) => {
            proof {
                lemma_chain_replay(init, path@, states2);
                lemma_resume_found(
                    states,
                    old_frames0,
                    old_next0,
                    old_path0,
                    top as int,
                    seq![mv],
                    search_ctx(*ctx),
                    budget,
                );
                assert(old_path0.take(top as int) + seq![mv] =~= path@);
            }
            (Some(Outcome::Won), Ghost(states2))
        },
        Err(Outcome::BudgetReached) => {
            proof {
                lemma_resume_budget(
                    states,
                    old_frames0,
                    old_next0,
                    old_path0,
                    top as int,
                    search_ctx(*ctx),
                    budget,
                );
            }
            path.pop();
            proof {
                lemma_unmake_undoes_make(prev, mv);
                assert(path@ =~= old_path);
            }
            unmake_move(state, &undo);
            proof {
                assert forall|kk: int| 0 <= kk < states.len() implies #[trigger] frame_next@[kk]
                    <= frame_moves@[kk]@.len() by {
                    if kk != top {
                        assert(frame_next@[kk] == old_next[kk]);
                    }
                }
            }
            (Some(Outcome::BudgetReached), Ghost(states))
        },
        Err(Outcome::Exhausted) => {
            path.pop();
            proof {
                lemma_unmake_undoes_make(prev, mv);
                assert(path@ =~= old_path);
            }
            unmake_move(state, &undo);
            proof {
                assert forall|kk: int| 0 <= kk < states.len() implies #[trigger] frame_next@[kk]
                    <= frame_moves@[kk]@.len() by {
                    if kk != top {
                        assert(frame_next@[kk] == old_next[kk]);
                    }
                }
                assert(frame_moves@ == old_frames0);
                lemma_resume_ext(
                    states,
                    frame_moves@,
                    frame_next@,
                    path@,
                    states,
                    old_frames0,
                    old_next0,
                    old_path0,
                    top as int,
                    search_moves(states[top as int], top_ms, k + 1, search_ctx(*ctx), budget),
                    budget,
                );
            }
            (None, Ghost(states))
        },
        Ok(ms) => {
            let ghost old_frames = frame_moves@;
            let ghost mid_next = frame_next@;
            let ghost old_undos = undos@;
            frame_moves.push(ms);
            frame_next.push(0);
            undos.push(undo);
            proof {
                assert forall|kk: int| 0 <= kk < states2.len() implies #[trigger] frame_next@[kk]
                    <= frame_moves@[kk]@.len() by {
                    if kk < old_frames.len() {
                        assert(frame_moves@[kk] == old_frames[kk]);
                        assert(frame_next@[kk] == mid_next[kk]);
                        if kk != top {
                            assert(mid_next[kk] == old_next[kk]);
                        }
                    }
                }
                assert forall|kk: int, j: int|
                    0 <= kk < states2.len() && 0 <= j < frame_moves@[kk]@.len() implies legal(
                    states2[kk],
                    #[trigger] frame_moves@[kk]@[j],
                ) by {
                    if kk < old_frames.len() {
                        assert(frame_moves@[kk] == old_frames[kk]);
                        assert(states2[kk] == states[kk]);
                    }
                }
                assert forall|kk: int| 0 <= kk < path@.len() implies (#[trigger] undos@[kk]).kind
                    == undo_of(states2[kk], path@[kk]) by {
                    if kk < old_undos.len() {
                        assert(undos@[kk] == old_undos[kk]);
                        assert(path@[kk] == old_path[kk]);
                    }
                }
                assert forall|kk: int| 0 <= kk < states2.len() implies (#[trigger] states2[kk]).shape_ok()
                    && fits(states2[kk]) by {
                    if kk < states.len() {
                        assert(states2[kk] == states[kk]);
                    }
                }
                let x = search_moves(state@, frame_moves@[top + 1]@, 0, search_ctx(*ctx), budget);
                let combined = match x.0 {
                    SearchResult::Found(line) => (SearchResult::Found(seq![mv] + line), x.1),
                    SearchResult::BudgetReached => x,
                    SearchResult::Exhausted => search_moves(states[top as int], top_ms, k + 1, x.1, budget),
                };
                assert(path@[top as int] == mv);
                assert(states2[top as int] == states[top as int]);
                assert(frame_moves@[top as int] == old_frames0[top as int]);
                assert(frame_next@[top as int] == k + 1);
                assert(resume(states2, frame_moves@, frame_next@, path@, top + 1, x, budget)
                    == resume(states2, frame_moves@, frame_next@, path@, top as int, combined, budget));
                assert forall|i: int| 0 <= i < top implies #[trigger] frame_next@[i] == old_next0[i] by {
                    assert(frame_next@[i] == mid_next[i]);
                }
                assert forall|i: int| 0 <= i < top implies #[trigger] frame_moves@[i] == old_frames0[i] by {
                    assert(frame_moves@[i] == old_frames[i]);
                }
                assert forall|i: int| 0 <= i < top implies #[trigger] path@[i] == old_path0[i] by {
                    assert(path@[i] == old_path[i]);
                }
                lemma_resume_ext(
                    states2,
                    frame_moves@,
                    frame_next@,
                    path@,
                    states,
                    old_frames0,
                    old_next0,
                    old_path0,
                    top as int,
                    combined,
                    budget,
                );
            }
            (None, Ghost(states2))
        },
    }
}

/// Leaves an exhausted frame: takes back the move that led to it.
fn backtrack(
    state: &mut State,
    path: &mut Vec<Move>,
    frame_moves: &mut Vec<Vec<Move>>,
    frame_next: &mut Vec<usize>,
    undos: &mut Vec<Undo>,
    Ghost(init): Ghost<StateView>,
    Ghost(states): Ghost<Seq<StateView>>,
    Ghost(s): Ghost<SearchCtx>,
    Ghost(budget): Ghost<int>,
) -> (states2: Ghost<Seq<StateView>>)
    requires
        dfs_inv(init, *old(state), old(path)@, states, old(frame_moves)@, old(frame_next)@, old(undos)@),
        old(frame_moves)@.len() > 1,
        old(frame_next)@[old(frame_moves)@.len() - 1] >= old(frame_moves)@[old(frame_moves)@.len()
            - 1]@.len(),
        0 <= s.nodes <= budget,
    ensures
        dfs_inv(init, *final(state), final(path)@, states2@, final(frame_moves)@, final(frame_next)@, final(undos)@),
        final(frame_moves)@.len() == old(frame_moves)@.len() - 1,
        final(frame_next)@.len() == final(frame_moves)@.len(),
        stack_result(states2@, final(frame_moves)@, final(frame_next)@, final(path)@, s, budget)
            == stack_result(states, old(frame_moves)@, old(frame_next)@, old(path)@, s, budget),
{
    proof {
        reveal(dfs_inv);
        let t = frame_moves@.len() - 1;
        lemma_search_moves_unfold(states[t], frame_moves@[t]@, frame_next@[t] as int, s, budget);
    }
    let ghost old_path = path@;
    let ghost old_frames = frame_moves@;
    let ghost old_next = frame_next@;
    let ghost old_undos = undos@;
    frame_moves.pop();
    frame_next.pop();
    let undo = undos.pop().unwrap();
    let mv = path.pop().unwrap();
    let ghost states2 = states.drop_last();
    proof {
        let n = path@.len() as int;
        let prev = states[n];
        assert(path@ =~= old_path.drop_last());
        assert(old_path[n] == mv);
        assert(legal(prev, mv));
        assert(prev.shape_ok() && fits(prev));
        lemma_legal_applicable(prev, mv);
        lemma_unmake_undoes_make(prev, mv);
        assert(undo == old_undos[n]);
        assert(chain(init, path@, states2)) by {
            assert forall|i: int| 0 <= i < path@.len() implies legal(states2[i], #[trigger] path@[i])
                && states2[i + 1] == apply_spec(states2[i], path@[i]) by {
                assert(path@[i] == old_path[i]);
            }
        }
        assert forall|kk: int| 0 <= kk < states2.len() implies #[trigger] frame_next@[kk]
            <= frame_moves@[kk]@.len() by {
            assert(frame_moves@[kk] == old_frames[kk]);
            assert(frame_next@[kk] == old_next[kk]);
        }
        assert forall|kk: int, j: int|
            0 <= kk < states2.len() && 0 <= j < frame_moves@[kk]@.len() implies legal(
            states2[kk],
            #[trigger] frame_moves@[kk]@[j],
        ) by {
            assert(frame_moves@[kk] == old_frames[kk]);
        }
        assert forall|kk: int| 0 <= kk < path@.len() implies (#[trigger] undos@[kk]).kind
            == undo_of(states2[kk], path@[kk]) by {
            assert(undos@[kk] == old_undos[kk]);
            assert(path@[kk] == old_path[kk]);
        }
        let t = old_frames.len() - 1;
        let below = search_moves(states[t - 1], old_frames[t - 1]@, old_next[t - 1] as int, s, budget);
        assert forall|i: int| 0 <= i < t - 1 implies #[trigger] frame_next@[i] == old_next[i] by {}
        assert forall|i: int| 0 <= i < t - 1 implies #[trigger] frame_moves@[i] == old_frames[i] by {}
        assert forall|i: int| 0 <= i < t - 1 implies #[trigger] path@[i] == old_path[i] by {}
        assert forall|i: int| 0 <= i < t - 1 implies #[trigger] states2[i] == states[i] by {}
        lemma_resume_ext(
            states2,
            frame_moves@,
            frame_next@,
            path@,
            states,
            old_frames,
            old_next,
            old_path,
            t - 1,
            below,
            budget,
        );
        assert(frame_moves@[t - 1] == old_frames[t - 1]);
        assert(frame_next@[t - 1] == old_next[t - 1]);
        assert(states2[t - 1] == states[t - 1]);
    }
    unmake_move(state, &undo);
    Ghost(states2)
}

/// Takes back every move of the path, which gives the starting position
/// back.
fn unwind(
    state: &mut State,
    path: &mut Vec<Move>,
    undos: &mut Vec<Undo>,
    Ghost(init): Ghost<StateView>,
    Ghost(states): Ghost<Seq<StateView>>,
    Ghost(frames): Ghost<Seq<Vec<Move>>>,
    Ghost(next): Ghost<Seq<usize>>,
)
    requires
        dfs_inv(init, *old(state), old(path)@, states, frames, next, old(undos)@),
    ensures
        final(state).wf(),
        final(state)@ == init,
        final(path)@.len() == 0,
{
    proof {
        reveal(dfs_inv);
    }
    let ghost mut sts = states;
    while path.len() > 0
        invariant
            state.wf(),
            chain(init, path@, sts),
            state@ == sts.last(),
            undos@.len() == path@.len(),
            forall|k: int|
                0 <= k < path@.len() ==> (#[trigger] undos@[k]).kind == undo_of(sts[k], path@[k]),
            forall|k: int| 0 <= k < sts.len() ==> (#[trigger] sts[k]).shape_ok() && fits(sts[k]),
        decreases path@.len(),
    {
        let ghost old_path = path@;
        let ghost old_undos = undos@;
        let undo = undos.pop().unwrap();
        let mv = path.pop().unwrap();
        let ghost sts2 = sts.drop_last();
        proof {
            let n = path@.len() as int;
            let prev = sts[n];
            assert(path@ =~= old_path.drop_last());
            assert(old_path[n] == mv);
            assert(legal(prev, mv));
            assert(prev.shape_ok() && fits(prev));
            lemma_legal_applicable(prev, mv);
            lemma_unmake_undoes_make(prev, mv);
            assert(undo == old_undos[n]);
            assert(chain(init, path@, sts2)) by {
                assert forall|i: int| 0 <= i < path@.len() implies legal(sts2[i], #[trigger] path@[i])
                    && sts2[i + 1] == apply_spec(sts2[i], path@[i]) by {
                    assert(path@[i] == old_path[i]);
                }
            }
            assert forall|k: int| 0 <= k < path@.len() implies (#[trigger] undos@[k]).kind
                == undo_of(sts2[k], path@[k]) by {
                assert(undos@[k] == old_undos[k]);
                assert(path@[k] == old_path[k]);
            }
        }
        unmake_move(state, &undo);
        proof {
            sts = sts2;
        }
    }
}

/// Depth-first search from `state`, with the line played so far in `line`,
/// which starts empty. On `Won`, `line` holds a winning line from the
/// starting state.
fn search(state: &mut State, path: &mut Vec<Move>, ctx: &mut Ctx) -> (outcome: Outcome)
    requires
        old(state).wf(),
        fits(old(state)@),
        old(path)@.len() == 0,
        old(ctx).nodes <= old(ctx).budget,
        old(ctx).best_foundation_count <= 52,
    ensures
        final(ctx).nodes <= final(ctx).budget,
        final(ctx).budget == old(ctx).budget,
        old(ctx).best_foundation_count <= final(ctx).best_foundation_count <= 52,
        outcome matches Outcome::Won ==> winning_line(old(state)@, final(path)@),
        outcome matches Outcome::BudgetReached ==> final(ctx).nodes == final(ctx).budget,
        old(state)@.is_won() ==> (outcome matches Outcome::Won) && final(path)@.len() == 0
            && final(ctx).nodes == old(ctx).nodes,
        !old(state)@.is_won() && old(ctx).nodes == old(ctx).budget ==> (outcome matches Outcome::BudgetReached),
        outcome_result(outcome, final(path)@, search_ctx(*final(ctx))) == search_node(
            old(state)@,
            search_ctx(*old(ctx)),
            old(ctx).budget as int,
        ),
        final(state).wf(),
        !(outcome matches Outcome::Won) ==> final(state)@ == old(state)@ && final(state).hash
            == old(state).hash && final(path)@ == old(path)@,
        outcome matches Outcome::Won ==> final(state)@ == replay(old(state)@, final(path)@),
{
    let ghost init = state@;
    let ghost goal = search_node(init, search_ctx(*ctx), ctx.budget as int);
    let first = match enter_node(state, ctx) {
        Err(o) => {
            proof {
                assert(path@ =~= seq![]);
                if init.is_won() {
                    assert(chain(init, path@, seq![init]));
                    lemma_chain_replay(init, path@, seq![init]);
                }
            }
            return o;
        },
        Ok(ms) => ms,
    };
    let mut frame_moves: Vec<Vec<Move>> = Vec::new();
    let mut frame_next: Vec<usize> = Vec::new();
    let mut undos: Vec<Undo> = Vec::new();
    frame_moves.push(first);
    frame_next.push(0);
    let ghost mut states: Seq<StateView> = seq![init];
    proof {
        reveal(dfs_inv);
        assert(chain(init, path@, states));
        assert(frames_ok(path@, states, frame_moves@, frame_next@, undos@));
        assert(frame_moves@[0] == first);
    }
    loop
        invariant
            dfs_inv(init, *state, path@, states, frame_moves@, frame_next@, undos@),
            frame_moves@.len() > 0,
            frame_next@.len() == frame_moves@.len(),
            init == old(state)@,
            old(ctx).nodes < old(ctx).budget,
            ctx.nodes <= ctx.budget,
            ctx.budget == old(ctx).budget,
            old(ctx).best_foundation_count <= ctx.best_foundation_count <= 52,
            !init.is_won(),
            stack_result(states, frame_moves@, frame_next@, path@, search_ctx(*ctx), ctx.budget as int)
                == goal,
            goal == search_node(old(state)@, search_ctx(*old(ctx)), old(ctx).budget as int),
            old(path)@.len() == 0,
            old(state).wf(),
        decreases 2 * (ctx.budget - ctx.nodes) + frame_moves@.len(),
    {
        let top = frame_moves.len() - 1;
        let k = frame_next[top];
        proof {
            reveal(dfs_inv);
            lemma_search_moves_unfold(
                states[top as int],
                frame_moves@[top as int]@,
                k as int,
                search_ctx(*ctx),
                ctx.budget as int,
            );
        }
        if k < frame_moves[top].len() {
            if ctx.nodes >= ctx.budget {
                proof {
                    lemma_resume_budget(
                        states,
                        frame_moves@,
                        frame_next@,
                        path@,
                        top as int,
                        search_ctx(*ctx),
                        ctx.budget as int,
                    );
                }
                unwind(state, path, &mut undos, Ghost(init), Ghost(states), Ghost(frame_moves@), Ghost(frame_next@));
                assert(path@ =~= old(path)@);
                return Outcome::BudgetReached;
            }
            let (r, Ghost(s2)) = advance(
                state,
                path,
                &mut frame_moves,
                &mut frame_next,
                &mut undos,
                ctx,
                Ghost(init),
                Ghost(states),
            );
            match r {
                Some(o) => {
                    if let Outcome::BudgetReached = o {
                        unwind(
                            state,
                            path,
                            &mut undos,
                            Ghost(init),
                            Ghost(s2),
                            Ghost(frame_moves@),
                            Ghost(frame_next@),
                        );
                        assert(path@ =~= old(path)@);
                    }
                    return o;
                },
                None => {
                    proof {
                        states = s2;
                    }
                },
            }
        } else {
            if top == 0 {
                assert(path@ =~= old(path)@);
                return Outcome::Exhausted;
            }
            let Ghost(s2) = backtrack(
                state,
                path,
                &mut frame_moves,
                &mut frame_next,
                &mut undos,
                Ghost(init),
                Ghost(states),
                Ghost(search_ctx(*ctx)),
                Ghost(ctx.budget as int),
            );
            proof {
                states = s2;
            }
        }
    }
}

/// Depth-first search from `state`: on `Won`, the winning line found is
/// appended to `path`; otherwise `state` and `path` are given back as they
/// were.
fn dfs(state: &mut State, path: &mut Vec<Move>, ctx: &mut Ctx) -> (outcome: Outcome)
    requires
        old(state).wf(),
        fits(old(state)@),
        old(ctx).nodes <= old(ctx).budget,
        old(ctx).best_foundation_count <= 52,
    ensures
        final(ctx).nodes <= final(ctx).budget,
        final(ctx).budget == old(ctx).budget,
        old(ctx).best_foundation_count <= final(ctx).best_foundation_count <= 52,
        final(state).wf(),
        final(path)@.len() >= old(path)@.len(),
        final(path)@.take(old(path)@.len() as int) == old(path)@,
        outcome_result(
            outcome,
            final(path)@.skip(old(path)@.len() as int),
            search_ctx(*final(ctx)),
        ) == search_node(old(state)@, search_ctx(*old(ctx)), old(ctx).budget as int),
        outcome matches Outcome::Won ==> winning_line(
            old(state)@,
            final(path)@.skip(old(path)@.len() as int),
        ) && final(state)@ == replay(old(state)@, final(path)@.skip(old(path)@.len() as int)),
        !(outcome matches Outcome::Won) ==> final(state)@ == old(state)@ && final(state).hash
            == old(state).hash && final(path)@ == old(path)@,
        outcome matches Outcome::BudgetReached ==> final(ctx).nodes == final(ctx).budget,
        old(state)@.is_won() ==> (outcome matches Outcome::Won) && final(path)@ == old(path)@
            && final(ctx).nodes == old(ctx).nodes,
        !old(state)@.is_won() && old(ctx).nodes == old(ctx).budget ==> (outcome matches Outcome::BudgetReached),
{
    let mut line: Vec<Move> = Vec::new();
    let outcome = search(state, &mut line, ctx);
    let ghost base = path@;
    if let Outcome::Won = outcome {
        let mut i: usize = 0;
        while i < line.len()
            invariant
                i <= line@.len(),
                path@ == base + line@.take(i as int),
            decreases line@.len() - i,
        {
            path.push(line[i]);
            assert(line@.take(i + 1) =~= line@.take(i as int).push(line@[i as int]));
            i += 1;
        }
        assert(line@.take(line@.len() as int) =~= line@);
    }
    assert(path@.take(base.len() as int) =~= base);
    assert(path@.skip(base.len() as int) =~= line@);
    assert(line@.len() == 0 ==> path@ =~= base);
    outcome
}

pub struct SolveOutput {
    pub solved: bool,
    pub moves: Vec<Move>,
    pub nodes_explored: u64,
    pub budget_reached: bool,
    pub best_foundation_count: u32,
}

/// `out` reports the search's result `r`: the line found, or else how far
/// it went.
pub open spec fn solve_output_of(out: SolveOutput, r: (SearchResult, SearchCtx)) -> bool {
    &&& out.solved == (r.0 is Found)
    &&& out.moves@ == match r.0 {
        SearchResult::Found(line) => line,
        _ => Seq::empty(),
    }
    &&& out.nodes_explored == r.1.nodes
    &&& out.budget_reached == (r.0 is BudgetReached)
    &&& out.best_foundation_count == if r.0 is Found {
        52
    } else {
        r.1.best
    }
}

/// Searches a winning line from `state`, exploring at most `budget` nodes.
pub fn solve(state: State, budget: u64) -> (out: SolveOutput)
    requires
        state.wf(),
        fits(state@),
    ensures
        out.nodes_explored <= budget,
        out.solved ==> !out.budget_reached && out.best_foundation_count == 52 && winning_line(
            state@,
            out.moves@,
        ),
        !out.solved ==> out.moves@.len() == 0,
        out.budget_reached ==> out.nodes_explored == budget,
        state@.foundation_count() <= out.best_foundation_count <= 52,
        state@.is_won() ==> out.solved && out.moves@.len() == 0 && out.nodes_explored == 0,
        !state@.is_won() && budget == 0 ==> !out.solved && out.budget_reached,
        solve_output_of(out, search_node(state@, start_ctx(state@), budget as int)),
        out.solved ==> out.moves@.len() <= out.nodes_explored && searched_line(state@, out.moves@),
        forall|reach: spec_fn(StateView) -> bool, ms: Seq<Move>|
            #![trigger closed_reach(reach), winning_line(state@, ms)]
            closed_reach(reach) && hash_injective(reach) && reach(state@) && (forall|q: StateView|
                #[trigger] reach(q) ==> moves_spec(q).len() <= crate::moves::MAX_MOVES)
                && !out.solved && !out.budget_reached ==> !winning_line(state@, ms),
{
    solve_on_current_thread(state, budget)
}

fn solve_on_current_thread(state: State, budget: u64) -> (out: SolveOutput)
    requires
        state.wf(),
        fits(state@),
    ensures
        out.nodes_explored <= budget,
        out.solved ==> !out.budget_reached && out.best_foundation_count == 52 && winning_line(
            state@,
            out.moves@,
        ),
        !out.solved ==> out.moves@.len() == 0,
        out.budget_reached ==> out.nodes_explored == budget,
        state@.foundation_count() <= out.best_foundation_count <= 52,
        state@.is_won() ==> out.solved && out.moves@.len() == 0 && out.nodes_explored == 0,
        !state@.is_won() && budget == 0 ==> !out.solved && out.budget_reached,
        solve_output_of(out, search_node(state@, start_ctx(state@), budget as int)),
        out.solved ==> out.moves@.len() <= out.nodes_explored && searched_line(state@, out.moves@),
        forall|reach: spec_fn(StateView) -> bool, ms: Seq<Move>|
            #![trigger closed_reach(reach), winning_line(state@, ms)]
            closed_reach(reach) && hash_injective(reach) && reach(state@) && (forall|q: StateView|
                #[trigger] reach(q) ==> moves_spec(q).len() <= crate::moves::MAX_MOVES)
                && !out.solved && !out.budget_reached ==> !winning_line(state@, ms),
{
    let mut state = state;
    proof {
        state.lemma_wf_facts();
    }
    let mut ctx = Ctx {
        visited: HashSet::new(),
        nodes: 0,
        budget,
        best_foundation_count: state.foundation_count(),
    };
    let mut path: Vec<Move> = Vec::new();
    let ghost init = state@;
    assert(search_ctx(ctx) == start_ctx(init));
    proof {
        lemma_found_line_shape(init, start_ctx(init), budget as int);
    }
    let outcome = dfs(&mut state, &mut path, &mut ctx);
    assert(path@.skip(0) =~= path@);
    proof {
        assert forall|reach: spec_fn(StateView) -> bool, ms: Seq<Move>|
            #![trigger closed_reach(reach), winning_line(init, ms)]
            closed_reach(reach) && hash_injective(reach) && reach(init) && (forall|q: StateView|
                #[trigger] reach(q) ==> moves_spec(q).len() <= crate::moves::MAX_MOVES)
                && outcome is Exhausted implies !winning_line(init, ms) by {
            lemma_exhausted_unwinnable(reach, init, budget as int, ms);
        }
    }
    match outcome {
        Outcome::Won => SolveOutput {
            solved: true,
            moves: path,
            nodes_explored: ctx.nodes,
            budget_reached: false,
            best_foundation_count: 52,
        },
        Outcome::Exhausted => SolveOutput {
            solved: false,
            moves: Vec::new(),
            nodes_explored: ctx.nodes,
            budget_reached: false,
            best_foundation_count: ctx.best_foundation_count,
        },
        Outcome::BudgetReached => SolveOutput {
            solved: false,
            moves: Vec::new(),
            nodes_explored: ctx.nodes,
            budget_reached: true,
            best_foundation_count: ctx.best_foundation_count,
        },
    }
}

// ---- An exhausted search leaves no winning line ----
/// The positions of `reach` fit the buffers and hold each card in one place
/// at most (none of them also on a foundation), and legal moves stay in
/// `reach`.
pub open spec fn closed_reach(reach: spec_fn(StateView) -> bool) -> bool {
    &&& forall|p: StateView| #[trigger] reach(p) ==> p.shape_ok() && fits(p) && places_distinct(p)
    &&& forall|p: StateView, m: Move|
        #![trigger reach(p), legal(p, m)]
        reach(p) && legal(p, m) ==> reach(apply_spec(p, m))
}

/// No two positions of `reach` share a hash.
pub open spec fn hash_injective(reach: spec_fn(StateView) -> bool) -> bool {
    forall|p: StateView, q: StateView|
        #![trigger reach(p), reach(q)]
        reach(p) && reach(q) && state_hash(p) == state_hash(q) ==> p == q
}

/// `p` is not won and every move the search tries from it leads to a
/// position whose hash is in `visited`.
pub open spec fn closed_in(p: StateView, visited: Set<u64>) -> bool {
    &&& !p.is_won()
    &&& forall|j: int|
        0 <= j < node_moves(p).len() ==> visited.contains(
            state_hash(apply_spec(p, #[trigger] node_moves(p)[j])),
        )
}

/// The positions of `reach` entered between `before` and `after` are closed
/// in `after`.
pub open spec fn new_closed(reach: spec_fn(StateView) -> bool, before: Set<u64>, after: Set<u64>) -> bool {
    forall|p: StateView|
        #[trigger] reach(p) && after.contains(state_hash(p)) && !before.contains(state_hash(p))
            ==> closed_in(p, after)
}

proof fn lemma_node_moves_legal(v: StateView)
    requires
        v.shape_ok(),
    ensures
        forall|j: int| 0 <= j < node_moves(v).len() ==> legal(v, #[trigger] node_moves(v)[j]),
{
    lemma_column_autoplay_legal(v, 0);
    lemma_moves_legal(v);
    lemma_ordered_legal(v, capped(moves_spec(v)), 6);
    if let Some(a) = autoplay_spec(v) {
        assert(node_moves(v) == seq![a]);
    }
}

proof fn lemma_closed_in_grows(p: StateView, a: Set<u64>, b: Set<u64>)
    requires
        closed_in(p, a),
        a.subset_of(b),
    ensures
        closed_in(p, b),
{
    assert forall|j: int| 0 <= j < node_moves(p).len() implies b.contains(
        state_hash(apply_spec(p, #[trigger] node_moves(p)[j])),
    ) by {
        assert(a.contains(state_hash(apply_spec(p, node_moves(p)[j]))));
    }
}

proof fn lemma_node_closed(
    reach: spec_fn(StateView) -> bool,
    v: StateView,
    s: SearchCtx,
    budget: int,
    f: nat,
)
    requires
        closed_reach(reach),
        hash_injective(reach),
        reach(v),
        0 <= s.nodes <= budget,
        f >= 2 * (budget - s.nodes) + 2,
    ensures
        search_node_fuel(v, s, budget, f).0 is Exhausted ==> {
            let after = search_node_fuel(v, s, budget, f).1.visited;
            &&& s.visited.subset_of(after)
            &&& after.contains(state_hash(v))
            &&& new_closed(reach, s.visited, after)
        },
    decreases f,
{
    if !v.is_won() && s.nodes < budget && !s.visited.contains(state_hash(v)) {
        let s1 = entered(v, s);
        let ms = node_moves(v);
        lemma_node_moves_legal(v);
        lemma_moves_closed(reach, v, ms, 0, s1, budget, (f - 1) as nat);
        let r = search_moves_fuel(v, ms, 0, s1, budget, (f - 1) as nat);
        if r.0 is Exhausted {
            let after = r.1.visited;
            assert(closed_in(v, after));
            assert forall|p: StateView|
                #[trigger] reach(p) && after.contains(state_hash(p)) && !s.visited.contains(
                    state_hash(p),
                ) implies closed_in(p, after) by {
                if state_hash(p) == state_hash(v) {
                    assert(p == v);
                } else {
                    assert(!s1.visited.contains(state_hash(p)));
                }
            }
        }
    } else if !v.is_won() && s.nodes < budget {
        assert(new_closed(reach, s.visited, s.visited));
    }
}

proof fn lemma_moves_closed(
    reach: spec_fn(StateView) -> bool,
    v: StateView,
    ms: Seq<Move>,
    k: int,
    s: SearchCtx,
    budget: int,
    f: nat,
)
    requires
        closed_reach(reach),
        hash_injective(reach),
        reach(v),
        forall|j: int| 0 <= j < ms.len() ==> legal(v, #[trigger] ms[j]),
        0 <= k,
        0 <= s.nodes <= budget,
        f >= 2 * (budget - s.nodes) + 1,
    ensures
        search_moves_fuel(v, ms, k, s, budget, f).0 is Exhausted ==> {
            let after = search_moves_fuel(v, ms, k, s, budget, f).1.visited;
            &&& s.visited.subset_of(after)
            &&& forall|j: int|
                k <= j < ms.len() ==> after.contains(state_hash(apply_spec(v, #[trigger] ms[j])))
            &&& new_closed(reach, s.visited, after)
        },
    decreases f,
{
    if k >= ms.len() {
        assert(new_closed(reach, s.visited, s.visited));
    } else if s.nodes < budget {
        let c = played(s);
        let cv = apply_spec(v, ms[k]);
        assert(legal(v, ms[k]));
        assert(reach(cv));
        lemma_node_fuel(cv, c, budget, (f - 1) as nat, (f - 1) as nat);
        lemma_node_closed(reach, cv, c, budget, (f - 1) as nat);
        let child = search_node_fuel(cv, c, budget, (f - 1) as nat);
        if child.0 is Exhausted {
            lemma_moves_closed(reach, v, ms, k + 1, child.1, budget, (f - 1) as nat);
            let r = search_moves_fuel(v, ms, k + 1, child.1, budget, (f - 1) as nat);
            if r.0 is Exhausted {
                let mid = child.1.visited;
                let after = r.1.visited;
                assert forall|j: int| k <= j < ms.len() implies after.contains(
                    state_hash(apply_spec(v, #[trigger] ms[j])),
                ) by {
                    if j == k {
                        assert(mid.contains(state_hash(cv)));
                    }
                }
                assert forall|p: StateView|
                    #[trigger] reach(p) && after.contains(state_hash(p)) && !s.visited.contains(
                        state_hash(p),
                    ) implies closed_in(p, after) by {
                    if mid.contains(state_hash(p)) {
                        lemma_closed_in_grows(p, mid, after);
                    }
                }
            }
        }
    }
}

pub(crate) proof fn lemma_replay_first(v: StateView, ms: Seq<Move>)
    requires
        ms.len() > 0,
    ensures
        replay(v, ms) == replay(apply_spec(v, ms[0]), ms.drop_first()),
    decreases ms.len(),
{
    if ms.len() > 1 {
        lemma_replay_first(v, ms.drop_last());
        assert(ms.drop_last().drop_first() =~= ms.drop_first().drop_last());
        assert(ms.drop_last()[0] == ms[0]);
        assert(ms.drop_first().last() == ms.last());
        assert(ms.drop_first().len() > 0);
        assert(replay(apply_spec(v, ms[0]), ms.drop_first()) == apply_spec(
            replay(apply_spec(v, ms[0]), ms.drop_first().drop_last()),
            ms.drop_first().last(),
        ));
    } else {
        assert(ms.drop_last() =~= Seq::<Move>::empty());
        assert(ms.drop_first() =~= Seq::<Move>::empty());
        assert(ms.last() == ms[0]);
        assert(replay(v, ms.drop_last()) == v);
    }
}

pub(crate) proof fn lemma_winning_tail(v: StateView, ms: Seq<Move>)
    requires
        winning_line(v, ms),
        ms.len() > 0,
    ensures
        legal(v, ms[0]),
        winning_line(apply_spec(v, ms[0]), ms.drop_first()),
{
    assert(ms.take(0) =~= Seq::<Move>::empty());
    assert(legal(replay(v, ms.take(0)), ms[0]));
    lemma_replay_first(v, ms);
    let w = apply_spec(v, ms[0]);
    let t = ms.drop_first();
    assert forall|k: int| 0 <= k < t.len() implies legal(replay(w, t.take(k)), #[trigger] t[k]) by {
        assert(legal(replay(v, ms.take(k + 1)), ms[k + 1]));
        lemma_replay_first(v, ms.take(k + 1));
        assert(ms.take(k + 1).drop_first() =~= t.take(k));
        assert(ms.take(k + 1)[0] == ms[0]);
    }
}

proof fn lemma_no_win_from_closed(
    reach: spec_fn(StateView) -> bool,
    visited: Set<u64>,
    p: StateView,
    ms: Seq<Move>,
)
    requires
        closed_reach(reach),
        hash_injective(reach),
        forall|q: StateView| #[trigger] reach(q) ==> moves_spec(q).len() <= crate::moves::MAX_MOVES,
        new_closed(reach, Set::empty(), visited),
        reach(p),
        visited.contains(state_hash(p)),
    ensures
        !winning_line(p, ms),
    decreases ms.len(),
{
    assert(closed_in(p, visited));
    lemma_node_moves_legal(p);
    if winning_line(p, ms) {
        if ms.len() == 0 {
            assert(replay(p, ms) == p);
        } else if let Some(a) = autoplay_spec(p) {
            assert(node_moves(p) == seq![a]);
            assert(node_moves(p)[0] == a);
            let q = apply_spec(p, a);
            assert(visited.contains(state_hash(q)));
            assert(legal(p, node_moves(p)[0]));
            assert(reach(q));
            assert(play_closed(reach));
            lemma_autoplay_keeps_win(reach, p, ms, a);
            let ms2 = choose|ms2: Seq<Move>| #[trigger] winning_line(q, ms2) && ms2.len() < ms.len();
            lemma_no_win_from_closed(reach, visited, q, ms2);
        } else {
            lemma_winning_tail(p, ms);
            let m = ms[0];
            lemma_node_moves_complete(p, m);
            let j = choose|j: int| 0 <= j < node_moves(p).len() && node_moves(p)[j] == m;
            let q = apply_spec(p, m);
            assert(visited.contains(state_hash(apply_spec(p, node_moves(p)[j]))));
            assert(reach(q));
            lemma_no_win_from_closed(reach, visited, q, ms.drop_first());
        }
    }
}

/// When the search from `v` ends with its moves exhausted (not out of
/// budget), no line wins from `v`, provided that, over a set `reach` of
/// positions holding `v`, closed under legal moves, holding each card in one
/// place at most: no two positions share a hash, and no position has more
/// than `MAX_MOVES` legal moves.
pub proof fn lemma_exhausted_unwinnable(
    reach: spec_fn(StateView) -> bool,
    v: StateView,
    budget: int,
    ms: Seq<Move>,
)
    requires
        closed_reach(reach),
        hash_injective(reach),
        forall|q: StateView| #[trigger] reach(q) ==> moves_spec(q).len() <= crate::moves::MAX_MOVES,
        reach(v),
        0 <= budget,
        search_node(v, start_ctx(v), budget).0 is Exhausted,
    ensures
        !winning_line(v, ms),
{
    lemma_node_closed(reach, v, start_ctx(v), budget, (2 * budget + 2) as nat);
    let visited = search_node(v, start_ctx(v), budget).1.visited;
    lemma_no_win_from_closed(reach, visited, v, ms);
}

proof fn lemma_no_searched_win_from_closed(
    reach: spec_fn(StateView) -> bool,
    visited: Set<u64>,
    p: StateView,
    ms: Seq<Move>,
)
    requires
        closed_reach(reach),
        hash_injective(reach),
        new_closed(reach, Set::empty(), visited),
        reach(p),
        visited.contains(state_hash(p)),
    ensures
        !(winning_line(p, ms) && searched_line(p, ms)),
    decreases ms.len(),
{
    assert(closed_in(p, visited));
    lemma_node_moves_legal(p);
    if winning_line(p, ms) && searched_line(p, ms) {
        if ms.len() == 0 {
            assert(replay(p, ms) == p);
        } else {
            lemma_winning_tail(p, ms);
            let m = ms[0];
            let j = choose|j: int| 0 <= j < node_moves(p).len() && node_moves(p)[j] == m;
            let q = apply_spec(p, m);
            assert(visited.contains(state_hash(apply_spec(p, node_moves(p)[j]))));
            assert(reach(q));
            lemma_no_searched_win_from_closed(reach, visited, q, ms.drop_first());
        }
    }
}

/// When the search from `v` ends with its moves exhausted (not out of
/// budget), no winning line from `v` is made of moves the search tries
/// where they are played, provided no two positions of a set `reach`
/// holding `v` and closed under legal moves share a hash.
pub proof fn lemma_exhausted_no_searched_win(
    reach: spec_fn(StateView) -> bool,
    v: StateView,
    budget: int,
    ms: Seq<Move>,
)
    requires
        closed_reach(reach),
        hash_injective(reach),
        reach(v),
        0 <= budget,
        search_node(v, start_ctx(v), budget).0 is Exhausted,
    ensures
        !(winning_line(v, ms) && searched_line(v, ms)),
{
    lemma_node_closed(reach, v, start_ctx(v), budget, (2 * budget + 2) as nat);
    let visited = search_node(v, start_ctx(v), budget).1.visited;
    lemma_no_searched_win_from_closed(reach, visited, v, ms);
}

// ---- The best foundation count reported covers every position entered ----
/// The positions of `reach` fit the buffers, and legal moves stay in `reach`.
pub open spec fn legal_closed(reach: spec_fn(StateView) -> bool) -> bool {
    &&& forall|p: StateView| #[trigger] reach(p) ==> p.shape_ok()
    &&& forall|p: StateView, m: Move|
        #![trigger reach(p), legal(p, m)]
        reach(p) && legal(p, m) ==> reach(apply_spec(p, m))
}

/// `after` keeps what `before` had, and its best foundation count is at
/// least that of every position of `reach` entered in between.
pub open spec fn best_covers(
    reach: spec_fn(StateView) -> bool,
    before: SearchCtx,
    after: SearchCtx,
) -> bool {
    &&& before.visited.subset_of(after.visited)
    &&& after.best >= before.best
    &&& forall|p: StateView|
        #[trigger] reach(p) && after.visited.contains(state_hash(p)) && !before.visited.contains(
            state_hash(p),
        ) ==> after.best >= p.foundation_count()
}

proof fn lemma_node_best(
    reach: spec_fn(StateView) -> bool,
    v: StateView,
    s: SearchCtx,
    budget: int,
    f: nat,
)
    requires
        legal_closed(reach),
        hash_injective(reach),
        reach(v),
    ensures
        best_covers(reach, s, search_node_fuel(v, s, budget, f).1),
    decreases f,
{
    if f > 0 && !v.is_won() && s.nodes < budget && !s.visited.contains(state_hash(v)) {
        let s1 = entered(v, s);
        let ms = node_moves(v);
        lemma_node_moves_legal(v);
        lemma_moves_best(reach, v, ms, 0, s1, budget, (f - 1) as nat);
        let r = search_moves_fuel(v, ms, 0, s1, budget, (f - 1) as nat);
        assert forall|p: StateView|
            #[trigger] reach(p) && r.1.visited.contains(state_hash(p)) && !s.visited.contains(
                state_hash(p),
            ) implies r.1.best >= p.foundation_count() by {
            if state_hash(p) == state_hash(v) {
                assert(p == v);
            } else {
                assert(!s1.visited.contains(state_hash(p)));
            }
        }
    }
}

proof fn lemma_moves_best(
    reach: spec_fn(StateView) -> bool,
    v: StateView,
    ms: Seq<Move>,
    k: int,
    s: SearchCtx,
    budget: int,
    f: nat,
)
    requires
        legal_closed(reach),
        hash_injective(reach),
        reach(v),
        forall|j: int| 0 <= j < ms.len() ==> legal(v, #[trigger] ms[j]),
    ensures
        best_covers(reach, s, search_moves_fuel(v, ms, k, s, budget, f).1),
    decreases f,
{
    if f > 0 && 0 <= k < ms.len() && s.nodes < budget {
        let c = played(s);
        let cv = apply_spec(v, ms[k]);
        assert(legal(v, ms[k]));
        assert(reach(cv));
        lemma_node_best(reach, cv, c, budget, (f - 1) as nat);
        let child = search_node_fuel(cv, c, budget, (f - 1) as nat);
        if child.0 is Exhausted {
            lemma_moves_best(reach, v, ms, k + 1, child.1, budget, (f - 1) as nat);
            let r = search_moves_fuel(v, ms, k + 1, child.1, budget, (f - 1) as nat);
            assert forall|p: StateView|
                #[trigger] reach(p) && r.1.visited.contains(state_hash(p)) && !s.visited.contains(
                    state_hash(p),
                ) implies r.1.best >= p.foundation_count() by {
                if child.1.visited.contains(state_hash(p)) {
                    assert(child.1.best >= p.foundation_count());
                }
            }
        }
    }
}

/// The best foundation count a search reports is at least that of every
/// position it entered (every position whose hash it added to the visited
/// set), provided no two positions of a set `reach` holding `v` and closed
/// under legal moves share a hash. The count never goes down.
pub proof fn lemma_best_covers_entered(
    reach: spec_fn(StateView) -> bool,
    v: StateView,
    s: SearchCtx,
    budget: int,
)
    requires
        legal_closed(reach),
        hash_injective(reach),
        reach(v),
    ensures
        best_covers(reach, s, search_node(v, s, budget).1),
{
    lemma_node_best(reach, v, s, budget, (2 * (budget - s.nodes) + 2) as nat);
}

/// The search enters the position it starts from, unless it is won, out of
/// budget or already entered.
pub proof fn lemma_search_enters_start(v: StateView, s: SearchCtx, budget: int)
    requires
        0 <= s.nodes < budget,
        !v.is_won(),
        !s.visited.contains(state_hash(v)),
    ensures
        search_node(v, s, budget).1.visited.contains(state_hash(v)),
        search_node(v, s, budget).1.best >= v.foundation_count(),
{
    lemma_search_node_unfold(v, s, budget);
    let s1 = entered(v, s);
    let f = (2 * (budget - s.nodes) + 1) as nat;
    lemma_moves_visited_grow(v, node_moves(v), 0, s1, budget, f);
}

proof fn lemma_moves_visited_grow(v: StateView, ms: Seq<Move>, k: int, s: SearchCtx, budget: int, f: nat)
    ensures
        s.visited.subset_of(search_moves_fuel(v, ms, k, s, budget, f).1.visited),
        search_moves_fuel(v, ms, k, s, budget, f).1.best >= s.best,
    decreases f,
{
    if f > 0 && 0 <= k < ms.len() && s.nodes < budget {
        let c = played(s);
        let cv = apply_spec(v, ms[k]);
        lemma_node_visited_grow(cv, c, budget, (f - 1) as nat);
        let child = search_node_fuel(cv, c, budget, (f - 1) as nat);
        if child.0 is Exhausted {
            lemma_moves_visited_grow(v, ms, k + 1, child.1, budget, (f - 1) as nat);
        }
    }
}

proof fn lemma_node_visited_grow(v: StateView, s: SearchCtx, budget: int, f: nat)
    ensures
        s.visited.subset_of(search_node_fuel(v, s, budget, f).1.visited),
        search_node_fuel(v, s, budget, f).1.best >= s.best,
    decreases f,
{
    if f > 0 && !v.is_won() && s.nodes < budget && !s.visited.contains(state_hash(v)) {
        lemma_moves_visited_grow(v, node_moves(v), 0, entered(v, s), budget, (f - 1) as nat);
    }
}

} // verus!
