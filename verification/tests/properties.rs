use solitaire_solver::apply::{make_move, unmake_move, UndoKind};
use solitaire_solver::card::{
    all_cards, is_red, make_card, opposite_color, rank0_of, rank_value, suit_of, Card, NONE,
};
use solitaire_solver::dealer::{deal_from_shuffle, random_deal, shuffled_deck};
use solitaire_solver::determinize::world_seed;
use solitaire_solver::moves::{gen_moves, Move, MoveList};
use solitaire_solver::rng::{shuffle, Xorshift64};
use solitaire_solver::state::{Column, State};
use solitaire_solver::zobrist::{zobrist, zobrist_key};
use solitaire_solver::{hop_tally, sample_world, solve, KnownState};

fn small_state() -> State {
    let mut cols: [Vec<Card>; 7] = std::array::from_fn(|_| Vec::new());
    cols[0] = vec![make_card(2, 12)];
    cols[1] = vec![make_card(0, 11)];
    State::deal(&cols, &[0u8; 7], &[make_card(3, 0)])
}

fn trivial_state() -> State {
    let mut cols: [Vec<Card>; 7] = std::array::from_fn(|_| Vec::new());
    for suit in 0..4usize {
        cols[suit] = (0..13u8).rev().map(|r| make_card(suit, r)).collect();
    }
    State::deal(&cols, &[0u8; 7], &[])
}

fn near_solved_known_state() -> KnownState {
    let mut column_visible: [Vec<Card>; 7] = std::array::from_fn(|_| Vec::new());
    column_visible[0] = vec![make_card(3, 0)];
    column_visible[6] = (4..=12u8).rev().map(|rank0| make_card(3, rank0)).collect();
    KnownState {
        column_visible,
        column_facedown_count: [1u8, 0, 0, 0, 0, 0, 0],
        foundations: [13u8, 13, 13, 0],
        waste_known: vec![],
        stock_known: vec![],
        undrawn_unknown_count: 2,
        unknown_pool: vec![make_card(3, 1), make_card(3, 2), make_card(3, 3)],
    }
}

#[test]
fn card_encoding_values() {
    assert_eq!(make_card(2, 12), 38);
    assert_eq!(suit_of(38), 2);
    assert_eq!(rank0_of(38), 12);
    assert_eq!(rank_value(38), 13);
    assert_eq!(rank_value(make_card(0, 0)), 1);
    assert!(opposite_color(make_card(0, 3), make_card(3, 4)));
    assert!(!opposite_color(make_card(0, 3), make_card(1, 4)));
    assert!(!is_red(make_card(3, 0)));
    let all = all_cards();
    for (i, &c) in all.iter().enumerate() {
        assert_eq!(c as usize, i);
    }
}

#[test]
fn xorshift_known_outputs_and_never_zero() {
    let mut rng = Xorshift64::new(0);
    assert_eq!(rng.next_u64(), 0xdc1b_77ae_0bf3_4dad);
    assert_eq!(rng.next_u64(), 0x64f0_eeb9_026e_6076);
    for seed in [0u64, 1, 0x9E37_79B9_7F4A_7C15, u64::MAX] {
        let mut r = Xorshift64::new(seed);
        for _ in 0..1000 {
            assert_ne!(r.next_u64(), 0);
        }
    }
}

#[test]
fn shuffle_known_order_and_permutation() {
    let expected: [u8; 52] = [
        17, 27, 47, 21, 1, 23, 34, 31, 4, 13, 45, 51, 48, 42, 5, 22, 3, 7, 35, 29, 10, 40, 9, 50, 39, 36,
        49, 33, 8, 28, 2, 44, 0, 30, 12, 37, 24, 20, 19, 46, 16, 26, 32, 11, 41, 6, 38, 14, 25, 18, 15,
        43,
    ];
    assert_eq!(shuffled_deck(42), expected);
    for seed in 0..50u64 {
        let mut deck = shuffled_deck(seed);
        deck.sort();
        assert_eq!(deck, all_cards());
    }
    let mut one = [7u32];
    shuffle(&mut one, 3);
    assert_eq!(one, [7]);
    let mut empty: [u32; 0] = [];
    shuffle(&mut empty, 3);
}

#[test]
fn zobrist_keys_follow_the_seeded_sequence() {
    assert_eq!(zobrist_key(0), 0x46b6_157b_2fde_5d6b);
    assert_eq!(zobrist_key(1), 0x9f68_096d_a402_6207);
    assert_eq!(zobrist_key(8736), 0xd34c_5950_9fc8_50fa);
    assert_eq!(zobrist_key(10232), 0x2370_a57f_3428_0146);
    let z = zobrist();
    assert_eq!(z.col_card[0][0][0], zobrist_key(0));
    assert_eq!(z.col_card[0][0][1], zobrist_key(1));
    assert_eq!(z.col_facedown[0][0], zobrist_key(8736));
    assert_eq!(z.stock_pointer[24], zobrist_key(10232));
    assert_eq!(z.stock_pos[3][5], zobrist_key(8960 + 3 * 52 + 5));
    assert_eq!(z.foundation[2][7], zobrist_key(8904 + 2 * 14 + 7));
}

#[test]
fn random_deal_layout() {
    for seed in [0u64, 9, 77] {
        let deck = shuffled_deck(seed);
        let state = random_deal(seed);
        let again = deal_from_shuffle(&deck);
        assert_eq!(state.hash, again.hash);
        let mut idx = 0usize;
        for c in 0..7usize {
            let col = &state.columns[c];
            assert_eq!(col.len as usize, c + 1);
            assert_eq!(col.face_down as usize, c);
            assert_eq!(col.face_up_count(), 1);
            for i in 0..=c {
                assert_eq!(col.cards[i], deck[idx]);
                idx += 1;
            }
            assert_eq!(col.cards[c + 1], NONE);
        }
        assert_eq!(state.stock_len, 24);
        assert_eq!(state.stock_pointer, 0);
        assert_eq!(&state.stock[..], &deck[28..]);
        assert_eq!(state.foundations, [0, 0, 0, 0]);
        assert_eq!(state.stock_top(), None);
        let mut copy = state;
        copy.recompute_hash_from_scratch();
        assert_eq!(copy.hash, state.hash);
    }
}

#[test]
fn column_accessors() {
    let empty = Column::empty();
    assert!(empty.is_empty());
    assert_eq!(empty.top(), None);
    assert_eq!(empty.face_up_count(), 0);
    let state = random_deal(5);
    let col = &state.columns[3];
    assert!(!col.is_empty());
    assert_eq!(col.top(), Some(col.cards[3]));
    assert_eq!(col.face_down, 3);
    assert_eq!(col.card_at(0), col.cards[3]);
    let mut cols: [Vec<Card>; 7] = std::array::from_fn(|_| Vec::new());
    cols[1] = vec![make_card(0, 5), make_card(1, 12), make_card(2, 11), make_card(1, 10)];
    let state = State::deal(&cols, &[0u8, 1, 0, 0, 0, 0, 0], &[]);
    let col = &state.columns[1];
    assert_eq!(col.card_at(0), make_card(1, 12));
    assert_eq!(col.card_at(1), make_card(2, 11));
    assert_eq!(col.card_at(2), make_card(1, 10));
}

#[test]
fn gen_moves_exact_list_on_small_state() {
    let state = small_state();
    let mut moves = MoveList::new();
    assert_eq!(moves.len, 0);
    gen_moves(&state, &mut moves);
    let expected = vec![
        Move::Draw,
        Move::ColumnToColumn { from: 0, dest: 2, count: 1 },
        Move::ColumnToColumn { from: 0, dest: 3, count: 1 },
        Move::ColumnToColumn { from: 0, dest: 4, count: 1 },
        Move::ColumnToColumn { from: 0, dest: 5, count: 1 },
        Move::ColumnToColumn { from: 0, dest: 6, count: 1 },
        Move::ColumnToColumn { from: 1, dest: 0, count: 1 },
    ];
    assert_eq!(moves.as_slice().to_vec(), expected);
}

#[test]
fn make_move_effects_and_undo_on_small_state() {
    let mut state = small_state();
    let before = state;
    let undo = make_move(&mut state, Move::ColumnToColumn { from: 1, dest: 0, count: 1 });
    assert_eq!(state.columns[0].len, 2);
    assert_eq!(state.columns[0].top(), Some(make_card(0, 11)));
    assert!(state.columns[1].is_empty());
    assert!(matches!(undo.kind, UndoKind::ColumnToColumn { .. }));
    let incremental = state.hash;
    state.recompute_hash_from_scratch();
    assert_eq!(incremental, state.hash);
    assert_ne!(state.hash, before.hash);
    unmake_move(&mut state, &undo);
    assert_eq!(state.hash, before.hash);
    assert_eq!(state.columns[0].len, 1);
    assert_eq!(state.columns[1].top(), Some(make_card(0, 11)));

    let undo = make_move(&mut state, Move::Draw);
    assert_eq!(state.stock_pointer, 1);
    assert_eq!(state.stock_top(), Some(make_card(3, 0)));
    let undo2 = make_move(&mut state, Move::WasteToFoundation);
    assert_eq!(state.foundations[3], 1);
    assert_eq!(state.stock_len, 0);
    assert_eq!(state.foundation_count(), 1);
    unmake_move(&mut state, &undo2);
    unmake_move(&mut state, &undo);
    assert_eq!(state.hash, before.hash);
    assert_eq!(state.stock_len, 1);
    assert_eq!(state.stock_pointer, 0);
}

#[test]
fn draw_and_recycle_cycle() {
    let mut state = random_deal(11);
    let start = state;
    for _ in 0..24 {
        make_move(&mut state, Move::Draw);
    }
    assert_eq!(state.stock_pointer, 24);
    let mut moves = MoveList::new();
    gen_moves(&state, &mut moves);
    assert_eq!(moves.as_slice()[0], Move::Recycle);
    make_move(&mut state, Move::Recycle);
    assert_eq!(state.stock_pointer, 0);
    assert_eq!(state.hash, start.hash);
}

#[test]
fn winning_line_replays_to_a_won_state() {
    let start = trivial_state();
    assert!(!start.is_won());
    let out = solve(start, 100_000);
    assert!(out.solved);
    assert!(!out.budget_reached);
    assert_eq!(out.best_foundation_count, 52);
    let mut state = start;
    for &mv in &out.moves {
        let mut legal = MoveList::new();
        gen_moves(&state, &mut legal);
        assert!(legal.as_slice().contains(&mv));
        make_move(&mut state, mv);
    }
    assert!(state.is_won());
    assert_eq!(state.foundation_count(), 52);

    let again = solve(state, 10);
    assert!(again.solved);
    assert!(again.moves.is_empty());
    assert_eq!(again.nodes_explored, 0);
}

#[test]
fn zero_budget_reaches_the_budget_at_once() {
    let out = solve(random_deal(1), 0);
    assert!(!out.solved);
    assert!(out.budget_reached);
    assert_eq!(out.nodes_explored, 0);
    assert!(out.moves.is_empty());
    assert_eq!(out.best_foundation_count, 0);
}

#[test]
fn small_budgets_are_respected() {
    for budget in [1u64, 2, 10, 100] {
        let out = solve(random_deal(3), budget);
        assert!(out.nodes_explored <= budget);
        if out.budget_reached {
            assert_eq!(out.nodes_explored, budget);
            assert!(!out.solved);
        }
        assert!(out.best_foundation_count <= 52);
    }
}

#[test]
fn known_state_checks() {
    let known = near_solved_known_state();
    assert!(known.is_consistent());
    assert!(known.is_roomy());
    let mut bad = near_solved_known_state();
    bad.unknown_pool.pop();
    assert!(!bad.is_consistent());
    let mut crowded = near_solved_known_state();
    crowded.column_facedown_count[2] = 13;
    assert!(!crowded.is_roomy());
    let mut invalid = near_solved_known_state();
    invalid.waste_known.push(60);
    assert!(!invalid.is_consistent());
}

#[test]
fn sampled_world_layout() {
    let known = near_solved_known_state();
    let world = sample_world(&known, 4);
    assert_eq!(world.columns[0].len, 2);
    assert_eq!(world.columns[0].face_down, 1);
    assert_eq!(world.stock_len, 2);
    assert_eq!(world.stock_pointer, 0);
    let mut hidden = vec![world.columns[0].cards[0], world.stock[0], world.stock[1]];
    hidden.sort();
    assert_eq!(hidden, vec![make_card(3, 1), make_card(3, 2), make_card(3, 3)]);
    let again = sample_world(&known, 4);
    assert_eq!(again.hash, world.hash);
}

#[test]
fn hop_votes_add_up() {
    assert_eq!(world_seed(5, 3), 0xdaa6_6d2c_7ddf_743a);
    assert_eq!(world_seed(5, 0), 5);
    let known = near_solved_known_state();
    let t = hop_tally(&known, 6, 50_000, 7);
    assert_eq!(t.worlds_run, 6);
    assert_eq!(t.worlds_solved + t.unsolved_count, 6);
    let total: u32 = t.vote_counts.iter().map(|(_, c)| c).sum();
    assert_eq!(total, t.worlds_solved);
    for w in t.vote_counts.windows(2) {
        assert!(w[0].1 >= w[1].1);
    }
    let none = hop_tally(&known, 0, 50_000, 7);
    assert_eq!(none.worlds_run, 0);
    assert!(none.vote_counts.is_empty());
    assert_eq!(none.unsolved_progress_sum, 0);
}

fn all_cards_present(s: &State) -> bool {
    let mut seen = [0u32; 52];
    for col in &s.columns {
        for i in 0..col.len as usize {
            seen[col.cards[i] as usize] += 1;
        }
    }
    for i in 0..s.stock_len as usize {
        seen[s.stock[i] as usize] += 1;
    }
    for suit in 0..4usize {
        for r in 0..s.foundations[suit] {
            seen[make_card(suit, r) as usize] += 1;
        }
    }
    seen.iter().all(|&n| n == 1)
}

fn face_up_runs(s: &State) -> bool {
    s.columns.iter().all(|col| {
        (col.face_down as usize..(col.len as usize).saturating_sub(1)).all(|i| {
            let a = col.cards[i];
            let b = col.cards[i + 1];
            rank_value(a) == rank_value(b) + 1 && is_red(a) != is_red(b)
        })
    })
}

#[test]
fn legal_play_keeps_cards_and_runs() {
    for seed in 0..10u64 {
        let mut state = random_deal(seed);
        assert!(all_cards_present(&state));
        let mut rng = seed.wrapping_mul(6364136223846793005).wrapping_add(1442695040888963407);
        for _ in 0..300 {
            let mut moves = MoveList::new();
            gen_moves(&state, &mut moves);
            if moves.len == 0 {
                break;
            }
            rng ^= rng << 13;
            rng ^= rng >> 7;
            rng ^= rng << 17;
            let mv = moves.as_slice()[(rng as usize) % moves.len];
            make_move(&mut state, mv);
            assert!(all_cards_present(&state), "seed={seed} {mv:?}");
            assert!(face_up_runs(&state), "seed={seed} {mv:?}");
        }
    }
}

#[test]
fn larger_budget_changes_nothing_once_within_budget() {
    let start = trivial_state();
    let a = solve(start, 100_000);
    assert!(!a.budget_reached);
    let b = solve(start, 1_000_000);
    assert_eq!(a.solved, b.solved);
    assert_eq!(a.moves, b.moves);
    assert_eq!(a.nodes_explored, b.nodes_explored);
    assert_eq!(a.best_foundation_count, b.best_foundation_count);
    assert!(a.moves.len() as u64 <= a.nodes_explored);
    for seed in 0..4u64 {
        let x = solve(random_deal(seed), 20_000);
        if !x.budget_reached {
            let y = solve(random_deal(seed), 40_000);
            assert_eq!(x.solved, y.solved);
            assert_eq!(x.moves, y.moves);
            assert_eq!(x.nodes_explored, y.nodes_explored);
        }
    }
}

#[test]
fn exhausted_search_on_a_blocked_position() {
    // The Two of hearts sits on its Ace, and nothing can move.
    let mut cols: [Vec<Card>; 7] = std::array::from_fn(|_| Vec::new());
    cols[0] = vec![make_card(0, 0), make_card(0, 1)];
    let mut state = State::deal(&cols, &[0u8; 7], &[]);
    state.set_foundation(1, 13);
    state.set_foundation(2, 13);
    state.set_foundation(3, 13);
    let mut moves = MoveList::new();
    gen_moves(&state, &mut moves);
    assert_eq!(moves.len, 0);
    let out = solve(state, 1000);
    assert!(!out.solved);
    assert!(!out.budget_reached);
    assert!(out.moves.is_empty());
    assert_eq!(out.best_foundation_count, 39);
}
