pub mod apply;
pub mod autoplay;
pub mod card;
pub mod dealer;
pub mod determinize;
pub mod moves;
pub mod rng;
pub mod solver;
pub mod state;
pub mod zobrist;

pub use apply::{make_move, unmake_move};
pub use determinize::{hop_tally, sample_world, solve_one_world, HopTally, KnownState, WorldOutcome};
pub use moves::{gen_moves, Move, MoveList};
pub use solver::{solve, SolveOutput};
pub use state::State;
