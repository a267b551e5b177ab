# solitaire_solver

A Klondike solitaire solver whose logic is verified with Verus.

- `src/card.rs`: one-byte card encoding (`suit * 13 + rank0`).
- `src/zobrist.rs`: the Zobrist keys, drawn from a splitmix64 generator.
- `src/state.rs`: the fully determined game state, its abstract view, and
  primitives that keep the incremental hash equal to the hash of the view.
- `src/moves.rs`: the rules (`legal`) and the move generator.
- `src/apply.rs`: `make_move` / `unmake_move` and their round-trip law.
- `src/rng.rs`, `src/dealer.rs`: xorshift64, Fisher-Yates, random deals.
- `src/solver.rs`: the depth-first search, specified by `search_node`, and
  the proof that an exhausted search leaves no winning line.
- `src/autoplay.rs`: the proof that playing a safe card to its foundation at
  once never loses a win.
- `src/determinize.rs`: sampling worlds consistent with what a player knows,
  and the HOP vote over sampled worlds.
- `app/`: the command-line front end, the WebAssembly/JSON binding, the
  thread with a large stack, and the float average of a HOP analysis.
