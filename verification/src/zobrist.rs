//! Zobrist hashing keys.
//!
//! Every elementary fact that can hold of a game state (a card at a given
//! position of a given column, a column with N face-down cards, a foundation
//! at a given level, a card at a given position of the stock, a stock
//! pointer) gets a random `u64`, fixed once and for all. The hash of a state
//! is the XOR of the keys of all the facts that currently hold.
//!
//! XOR is its own inverse, so adding or removing a fact is a single
//! `hash ^= key`, in both directions: the solver keeps the hash up to date
//! move by move without ever rehashing the whole state.
//!
//! The keys are the successive outputs of a splitmix64 generator started
//! from a fixed seed, in table order (column cards, column face-down counts,
//! foundations, stock positions, stock pointers). The n-th output of
//! splitmix64 only depends on `seed + (n + 1) * GAMMA`, so a key can be
//! computed directly from its position in that order.
use vstd::prelude::*;
use vstd::arithmetic::div_mod::{lemma_add_mod_noop, lemma_add_mod_noop_right, lemma_mul_mod_noop_left, lemma_small_mod};

verus! {

pub const NUM_COLUMNS: usize = 7;

/// Physical capacity of a column.
pub const MAX_COL_LEN: usize = 24;

/// Maximum number of cards that go through the stock and waste (52 - 28).
pub const MAX_STOCK: usize = 24;

/// Seed of the key generator.
pub const ZOBRIST_SEED: u64 = 0xC0FF_EED1_5EA5_E511;

/// Increment of the splitmix64 generator.
pub const GAMMA: u64 = 0x9E37_79B9_7F4A_7C15;

/// Offset of the face-down-count keys (7 x 24 of them).
pub const FACEDOWN_BASE: u64 = 8736;

/// Offset of the foundation keys (4 x 14 of them).
pub const FOUNDATION_BASE: u64 = 8904;

/// Offset of the stock-position keys (24 x 52 of them).
pub const STOCK_POS_BASE: u64 = 8960;

/// Offset of the stock-pointer keys (25 of them).
pub const STOCK_PTR_BASE: u64 = 10208;

/// Total number of keys.
pub const NUM_KEYS: u64 = 10233;

pub open spec fn wmul(x: u64, y: u64) -> u64 {
    vstd::wrapping::u64_specs::wrapping_mul(x, y)
}

pub open spec fn wadd(x: u64, y: u64) -> u64 {
    vstd::wrapping::u64_specs::wrapping_add(x, y)
}

/// The output function of splitmix64, applied to a generator state.
#[verifier::opaque]
pub open spec fn mix_spec(s: u64) -> u64 {
    let z1 = wmul(s ^ (s >> 30u64), 0xBF58_476D_1CE4_E5B9u64);
    let z2 = wmul(z1 ^ (z1 >> 27u64), 0x94D0_49BB_1331_11EBu64);
    z2 ^ (z2 >> 31u64)
}

/// Generator state after `n` steps from `seed`.
pub open spec fn gen_state(seed: u64, n: nat) -> u64 {
    wadd(seed, wmul(n as u64, GAMMA))
}

/// The key at position `n` of the table order: the `n`-th output (from 0) of
/// splitmix64 started at `ZOBRIST_SEED`.
pub open spec fn zkey(n: int) -> u64 {
    seeded_key(ZOBRIST_SEED, n)
}

/// The `n`-th output (from 0) of splitmix64 started at `seed`.
#[verifier::opaque]
pub open spec fn seeded_key(seed: u64, n: int) -> u64 {
    mix_spec(gen_state(seed, (n + 1) as nat))
}

/// Key of "card `card` at position `idx` of column `col`".
pub open spec fn key_col_card(col: int, idx: int, card: int) -> u64 {
    zkey((col * 24 + idx) * 52 + card)
}

/// Key of "column `col` has `fd` face-down cards".
pub open spec fn key_col_facedown(col: int, fd: int) -> u64 {
    zkey(FACEDOWN_BASE + col * 24 + fd)
}

/// Key of "foundation `suit` is at level `level`".
pub open spec fn key_foundation(suit: int, level: int) -> u64 {
    zkey(FOUNDATION_BASE + suit * 14 + level)
}

/// Key of "card `card` at position `pos` of the stock".
pub open spec fn key_stock_pos(pos: int, card: int) -> u64 {
    zkey(STOCK_POS_BASE + pos * 52 + card)
}

/// Key of "the stock pointer is at `p`".
pub open spec fn key_stock_pointer(p: int) -> u64 {
    zkey(STOCK_PTR_BASE + p)
}

// ---- XOR algebra ----
pub proof fn lemma_xor_assoc(a: u64, b: u64, c: u64)
    ensures
        (a ^ b) ^ c == a ^ (b ^ c),
{
    assert((a ^ b) ^ c == a ^ (b ^ c)) by (bit_vector);
}

pub proof fn lemma_xor_self(a: u64, b: u64)
    ensures
        (a ^ b) ^ b == a,
        (b ^ a) ^ b == a,
        a ^ 0 == a,
        0 ^ a == a,
        a ^ a == 0,
{
    assert((a ^ b) ^ b == a) by (bit_vector);
    assert((b ^ a) ^ b == a) by (bit_vector);
    assert(a ^ 0 == a) by (bit_vector);
    assert(0 ^ a == a) by (bit_vector);
    assert(a ^ a == 0) by (bit_vector);
}

// ---- generator arithmetic ----
proof fn lemma_wadd_mod(x: u64, y: u64)
    ensures
        wadd(x, y) as int == (x + y) % 0x1_0000_0000_0000_0000,
{
    let m: int = 0x1_0000_0000_0000_0000;
    if x + y > u64::MAX {
        lemma_small_mod((x + y - m) as nat, m as nat);
        assert((x + y - m) % m == (x + y) % m) by {
            vstd::arithmetic::div_mod::lemma_mod_sub_multiples_vanish(x + y, m);
        }
    } else {
        lemma_small_mod((x + y) as nat, m as nat);
    }
}

/// One step of the generator moves it from state `n` to state `n + 1`.
proof fn lemma_gen_state_step(seed: u64, n: nat)
    requires
        n + 1 <= u64::MAX,
    ensures
        wadd(gen_state(seed, n), GAMMA) == gen_state(seed, n + 1),
{
    let m: int = 0x1_0000_0000_0000_0000;
    let a = wmul(n as u64, GAMMA);
    let b = wmul((n + 1) as u64, GAMMA);
    assert(a as int == (n * GAMMA) % m);
    assert(b as int == ((n + 1) * GAMMA) % m);
    lemma_wadd_mod(seed, a);
    lemma_wadd_mod(seed, b);
    lemma_wadd_mod(gen_state(seed, n), GAMMA);
    // (((seed + nG % m) % m) + G) % m == (seed + (n+1)G) % m
    lemma_add_mod_noop_right(seed as int, n * GAMMA, m);
    lemma_add_mod_noop(seed + n * GAMMA, GAMMA as int, m);
    lemma_small_mod(GAMMA as nat, m as nat);
    lemma_mod_mod_small(seed + n * GAMMA, m);
    assert(((seed + n * GAMMA) % m + GAMMA) % m == (seed + n * GAMMA + GAMMA) % m);
    assert(seed + n * GAMMA + GAMMA == seed + (n + 1) * GAMMA) by (nonlinear_arith);
    lemma_add_mod_noop_right(seed as int, (n + 1) * GAMMA, m);
}

proof fn lemma_mod_mod_small(x: int, m: int)
    requires
        m > 0,
    ensures
        (x % m) % m == x % m,
{
    vstd::arithmetic::div_mod::lemma_mod_twice(x, m);
}

// ---- executable key computation ----
/// One step of splitmix64: advance the state and return the mixed output.
fn splitmix64(state: &mut u64) -> (out: u64)
    ensures
        *final(state) == wadd(*old(state), GAMMA),
        out == mix_spec(*final(state)),
{
    *state = state.wrapping_add(GAMMA);
    mix(*state)
}

fn mix(s: u64) -> (out: u64)
    ensures
        out == mix_spec(s),
{
    proof {
        reveal(mix_spec);
    }
    let mut z = s;
    z = (z ^ (z >> 30)).wrapping_mul(0xBF58_476D_1CE4_E5B9);
    z = (z ^ (z >> 27)).wrapping_mul(0x94D0_49BB_1331_11EB);
    z ^ (z >> 31)
}

/// The key at position `n` of the table order.
pub fn zobrist_key(n: u64) -> (k: u64)
    requires
        n < NUM_KEYS,
    ensures
        k == zkey(n as int),
{
    let s = ZOBRIST_SEED.wrapping_add(((n + 1) as u64).wrapping_mul(GAMMA));
    proof {
        reveal(seeded_key);
    }
    mix(s)
}

pub fn col_card_key(col: usize, idx: usize, card: u8) -> (k: u64)
    requires
        col < NUM_COLUMNS,
        idx < MAX_COL_LEN,
        card < 52,
    ensures
        k == key_col_card(col as int, idx as int, card as int),
{
    zobrist_key(((col as u64) * 24 + (idx as u64)) * 52 + (card as u64))
}

pub fn col_facedown_key(col: usize, fd: usize) -> (k: u64)
    requires
        col < NUM_COLUMNS,
        fd < MAX_COL_LEN,
    ensures
        k == key_col_facedown(col as int, fd as int),
{
    zobrist_key(FACEDOWN_BASE + (col as u64) * 24 + (fd as u64))
}

pub fn foundation_key(suit: usize, level: u8) -> (k: u64)
    requires
        suit < 4,
        level < 14,
    ensures
        k == key_foundation(suit as int, level as int),
{
    zobrist_key(FOUNDATION_BASE + (suit as u64) * 14 + (level as u64))
}

pub fn stock_pos_key(pos: usize, card: u8) -> (k: u64)
    requires
        pos < MAX_STOCK,
        card < 52,
    ensures
        k == key_stock_pos(pos as int, card as int),
{
    zobrist_key(STOCK_POS_BASE + (pos as u64) * 52 + (card as u64))
}

pub fn stock_pointer_key(p: u8) -> (k: u64)
    requires
        p <= MAX_STOCK,
    ensures
        k == key_stock_pointer(p as int),
{
    zobrist_key(STOCK_PTR_BASE + (p as u64))
}


/// Fills `out` with the next `out.len()` outputs of the generator whose state
/// is `*s`, that is, the outputs `n ..` of the generator started at `seed`.
fn fill_keys(out: &mut [u64], s: &mut u64, Ghost(seed): Ghost<u64>, Ghost(n): Ghost<nat>)
    requires
        *old(s) == gen_state(seed, n),
        n + old(out)@.len() + 1 <= u64::MAX,
    ensures
        final(out)@.len() == old(out)@.len(),
        *final(s) == gen_state(seed, (n + old(out)@.len()) as nat),
        forall|k: int| 0 <= k < old(out)@.len() ==> #[trigger] final(out)@[k] == seeded_key(seed, n + k),
{
    let len = out.len();
    let mut k: usize = 0;
    while k < len
        invariant
            k <= len,
            len == out@.len(),
            n + len + 1 <= u64::MAX,
            *s == gen_state(seed, (n + k) as nat),
            forall|j: int| 0 <= j < k ==> #[trigger] out@[j] == seeded_key(seed, n + j),
        decreases len - k,
    {
        proof {
            lemma_gen_state_step(seed, (n + k) as nat);
        }
        let v = splitmix64(s);
        proof {
            reveal(seeded_key);
        }
        out[k] = v;
        k += 1;
    }
}

/// The full key tables, laid out as in the table order.
pub struct Zobrist {
    pub col_card: [[[u64; 52]; MAX_COL_LEN]; NUM_COLUMNS],
    pub col_facedown: [[u64; MAX_COL_LEN]; NUM_COLUMNS],
    pub foundation: [[u64; 14]; 4],
    pub stock_pos: [[u64; 52]; MAX_STOCK],
    pub stock_pointer: [u64; 25],
}

impl Zobrist {

    /// Fills the tables with the generator started at `seed`, in table order.
    fn new(seed: u64) -> (z: Zobrist)
        ensures
            z.filled_from(seed),
    {
        let mut s = seed;
        let mut z = Zobrist {
            col_card: [[[0u64; 52]; 24]; 7],
            col_facedown: [[0u64; 24]; 7],
            foundation: [[0u64; 14]; 4],
            stock_pos: [[0u64; 52]; 24],
            stock_pointer: [0u64; 25],
        };
        let ghost mut n: nat = 0;
        let mut c: usize = 0;
        while c < NUM_COLUMNS
            invariant
                c <= 7,
                n == c * 24 * 52,
                s == gen_state(seed, n),
                forall|c2: int, i: int, k: int|
                    0 <= c2 < c && 0 <= i < 24 && 0 <= k < 52 ==> #[trigger] z.col_card@[c2]@[i]@[k]
                        == seeded_key(seed, (c2 * 24 + i) * 52 + k),
            decreases 7 - c,
        {
            let mut i: usize = 0;
            while i < MAX_COL_LEN
                invariant
                    c < 7,
                    i <= 24,
                    n == (c * 24 + i) * 52,
                    s == gen_state(seed, n),
                    forall|c2: int, i2: int, k: int|
                        (0 <= c2 < c && 0 <= i2 < 24 && 0 <= k < 52) || (c2 == c && 0 <= i2 < i && 0
                            <= k < 52) ==> #[trigger] z.col_card@[c2]@[i2]@[k] == seeded_key(
                            seed,
                            (c2 * 24 + i2) * 52 + k,
                        ),
                decreases 24 - i,
            {
                let mut row = [0u64; 52];
                fill_keys(&mut row, &mut s, Ghost(seed), Ghost(n));
                z.col_card[c][i] = row;
                proof {
                    n = n + 52;
                }
                i += 1;
            }
            c += 1;
        }
        let mut c: usize = 0;
        while c < NUM_COLUMNS
            invariant
                c <= 7,
                n == FACEDOWN_BASE + c * 24,
                s == gen_state(seed, n),
                z.col_card_filled(seed),
                forall|c2: int, i: int|
                    0 <= c2 < c && 0 <= i < 24 ==> #[trigger] z.col_facedown@[c2]@[i] == seeded_key(
                        seed,
                        FACEDOWN_BASE + c2 * 24 + i,
                    ),
            decreases 7 - c,
        {
            let mut row = [0u64; 24];
            fill_keys(&mut row, &mut s, Ghost(seed), Ghost(n));
            z.col_facedown[c] = row;
            proof {
                n = n + 24;
            }
            c += 1;
        }
        let mut suit: usize = 0;
        while suit < 4
            invariant
                suit <= 4,
                n == FOUNDATION_BASE + suit * 14,
                s == gen_state(seed, n),
                z.col_card_filled(seed),
                z.col_facedown_filled(seed),
                forall|s2: int, l: int|
                    0 <= s2 < suit && 0 <= l < 14 ==> #[trigger] z.foundation@[s2]@[l] == seeded_key(
                        seed,
                        FOUNDATION_BASE + s2 * 14 + l,
                    ),
            decreases 4 - suit,
        {
            let mut row = [0u64; 14];
            fill_keys(&mut row, &mut s, Ghost(seed), Ghost(n));
            z.foundation[suit] = row;
            proof {
                n = n + 14;
            }
            suit += 1;
        }
        let mut i: usize = 0;
        while i < MAX_STOCK
            invariant
                i <= 24,
                n == STOCK_POS_BASE + i * 52,
                s == gen_state(seed, n),
                z.col_card_filled(seed),
                z.col_facedown_filled(seed),
                z.foundation_filled(seed),
                forall|i2: int, k: int|
                    0 <= i2 < i && 0 <= k < 52 ==> #[trigger] z.stock_pos@[i2]@[k] == seeded_key(
                        seed,
                        STOCK_POS_BASE + i2 * 52 + k,
                    ),
            decreases 24 - i,
        {
            let mut row = [0u64; 52];
            fill_keys(&mut row, &mut s, Ghost(seed), Ghost(n));
            z.stock_pos[i] = row;
            proof {
                n = n + 52;
            }
            i += 1;
        }
        let mut row = [0u64; 25];
        fill_keys(&mut row, &mut s, Ghost(seed), Ghost(n));
        z.stock_pointer = row;
        z
    }

    pub open spec fn col_card_filled(&self, seed: u64) -> bool {
        forall|c: int, i: int, k: int|
            0 <= c < 7 && 0 <= i < 24 && 0 <= k < 52 ==> #[trigger] self.col_card@[c]@[i]@[k]
                == seeded_key(seed, (c * 24 + i) * 52 + k)
    }

    pub open spec fn col_facedown_filled(&self, seed: u64) -> bool {
        forall|c: int, i: int|
            0 <= c < 7 && 0 <= i < 24 ==> #[trigger] self.col_facedown@[c]@[i] == seeded_key(
                seed,
                FACEDOWN_BASE + c * 24 + i,
            )
    }

    pub open spec fn foundation_filled(&self, seed: u64) -> bool {
        forall|s: int, l: int|
            0 <= s < 4 && 0 <= l < 14 ==> #[trigger] self.foundation@[s]@[l] == seeded_key(
                seed,
                FOUNDATION_BASE + s * 14 + l,
            )
    }

    /// Every entry holds the output of the generator started at `seed` at
    /// the entry's position in the table order.
    pub open spec fn filled_from(&self, seed: u64) -> bool {
        &&& self.col_card_filled(seed)
        &&& self.col_facedown_filled(seed)
        &&& self.foundation_filled(seed)
        &&& forall|i: int, k: int|
            0 <= i < 24 && 0 <= k < 52 ==> #[trigger] self.stock_pos@[i]@[k] == seeded_key(
                seed,
                STOCK_POS_BASE + i * 52 + k,
            )
        &&& forall|i: int|
            0 <= i < 25 ==> #[trigger] self.stock_pointer@[i] == seeded_key(seed, STOCK_PTR_BASE + i)
    }

}

/// The key tables of the library's seed.
pub fn zobrist() -> (z: Zobrist)
    ensures
        z.filled_from(ZOBRIST_SEED),
{
    Zobrist::new(ZOBRIST_SEED)
}

} // verus!
