//! Small deterministic PRNG (xorshift64). No cryptographic claim: it only
//! shuffles buffers reproducibly from a seed (tests, benchmarks, and world
//! sampling).
use vstd::prelude::*;

verus! {

/// Trusted contract of std's `<[T]>::swap`: it exchanges the elements at
/// `a` and `b`, leaving the others in place; it panics when either index is
/// out of bounds, which `requires` rules out.
pub assume_specification<Elem>[ <[Elem]>::swap ](slice: &mut [Elem], a: usize, b: usize)
    requires
        a < old(slice)@.len(),
        b < old(slice)@.len(),
    ensures
        final(slice)@ == old(slice)@.update(a as int, old(slice)@[b as int]).update(
            b as int,
            old(slice)@[a as int],
        ),
;

/// Salt mixed into the seed.
pub const SEED_SALT: u64 = 0x9E37_79B9_7F4A_7C15;

/// Initial generator state for `seed` (never 0).
pub open spec fn initial_state(seed: u64) -> u64 {
    (seed ^ SEED_SALT) | 1
}

/// One xorshift64 step.
pub open spec fn xorshift_step(x: u64) -> u64 {
    let x1 = x ^ (x << 13u64);
    let x2 = x1 ^ (x1 >> 7u64);
    x2 ^ (x2 << 17u64)
}

pub struct Xorshift64(u64);

impl View for Xorshift64 {
    type V = u64;

    /// The generator's state.
    closed spec fn view(&self) -> u64 {
        self.0
    }
}

impl Xorshift64 {
    pub fn new(seed: u64) -> (r: Xorshift64)
        ensures
            r@ == initial_state(seed),
            r@ != 0,
    {
        let s = seed ^ SEED_SALT | 1;
        assert(s != 0) by (bit_vector)
            requires
                s == seed ^ SEED_SALT | 1,
        ;
        Xorshift64(s)
    }

    /// Advances the state by one xorshift step and returns the new state.
    pub fn next_u64(&mut self) -> (x: u64)
        ensures
            x == xorshift_step(old(self)@),
            final(self)@ == x,
    {
        let mut x = self.0;
        x ^= x << 13;
        x ^= x >> 7;
        x ^= x << 17;
        self.0 = x;
        x
    }
}

/// A xorshift step never reaches 0 from a non-zero state, so the generator
/// (which starts non-zero) never gets stuck at 0.
pub proof fn lemma_xorshift_nonzero(x: u64)
    requires
        x != 0,
    ensures
        xorshift_step(x) != 0,
{
    let x1 = x ^ (x << 13u64);
    let x2 = x1 ^ (x1 >> 7u64);
    assert(x1 != 0) by (bit_vector)
        requires
            x != 0,
            x1 == x ^ (x << 13u64),
    ;
    assert(x2 != 0) by (bit_vector)
        requires
            x1 != 0,
            x2 == x1 ^ (x1 >> 7u64),
    ;
    assert(x2 ^ (x2 << 17u64) != 0) by (bit_vector)
        requires
            x2 != 0,
    ;
}

/// `s` with its elements at `i` and `j` exchanged.
pub open spec fn seq_swap<T>(s: Seq<T>, i: int, j: int) -> Seq<T> {
    s.update(i, s[j]).update(j, s[i])
}

/// Fisher-Yates from position `i` down to 1, the generator in state `x`.
pub open spec fn fisher_yates<T>(s: Seq<T>, x: u64, i: int) -> Seq<T>
    decreases i,
{
    if i < 1 {
        s
    } else {
        let x2 = xorshift_step(x);
        let j = (x2 % ((i + 1) as u64)) as int;
        fisher_yates(seq_swap(s, i, j), x2, i - 1)
    }
}

/// The result of shuffling `s` with `seed`.
pub open spec fn shuffle_spec<T>(s: Seq<T>, seed: u64) -> Seq<T> {
    fisher_yates(s, initial_state(seed), s.len() - 1)
}

proof fn lemma_swap_multiset<T>(s: Seq<T>, i: int, j: int)
    requires
        0 <= i < s.len(),
        0 <= j < s.len(),
    ensures
        seq_swap(s, i, j).to_multiset() == s.to_multiset(),
        seq_swap(s, i, j).len() == s.len(),
{
    broadcast use vstd::seq_lib::to_multiset_update;
    broadcast use vstd::seq_lib::to_multiset_contains;
    broadcast use vstd::multiset::group_multiset_axioms;

    let m = s.to_multiset();
    let s1 = s.update(i, s[j]);
    assert(s1[j] == s[j]);
    assert(s.contains(s[i]));
    assert(m.count(s[i]) > 0);
    assert(s1.to_multiset() == m.insert(s[j]).remove(s[i]));
    assert(seq_swap(s, i, j).to_multiset() == s1.to_multiset().insert(s[i]).remove(s[j]));
    assert(m.insert(s[j]).remove(s[i]).insert(s[i]) =~= m.insert(s[j]));
    assert(m.insert(s[j]).remove(s[j]) =~= m);
}

/// Fisher-Yates shuffle in place, deterministic from `seed`.
pub fn shuffle<T>(slice: &mut [T], seed: u64)
    ensures
        final(slice)@ == shuffle_spec(old(slice)@, seed),
        final(slice)@.to_multiset() == old(slice)@.to_multiset(),
{
    let mut rng = Xorshift64::new(seed);
    let n = slice.len();
    if n == 0 {
        return;
    }
    let mut i = n - 1;
    while i > 0
        invariant
            1 <= n,
            i < n,
            n == slice@.len(),
            fisher_yates(slice@, rng@, i as int) == shuffle_spec(old(slice)@, seed),
            slice@.to_multiset() == old(slice)@.to_multiset(),
        decreases i,
    {
        let x = rng.next_u64();
        let j = (x % (i as u64 + 1)) as usize;
        proof {
            lemma_swap_multiset(slice@, i as int, j as int);
        }
        slice.swap(i, j);
        i -= 1;
    }
}

proof fn lemma_fisher_yates_permutes<T>(s: Seq<T>, x: u64, i: int)
    requires
        i < s.len() < u64::MAX,
    ensures
        fisher_yates(s, x, i).to_multiset() == s.to_multiset(),
        fisher_yates(s, x, i).len() == s.len(),
    decreases i,
{
    if i >= 1 {
        let x2 = xorshift_step(x);
        let j = (x2 % ((i + 1) as u64)) as int;
        assert(((i + 1) as u64) as int == i + 1);
        assert(0 <= j < i + 1);
        lemma_swap_multiset(s, i, j);
        lemma_fisher_yates_permutes(seq_swap(s, i, j), x2, i - 1);
    }
}

/// Shuffling rearranges the items: the same items, as many times each.
pub proof fn lemma_shuffle_permutes<T>(s: Seq<T>, seed: u64)
    requires
        s.len() < u64::MAX,
    ensures
        shuffle_spec(s, seed).to_multiset() == s.to_multiset(),
        shuffle_spec(s, seed).len() == s.len(),
{
    lemma_fisher_yates_permutes(s, initial_state(seed), s.len() - 1);
}

} // verus!
