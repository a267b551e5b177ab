//! Uncertainty layer: sampling of worlds and HOP/PIMC aggregation by vote.
use vstd::prelude::*;
use crate::apply::fits;
use crate::card::{Card, NUM_CARDS, is_card, rank_spec, rank_value};
use crate::moves::{Move, legal};
use crate::rng::{shuffle, shuffle_spec};
use crate::solver::{SearchResult, SolveOutput, search_node, solve, start_ctx, winning_line};
use crate::state::{ColumnView, State, StateView};
use crate::zobrist::{MAX_COL_LEN, MAX_STOCK, NUM_COLUMNS};

verus! {

/// What the player knows of a game.
pub struct KnownState {
    pub column_visible: [Vec<Card>; NUM_COLUMNS],
    pub column_facedown_count: [u8; NUM_COLUMNS],
    pub foundations: [u8; 4],
    pub waste_known: Vec<Card>,
    /// Cards of the stock not drawn yet during this pass but already seen
    /// during an earlier one (after a recycle): their identity and drawing
    /// order are known, nothing to sample.
    pub stock_known: Vec<Card>,
    /// Cards of the stock never seen (only possible before the end of the
    /// first pass): these, and only these, are drawn from `unknown_pool`
    /// together with the face-down cards of the columns.
    pub undrawn_unknown_count: u8,
    pub unknown_pool: Vec<Card>,
}

/// Number of face-down cards in the columns `0..c`.
pub open spec fn facedown_before(fd: Seq<u8>, c: int) -> int
    decreases c,
{
    if c <= 0 {
        0
    } else {
        facedown_before(fd, c - 1) + fd[c - 1]
    }
}

impl KnownState {
    /// Number of places whose card is unknown.
    pub open spec fn unknown_slots(&self) -> int {
        facedown_before(self.column_facedown_count@, NUM_COLUMNS as int) + self.undrawn_unknown_count
    }

    /// The known state describes a world that fits the state's buffers.
    pub open spec fn consistent(&self) -> bool {
        &&& self.unknown_slots() == self.unknown_pool@.len()
        &&& forall|c: int|
            0 <= c < NUM_COLUMNS ==> {
                &&& #[trigger] self.column_facedown_count@[c] + self.column_visible@[c]@.len()
                    <= MAX_COL_LEN
                &&& self.column_facedown_count@[c] < MAX_COL_LEN
                &&& forall|j: int|
                    0 <= j < self.column_visible@[c]@.len() ==> is_card(
                        #[trigger] self.column_visible@[c]@[j],
                    )
            }
        &&& forall|s: int| 0 <= s < 4 ==> #[trigger] self.foundations@[s] <= 13
        &&& self.waste_known@.len() + self.stock_known@.len() + self.undrawn_unknown_count
            <= MAX_STOCK
        &&& forall|j: int| 0 <= j < self.waste_known@.len() ==> is_card(#[trigger] self.waste_known@[j])
        &&& forall|j: int| 0 <= j < self.stock_known@.len() ==> is_card(#[trigger] self.stock_known@[j])
        &&& forall|j: int| 0 <= j < self.unknown_pool@.len() ==> is_card(#[trigger] self.unknown_pool@[j])
    }

    /// Room in the columns whatever cards fill the face-down places: at most
    /// 12 face-down cards per column, and the visible cards fit (see `fits`).
    pub open spec fn roomy(&self) -> bool {
        forall|c: int|
            0 <= c < NUM_COLUMNS ==> {
                &&& #[trigger] self.column_facedown_count@[c] <= 12
                &&& forall|j: int|
                    0 <= j < self.column_visible@[c]@.len() ==> self.column_facedown_count@[c] + j
                        + rank_spec(#[trigger] self.column_visible@[c]@[j]) <= MAX_COL_LEN
            }
    }

    /// Column `c` fits its buffer and holds only cards.
    pub open spec fn column_consistent(&self, c: int) -> bool {
        &&& self.column_facedown_count@[c] + self.column_visible@[c]@.len() <= MAX_COL_LEN
        &&& self.column_facedown_count@[c] < MAX_COL_LEN
        &&& forall|j: int|
            0 <= j < self.column_visible@[c]@.len() ==> is_card(#[trigger] self.column_visible@[c]@[j])
    }

    /// Column `c` has room whatever cards fill its face-down places.
    pub open spec fn column_roomy(&self, c: int) -> bool {
        &&& self.column_facedown_count@[c] <= 12
        &&& forall|j: int|
            0 <= j < self.column_visible@[c]@.len() ==> self.column_facedown_count@[c] + j + rank_spec(
                #[trigger] self.column_visible@[c]@[j],
            ) <= MAX_COL_LEN
    }

    /// Tells whether `consistent` holds.
    pub fn is_consistent(&self) -> (b: bool)
        ensures
            b == self.consistent(),
    {
        let mut c: usize = 0;
        while c < NUM_COLUMNS
            invariant
                c <= NUM_COLUMNS,
                forall|c2: int| 0 <= c2 < c ==> #[trigger] self.column_consistent(c2),
            decreases NUM_COLUMNS - c,
        {
            let fd = self.column_facedown_count[c] as usize;
            let visible = self.column_visible[c].len();
            if fd >= MAX_COL_LEN || visible > MAX_COL_LEN - fd || !cards_valid(
                self.column_visible[c].as_slice(),
            ) {
                proof {
                    assert(!self.column_consistent(c as int));
                }
                return false;
            }
            c += 1;
        }
        assert(forall|c2: int|
            0 <= c2 < NUM_COLUMNS ==> {
                &&& #[trigger] self.column_facedown_count@[c2] + self.column_visible@[c2]@.len()
                    <= MAX_COL_LEN
                &&& self.column_facedown_count@[c2] < MAX_COL_LEN
                &&& forall|j: int|
                    0 <= j < self.column_visible@[c2]@.len() ==> is_card(
                        #[trigger] self.column_visible@[c2]@[j],
                    )
            }) by {
            assert forall|c2: int| 0 <= c2 < NUM_COLUMNS implies {
                &&& #[trigger] self.column_facedown_count@[c2] + self.column_visible@[c2]@.len()
                    <= MAX_COL_LEN
                &&& self.column_facedown_count@[c2] < MAX_COL_LEN
                &&& forall|j: int|
                    0 <= j < self.column_visible@[c2]@.len() ==> is_card(
                        #[trigger] self.column_visible@[c2]@[j],
                    )
            } by {
                assert(self.column_consistent(c2));
            }
        }
        let mut s: usize = 0;
        while s < 4
            invariant
                s <= 4,
                forall|s2: int| 0 <= s2 < s ==> #[trigger] self.foundations@[s2] <= 13,
            decreases 4 - s,
        {
            if self.foundations[s] > 13 {
                return false;
            }
            s += 1;
        }
        let waste = self.waste_known.len();
        let known = self.stock_known.len();
        if waste > MAX_STOCK || known > MAX_STOCK || waste + known + self.undrawn_unknown_count as usize
            > MAX_STOCK {
            return false;
        }
        if !cards_valid(self.waste_known.as_slice()) || !cards_valid(self.stock_known.as_slice())
            || !cards_valid(self.unknown_pool.as_slice()) {
            return false;
        }
        self.total_unknown_slots() == self.unknown_pool.len()
    }

    /// Tells whether `roomy` holds.
    pub fn is_roomy(&self) -> (b: bool)
        ensures
            b == self.roomy(),
    {
        let mut c: usize = 0;
        while c < NUM_COLUMNS
            invariant
                c <= NUM_COLUMNS,
                forall|c2: int| 0 <= c2 < c ==> #[trigger] self.column_roomy(c2),
            decreases NUM_COLUMNS - c,
        {
            let fd = self.column_facedown_count[c] as usize;
            if fd > 12 {
                return false;
            }
            let visible = &self.column_visible[c];
            let mut j: usize = 0;
            while j < visible.len()
                invariant
                    c < NUM_COLUMNS,
                    fd == self.column_facedown_count@[c as int],
                    fd <= 12,
                    *visible == self.column_visible@[c as int],
                    j <= visible@.len(),
                    forall|k: int|
                        0 <= k < j ==> fd + k + rank_spec(#[trigger] visible@[k]) <= MAX_COL_LEN,
                decreases visible.len() - j,
            {
                if j > MAX_COL_LEN || fd + j + rank_value(visible[j]) as usize > MAX_COL_LEN {
                    return false;
                }
                j += 1;
            }
            c += 1;
        }
        assert forall|c2: int| 0 <= c2 < NUM_COLUMNS implies {
            &&& #[trigger] self.column_facedown_count@[c2] <= 12
            &&& forall|j: int|
                0 <= j < self.column_visible@[c2]@.len() ==> self.column_facedown_count@[c2] + j
                    + rank_spec(#[trigger] self.column_visible@[c2]@[j]) <= MAX_COL_LEN
        } by {
            assert(self.column_roomy(c2));
        }
        true
    }

    fn total_unknown_slots(&self) -> (n: usize)
        requires
            forall|c: int| 0 <= c < NUM_COLUMNS ==> #[trigger] self.column_facedown_count@[c] < MAX_COL_LEN,
        ensures
            n == self.unknown_slots(),
    {
        let mut n: usize = 0;
        let mut c: usize = 0;
        while c < NUM_COLUMNS
            invariant
                c <= NUM_COLUMNS,
                forall|c2: int| 0 <= c2 < NUM_COLUMNS ==> #[trigger] self.column_facedown_count@[c2] < MAX_COL_LEN,
                n == facedown_before(self.column_facedown_count@, c as int),
                n <= c * MAX_COL_LEN,
            decreases NUM_COLUMNS - c,
        {
            n = n + self.column_facedown_count[c] as usize;
            c += 1;
        }
        n + self.undrawn_unknown_count as usize
    }
}

/// Tells whether every entry of `cards` is one of the 52 cards.
fn cards_valid(cards: &[Card]) -> (b: bool)
    ensures
        b == (forall|j: int| 0 <= j < cards@.len() ==> is_card(#[trigger] cards@[j])),
{
    let mut j: usize = 0;
    while j < cards.len()
        invariant
            j <= cards@.len(),
            forall|k: int| 0 <= k < j ==> is_card(#[trigger] cards@[k]),
        decreases cards.len() - j,
    {
        if cards[j] as usize >= NUM_CARDS {
            return false;
        }
        j += 1;
    }
    true
}

/// The world sampled from `known` with the unknown cards in the order
/// `pool`: column `c` gets its face-down cards from `pool` in turn, then its
/// visible cards; the stock is the waste, then the known undrawn cards, then
/// the unknown undrawn ones; the waste is drawn again.
pub open spec fn world_from(known: KnownState, pool: Seq<u8>) -> StateView {
    let fd = known.column_facedown_count@;
    let total = facedown_before(fd, NUM_COLUMNS as int);
    StateView {
        columns: Seq::new(
            NUM_COLUMNS as nat,
            |c: int|
                ColumnView {
                    cards: pool.subrange(facedown_before(fd, c), facedown_before(fd, c) + fd[c])
                        + known.column_visible@[c]@,
                    face_down: fd[c] as nat,
                },
        ),
        foundations: known.foundations@,
        stock: known.waste_known@ + known.stock_known@ + pool.subrange(
            total,
            total + known.undrawn_unknown_count,
        ),
        stock_pointer: known.waste_known@.len(),
    }
}

/// The world sampled from `known` with `seed`.
pub open spec fn sampled_world(known: KnownState, seed: u64) -> StateView {
    world_from(known, shuffle_spec(known.unknown_pool@, seed))
}

/// The face-down cards of columns `0..n`, column after column, each from
/// the bottom up.
pub open spec fn facedown_cards_upto(v: StateView, n: int) -> Seq<u8>
    decreases n,
{
    if n <= 0 {
        Seq::empty()
    } else {
        facedown_cards_upto(v, n - 1) + v.columns[n - 1].cards.take(v.columns[n - 1].face_down as int)
    }
}

/// `known` is what a player sees of the position `v`: the face-down counts,
/// the face-up cards, the foundations, the waste (all of the stock below the
/// pointer), the known undrawn cards just above it and, for the rest of the
/// stock, only how many; the pool holds exactly the cards that are hidden.
pub open spec fn describes(known: KnownState, v: StateView) -> bool {
    let p = v.stock_pointer as int;
    let k = known.stock_known@.len() as int;
    &&& v.columns.len() == NUM_COLUMNS
    &&& forall|c: int|
        0 <= c < NUM_COLUMNS ==> {
            &&& known.column_facedown_count@[c] == (#[trigger] v.columns[c]).face_down
            &&& known.column_visible@[c]@ == v.columns[c].cards.skip(v.columns[c].face_down as int)
        }
    &&& known.foundations@ == v.foundations
    &&& known.waste_known@.len() == p
    &&& known.waste_known@ == v.stock.take(p)
    &&& known.stock_known@ == v.stock.subrange(p, p + k)
    &&& p + k + known.undrawn_unknown_count == v.stock.len()
    &&& known.unknown_pool@.to_multiset() == (facedown_cards_upto(v, NUM_COLUMNS as int)
        + v.stock.skip(p + k)).to_multiset()
}

/// The hidden cards of a world sampled with the pool order `sh` are `sh`'s
/// first cards, in order.
proof fn lemma_world_facedown_cards(known: KnownState, sh: Seq<u8>, n: int)
    requires
        0 <= n <= NUM_COLUMNS,
        sh.len() >= facedown_before(known.column_facedown_count@, NUM_COLUMNS as int),
    ensures
        facedown_cards_upto(world_from(known, sh), n) == sh.subrange(
            0,
            facedown_before(known.column_facedown_count@, n),
        ),
    decreases n,
{
    let fd = known.column_facedown_count@;
    let w = world_from(known, sh);
    if n > 0 {
        lemma_world_facedown_cards(known, sh, n - 1);
        lemma_facedown_before_mono(fd, n, NUM_COLUMNS as int);
        lemma_facedown_before_mono(fd, n - 1, n);
        let lo = facedown_before(fd, n - 1);
        let part = sh.subrange(lo, lo + fd[n - 1]);
        assert(w.columns[n - 1].cards == part + known.column_visible@[n - 1]@);
        assert(w.columns[n - 1].cards.take(fd[n - 1] as int) =~= part);
        assert(sh.subrange(0, lo) + part =~= sh.subrange(0, facedown_before(fd, n)));
    }
}

/// The face-down cards of a position are cards, and there are as many as
/// the face-down counts say.
proof fn lemma_facedown_cards_shape(v: StateView, n: int)
    requires
        v.shape_ok(),
        0 <= n <= NUM_COLUMNS,
    ensures
        facedown_cards_upto(v, n).len() == facedown_before(
            Seq::new(NUM_COLUMNS as nat, |c: int| v.columns[c].face_down as u8),
            n,
        ),
        forall|j: int|
            0 <= j < facedown_cards_upto(v, n).len() ==> is_card(
                #[trigger] facedown_cards_upto(v, n)[j],
            ),
    decreases n,
{
    if n > 0 {
        lemma_facedown_cards_shape(v, n - 1);
        let col = v.columns[n - 1];
        assert(col.shape_ok());
        let prev = facedown_cards_upto(v, n - 1);
        let part = col.cards.take(col.face_down as int);
        assert forall|j: int| 0 <= j < facedown_cards_upto(v, n).len() implies is_card(
            #[trigger] facedown_cards_upto(v, n)[j],
        ) by {
            if j < prev.len() {
                assert(facedown_cards_upto(v, n)[j] == prev[j]);
            } else {
                assert(facedown_cards_upto(v, n)[j] == col.cards[j - prev.len()]);
            }
        }
    }
}

/// A sampled world agrees with everything the player knows: the columns
/// show the known face-up cards over as many face-down cards as known, the
/// foundations are the known ones, the waste is exactly the known waste
/// (so its top card is the known waste's last card), then come the known
/// undrawn cards, and the hidden places hold exactly the cards of the pool.
pub proof fn lemma_sampled_world_describes(known: KnownState, seed: u64)
    requires
        known.consistent(),
    ensures
        describes(known, sampled_world(known, seed)),
        sampled_world(known, seed).shape_ok(),
        sampled_world(known, seed).foundations == known.foundations@,
        sampled_world(known, seed).stock_pointer == known.waste_known@.len(),
        known.waste_known@.len() > 0 ==> sampled_world(known, seed).waste_top()
            == known.waste_known@.last(),
{
    let fd = known.column_facedown_count@;
    let total = facedown_before(fd, NUM_COLUMNS as int);
    let pool = known.unknown_pool@;
    let sh = shuffle_spec(pool, seed);
    let w = sampled_world(known, seed);
    lemma_facedown_before_mono(fd, 0, NUM_COLUMNS as int);
    lemma_facedown_before_bounded(known, NUM_COLUMNS as int);
    assert(pool.len() < u64::MAX);
    crate::rng::lemma_shuffle_permutes(pool, seed);
    lemma_shuffled_cards(sh, pool);
    lemma_world_facedown_cards(known, sh, NUM_COLUMNS as int);
    let p = known.waste_known@.len() as int;
    let k = known.stock_known@.len() as int;
    assert(w.stock.take(p) =~= known.waste_known@);
    assert(w.stock.subrange(p, p + k) =~= known.stock_known@);
    assert(w.stock.skip(p + k) =~= sh.subrange(total, total + known.undrawn_unknown_count));
    assert(sh.subrange(0, total) + sh.subrange(total, total + known.undrawn_unknown_count) =~= sh);
    assert forall|c: int| 0 <= c < NUM_COLUMNS implies {
        &&& known.column_facedown_count@[c] == (#[trigger] w.columns[c]).face_down
        &&& known.column_visible@[c]@ == w.columns[c].cards.skip(w.columns[c].face_down as int)
        &&& w.columns[c].shape_ok()
    } by {
        lemma_facedown_before_mono(fd, c + 1, NUM_COLUMNS as int);
        lemma_facedown_before_mono(fd, c, c + 1);
        let lo = facedown_before(fd, c);
        let part = sh.subrange(lo, lo + fd[c]);
        let vis = known.column_visible@[c]@;
        assert(w.columns[c].cards == part + vis);
        assert(w.columns[c].cards.skip(fd[c] as int) =~= vis);
        assert forall|i: int| 0 <= i < w.columns[c].cards.len() implies is_card(
            #[trigger] w.columns[c].cards[i],
        ) by {
            if i < fd[c] {
                assert(w.columns[c].cards[i] == sh[lo + i]);
            } else {
                assert(w.columns[c].cards[i] == vis[i - fd[c]]);
            }
        }
    }
    assert forall|i: int| 0 <= i < w.stock.len() implies is_card(#[trigger] w.stock[i]) by {
        if i < p {
            assert(w.stock[i] == known.waste_known@[i]);
        } else if i < p + k {
            assert(w.stock[i] == known.stock_known@[i - p]);
        } else {
            assert(w.stock[i] == sh[total + (i - p - k)]);
        }
    }
}

/// A known state that describes a position is consistent: whatever the
/// player can see of a position passes the checks, a full 24-card stock
/// included.
pub proof fn lemma_description_is_consistent(known: KnownState, v: StateView)
    requires
        v.shape_ok(),
        describes(known, v),
    ensures
        known.consistent(),
{
    let fd = known.column_facedown_count@;
    let p = v.stock_pointer as int;
    let k = known.stock_known@.len() as int;
    let hidden = facedown_cards_upto(v, NUM_COLUMNS as int) + v.stock.skip(p + k);
    lemma_facedown_cards_shape(v, NUM_COLUMNS as int);
    assert(fd =~= Seq::new(NUM_COLUMNS as nat, |c: int| v.columns[c].face_down as u8)) by {
        assert forall|c: int| 0 <= c < NUM_COLUMNS implies fd[c] == v.columns[c].face_down by {
            assert(v.columns[c].face_down == known.column_facedown_count@[c]);
        }
    }
    let fc = facedown_cards_upto(v, NUM_COLUMNS as int);
    assert forall|j: int| 0 <= j < hidden.len() implies is_card(#[trigger] hidden[j]) by {
        if j < fc.len() {
            assert(hidden[j] == fc[j]);
        } else {
            assert(hidden[j] == v.stock[p + k + (j - fc.len())]);
        }
    }
    lemma_shuffled_cards(known.unknown_pool@, hidden);
    assert forall|c: int| 0 <= c < NUM_COLUMNS implies {
        &&& #[trigger] known.column_facedown_count@[c] + known.column_visible@[c]@.len()
            <= MAX_COL_LEN
        &&& known.column_facedown_count@[c] < MAX_COL_LEN
        &&& forall|j: int|
            0 <= j < known.column_visible@[c]@.len() ==> is_card(
                #[trigger] known.column_visible@[c]@[j],
            )
    } by {
        let col = v.columns[c];
        assert(col.shape_ok());
        assert(known.column_visible@[c]@ == col.cards.skip(col.face_down as int));
        assert forall|j: int| 0 <= j < known.column_visible@[c]@.len() implies is_card(
            #[trigger] known.column_visible@[c]@[j],
        ) by {
            assert(known.column_visible@[c]@[j] == col.cards[col.face_down + j]);
        }
    }
    assert forall|s: int| 0 <= s < 4 implies #[trigger] known.foundations@[s] <= 13 by {
        assert(known.foundations@[s] == v.foundations[s]);
    }
    assert forall|j: int| 0 <= j < known.waste_known@.len() implies is_card(
        #[trigger] known.waste_known@[j],
    ) by {
        assert(known.waste_known@[j] == v.stock[j]);
    }
    assert forall|j: int| 0 <= j < known.stock_known@.len() implies is_card(
        #[trigger] known.stock_known@[j],
    ) by {
        assert(known.stock_known@[j] == v.stock[p + j]);
    }
}

proof fn lemma_facedown_before_bounded(known: KnownState, n: int)
    requires
        known.consistent(),
        0 <= n <= NUM_COLUMNS,
    ensures
        facedown_before(known.column_facedown_count@, n) <= n * MAX_COL_LEN,
    decreases n,
{
    if n > 0 {
        lemma_facedown_before_bounded(known, n - 1);
        assert(known.column_facedown_count@[n - 1] < MAX_COL_LEN);
    }
}

proof fn lemma_facedown_before_mono(fd: Seq<u8>, a: int, b: int)
    requires
        0 <= a <= b,
    ensures
        facedown_before(fd, a) <= facedown_before(fd, b),
        0 <= facedown_before(fd, a),
    decreases b,
{
    if b > a {
        lemma_facedown_before_mono(fd, a, b - 1);
    } else if a > 0 {
        lemma_facedown_before_mono(fd, 0, a - 1);
        lemma_facedown_before_mono(fd, a - 1, a - 1);
    }
}

/// A permutation of cards holds only cards.
proof fn lemma_shuffled_cards(a: Seq<u8>, b: Seq<u8>)
    requires
        a.to_multiset() == b.to_multiset(),
        forall|j: int| 0 <= j < b.len() ==> is_card(#[trigger] b[j]),
    ensures
        forall|j: int| 0 <= j < a.len() ==> is_card(#[trigger] a[j]),
        a.len() == b.len(),
{
    broadcast use vstd::seq_lib::to_multiset_contains;
    broadcast use vstd::seq_lib::to_multiset_len;

    assert(a.to_multiset().len() == a.len());
    assert(b.to_multiset().len() == b.len());
    assert forall|j: int| 0 <= j < a.len() implies is_card(#[trigger] a[j]) by {
        assert(a.contains(a[j]));
        assert(b.to_multiset().count(a[j]) > 0);
        assert(b.contains(a[j]));
    }
}

fn copy_cards(from: &Vec<Card>, to: &mut Vec<Card>)
    ensures
        final(to)@ == old(to)@ + from@,
{
    let mut j: usize = 0;
    while j < from.len()
        invariant
            j <= from@.len(),
            to@ == old(to)@ + from@.take(j as int),
        decreases from@.len() - j,
    {
        to.push(from[j]);
        j += 1;
        assert(to@ =~= old(to)@ + from@.take(j as int));
    }
    assert(from@.take(from@.len() as int) =~= from@);
}

/// Samples a world consistent with what the player knows: the unknown cards
/// are shuffled with `seed` and dealt to the face-down places of the
/// columns, then to the stock's unknown places.
pub fn sample_world(known: &KnownState, seed: u64) -> (state: State)
    requires
        known.consistent(),
    ensures
        state.wf(),
        state@ == sampled_world(*known, seed),
        state@.foundations == known.foundations@,
        state@.stock_pointer == known.waste_known@.len(),
        known.roomy() ==> fits(state@),
{
    let ghost fdseq = known.column_facedown_count@;
    let ghost total = facedown_before(fdseq, NUM_COLUMNS as int);
    let mut pool: Vec<Card> = Vec::new();
    copy_cards(&known.unknown_pool, &mut pool);
    assert(pool@ =~= known.unknown_pool@);
    shuffle(pool.as_mut_slice(), seed);
    let ghost sh = pool@;
    let plen = pool.len();
    proof {
        lemma_shuffled_cards(sh, known.unknown_pool@);
        lemma_facedown_before_mono(fdseq, 0, NUM_COLUMNS as int);
    }
    let mut column_cards: [Vec<Card>; NUM_COLUMNS] = [
        Vec::new(),
        Vec::new(),
        Vec::new(),
        Vec::new(),
        Vec::new(),
        Vec::new(),
        Vec::new(),
    ];
    let mut idx: usize = 0;
    let mut col: usize = 0;
    while col < NUM_COLUMNS
        invariant
            col <= NUM_COLUMNS,
            known.consistent(),
            fdseq == known.column_facedown_count@,
            total == facedown_before(fdseq, NUM_COLUMNS as int),
            pool@ == sh,
            plen == sh.len(),
            sh.len() == total + known.undrawn_unknown_count,
            forall|j: int| 0 <= j < sh.len() ==> is_card(#[trigger] sh[j]),
            idx == facedown_before(fdseq, col as int),
            forall|c: int|
                0 <= c < col ==> (#[trigger] column_cards@[c])@ == sh.subrange(
                    facedown_before(fdseq, c),
                    facedown_before(fdseq, c) + fdseq[c],
                ) + known.column_visible@[c]@,
        decreases NUM_COLUMNS - col,
    {
        proof {
            lemma_facedown_before_mono(fdseq, col + 1, NUM_COLUMNS as int);
            lemma_facedown_before_mono(fdseq, col as int, col + 1);
        }
        let fd = known.column_facedown_count[col] as usize;
        let mut cards: Vec<Card> = Vec::new();
        let mut i: usize = 0;
        while i < fd
            invariant
                i <= fd,
                idx + fd <= total,
                pool@ == sh,
                plen == sh.len(),
                sh.len() == total + known.undrawn_unknown_count,
                cards@ == sh.subrange(idx as int, idx + i),
            decreases fd - i,
        {
            cards.push(pool[idx + i]);
            i += 1;
            assert(cards@ =~= sh.subrange(idx as int, idx + i));
        }
        copy_cards(&known.column_visible[col], &mut cards);
        let ghost cc = cards@;
        let ghost before = column_cards@;
        column_cards[col] = cards;
        assert(column_cards@[col as int]@ == cc);
        assert(forall|c: int| 0 <= c < NUM_COLUMNS && c != col ==> #[trigger] column_cards@[c] == before[c]);
        idx = idx + fd;
        col += 1;
    }
    let mut stock: Vec<Card> = Vec::new();
    copy_cards(&known.waste_known, &mut stock);
    copy_cards(&known.stock_known, &mut stock);
    let undrawn = known.undrawn_unknown_count as usize;
    let ghost base = stock@;
    let mut i: usize = 0;
    while i < undrawn
        invariant
            i <= undrawn,
            undrawn == known.undrawn_unknown_count,
            idx == total,
            pool@ == sh,
            plen == sh.len(),
            sh.len() == total + undrawn,
            stock@ == base + sh.subrange(total, total + i),
        decreases undrawn - i,
    {
        stock.push(pool[idx + i]);
        i += 1;
        assert(stock@ =~= base + sh.subrange(total, total + i));
    }
    proof {
        assert forall|c: int| 0 <= c < NUM_COLUMNS implies {
            let cc = #[trigger] column_cards@[c];
            &&& cc@.len() <= MAX_COL_LEN
            &&& known.column_facedown_count@[c] <= cc@.len()
            &&& known.column_facedown_count@[c] < MAX_COL_LEN
            &&& forall|j: int| 0 <= j < cc@.len() ==> is_card(#[trigger] cc@[j])
        } by {
            lemma_facedown_before_mono(fdseq, c + 1, NUM_COLUMNS as int);
            lemma_facedown_before_mono(fdseq, c, c + 1);
            let cc = column_cards@[c]@;
            let fdc = fdseq[c] as int;
            assert forall|j: int| 0 <= j < cc.len() implies is_card(#[trigger] cc[j]) by {
                if j < fdc {
                    assert(cc[j] == sh[facedown_before(fdseq, c) + j]);
                } else {
                    assert(cc[j] == known.column_visible@[c]@[j - fdc]);
                }
            }
        }
        assert forall|j: int| 0 <= j < stock@.len() implies is_card(#[trigger] stock@[j]) by {
            let w = known.waste_known@.len() as int;
            let k = known.stock_known@.len() as int;
            if j < w {
                assert(stock@[j] == known.waste_known@[j]);
            } else if j < w + k {
                assert(stock@[j] == known.stock_known@[j - w]);
            } else {
                assert(stock@[j] == sh[total + (j - w - k)]);
            }
        }
    }
    let mut state = State::deal(&column_cards, &known.column_facedown_count, stock.as_slice());
    let mut suit: usize = 0;
    while suit < 4
        invariant
            suit <= 4,
            known.consistent(),
            state.wf(),
            forall|c: int|
                0 <= c < NUM_COLUMNS ==> (#[trigger] state@.columns[c]).cards == column_cards@[c]@
                    && state@.columns[c].face_down == known.column_facedown_count@[c],
            state@.columns.len() == NUM_COLUMNS,
            state@.stock == stock@,
            state@.stock_pointer == 0,
            state@.foundations.len() == 4,
            forall|s: int| 0 <= s < suit ==> #[trigger] state@.foundations[s] == known.foundations@[s],
            forall|s: int| suit <= s < 4 ==> #[trigger] state@.foundations[s] == 0,
        decreases 4 - suit,
    {
        proof {
            state.lemma_wf_facts();
        }
        if known.foundations[suit] > 0 {
            state.set_foundation(suit, known.foundations[suit]);
        }
        suit += 1;
    }
    let w = known.waste_known.len();
    let mut d: usize = 0;
    while d < w
        invariant
            d <= w,
            w == known.waste_known@.len(),
            state.wf(),
            forall|c: int|
                0 <= c < NUM_COLUMNS ==> (#[trigger] state@.columns[c]).cards == column_cards@[c]@
                    && state@.columns[c].face_down == known.column_facedown_count@[c],
            state@.columns.len() == NUM_COLUMNS,
            state@.stock == stock@,
            stock@.len() >= w,
            state@.stock_pointer == d,
            state@.foundations =~= known.foundations@,
        decreases w - d,
    {
        proof {
            state.lemma_wf_facts();
        }
        state.draw();
        d += 1;
    }
    proof {
        let target = sampled_world(*known, seed);
        assert(state@.columns =~= target.columns);
        assert(state@.stock =~= target.stock);
        assert(state@ =~= target);
        if known.roomy() {
            assert forall|c: int, i: int|
                0 <= c < NUM_COLUMNS && 0 <= i < state@.columns[c].len() implies i + rank_spec(
                #[trigger] state@.columns[c].cards[i],
            ) <= MAX_COL_LEN by {
                let fdc = fdseq[c] as int;
                let vis = known.column_visible@[c]@;
                let pre = sh.subrange(facedown_before(fdseq, c), facedown_before(fdseq, c) + fdc);
                lemma_facedown_before_mono(fdseq, c + 1, NUM_COLUMNS as int);
                lemma_facedown_before_mono(fdseq, c, c + 1);
                assert(pre.len() == fdc);
                let cc = column_cards@[c]@;
                assert(cc == pre + vis);
                assert(state@.columns[c].cards == cc);
                assert(fdc <= 12);
                if i >= fdc {
                    assert(cc[i] == vis[i - fdc]);
                    assert(fdc + (i - fdc) + rank_spec(vis[i - fdc]) <= MAX_COL_LEN);
                }
            }
        }
    }
    state
}

/// What solving one sampled world found.
pub struct WorldOutcome {
    pub solved: bool,
    pub first_move: Option<Move>,
    pub best_foundation_count: u32,
    pub nodes_explored: u64,
}

/// The first move of a line, if any.
pub open spec fn first_move_of(ms: Seq<Move>) -> Option<Move> {
    if ms.len() > 0 {
        Some(ms[0])
    } else {
        None
    }
}

impl From<SolveOutput> for WorldOutcome {
    fn from(out: SolveOutput) -> (w: WorldOutcome) {
        let first_move = if out.moves.len() > 0 {
            Some(out.moves[0])
        } else {
            None
        };
        WorldOutcome {
            solved: out.solved,
            first_move,
            best_foundation_count: out.best_foundation_count,
            nodes_explored: out.nodes_explored,
        }
    }
}

impl vstd::std_specs::convert::FromSpecImpl<SolveOutput> for WorldOutcome {
    open spec fn obeys_from_spec() -> bool {
        true
    }

    open spec fn from_spec(out: SolveOutput) -> WorldOutcome {
        WorldOutcome {
            solved: out.solved,
            first_move: first_move_of(out.moves@),
            best_foundation_count: out.best_foundation_count,
            nodes_explored: out.nodes_explored,
        }
    }
}

/// What `solve` guarantees of the outcome of solving world `v` with
/// `budget`: within budget and progress bounds, and when solved, the first
/// move of a winning line.
pub open spec fn world_outcome_ok(v: StateView, budget: u64, o: WorldOutcome) -> bool {
    &&& o.nodes_explored <= budget
    &&& v.foundation_count() <= o.best_foundation_count <= 52
    &&& o.solved ==> o.best_foundation_count == 52 && exists|ms: Seq<Move>|
        winning_line(v, ms) && o.first_move == #[trigger] first_move_of(ms)
    &&& !o.solved ==> o.first_move is None
    &&& v.is_won() ==> o.solved && o.first_move is None && o.nodes_explored == 0
    &&& !v.is_won() && budget == 0 ==> !o.solved
}

/// The outcome of solving world `v` with `budget`: what the search returns
/// (see `search_node`), with the first move of the line found.
pub open spec fn world_outcome_spec(v: StateView, budget: u64) -> WorldOutcome {
    let r = search_node(v, start_ctx(v), budget as int);
    WorldOutcome {
        solved: r.0 is Found,
        first_move: match r.0 {
            SearchResult::Found(line) => first_move_of(line),
            _ => None,
        },
        best_foundation_count: (if r.0 is Found {
            52
        } else {
            r.1.best
        }) as u32,
        nodes_explored: r.1.nodes as u64,
    }
}

/// Samples the world of `world_seed` and solves it.
pub fn solve_one_world(known: &KnownState, world_seed: u64, budget: u64) -> (out: WorldOutcome)
    requires
        known.consistent(),
        known.roomy(),
    ensures
        out == world_outcome_spec(sampled_world(*known, world_seed), budget),
        world_outcome_ok(sampled_world(*known, world_seed), budget, out),
{
    let state = sample_world(known, world_seed);
    let ghost v = state@;
    let solved = solve(state, budget);
    let ghost ms = solved.moves@;
    let out = WorldOutcome::from(solved);
    proof {
        if out.solved {
            assert(winning_line(v, ms) && out.first_move == first_move_of(ms));
        }
    }
    out
}

// ---- HOP: vote over sampled worlds ----
/// The integer tallies of a HOP analysis.
pub struct HopTally {
    pub worlds_run: u32,
    pub worlds_solved: u32,
    /// Each first move of a winning line with its number of votes, most
    /// voted first.
    pub vote_counts: Vec<(Move, u32)>,
    /// Sum of the best foundation counts of the worlds left unsolved.
    pub unsolved_progress_sum: u64,
    pub unsolved_count: u32,
}

/// Seed of world `w` of a HOP analysis seeded with `seed`.
pub open spec fn world_seed_spec(seed: u64, w: int) -> u64 {
    seed ^ crate::zobrist::wmul(w as u64, 0x9E37_79B9_7F4A_7C15u64)
}

pub fn world_seed(seed: u64, w: u32) -> (s: u64)
    ensures
        s == world_seed_spec(seed, w as int),
{
    seed ^ (w as u64).wrapping_mul(0x9E37_79B9_7F4A_7C15)
}

pub open spec fn count_solved(outs: Seq<WorldOutcome>) -> int
    decreases outs.len(),
{
    if outs.len() == 0 {
        0
    } else {
        count_solved(outs.drop_last()) + if outs.last().solved {
            1int
        } else {
            0int
        }
    }
}

pub open spec fn unsolved_progress(outs: Seq<WorldOutcome>) -> int
    decreases outs.len(),
{
    if outs.len() == 0 {
        0
    } else {
        unsolved_progress(outs.drop_last()) + if outs.last().solved {
            0int
        } else {
            outs.last().best_foundation_count as int
        }
    }
}

/// The tallies of two runs of worlds put end to end add up: the solved
/// worlds, and the progress of the unsolved ones.
pub proof fn lemma_tallies_add_up(a: Seq<WorldOutcome>, b: Seq<WorldOutcome>)
    ensures
        count_solved(a + b) == count_solved(a) + count_solved(b),
        unsolved_progress(a + b) == unsolved_progress(a) + unsolved_progress(b),
    decreases b.len(),
{
    if b.len() == 0 {
        assert(a + b =~= a);
    } else {
        lemma_tallies_add_up(a, b.drop_last());
        assert((a + b).drop_last() =~= a + b.drop_last());
        assert((a + b).last() == b.last());
    }
}

/// A single world counts as solved, or adds its best foundation count to the
/// progress of the unsolved worlds.
pub proof fn lemma_tally_of_one(o: WorldOutcome)
    ensures
        count_solved(seq![o]) == if o.solved {
            1int
        } else {
            0int
        },
        unsolved_progress(seq![o]) == if o.solved {
            0int
        } else {
            o.best_foundation_count as int
        },
{
    let one = seq![o];
    assert(one.drop_last() =~= Seq::<WorldOutcome>::empty());
    assert(one.last() == o);
    assert(count_solved(one.drop_last()) == 0);
    assert(unsolved_progress(one.drop_last()) == 0);
}

/// Number of solved worlds whose winning line starts with `m`.
pub open spec fn votes_for(outs: Seq<WorldOutcome>, m: Move) -> int
    decreases outs.len(),
{
    if outs.len() == 0 {
        0
    } else {
        votes_for(outs.drop_last(), m) + if outs.last().solved && outs.last().first_move == Some(
            m,
        ) {
            1int
        } else {
            0int
        }
    }
}

/// Number of solved worlds whose winning line has a first move.
pub open spec fn count_voting(outs: Seq<WorldOutcome>) -> int
    decreases outs.len(),
{
    if outs.len() == 0 {
        0
    } else {
        count_voting(outs.drop_last()) + if outs.last().solved && outs.last().first_move is Some {
            1int
        } else {
            0int
        }
    }
}

/// Sum of the numbers of votes listed in `votes`.
pub open spec fn vote_total(votes: Seq<(Move, u32)>) -> int
    decreases votes.len(),
{
    if votes.len() == 0 {
        0
    } else {
        vote_total(votes.drop_last()) + votes.last().1
    }
}

proof fn lemma_vote_total_update(votes: Seq<(Move, u32)>, j: int, x: (Move, u32))
    requires
        0 <= j < votes.len(),
    ensures
        vote_total(votes.update(j, x)) == vote_total(votes) - votes[j].1 + x.1,
    decreases votes.len(),
{
    let u = votes.update(j, x);
    if j == votes.len() - 1 {
        assert(u.drop_last() =~= votes.drop_last());
    } else {
        lemma_vote_total_update(votes.drop_last(), j, x);
        assert(u.drop_last() =~= votes.drop_last().update(j, x));
    }
}

proof fn lemma_vote_total_push(votes: Seq<(Move, u32)>, x: (Move, u32))
    ensures
        vote_total(votes.push(x)) == vote_total(votes) + x.1,
{
    assert(votes.push(x).drop_last() =~= votes);
}

/// `votes` lists each voted move once, with its number of votes.
pub open spec fn votes_exact(outs: Seq<WorldOutcome>, votes: Seq<(Move, u32)>) -> bool {
    &&& forall|k: int|
        0 <= k < votes.len() ==> (#[trigger] votes[k]).1 == votes_for(outs, votes[k].0)
            && votes[k].1 > 0
    &&& forall|a: int, b: int|
        0 <= a < votes.len() && 0 <= b < votes.len() && a != b ==> (#[trigger] votes[a]).0
            != (#[trigger] votes[b]).0
    &&& forall|m: Move|
        #[trigger] votes_for(outs, m) > 0 ==> exists|k: int| 0 <= k < votes.len() && (#[trigger] votes[k]).0 == m
}

/// The tally of `outs`.
pub open spec fn tally_of(outs: Seq<WorldOutcome>, t: HopTally) -> bool {
    &&& t.worlds_run == outs.len()
    &&& t.worlds_solved == count_solved(outs)
    &&& t.unsolved_count == outs.len() - count_solved(outs)
    &&& t.unsolved_progress_sum == unsolved_progress(outs)
    &&& votes_exact(outs, t.vote_counts@)
    &&& vote_total(t.vote_counts@) == count_voting(outs)
    &&& forall|a: int, b: int|
        0 <= a < b < t.vote_counts@.len() ==> (#[trigger] t.vote_counts@[a]).1 >= (
        #[trigger] t.vote_counts@[b]).1
}

proof fn lemma_counts_bounded(outs: Seq<WorldOutcome>)
    requires
        forall|i: int| 0 <= i < outs.len() ==> (#[trigger] outs[i]).best_foundation_count <= 52,
    ensures
        0 <= count_solved(outs) <= outs.len(),
        0 <= unsolved_progress(outs) <= 52 * (outs.len() - count_solved(outs)),
    decreases outs.len(),
{
    if outs.len() > 0 {
        let front = outs.drop_last();
        assert forall|i: int| 0 <= i < front.len() implies (#[trigger] front[i]).best_foundation_count
            <= 52 by {
            assert(front[i] == outs[i]);
        }
        lemma_counts_bounded(front);
        assert(outs.last() == outs[outs.len() - 1]);
    }
}

proof fn lemma_votes_bounded(outs: Seq<WorldOutcome>, m: Move)
    ensures
        0 <= votes_for(outs, m) <= outs.len(),
    decreases outs.len(),
{
    if outs.len() > 0 {
        lemma_votes_bounded(outs.drop_last(), m);
    }
}

/// Counts a vote for `m`.
fn add_vote(
    votes: &mut Vec<(Move, u32)>,
    m: Move,
    Ghost(outs): Ghost<Seq<WorldOutcome>>,
    Ghost(o): Ghost<WorldOutcome>,
)
    requires
        votes_exact(outs, old(votes)@),
        o.solved,
        o.first_move == Some(m),
        outs.len() < u32::MAX,
    ensures
        votes_exact(outs.push(o), final(votes)@),
        vote_total(final(votes)@) == vote_total(old(votes)@) + 1,
{
    let ghost outs2 = outs.push(o);
    let ghost before = votes@;
    assert(outs2.drop_last() =~= outs);
    assert(forall|m2: Move|
        #[trigger] votes_for(outs2, m2) == votes_for(outs, m2) + if m2 == m {
            1int
        } else {
            0int
        });
    let n = votes.len();
    let mut j: usize = 0;
    while j < n && votes[j].0 != m
        invariant
            j <= n,
            n == votes@.len(),
            votes@ == before,
            forall|k: int| 0 <= k < j ==> (#[trigger] votes@[k]).0 != m,
        decreases n - j,
    {
        j += 1;
    }
    if j < n {
        let (mv, c) = votes[j];
        assert(before[j as int].1 == votes_for(outs, before[j as int].0));
        assert(c == votes_for(outs, m));
        proof {
            lemma_votes_bounded(outs, m);
        }
        votes.set(j, (mv, c + 1));
        proof {
            lemma_vote_total_update(before, j as int, (mv, (c + 1) as u32));
            assert forall|k: int| 0 <= k < votes@.len() implies (#[trigger] votes@[k]).1
                == votes_for(outs2, votes@[k].0) && votes@[k].1 > 0 by {
                if k != j {
                    assert(votes@[k] == before[k]);
                    assert(before[k].0 != before[j as int].0);
                }
            }
            assert forall|m2: Move| #[trigger] votes_for(outs2, m2) > 0 implies exists|k: int|
                0 <= k < votes@.len() && (#[trigger] votes@[k]).0 == m2 by {
                if m2 != m {
                    assert(votes_for(outs, m2) > 0);
                    let k = choose|k: int| 0 <= k < before.len() && (#[trigger] before[k]).0 == m2;
                    assert(votes@[k].0 == m2);
                } else {
                    assert(votes@[j as int].0 == m2);
                }
            }
            assert forall|a: int, b: int|
                0 <= a < votes@.len() && 0 <= b < votes@.len() && a != b implies (
                #[trigger] votes@[a]).0 != (#[trigger] votes@[b]).0 by {
                assert(before[a].0 != before[b].0);
            }
        }
    } else {
        assert(forall|k: int| 0 <= k < n ==> (#[trigger] before[k]).0 != m);
        assert(votes_for(outs, m) == 0) by {
            lemma_votes_bounded(outs, m);
            if votes_for(outs, m) > 0 {
                let k = choose|k: int| 0 <= k < before.len() && (#[trigger] before[k]).0 == m;
                assert(before[k].0 != m);
            }
        }
        votes.push((m, 1));
        proof {
            lemma_vote_total_push(before, (m, 1u32));
            assert forall|k: int| 0 <= k < votes@.len() implies (#[trigger] votes@[k]).1
                == votes_for(outs2, votes@[k].0) && votes@[k].1 > 0 by {
                if k < n {
                    assert(votes@[k] == before[k]);
                    assert(before[k].0 != m);
                }
            }
            assert forall|m2: Move| #[trigger] votes_for(outs2, m2) > 0 implies exists|k: int|
                0 <= k < votes@.len() && (#[trigger] votes@[k]).0 == m2 by {
                if m2 != m {
                    assert(votes_for(outs, m2) > 0);
                    let k = choose|k: int| 0 <= k < before.len() && (#[trigger] before[k]).0 == m2;
                    assert(votes@[k].0 == m2);
                } else {
                    assert(votes@[n as int].0 == m2);
                }
            }
            assert forall|a: int, b: int|
                0 <= a < votes@.len() && 0 <= b < votes@.len() && a != b implies (
                #[trigger] votes@[a]).0 != (#[trigger] votes@[b]).0 by {
                if a < n && b < n {
                    assert(before[a].0 != before[b].0);
                } else if a < n {
                    assert(before[a].0 != m);
                } else if b < n {
                    assert(before[b].0 != m);
                }
            }
        }
    }
}

/// Sorts the votes, most voted first.
fn sort_votes(votes: &mut Vec<(Move, u32)>, Ghost(outs): Ghost<Seq<WorldOutcome>>)
    requires
        votes_exact(outs, old(votes)@),
    ensures
        votes_exact(outs, final(votes)@),
        vote_total(final(votes)@) == vote_total(old(votes)@),
        forall|a: int, b: int|
            0 <= a < b < final(votes)@.len() ==> (#[trigger] final(votes)@[a]).1 >= (
            #[trigger] final(votes)@[b]).1,
{
    let n = votes.len();
    if n == 0 {
        return;
    }
    let mut i: usize = 1;
    while i < n
        invariant
            1 <= i <= n,
            n == votes@.len(),
            votes_exact(outs, votes@),
            vote_total(votes@) == vote_total(old(votes)@),
            forall|a: int, b: int| 0 <= a < b < i ==> (#[trigger] votes@[a]).1 >= (#[trigger] votes@[b]).1,
        decreases n - i,
    {
        let mut j = i;
        while j > 0 && votes[j - 1].1 < votes[j].1
            invariant
                0 <= j <= i < n,
                n == votes@.len(),
                votes_exact(outs, votes@),
                vote_total(votes@) == vote_total(old(votes)@),
                forall|a: int, b: int|
                    0 <= a < b <= i && a != j && b != j ==> (#[trigger] votes@[a]).1 >= (
                    #[trigger] votes@[b]).1,
                forall|b: int| j < b <= i ==> votes@[j as int].1 > (#[trigger] votes@[b]).1,
            decreases j,
        {
            let x = votes[j - 1];
            let y = votes[j];
            let ghost before = votes@;
            votes.set(j - 1, y);
            votes.set(j, x);
            proof {
                assert(votes@ == before.update(j - 1, y).update(j as int, x));
                lemma_vote_total_update(before, j - 1, y);
                lemma_vote_total_update(before.update(j - 1, y), j as int, x);
                assert forall|k: int| 0 <= k < votes@.len() implies (#[trigger] votes@[k]).1 == votes_for(outs, votes@[k].0)
                    && votes@[k].1 > 0 by {
                    if k == j - 1 {
                        assert(votes@[k] == before[j as int]);
                    } else if k == j {
                        assert(votes@[k] == before[j - 1]);
                    } else {
                        assert(votes@[k] == before[k]);
                    }
                }
                assert forall|a: int, b: int|
                    0 <= a < votes@.len() && 0 <= b < votes@.len() && a != b implies (#[trigger] votes@[a]).0
                        != (#[trigger] votes@[b]).0 by {
                    let pa = if a == j - 1 { j as int } else if a == j { j - 1 } else { a };
                    let pb = if b == j - 1 { j as int } else if b == j { j - 1 } else { b };
                    assert(votes@[a] == before[pa]);
                    assert(votes@[b] == before[pb]);
                    assert(before[pa].0 != before[pb].0);
                }
                assert forall|m2: Move| #[trigger] votes_for(outs, m2) > 0 implies exists|k: int|
                    0 <= k < votes@.len() && (#[trigger] votes@[k]).0 == m2 by {
                    let k = choose|k: int| 0 <= k < before.len() && (#[trigger] before[k]).0 == m2;
                    let pk = if k == j - 1 { j as int } else if k == j { j - 1 } else { k };
                    assert(votes@[pk] == before[k]);
                }
            }
            j -= 1;
        }
        i += 1;
    }
}

/// Solves `num_worlds` sampled worlds and tallies them: the worlds solved,
/// the votes for the first move of their winning lines, and the progress of
/// the worlds left unsolved.
pub fn hop_tally(known: &KnownState, num_worlds: u32, budget_per_world: u64, seed: u64) -> (t: HopTally)
    requires
        known.consistent(),
        known.roomy(),
    ensures
        exists|outs: Seq<WorldOutcome>|
            {
                &&& outs.len() == num_worlds
                &&& forall|w: int|
                    0 <= w < num_worlds ==> #[trigger] outs[w] == world_outcome_spec(
                        sampled_world(*known, world_seed_spec(seed, w)),
                        budget_per_world,
                    ) && world_outcome_ok(
                        sampled_world(*known, world_seed_spec(seed, w)),
                        budget_per_world,
                        outs[w],
                    )
                &&& tally_of(outs, t)
            },
{
    let mut votes: Vec<(Move, u32)> = Vec::new();
    let mut worlds_solved: u32 = 0;
    let mut unsolved_progress_sum: u64 = 0;
    let mut unsolved_count: u32 = 0;
    let ghost mut outs: Seq<WorldOutcome> = seq![];
    let mut w: u32 = 0;
    while w < num_worlds
        invariant
            w <= num_worlds,
            known.consistent(),
            known.roomy(),
            outs.len() == w,
            forall|i: int|
                0 <= i < w ==> #[trigger] outs[i] == world_outcome_spec(
                    sampled_world(*known, world_seed_spec(seed, i)),
                    budget_per_world,
                ) && world_outcome_ok(
                    sampled_world(*known, world_seed_spec(seed, i)),
                    budget_per_world,
                    outs[i],
                ),
            worlds_solved == count_solved(outs),
            unsolved_count == outs.len() - count_solved(outs),
            unsolved_progress_sum == unsolved_progress(outs),
            votes_exact(outs, votes@),
            vote_total(votes@) == count_voting(outs),
        decreases num_worlds - w,
    {
        let ws = world_seed(seed, w);
        let outcome = solve_one_world(known, ws, budget_per_world);
        let ghost outs2 = outs.push(outcome);
        proof {
            assert(outs2.drop_last() =~= outs);
            lemma_counts_bounded(outs);
        }
        if outcome.solved {
            worlds_solved = worlds_solved + 1;
            if let Some(mv) = outcome.first_move {
                add_vote(&mut votes, mv, Ghost(outs), Ghost(outcome));
            } else {
                proof {
                    assert(forall|m2: Move| #[trigger] votes_for(outs2, m2) == votes_for(outs, m2));
                }
            }
        } else {
            unsolved_count = unsolved_count + 1;
            unsolved_progress_sum = unsolved_progress_sum + outcome.best_foundation_count as u64;
            proof {
                assert(forall|m2: Move| #[trigger] votes_for(outs2, m2) == votes_for(outs, m2));
            }
        }
        proof {
            outs = outs2;
            assert forall|i: int|
                0 <= i < w + 1 implies #[trigger] outs[i] == world_outcome_spec(
                sampled_world(*known, world_seed_spec(seed, i)),
                budget_per_world,
            ) && world_outcome_ok(
                sampled_world(*known, world_seed_spec(seed, i)),
                budget_per_world,
                outs[i],
            ) by {
                if i < w {
                    assert(outs[i] == outs2.drop_last()[i]);
                }
            }
        }
        w += 1;
    }
    sort_votes(&mut votes, Ghost(outs));
    HopTally {
        worlds_run: num_worlds,
        worlds_solved,
        vote_counts: votes,
        unsolved_progress_sum,
        unsolved_count,
    }
}

} // verus!
