//! Zobrist hashing: precomputed pseudo-random 64-bit keys, one per
//! (intersection, color) pair plus one per side to move, and the spec-level
//! meaning of a board hash as the XOR of the keys of all occupied cells.

use vstd::prelude::*;

use crate::color::Color;

verus! {

/// Fixed seed for the key generator. Determinism across runs is deliberate
/// (hashes are only ever compared within one process run), not a security
/// property; this table must never be used where unpredictability matters.
pub const ZOBRIST_SEED: u64 = 0xC0FF_EE00_D15C_A11E;

#[verifier::external_type_specification]
#[verifier::external_body]
pub struct ExStdRng(rand::rngs::StdRng);

/// Relies on `rand::SeedableRng::seed_from_u64` for `rand::rngs::StdRng`:
/// builds a generator whose output depends only on the seed; never panics.
#[verifier::external_body]
fn seeded_rng(seed: u64) -> rand::rngs::StdRng {
    <rand::rngs::StdRng as rand::SeedableRng>::seed_from_u64(seed)
}

/// Relies on `rand::Rng::gen::<u64>`: draws the generator's next 64-bit
/// value; infallible for `StdRng`, never panics. Nothing is promised of the
/// value drawn: every proof below holds for arbitrary key material.
#[verifier::external_body]
fn next_key(rng: &mut rand::rngs::StdRng) -> u64 {
    rand::Rng::gen::<u64>(rng)
}

/// The contribution of cell `i` to a board hash: the key of the stone on it,
/// or 0 when the cell is empty.
pub open spec fn cell_key(keys: Seq<u64>, grid: Seq<Option<Color>>, i: int) -> u64 {
    match grid[i] {
        Some(c) => keys[2 * i + c.idx()],
        None => 0u64,
    }
}

/// XOR of the per-stone keys of the first `n` cells of `grid`.
pub open spec fn grid_hash_upto(keys: Seq<u64>, grid: Seq<Option<Color>>, n: int) -> u64
    decreases n,
{
    if n <= 0 {
        0u64
    } else {
        grid_hash_upto(keys, grid, n - 1) ^ cell_key(keys, grid, n - 1)
    }
}

/// The Zobrist hash of a grid: XOR of the keys of all occupied cells.
pub open spec fn grid_hash(keys: Seq<u64>, grid: Seq<Option<Color>>) -> u64 {
    grid_hash_upto(keys, grid, grid.len() as int)
}

proof fn lemma_xor_zero(a: u64)
    ensures
        a ^ 0u64 == a,
        0u64 ^ a == a,
{
    assert(a ^ 0u64 == a && 0u64 ^ a == a) by (bit_vector);
}

proof fn lemma_xor_shuffle(a: u64, b: u64, c: u64)
    ensures
        (a ^ b) ^ c == (a ^ c) ^ b,
{
    assert((a ^ b) ^ c == (a ^ c) ^ b) by (bit_vector);
}

proof fn lemma_xor_cancel(a: u64, b: u64)
    ensures
        (a ^ b) ^ b == a,
{
    assert((a ^ b) ^ b == a) by (bit_vector);
}

/// A grid with no stones among its first `n` cells hashes to 0.
pub proof fn lemma_grid_hash_blank(keys: Seq<u64>, grid: Seq<Option<Color>>, n: int)
    requires
        forall|j: int| 0 <= j < n ==> grid[j] is None,
    ensures
        grid_hash_upto(keys, grid, n) == 0u64,
    decreases n,
{
    if n > 0 {
        lemma_grid_hash_blank(keys, grid, n - 1);
        lemma_xor_zero(0u64);
    }
}

/// Toggling one cell changes the hash by XOR of that cell's old and new
/// contributions; all other cells are untouched.
pub proof fn lemma_grid_hash_update(
    keys: Seq<u64>,
    g1: Seq<Option<Color>>,
    g2: Seq<Option<Color>>,
    i: int,
    n: int,
)
    requires
        0 <= i < g1.len(),
        g2.len() == g1.len(),
        forall|j: int| 0 <= j < g1.len() && j != i ==> g2[j] == g1[j],
        n <= g1.len(),
    ensures
        grid_hash_upto(keys, g2, n) == if i < n {
            (grid_hash_upto(keys, g1, n) ^ cell_key(keys, g1, i)) ^ cell_key(keys, g2, i)
        } else {
            grid_hash_upto(keys, g1, n)
        },
    decreases n,
{
    if n > 0 {
        lemma_grid_hash_update(keys, g1, g2, i, n - 1);
        let h1 = grid_hash_upto(keys, g1, n - 1);
        let k1 = cell_key(keys, g1, i);
        let k2 = cell_key(keys, g2, i);
        if i == n - 1 {
            // h2 at n-1 equals h1; the last contribution swaps from k1 to k2.
            assert(grid_hash_upto(keys, g2, n) == h1 ^ k2);
            assert(((h1 ^ k1) ^ k2) ^ k1 == h1 ^ k2) by {
                lemma_xor_shuffle(h1 ^ k1, k2, k1);
                lemma_xor_cancel(h1, k1);
            }
            lemma_xor_shuffle(h1 ^ k1, k1, k2);
            lemma_xor_cancel(h1, k1);
        } else if i < n - 1 {
            let c = cell_key(keys, g1, n - 1);
            assert(cell_key(keys, g2, n - 1) == c);
            assert(grid_hash_upto(keys, g2, n) == ((h1 ^ k1) ^ k2) ^ c);
            // Reassociate so the toggled pair moves past the last cell.
            lemma_xor_shuffle(h1 ^ k1, k2, c);
            lemma_xor_shuffle(h1, k1, c);
        }
    }
}

/// Precomputed random keys: two per intersection (one per color) plus two
/// side-to-move keys. Generated once per board size from the fixed seed and
/// immutable afterwards; every board of one session carries the same keys.
#[derive(Clone, Debug)]
pub struct ZobristTable {
    stones: Vec<u64>,
    side: Vec<u64>,
}

impl ZobristTable {
    /// The per-stone keys, two per intersection: the key of stone color `c`
    /// on cell `i` sits at position `2 * i + c.idx()`.
    pub closed spec fn stone_keys(self) -> Seq<u64> {
        self.stones@
    }

    /// The two side-to-move keys, indexed by `Color::idx`.
    pub closed spec fn side_keys(self) -> Seq<u64> {
        self.side@
    }

    /// The table carries exactly the keys a `size`-sided board needs.
    pub open spec fn wf(self, size: nat) -> bool {
        self.stone_keys().len() == 2 * size * size && self.side_keys().len() == 2
    }

    /// Generates the key table for a board of side `size` from the fixed
    /// seed, so repeated constructions of one size agree key for key.
    pub fn new(size: usize) -> (r: ZobristTable)
        requires
            size <= 256,
        ensures
            r.wf(size as nat),
    {
        proof {
            assert((size as int) * (size as int) <= 65536) by (nonlinear_arith)
                requires
                    size as int <= 256,
            ;
        }
        let mut rng = seeded_rng(ZOBRIST_SEED);
        let n: usize = 2 * (size * size);
        let mut stones: Vec<u64> = Vec::new();
        let mut i: usize = 0;
        while i < n
            invariant
                stones@.len() == i,
                i <= n,
            decreases n - i,
        {
            stones.push(next_key(&mut rng));
            i += 1;
        }
        let mut side: Vec<u64> = Vec::new();
        side.push(next_key(&mut rng));
        side.push(next_key(&mut rng));
        proof {
            assert(2 * ((size as int) * (size as int)) == (2 * (size as int)) * (size as int))
                by (nonlinear_arith);
        }
        ZobristTable { stones, side }
    }

    /// The key of a stone of color index `color_index` on cell `index`.
    pub fn stone(&self, index: usize, color_index: usize) -> (r: u64)
        requires
            2 * index + color_index < self.stone_keys().len(),
        ensures
            r == self.stone_keys()[2 * (index as int) + color_index],
    {
        let _len = self.stones.len();
        self.stones[2 * index + color_index]
    }

    /// The side-to-move key of color index `color_index`.
    pub fn to_move(&self, color_index: usize) -> (r: u64)
        requires
            color_index < 2,
            self.side_keys().len() == 2,
        ensures
            r == self.side_keys()[color_index as int],
    {
        self.side[color_index]
    }

    /// An identical table: same keys, position for position.
    pub fn duplicate(&self) -> (r: ZobristTable)
        ensures
            r.stone_keys() == self.stone_keys(),
            r.side_keys() == self.side_keys(),
    {
        ZobristTable { stones: copy_keys(&self.stones), side: copy_keys(&self.side) }
    }
}

/// An element-for-element copy of a key vector.
fn copy_keys(v: &Vec<u64>) -> (r: Vec<u64>)
    ensures
        r@ == v@,
{
    let mut r: Vec<u64> = Vec::new();
    let mut i: usize = 0;
    while i < v.len()
        invariant
            i <= v@.len(),
            r@ == v@.subrange(0, i as int),
        decreases v@.len() - i,
    {
        r.push(v[i]);
        i += 1;
    }
    proof {
        assert(r@ =~= v@);
    }
    r
}

} // verus!
