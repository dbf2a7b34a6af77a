//! Random draws for the bots, from the seeded ChaCha20 generator.
//!
//! Each draw below makes one call into `rand`. What a draw returns depends on the
//! generator's internal state, so the contracts state only what holds of every outcome.

use vstd::prelude::*;

use rand::seq::SliceRandom;
use rand::Rng;
use rand::SeedableRng;
use rand_chacha::ChaCha20Rng;

verus! {

/// The seeded generator that every bot draws from.
#[verifier::external_type_specification]
#[verifier::external_body]
pub struct ExChaCha20Rng(ChaCha20Rng);

/// `Rng::gen_range(lo..hi)` on `usize`: a value in `[lo, hi)`. `rand` panics on an empty range,
/// which `requires` excludes.
#[verifier::external_body]
pub(crate) fn draw_below(rng: &mut ChaCha20Rng, lo: usize, hi: usize) -> (r: usize)
    requires
        lo < hi,
    ensures
        lo <= r < hi,
{
    rng.gen_range(lo..hi)
}

/// `Rng::gen_range(lo..=hi)` on `usize`: a value in `[lo, hi]`. `rand` panics when `lo > hi`,
/// which `requires` excludes.
#[verifier::external_body]
pub(crate) fn draw_between(rng: &mut ChaCha20Rng, lo: usize, hi: usize) -> (r: usize)
    requires
        lo <= hi,
    ensures
        lo <= r <= hi,
{
    rng.gen_range(lo..=hi)
}

/// `Rng::gen_range(0..n)` on `u8`: a value in `[0, n)`. `rand` panics when `n == 0`, which
/// `requires` excludes.
#[verifier::external_body]
pub(crate) fn draw_below_u8(rng: &mut ChaCha20Rng, n: u8) -> (r: u8)
    requires
        0 < n,
    ensures
        r < n,
{
    rng.gen_range(0..n)
}

/// `Rng::gen_ratio(1, 2)`: a fair coin. Its value is left free: either outcome is possible.
#[verifier::external_body]
pub(crate) fn draw_coin(rng: &mut ChaCha20Rng) -> (r: bool) {
    rng.gen_ratio(1, 2)
}

/// `r` is `v` reordered: `r[k] == v[p[k]]` for a permutation `p` of the indices.
pub open spec fn reorders<T>(r: Seq<T>, v: Seq<T>) -> bool {
    exists|p: Seq<int>| is_index_perm(p, v.len()) && #[trigger] r.len() == v.len()
        && forall|k: int| 0 <= k < r.len() ==> r[k] == v[p[k]]
}

/// `p` lists each index below `n` exactly once.
pub open spec fn is_index_perm(p: Seq<int>, n: nat) -> bool {
    &&& p.len() == n
    &&& forall|k: int| 0 <= k < p.len() ==> 0 <= #[trigger] p[k] < n
    &&& forall|k1: int, k2: int| 0 <= k1 < k2 < p.len() ==> p[k1] != p[k2]
}

/// `SliceRandom::shuffle` on the vector's slice: the result holds the same elements
/// reordered (the shuffle only swaps them), in an order that the draw decides.
#[verifier::external_body]
pub(crate) fn draw_shuffle<T>(rng: &mut ChaCha20Rng, v: Vec<T>) -> (r: Vec<T>)
    ensures
        reorders(r@, v@),
{
    let mut v = v;
    v.shuffle(rng);
    v
}

/// `256^i`.
pub open spec fn pow256(i: nat) -> nat
    decreases i,
{
    if i == 0 {
        1
    } else {
        256 * pow256((i - 1) as nat)
    }
}

/// Byte `i` of the 32-byte seed made from `seed`: its eight little-endian bytes, then zeros.
pub open spec fn seed_byte(seed: u64, i: int) -> u8 {
    if 0 <= i < 8 {
        ((seed as nat / pow256(i as nat)) % 256) as u8
    } else {
        0
    }
}

/// The 32-byte seed of a game: the little-endian bytes of `seed`, then zeros.
pub fn seed_bytes(seed: u64) -> (r: Vec<u8>)
    ensures
        r@.len() == 32,
        forall|i: int| 0 <= i < 32 ==> r@[i] == seed_byte(seed, i),
{
    let mut v: Vec<u8> = Vec::new();
    let mut x: u64 = seed;
    let mut i: usize = 0;
    assert(pow256(0) == 1);
    while i < 8
        invariant
            i <= 8,
            v@.len() == i,
            x as nat == seed as nat / pow256(i as nat),
            forall|j: int| 0 <= j < i ==> v@[j] == seed_byte(seed, j),
        decreases 8 - i,
    {
        v.push((x % 256) as u8);
        proof {
            lemma_pow256_pos(i as nat);
            vstd::arithmetic::div_mod::lemma_div_denominator(seed as int, pow256(i as nat) as int, 256);
            assert(pow256(i as nat) * 256 == pow256((i + 1) as nat)) by (nonlinear_arith)
                requires
                    pow256((i + 1) as nat) == 256 * pow256(i as nat),
            ;
        }
        x = x / 256;
        i = i + 1;
    }
    while i < 32
        invariant
            8 <= i <= 32,
            v@.len() == i,
            forall|j: int| 0 <= j < i ==> v@[j] == seed_byte(seed, j),
        decreases 32 - i,
    {
        v.push(0);
        i = i + 1;
    }
    v
}

proof fn lemma_pow256_pos(i: nat)
    ensures
        pow256(i) > 0,
    decreases i,
{
    if i > 0 {
        lemma_pow256_pos((i - 1) as nat);
    }
}

/// The generator that `SeedableRng::from_seed` makes from a 32-byte seed (a function of the
/// seed alone: ChaCha20 seeding is deterministic).
pub uninterp spec fn seeded_chacha(seed: Seq<u8>) -> ChaCha20Rng;

/// The 32-byte seed of a game seeded with `seed` (see `seed_byte`).
pub open spec fn game_seed_bytes(seed: u64) -> Seq<u8> {
    Seq::new(32, |i: int| seed_byte(seed, i))
}

/// `SeedableRng::from_seed` for ChaCha20 with a 32-byte seed. The contract names the
/// generator `seeded_chacha` of the seed bytes; its internal state is not stated.
#[verifier::external_body]
fn chacha_from_seed(seed: &Vec<u8>) -> (r: ChaCha20Rng)
    requires
        seed@.len() == 32,
    ensures
        r == seeded_chacha(seed@),
{
    let mut bytes = [0u8; 32];
    bytes.copy_from_slice(seed.as_slice());
    ChaCha20Rng::from_seed(bytes)
}

/// The generator of a game seeded with `seed`: ChaCha20 seeded with the little-endian bytes
/// of `seed` followed by zeros (see `game_seed_bytes`).
pub fn game_rng(seed: u64) -> (r: ChaCha20Rng)
    ensures
        r == seeded_chacha(game_seed_bytes(seed)),
{
    let bytes = seed_bytes(seed);
    assert(bytes@ =~= game_seed_bytes(seed));
    chacha_from_seed(&bytes)
}

} // verus!
