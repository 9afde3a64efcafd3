//! Block-level layout shared by embedding and extraction.
//!
//! A picture is cut into 8×8 blocks.  In the 2D spectrum of a block, the
//! coefficients of a real-valued block come in conjugate pairs; a
//! "candidate" is the first member (in row-major order) of each pair, or a
//! self-conjugate coefficient, with the DC coefficient left out.
use vstd::prelude::*;
use vstd::arithmetic::div_mod::{
    lemma_fundamental_div_mod, lemma_mod_pos_bound, lemma_mod_self_0, lemma_multiply_divide_lt,
    lemma_small_mod,
};

use rand::rngs::StdRng;
use rand::{RngCore, SeedableRng};

verus! {

/// Side of the square blocks, in pixels.
pub const BLOCK: usize = 8;

/// The conjugate of frequency `a` in a block of side `n`: `(n - a) mod n`.
pub open spec fn conj_coord(n: int, a: int) -> int {
    if a == 0 {
        0
    } else {
        n - a
    }
}

/// `(a, b)` comes strictly before `(c, d)` in row-major order.
pub open spec fn before(a: int, b: int, c: int, d: int) -> bool {
    a < c || (a == c && b < d)
}

/// `(u, v)` is its own conjugate.
pub open spec fn self_conjugate(n: int, u: int, v: int) -> bool {
    conj_coord(n, u) == u && conj_coord(n, v) == v
}

/// `(u, v)` is not preceded by its conjugate in row-major order.
pub open spec fn canonical(n: int, u: int, v: int) -> bool {
    !before(conj_coord(n, u), conj_coord(n, v), u, v)
}

/// `(u, v)` is a candidate coefficient: canonical, and not DC.
pub open spec fn is_candidate(n: int, u: int, v: int) -> bool {
    canonical(n, u, v) && !(u == 0 && v == 0)
}

/// The candidates among `(u, 0), ..., (u, v - 1)`, in order.
pub open spec fn candidates_in_row(n: nat, u: nat, v: nat) -> Seq<(usize, usize, bool)>
    decreases v,
{
    if v == 0 {
        seq![]
    } else {
        let prev = candidates_in_row(n, u, (v - 1) as nat);
        if is_candidate(n as int, u as int, v - 1) {
            prev.push((u as usize, (v - 1) as usize, self_conjugate(n as int, u as int, v - 1)))
        } else {
            prev
        }
    }
}

/// The candidates in rows `0, ..., u - 1`, in row-major order.
pub open spec fn candidates_in_rows(n: nat, u: nat) -> Seq<(usize, usize, bool)>
    decreases u,
{
    if u == 0 {
        seq![]
    } else {
        candidates_in_rows(n, (u - 1) as nat) + candidates_in_row(n, (u - 1) as nat, n)
    }
}

/// All candidates of an `n`×`n` block, as `(u, v, is_self_conjugate)`.
pub open spec fn candidates(n: nat) -> Seq<(usize, usize, bool)> {
    candidates_in_rows(n, n)
}

/// Bits a candidate carries: one (real part) if self-conjugate, else two.
pub open spec fn weight(c: (usize, usize, bool)) -> nat {
    if c.2 {
        1
    } else {
        2
    }
}

/// Total bits carried by a list of candidates.
pub open spec fn bits_of(s: Seq<(usize, usize, bool)>) -> nat
    decreases s.len(),
{
    if s.len() == 0 {
        0
    } else {
        bits_of(s.drop_last()) + weight(s.last())
    }
}

/// Row-major index of `(a, b)` in an `n`×`n` block.
pub open spec fn cell(n: int, a: int, b: int) -> int {
    a * n + b
}

/// Number of `true` entries.
pub open spec fn count_true(s: Seq<bool>) -> nat
    decreases s.len(),
{
    if s.len() == 0 {
        0
    } else {
        count_true(s.drop_last()) + if s.last() {
            1nat
        } else {
            0nat
        }
    }
}

proof fn lemma_cell_bounds(n: int, a: int, b: int)
    requires
        0 <= a < n,
        0 <= b < n,
    ensures
        0 <= cell(n, a, b) < n * n,
{
    assert(0 <= a * n + b < n * n) by (nonlinear_arith)
        requires
            0 <= a < n,
            0 <= b < n,
    ;
}

proof fn lemma_cell_injective(n: int, a: int, b: int, c: int, d: int)
    requires
        0 <= a < n,
        0 <= b < n,
        0 <= c < n,
        0 <= d < n,
        cell(n, a, b) == cell(n, c, d),
    ensures
        a == c,
        b == d,
{
    assert(a == c && b == d) by (nonlinear_arith)
        requires
            0 <= a < n,
            0 <= b < n,
            0 <= c < n,
            0 <= d < n,
            a * n + b == c * n + d,
    ;
}

proof fn lemma_cell_of_index(n: int, i: int) -> (ab: (int, int))
    requires
        0 < n,
        0 <= i < n * n,
    ensures
        0 <= ab.0 < n,
        0 <= ab.1 < n,
        cell(n, ab.0, ab.1) == i,
{
    lemma_fundamental_div_mod(i, n);
    lemma_mod_pos_bound(i, n);
    lemma_multiply_divide_lt(i, n, n);
    assert(0 <= i / n) by (nonlinear_arith)
        requires
            0 < n,
            0 <= i,
    ;
    assert(n * (i / n) == (i / n) * n) by (nonlinear_arith);
    (i / n, i % n)
}

proof fn lemma_count_true_set(s: Seq<bool>, i: int)
    requires
        0 <= i < s.len(),
        !s[i],
    ensures
        count_true(s.update(i, true)) == count_true(s) + 1,
    decreases s.len(),
{
    if i == s.len() - 1 {
        assert(s.update(i, true).drop_last() =~= s.drop_last());
    } else {
        lemma_count_true_set(s.drop_last(), i);
        assert(s.update(i, true).drop_last() =~= s.drop_last().update(i, true));
    }
}

proof fn lemma_count_true_all(s: Seq<bool>)
    requires
        forall|i: int| 0 <= i < s.len() ==> s[i],
    ensures
        count_true(s) == s.len(),
    decreases s.len(),
{
    if s.len() > 0 {
        lemma_count_true_all(s.drop_last());
    }
}

proof fn lemma_count_true_none(n: nat)
    ensures
        count_true(Seq::new(n, |i: int| false)) == 0,
    decreases n,
{
    if n > 0 {
        assert(Seq::new(n, |i: int| false).drop_last() =~= Seq::new((n - 1) as nat, |i: int| false));
        lemma_count_true_none((n - 1) as nat);
    }
}

proof fn lemma_bits_of_push(s: Seq<(usize, usize, bool)>, c: (usize, usize, bool))
    ensures
        bits_of(s.push(c)) == bits_of(s) + weight(c),
{
    assert(s.push(c).drop_last() =~= s);
}

/// `(a, b)` has been covered once the scan reaches `(u, v)`: it, or its
/// conjugate, lies strictly before `(u, v)`.
pub open spec fn covered(n: int, a: int, b: int, u: int, v: int) -> bool {
    before(a, b, u, v) || before(conj_coord(n, a), conj_coord(n, b), u, v)
}

/// List candidate coefficient positions in an `n`×`n` FFT block.
///
/// Returns `(u, v, is_self_conjugate)` tuples:
/// - Self-conjugate positions (DC excluded) → 1 bit (real part only).
/// - Canonical representative of a conjugate pair → 2 bits (real + imag).
///
/// DC `(0,0)` is always excluded (too visible).  Together the candidates
/// carry `n * n - 1` bits: every coefficient but DC carries one.
pub fn candidate_coefficients(n: usize) -> (out: Vec<(usize, usize, bool)>)
    requires
        n * n <= usize::MAX,
    ensures
        out@ == candidates(n as nat),
        n > 0 ==> bits_of(out@) == n * n - 1,
        forall|k: int| 0 <= k < out@.len() ==> candidate_entry(n as int, #[trigger] out@[k]),
        forall|i: int, j: int|
            0 <= i < j < out@.len() ==> (#[trigger] out@[i]).0 < (#[trigger] out@[j]).0 || (
            out@[i].0 == out@[j].0 && out@[i].1 < out@[j].1),
{
    let total = n * n;
    let mut visited: Vec<bool> = vec![false; total];
    let mut out: Vec<(usize, usize, bool)> = Vec::new();
    proof {
        assert(visited@ =~= Seq::new(total as nat, |i: int| false));
        lemma_count_true_none(total as nat);
        assert forall|a: int, b: int| 0 <= a < n && 0 <= b < n implies #[trigger] visited@[cell(
            n as int,
            a,
            b,
        )] == covered(n as int, a, b, 0, 0) by {
            lemma_cell_bounds(n as int, a, b);
        }
    }
    let mut u: usize = 0;
    while u < n
        invariant
            u <= n,
            total == n * n,
            visited@.len() == total,
            forall|a: int, b: int|
                0 <= a < n && 0 <= b < n ==> #[trigger] visited@[cell(n as int, a, b)] == covered(
                    n as int,
                    a,
                    b,
                    u as int,
                    0,
                ),
            out@ == candidates_in_rows(n as nat, u as nat),
            count_true(visited@) == bits_of(out@) + if u > 0 {
                1nat
            } else {
                0nat
            },
        decreases n - u,
    {
        let mut v: usize = 0;
        while v < n
            invariant
                u < n,
                v <= n,
                total == n * n,
                visited@.len() == total,
                forall|a: int, b: int|
                    0 <= a < n && 0 <= b < n ==> #[trigger] visited@[cell(n as int, a, b)]
                        == covered(n as int, a, b, u as int, v as int),
                out@ == candidates_in_rows(n as nat, u as nat) + candidates_in_row(
                    n as nat,
                    u as nat,
                    v as nat,
                ),
                count_true(visited@) == bits_of(out@) + if u > 0 || v > 0 {
                    1nat
                } else {
                    0nat
                },
            decreases n - v,
        {
            proof {
                lemma_cell_bounds(n as int, u as int, v as int);
                assert(u * n + v < n * n);
            }
            let idx = u * n + v;
            let ghost out_before = out@;
            let ghost vis_before = visited@;
            let ghost cu: int = conj_coord(n as int, u as int);
            let ghost cv: int = conj_coord(n as int, v as int);
            if !visited[idx] {
                let conj_u = (n - u) % n;
                let conj_v = (n - v) % n;
                proof {
                    if u == 0 {
                        lemma_mod_self_0(n as int);
                    } else {
                        lemma_small_mod((n - u) as nat, n as nat);
                    }
                    if v == 0 {
                        lemma_mod_self_0(n as int);
                    } else {
                        lemma_small_mod((n - v) as nat, n as nat);
                    }
                }
                if u == conj_u && v == conj_v {
                    if !(u == 0 && v == 0) {
                        out.push((u, v, true));
                        proof {
                            lemma_bits_of_push(out_before, (u, v, true));
                        }
                    }
                    proof {
                        lemma_count_true_set(vis_before, idx as int);
                    }
                    visited.set(idx, true);
                } else {
                    out.push((u, v, false));
                    proof {
                        lemma_bits_of_push(out_before, (u, v, false));
                        lemma_cell_bounds(n as int, conj_u as int, conj_v as int);
                        assert(conj_u * n + conj_v < n * n);
                        lemma_count_true_set(vis_before, idx as int);
                        let mid = vis_before.update(idx as int, true);
                        if conj_u * n + conj_v == idx {
                            lemma_cell_injective(
                                n as int,
                                u as int,
                                v as int,
                                conj_u as int,
                                conj_v as int,
                            );
                        }
                        assert(!vis_before[cell(n as int, conj_u as int, conj_v as int)]);
                        lemma_count_true_set(mid, conj_u * n + conj_v);
                    }
                    visited.set(idx, true);
                    visited.set(conj_u * n + conj_v, true);
                }
            }
            proof {
                assert forall|a: int, b: int| 0 <= a < n && 0 <= b < n implies #[trigger] visited@[cell(
                    n as int,
                    a,
                    b,
                )] == covered(n as int, a, b, u as int, v + 1) by {
                    lemma_cell_bounds(n as int, a, b);
                    if cell(n as int, a, b) == idx {
                        lemma_cell_injective(n as int, a, b, u as int, v as int);
                    }
                    if cu >= 0 && cu < n && cv >= 0 && cv < n && cell(n as int, a, b) == cell(
                        n as int,
                        cu,
                        cv,
                    ) {
                        lemma_cell_injective(n as int, a, b, cu, cv);
                    }
                }
                assert(out@ =~= candidates_in_rows(n as nat, u as nat) + candidates_in_row(
                    n as nat,
                    u as nat,
                    (v + 1) as nat,
                ));
            }
            v = v + 1;
        }
        proof {
            assert forall|a: int, b: int| 0 <= a < n && 0 <= b < n implies #[trigger] visited@[cell(
                n as int,
                a,
                b,
            )] == covered(n as int, a, b, u + 1, 0) by {}
            assert(candidates_in_rows(n as nat, (u + 1) as nat) == candidates_in_rows(
                n as nat,
                u as nat,
            ) + candidates_in_row(n as nat, u as nat, n as nat));
        }
        u = u + 1;
    }
    proof {
        if n > 0 {
            assert forall|i: int| 0 <= i < visited@.len() implies visited@[i] by {
                let ab = lemma_cell_of_index(n as int, i);
                assert(visited@[cell(n as int, ab.0, ab.1)]);
            }
            lemma_count_true_all(visited@);
        }
        lemma_candidates_shape(n as nat);
        assert forall|k: int| 0 <= k < out@.len() implies candidate_entry(n as int, #[trigger] out@[k]) by {
            assert(out@[k] == candidates(n as nat)[k]);
        }
        assert forall|i: int, j: int| 0 <= i < j < out@.len() implies (#[trigger] out@[i]).0 < (
        #[trigger] out@[j]).0 || (out@[i].0 == out@[j].0 && out@[i].1 < out@[j].1) by {
            assert(out@[i] == candidates(n as nat)[i] && out@[j] == candidates(n as nat)[j]);
        }
    }
    out
}

/// How many bits one channel of an `n`×`n` block holds: `n * n - 1`.
pub fn bits_per_block(n: usize) -> (bits: usize)
    requires
        n * n <= usize::MAX,
    ensures
        bits == bits_of(candidates(n as nat)),
        n > 0 ==> bits == n * n - 1,
{
    let c = candidate_coefficients(n);
    let mut sum: usize = 0;
    let mut i: usize = 0;
    proof {
        lemma_bits_of_prefix_bound(c@, c@.len() as int);
        assert(c@.subrange(0, c@.len() as int) =~= c@);
        assert(c@.subrange(0, 0) =~= Seq::<(usize, usize, bool)>::empty());
        if n == 0 {
            assert(candidates_in_rows(0, 0) =~= Seq::<(usize, usize, bool)>::empty());
        }
    }
    while i < c.len()
        invariant
            i <= c@.len(),
            c@ == candidates(n as nat),
            sum == bits_of(c@.subrange(0, i as int)),
            bits_of(c@) <= usize::MAX,
            forall|k: int| 0 <= k <= c@.len() ==> bits_of(#[trigger] c@.subrange(0, k)) <= bits_of(c@),
        decreases c@.len() - i,
    {
        proof {
            assert(c@.subrange(0, i + 1).drop_last() =~= c@.subrange(0, i as int));
            assert(bits_of(c@.subrange(0, i + 1)) <= bits_of(c@));
        }
        let (_, _, sc) = c[i];
        if sc {
            sum = sum + 1;
        } else {
            sum = sum + 2;
        }
        i = i + 1;
    }
    proof {
        assert(c@.subrange(0, c@.len() as int) =~= c@);
    }
    sum
}

pub proof fn lemma_bits_of_prefix_bound(s: Seq<(usize, usize, bool)>, k: int)
    requires
        0 <= k <= s.len(),
    ensures
        forall|j: int| 0 <= j <= k ==> bits_of(#[trigger] s.subrange(0, j)) <= bits_of(s.subrange(0, k)),
    decreases k,
{
    if k > 0 {
        lemma_bits_of_prefix_bound(s, k - 1);
        assert(s.subrange(0, k).drop_last() =~= s.subrange(0, k - 1));
    }
    assert(s.subrange(0, s.len() as int) =~= s);
}

// ---------------------------------------------------------------------------
// key-driven pseudo-random streams
// ---------------------------------------------------------------------------

/// Declares `rand`'s standard generator to Verus; nothing inside it is visible.
#[verifier::external_type_specification]
#[verifier::external_body]
pub struct ExStdRng(StdRng);

/// The 32-bit words that successive `next_u32` calls on `rng` return, in order.
pub uninterp spec fn rng_stream(rng: StdRng) -> Map<nat, u32>;

/// The word stream of the generator that `StdRng::from_seed(seed)` builds.
pub uninterp spec fn std_rng_seeded_stream(seed: Seq<u8>) -> Map<nat, u32>;

/// The stream `s` with its first `k` words consumed.
pub open spec fn stream_skip(s: Map<nat, u32>, k: nat) -> Map<nat, u32> {
    if k == 0 {
        s
    } else {
        Map::new(|i: nat| true, |i: nat| s[i + k])
    }
}

/// A generator seeded with `seed` (`StdRng::from_seed`).
///
/// Trusted: its word stream is the one named by `std_rng_seeded_stream`,
/// a function of the seed alone (the generator is deterministic).
#[verifier::external_body]
fn std_rng_from_seed(seed: [u8; 32]) -> (rng: StdRng)
    ensures
        rng_stream(rng) == std_rng_seeded_stream(seed@),
{
    StdRng::from_seed(seed)
}

/// The next word of the generator (`RngCore::next_u32`).
///
/// Trusted: `StdRng` is a block generator that hands out the words of its
/// current block one by one, so the call returns the head of the stream and
/// leaves the rest of it.
#[verifier::external_body]
fn next_u32(rng: &mut StdRng) -> (w: u32)
    ensures
        w == rng_stream(*old(rng))[0],
        rng_stream(*final(rng)) == stream_skip(rng_stream(*old(rng)), 1),
{
    rng.next_u32()
}

/// Byte `i` (little-endian) of a block index.
pub open spec fn index_byte(block_idx: u32, i: int) -> u8 {
    if i == 0 {
        (block_idx % 256) as u8
    } else if i == 1 {
        ((block_idx / 256) % 256) as u8
    } else if i == 2 {
        ((block_idx / 65536) % 256) as u8
    } else {
        (block_idx / 16777216) as u8
    }
}

/// The index bytes are little-endian: byte `i` holds bits `8 i` to `8 i + 7`
/// of the index, and the four bytes rebuild it.
pub proof fn lemma_index_bytes_little_endian(block_idx: u32)
    ensures
        index_byte(block_idx, 0) == block_idx & 0xff,
        index_byte(block_idx, 1) == (block_idx >> 8u32) & 0xff,
        index_byte(block_idx, 2) == (block_idx >> 16u32) & 0xff,
        index_byte(block_idx, 3) == (block_idx >> 24u32) & 0xff,
        block_idx == index_byte(block_idx, 0) + 256 * index_byte(block_idx, 1) + 65536
            * index_byte(block_idx, 2) + 16777216 * index_byte(block_idx, 3),
{
    let a = block_idx;
    assert(a % 256 == a & 0xff) by (bit_vector);
    assert((a / 256) % 256 == (a >> 8u32) & 0xff) by (bit_vector);
    assert((a / 65536) % 256 == (a >> 16u32) & 0xff) by (bit_vector);
    assert(a / 16777216 == (a >> 24u32) & 0xff) by (bit_vector);
    assert(a == a % 256 + 256 * ((a / 256) % 256) + 65536 * ((a / 65536) % 256) + 16777216 * (a
        / 16777216)) by (bit_vector);
}

/// The seed of block `block_idx`: the public key with its first four bytes
/// XORed with the little-endian bytes of the index.
pub open spec fn block_seed(public_key: Seq<u8>, block_idx: u32) -> Seq<u8> {
    Seq::new(
        public_key.len(),
        |i: int|
            if i < 4 {
                public_key[i] ^ index_byte(block_idx, i)
            } else {
                public_key[i]
            },
    )
}

/// The seed of a block is the public key with the little-endian bytes of
/// the block index XORed into its first four bytes; the other bytes are the
/// key's.
pub proof fn lemma_block_seed_layout(public_key: Seq<u8>, block_idx: u32)
    requires
        public_key.len() == 32,
    ensures
        block_seed(public_key, block_idx).len() == 32,
        block_seed(public_key, block_idx)[0] == public_key[0] ^ ((block_idx & 0xff) as u8),
        block_seed(public_key, block_idx)[1] == public_key[1] ^ (((block_idx >> 8u32) & 0xff) as u8),
        block_seed(public_key, block_idx)[2] == public_key[2] ^ (((block_idx >> 16u32) & 0xff) as u8),
        block_seed(public_key, block_idx)[3] == public_key[3] ^ (((block_idx >> 24u32) & 0xff) as u8),
        forall|i: int| 4 <= i < 32 ==> #[trigger] block_seed(public_key, block_idx)[i] == public_key[i],
{
    lemma_index_bytes_little_endian(block_idx);
}

/// Create a deterministic block-level RNG from the public key and block index.
pub fn block_rng(public_key: &[u8; 32], block_idx: u32) -> (rng: StdRng)
    ensures
        rng_stream(rng) == std_rng_seeded_stream(block_seed(public_key@, block_idx)),
{
    let mut seed = *public_key;
    let idx_bytes: [u8; 4] = [
        (block_idx % 256) as u8,
        ((block_idx / 256) % 256) as u8,
        ((block_idx / 65536) % 256) as u8,
        (block_idx / 16777216) as u8,
    ];
    let mut i: usize = 0;
    while i < 4
        invariant
            i <= 4,
            idx_bytes@ == seq![index_byte(block_idx, 0), index_byte(block_idx, 1), index_byte(block_idx, 2), index_byte(block_idx, 3)],
            forall|k: int| 0 <= k < i ==> seed@[k] == public_key@[k] ^ index_byte(block_idx, k),
            forall|k: int| i <= k < 32 ==> seed@[k] == public_key@[k],
        decreases 4 - i,
    {
        seed[i] = seed[i] ^ idx_bytes[i];
        i = i + 1;
    }
    assert(seed@ =~= block_seed(public_key@, block_idx));
    std_rng_from_seed(seed)
}

/// `s` with entries `i` and `j` exchanged.
pub open spec fn swapped<T>(s: Seq<T>, i: int, j: int) -> Seq<T> {
    s.update(i, s[j]).update(j, s[i])
}

/// Fisher-Yates from position `i` down to 1, drawing from `draws`.
pub open spec fn fisher_yates_from<T>(s: Seq<T>, draws: Map<nat, u32>, i: nat) -> Seq<T>
    decreases i,
{
    if i == 0 {
        s
    } else {
        let j = (draws[0] as nat) % (i + 1);
        fisher_yates_from(swapped(s, i as int, j as int), stream_skip(draws, 1), (i - 1) as nat)
    }
}

/// The Fisher-Yates shuffle of `s` driven by the word stream `draws`.
pub open spec fn fisher_yates<T>(s: Seq<T>, draws: Map<nat, u32>) -> Seq<T> {
    if s.len() == 0 {
        s
    } else {
        fisher_yates_from(s, draws, (s.len() - 1) as nat)
    }
}

/// Words a Fisher-Yates shuffle of `len` entries draws.
pub open spec fn shuffle_draws(len: nat) -> nat {
    if len == 0 {
        0
    } else {
        (len - 1) as nat
    }
}

proof fn lemma_stream_skip_skip(s: Map<nat, u32>, a: nat, b: nat)
    ensures
        stream_skip(stream_skip(s, a), b) == stream_skip(s, a + b),
{
    if a > 0 && b > 0 {
        assert forall|i: nat| #[trigger] stream_skip(stream_skip(s, a), b)[i] == stream_skip(
            s,
            a + b,
        )[i] by {
            assert(i + b + a == i + (a + b));
        }
        assert(stream_skip(stream_skip(s, a), b) =~= stream_skip(s, a + b));
    }
}

proof fn lemma_swapped_multiset<T>(s: Seq<T>, i: int, j: int)
    requires
        0 <= i < s.len(),
        0 <= j < s.len(),
    ensures
        swapped(s, i, j).to_multiset() == s.to_multiset(),
        swapped(s, i, j).len() == s.len(),
{
    broadcast use {
        vstd::seq_lib::to_multiset_update,
        vstd::seq_lib::to_multiset_contains,
        vstd::multiset::group_multiset_axioms,
    };

    let m = s.to_multiset();
    let s1 = s.update(i, s[j]);
    assert(s1.to_multiset() == m.insert(s[j]).remove(s[i]));
    assert(s1[j] == s[j]);
    assert(swapped(s, i, j).to_multiset() == s1.to_multiset().insert(s[i]).remove(s[j]));
    assert(s.contains(s[i]));
    assert(m.count(s[i]) > 0);
    assert forall|x: T| #[trigger] swapped(s, i, j).to_multiset().count(x) == m.count(x) by {}
    assert(swapped(s, i, j).to_multiset() =~= m);
}

proof fn lemma_fisher_yates_from_permutes<T>(s: Seq<T>, draws: Map<nat, u32>, i: nat)
    requires
        i < s.len(),
    ensures
        fisher_yates_from(s, draws, i).to_multiset() == s.to_multiset(),
        fisher_yates_from(s, draws, i).len() == s.len(),
    decreases i,
{
    if i > 0 {
        let j = (draws[0] as nat) % (i + 1);
        lemma_swapped_multiset(s, i as int, j as int);
        lemma_fisher_yates_from_permutes(
            swapped(s, i as int, j as int),
            stream_skip(draws, 1),
            (i - 1) as nat,
        );
    }
}

/// A Fisher-Yates shuffle permutes its input: the result holds the same
/// entries, each as many times, whatever the draws.
pub proof fn lemma_fisher_yates_permutes<T>(s: Seq<T>, draws: Map<nat, u32>)
    ensures
        fisher_yates(s, draws).to_multiset() == s.to_multiset(),
        fisher_yates(s, draws).len() == s.len(),
{
    if s.len() > 0 {
        lemma_fisher_yates_from_permutes(s, draws, (s.len() - 1) as nat);
    }
}

proof fn lemma_fisher_yates_from_keeps_above<T>(s: Seq<T>, draws: Map<nat, u32>, i: nat)
    requires
        i < s.len(),
    ensures
        fisher_yates_from(s, draws, i).len() == s.len(),
        forall|k: int| i < k < s.len() ==> #[trigger] fisher_yates_from(s, draws, i)[k] == s[k],
    decreases i,
{
    if i > 0 {
        let j = (draws[0] as nat) % (i + 1);
        let t = swapped(s, i as int, j as int);
        lemma_fisher_yates_from_keeps_above(t, stream_skip(draws, 1), (i - 1) as nat);
        assert forall|k: int| i < k < s.len() implies #[trigger] fisher_yates_from(s, draws, i)[k]
            == s[k] by {
            assert(t[k] == s[k]);
        }
    }
}

/// The last step of a Fisher-Yates shuffle: the last entry of the result is
/// the entry at the first word drawn, taken modulo the length.
pub proof fn lemma_fisher_yates_last<T>(s: Seq<T>, draws: Map<nat, u32>)
    requires
        s.len() > 0,
    ensures
        fisher_yates(s, draws)[s.len() - 1] == s[(draws[0] as int) % (s.len() as int)],
{
    let n = s.len();
    if n == 1 {
        assert((draws[0] as int) % 1 == 0);
    } else {
        let i = (n - 1) as nat;
        let j = (draws[0] as nat) % (i + 1);
        let t = swapped(s, i as int, j as int);
        lemma_fisher_yates_from_keeps_above(t, stream_skip(draws, 1), (i - 1) as nat);
        assert(t[i as int] == s[j as int]);
    }
}

proof fn lemma_fisher_yates_from_prefix<T>(t: Seq<T>, draws: Map<nat, u32>, i: nat)
    requires
        i + 1 < t.len(),
    ensures
        fisher_yates_from(t, draws, i) == fisher_yates_from(t.drop_last(), draws, i).push(t.last()),
    decreases i,
{
    if i == 0 {
        assert(t =~= t.drop_last().push(t.last()));
    } else {
        let j = (draws[0] as nat) % (i + 1);
        let u = swapped(t, i as int, j as int);
        lemma_fisher_yates_from_prefix(u, stream_skip(draws, 1), (i - 1) as nat);
        assert(u.drop_last() =~= swapped(t.drop_last(), i as int, j as int));
        assert(u.last() == t.last());
    }
}

/// A Fisher-Yates shuffle swaps the last entry with the entry at the first
/// word drawn modulo the length, then shuffles the entries before the last
/// one with the following words.
pub proof fn lemma_fisher_yates_step<T>(s: Seq<T>, draws: Map<nat, u32>)
    requires
        s.len() >= 2,
    ensures
        ({
            let j = (draws[0] as int) % (s.len() as int);
            let t = s.update(s.len() - 1, s[j]).update(j, s[s.len() - 1]);
            fisher_yates(s, draws) == fisher_yates(t.drop_last(), stream_skip(draws, 1)).push(
                t.last(),
            )
        }),
{
    let n = s.len();
    let i = (n - 1) as nat;
    let j = (draws[0] as nat) % (i + 1);
    let t = swapped(s, i as int, j as int);
    lemma_fisher_yates_from_prefix(t, stream_skip(draws, 1), (i - 1) as nat);
}

/// Fisher-Yates shuffle of `items` in place, drawing words from `rng`.
fn shuffle_in_place<T: Copy>(items: &mut Vec<T>, rng: &mut StdRng)
    ensures
        final(items)@ == fisher_yates(old(items)@, rng_stream(*old(rng))),
        rng_stream(*final(rng)) == stream_skip(
            rng_stream(*old(rng)),
            shuffle_draws(old(items)@.len()),
        ),
        final(items)@.to_multiset() == old(items)@.to_multiset(),
        final(items)@.len() == old(items)@.len(),
        old(items)@.len() > 0 ==> final(items)@[old(items)@.len() - 1] == old(items)@[(rng_stream(
            *old(rng),
        )[0] as int) % (old(items)@.len() as int)],
{
    proof {
        lemma_fisher_yates_permutes(items@, rng_stream(*rng));
        if items@.len() > 0 {
            lemma_fisher_yates_last(items@, rng_stream(*rng));
        }
    }
    let len = items.len();
    if len == 0 {
        return;
    }
    let ghost target = fisher_yates(items@, rng_stream(*rng));
    let ghost start = rng_stream(*rng);
    let mut i: usize = len - 1;
    while i > 0
        invariant
            i < len,
            items@.len() == len,
            fisher_yates_from(items@, rng_stream(*rng), i as nat) == target,
            rng_stream(*rng) == stream_skip(start, (len - 1 - i) as nat),
        decreases i,
    {
        let ghost before = rng_stream(*rng);
        let ghost prev = items@;
        let w = next_u32(rng);
        let j = (w as usize) % (i + 1);
        let a = items[i];
        let b = items[j];
        items.set(i, b);
        items.set(j, a);
        proof {
            lemma_stream_skip_skip(start, (len - 1 - i) as nat, 1);
            assert(items@ =~= swapped(prev, i as int, j as int));
        }
        i = i - 1;
    }
    proof {
        assert(shuffle_draws(len as nat) == len - 1);
    }
}

/// Fisher-Yates shuffle for block indices.
pub fn shuffle_indices(indices: &mut Vec<usize>, rng: &mut StdRng)
    ensures
        final(indices)@ == fisher_yates(old(indices)@, rng_stream(*old(rng))),
        rng_stream(*final(rng)) == stream_skip(
            rng_stream(*old(rng)),
            shuffle_draws(old(indices)@.len()),
        ),
        final(indices)@.to_multiset() == old(indices)@.to_multiset(),
        old(indices)@.len() > 0 ==> final(indices)@[old(indices)@.len() - 1] == old(indices)@[(rng_stream(
            *old(rng),
        )[0] as int) % (old(indices)@.len() as int)],
{
    shuffle_in_place(indices, rng);
}

/// Fisher-Yates shuffle for coefficient tuples.
pub fn shuffle_coeffs(coeffs: &mut Vec<(usize, usize, bool)>, rng: &mut StdRng)
    ensures
        final(coeffs)@ == fisher_yates(old(coeffs)@, rng_stream(*old(rng))),
        rng_stream(*final(rng)) == stream_skip(
            rng_stream(*old(rng)),
            shuffle_draws(old(coeffs)@.len()),
        ),
        final(coeffs)@.to_multiset() == old(coeffs)@.to_multiset(),
        old(coeffs)@.len() > 0 ==> final(coeffs)@[old(coeffs)@.len() - 1] == old(coeffs)@[(rng_stream(
            *old(rng),
        )[0] as int) % (old(coeffs)@.len() as int)],
{
    shuffle_in_place(coeffs, rng);
}

proof fn lemma_index_bytes_determine(a: u32, b: u32)
    requires
        forall|i: int| 0 <= i < 4 ==> index_byte(a, i) == index_byte(b, i),
    ensures
        a == b,
{
    assert(index_byte(a, 0) == index_byte(b, 0));
    assert(index_byte(a, 1) == index_byte(b, 1));
    assert(index_byte(a, 2) == index_byte(b, 2));
    assert(index_byte(a, 3) == index_byte(b, 3));
    assert(a % 256 == b % 256);
    assert((a / 256) % 256 == (b / 256) % 256);
    assert((a / 65536) % 256 == (b / 65536) % 256);
    assert(a / 16777216 == b / 16777216);
    assert(a == b) by (bit_vector)
        requires
            a % 256 == b % 256,
            (a / 256) % 256 == (b / 256) % 256,
            (a / 65536) % 256 == (b / 65536) % 256,
            a / 16777216 == b / 16777216,
    ;
}

/// Two different block indices give two different block seeds, under any key.
pub proof fn lemma_block_seeds_distinct(public_key: Seq<u8>, a: u32, b: u32)
    requires
        public_key.len() == 32,
        a != b,
    ensures
        block_seed(public_key, a) != block_seed(public_key, b),
{
    if forall|i: int| 0 <= i < 4 ==> index_byte(a, i) == index_byte(b, i) {
        lemma_index_bytes_determine(a, b);
    }
    let i = choose|i: int| 0 <= i < 4 && index_byte(a, i) != index_byte(b, i);
    let p = public_key[i];
    let x = index_byte(a, i);
    let y = index_byte(b, i);
    assert(p ^ x != p ^ y) by (bit_vector)
        requires
            x != y,
    ;
    assert(block_seed(public_key, a)[i] != block_seed(public_key, b)[i]);
}

proof fn lemma_bits_of_update(s: Seq<(usize, usize, bool)>, i: int, a: (usize, usize, bool))
    requires
        0 <= i < s.len(),
    ensures
        bits_of(s.update(i, a)) + weight(s[i]) == bits_of(s) + weight(a),
    decreases s.len(),
{
    if i == s.len() - 1 {
        assert(s.update(i, a).drop_last() =~= s.drop_last());
    } else {
        lemma_bits_of_update(s.drop_last(), i, a);
        assert(s.update(i, a).drop_last() =~= s.drop_last().update(i, a));
    }
}

proof fn lemma_bits_of_fisher_yates_from(
    s: Seq<(usize, usize, bool)>,
    draws: Map<nat, u32>,
    i: nat,
)
    requires
        i < s.len(),
    ensures
        bits_of(fisher_yates_from(s, draws, i)) == bits_of(s),
    decreases i,
{
    if i > 0 {
        let j = (draws[0] as nat) % (i + 1);
        let s1 = s.update(i as int, s[j as int]);
        lemma_bits_of_update(s, i as int, s[j as int]);
        lemma_bits_of_update(s1, j as int, s[i as int]);
        lemma_bits_of_fisher_yates_from(
            swapped(s, i as int, j as int),
            stream_skip(draws, 1),
            (i - 1) as nat,
        );
    }
}

/// Shuffling candidates does not change how many bits they carry.
pub proof fn lemma_bits_of_fisher_yates(s: Seq<(usize, usize, bool)>, draws: Map<nat, u32>)
    ensures
        bits_of(fisher_yates(s, draws)) == bits_of(s),
{
    if s.len() > 0 {
        lemma_bits_of_fisher_yates_from(s, draws, (s.len() - 1) as nat);
    }
}

/// The coefficient orders of the red, green and blue channels of block
/// `block_idx`: the candidates of an 8×8 block shuffled three times in a row
/// by the block's generator.
pub open spec fn channel_orders(public_key: Seq<u8>, block_idx: u32) -> Seq<
    Seq<(usize, usize, bool)>,
> {
    let c = candidates(BLOCK as nat);
    let d = shuffle_draws(c.len());
    let s0 = std_rng_seeded_stream(block_seed(public_key, block_idx));
    let s1 = stream_skip(s0, d);
    let s2 = stream_skip(s1, d);
    seq![fisher_yates(c, s0), fisher_yates(c, s1), fisher_yates(c, s2)]
}

/// The coefficient orders of the three channels of one block.
pub fn block_channel_orders(public_key: &[u8; 32], block_idx: u32) -> (orders: Vec<
    Vec<(usize, usize, bool)>,
>)
    ensures
        orders@.len() == 3,
        forall|ch: int| 0 <= ch < 3 ==> #[trigger] orders@[ch]@ == channel_orders(public_key@, block_idx)[ch],
{
    let mut rng = block_rng(public_key, block_idx);
    let ghost s0 = rng_stream(rng);
    let mut orders: Vec<Vec<(usize, usize, bool)>> = Vec::new();
    let mut ch: usize = 0;
    while ch < 3
        invariant
            ch <= 3,
            s0 == std_rng_seeded_stream(block_seed(public_key@, block_idx)),
            orders@.len() == ch,
            rng_stream(rng) == if ch == 0 {
                s0
            } else if ch == 1 {
                stream_skip(s0, shuffle_draws(candidates(BLOCK as nat).len()))
            } else if ch == 2 {
                stream_skip(stream_skip(s0, shuffle_draws(candidates(BLOCK as nat).len())), shuffle_draws(candidates(BLOCK as nat).len()))
            } else {
                rng_stream(rng)
            },
            forall|c: int| 0 <= c < ch ==> #[trigger] orders@[c]@ == channel_orders(public_key@, block_idx)[c],
        decreases 3 - ch,
    {
        let mut coeffs = candidate_coefficients(BLOCK);
        shuffle_coeffs(&mut coeffs, &mut rng);
        orders.push(coeffs);
        ch = ch + 1;
    }
    orders
}

/// How many coefficients of `c`, from the `m`-th on, a channel holding
/// `budget` bits goes through: it stops once the bits taken reach the budget.
pub open spec fn used_from(c: Seq<(usize, usize, bool)>, budget: nat, m: nat) -> nat
    decreases c.len() - m,
{
    if m >= c.len() || bits_of(c.subrange(0, m as int)) >= budget {
        m
    } else {
        used_from(c, budget, m + 1)
    }
}

/// How many coefficients of `c` a channel holding `budget` bits goes through.
pub open spec fn used(c: Seq<(usize, usize, bool)>, budget: nat) -> nat {
    used_from(c, budget, 0)
}

proof fn lemma_used_from_all(c: Seq<(usize, usize, bool)>, m: nat)
    requires
        m <= c.len(),
    ensures
        used_from(c, bits_of(c), m) == c.len(),
    decreases c.len() - m,
{
    if m < c.len() {
        lemma_bits_of_prefix_bound(c, c.len() as int);
        assert(c.subrange(0, c.len() as int) =~= c);
        lemma_bits_of_prefix_strict(c, m as int);
        lemma_used_from_all(c, m + 1);
    }
}

proof fn lemma_bits_of_prefix_strict(c: Seq<(usize, usize, bool)>, m: int)
    requires
        0 <= m < c.len(),
    ensures
        bits_of(c.subrange(0, m)) < bits_of(c),
{
    lemma_bits_of_prefix_bound(c, c.len() as int);
    assert(c.subrange(0, m + 1).drop_last() =~= c.subrange(0, m));
    assert(c.subrange(0, c.len() as int) =~= c);
    assert(bits_of(c.subrange(0, m + 1)) <= bits_of(c.subrange(0, c.len() as int)));
}

/// A channel whose budget is all the bits of its coefficients goes through
/// all of them.
pub proof fn lemma_used_all(c: Seq<(usize, usize, bool)>)
    ensures
        used(c, bits_of(c)) == c.len(),
{
    lemma_used_from_all(c, 0);
}

/// Every entry of a candidate list (of the first `u` rows, plus the first
/// `v` entries of row `u`) is a position of the block.
proof fn lemma_candidates_in_row_range(n: nat, u: nat, v: nat)
    requires
        u < n,
        v <= n,
        n <= usize::MAX,
    ensures
        forall|k: int| 0 <= k < candidates_in_row(n, u, v).len() ==> #[trigger] candidates_in_row(n, u, v)[k].0 < n && candidates_in_row(n, u, v)[k].1 < n,
    decreases v,
{
    if v > 0 {
        lemma_candidates_in_row_range(n, u, (v - 1) as nat);
        let prev = candidates_in_row(n, u, (v - 1) as nat);
        assert forall|k: int| 0 <= k < candidates_in_row(n, u, v).len() implies #[trigger] candidates_in_row(n, u, v)[k].0 < n && candidates_in_row(n, u, v)[k].1 < n by {
            if k < prev.len() {
                assert(candidates_in_row(n, u, v)[k] == prev[k]);
            } else {
                assert(candidates_in_row(n, u, v)[k] == (u as usize, (v - 1) as usize, self_conjugate(n as int, u as int, v - 1)));
            }
        }
    }
}

proof fn lemma_candidates_in_rows_range(n: nat, u: nat)
    requires
        u <= n,
        n <= usize::MAX,
    ensures
        forall|k: int| 0 <= k < candidates_in_rows(n, u).len() ==> #[trigger] candidates_in_rows(n, u)[k].0 < n && candidates_in_rows(n, u)[k].1 < n,
    decreases u,
{
    if u > 0 {
        lemma_candidates_in_rows_range(n, (u - 1) as nat);
        lemma_candidates_in_row_range(n, (u - 1) as nat, n);
        let a = candidates_in_rows(n, (u - 1) as nat);
        let b = candidates_in_row(n, (u - 1) as nat, n);
        assert forall|k: int| 0 <= k < (a + b).len() implies #[trigger] (a + b)[k].0 < n && (a + b)[k].1 < n by {
            if k < a.len() {
                assert((a + b)[k] == a[k]);
            } else {
                assert((a + b)[k] == b[k - a.len()]);
            }
        }
    }
}

/// A candidate entry `(u, v, sc)` of an `n`×`n` block, stated without the
/// layout's own spec functions: inside the block, not DC, not preceded in
/// row-major order by its Hermitian partner `((n - u) mod n, (n - v) mod n)`,
/// and flagged self-conjugate exactly when it is its own partner.
pub open spec fn candidate_entry(n: int, e: (usize, usize, bool)) -> bool {
    let (u, v, sc) = e;
    let cu = (n - u) % n;
    let cv = (n - v) % n;
    &&& u < n
    &&& v < n
    &&& !(u == 0 && v == 0)
    &&& !(cu < u || (cu == u && cv < v))
    &&& sc == (cu == u && cv == v)
}

proof fn lemma_conj_coord_mod(n: int, a: int)
    requires
        0 <= a < n,
    ensures
        conj_coord(n, a) == (n - a) % n,
{
    if a == 0 {
        vstd::arithmetic::div_mod::lemma_mod_self_0(n);
    } else {
        vstd::arithmetic::div_mod::lemma_small_mod((n - a) as nat, n as nat);
    }
}

proof fn lemma_candidates_in_row_shape(n: nat, u: nat, v: nat)
    requires
        u < n,
        v <= n,
        n <= usize::MAX,
    ensures
        forall|k: int|
            0 <= k < candidates_in_row(n, u, v).len() ==> {
                &&& #[trigger] candidates_in_row(n, u, v)[k].0 == u
                &&& candidates_in_row(n, u, v)[k].1 < v
                &&& candidate_entry(n as int, candidates_in_row(n, u, v)[k])
            },
        forall|i: int, j: int|
            0 <= i < j < candidates_in_row(n, u, v).len() ==> #[trigger] candidates_in_row(n, u, v)[i].1
                < #[trigger] candidates_in_row(n, u, v)[j].1,
    decreases v,
{
    if v > 0 {
        lemma_candidates_in_row_shape(n, u, (v - 1) as nat);
        let prev = candidates_in_row(n, u, (v - 1) as nat);
        let cur = candidates_in_row(n, u, v);
        lemma_conj_coord_mod(n as int, u as int);
        lemma_conj_coord_mod(n as int, v - 1);
        assert forall|k: int| 0 <= k < cur.len() implies {
            &&& #[trigger] cur[k].0 == u
            &&& cur[k].1 < v
            &&& candidate_entry(n as int, cur[k])
        } by {
            if k < prev.len() {
                assert(cur[k] == prev[k]);
            }
        }
        assert forall|i: int, j: int| 0 <= i < j < cur.len() implies #[trigger] cur[i].1
            < #[trigger] cur[j].1 by {
            if j < prev.len() {
                assert(cur[i] == prev[i] && cur[j] == prev[j]);
            } else {
                assert(cur[i] == prev[i]);
                assert(cur.len() <= prev.len() + 1);
                assert(0 <= i < prev.len());
                assert(candidates_in_row(n, u, (v - 1) as nat)[i].0 == u);
                assert(prev[i].1 < v - 1);
                assert(cur[j].1 == v - 1);
            }
        }
    }
}

/// The candidates of an `n`×`n` block come in strictly increasing row-major
/// order, and each is a coefficient of the block other than DC that is not
/// preceded by its Hermitian partner, flagged self-conjugate exactly when it
/// is its own partner.
pub proof fn lemma_candidates_shape(n: nat)
    requires
        n <= usize::MAX,
    ensures
        forall|k: int| 0 <= k < candidates(n).len() ==> candidate_entry(n as int, #[trigger] candidates(n)[k]),
        forall|i: int, j: int|
            0 <= i < j < candidates(n).len() ==> {
                let a = #[trigger] candidates(n)[i];
                let b = #[trigger] candidates(n)[j];
                a.0 < b.0 || (a.0 == b.0 && a.1 < b.1)
            },
{
    lemma_candidates_in_rows_shape(n, n);
}

proof fn lemma_candidates_in_rows_shape(n: nat, u: nat)
    requires
        u <= n,
        n <= usize::MAX,
    ensures
        forall|k: int|
            0 <= k < candidates_in_rows(n, u).len() ==> #[trigger] candidates_in_rows(n, u)[k].0 < u
                && candidate_entry(n as int, candidates_in_rows(n, u)[k]),
        forall|i: int, j: int|
            0 <= i < j < candidates_in_rows(n, u).len() ==> {
                let a = #[trigger] candidates_in_rows(n, u)[i];
                let b = #[trigger] candidates_in_rows(n, u)[j];
                a.0 < b.0 || (a.0 == b.0 && a.1 < b.1)
            },
    decreases u,
{
    if u > 0 {
        lemma_candidates_in_rows_shape(n, (u - 1) as nat);
        lemma_candidates_in_row_shape(n, (u - 1) as nat, n);
        let a = candidates_in_rows(n, (u - 1) as nat);
        let b = candidates_in_row(n, (u - 1) as nat, n);
        let c = candidates_in_rows(n, u);
        assert(c == a + b);
        assert forall|k: int| 0 <= k < c.len() implies #[trigger] c[k].0 < u && candidate_entry(
            n as int,
            c[k],
        ) by {
            if k < a.len() {
                assert(c[k] == a[k]);
            } else {
                assert(c[k] == b[k - a.len()]);
            }
        }
        assert forall|i: int, j: int| 0 <= i < j < c.len() implies {
            let x = #[trigger] c[i];
            let y = #[trigger] c[j];
            x.0 < y.0 || (x.0 == y.0 && x.1 < y.1)
        } by {
            if j < a.len() {
                assert(c[i] == a[i] && c[j] == a[j]);
            } else if i < a.len() {
                assert(c[i] == a[i] && c[j] == b[j - a.len()]);
            } else {
                assert(c[i] == b[i - a.len()] && c[j] == b[j - a.len()]);
            }
        }
    }
}

/// The candidates of a block, in any shuffled order, are positions of the
/// block.
pub proof fn lemma_shuffled_candidates_in_range(n: nat, draws: Map<nat, u32>)
    requires
        n <= usize::MAX,
    ensures
        forall|k: int| 0 <= k < fisher_yates(candidates(n), draws).len() ==> #[trigger] fisher_yates(candidates(n), draws)[k].0 < n && fisher_yates(candidates(n), draws)[k].1 < n,
{
    broadcast use vstd::seq_lib::to_multiset_contains;

    let c = candidates(n);
    let o = fisher_yates(c, draws);
    lemma_candidates_in_rows_range(n, n);
    lemma_fisher_yates_permutes(c, draws);
    assert forall|k: int| 0 <= k < o.len() implies #[trigger] o[k].0 < n && o[k].1 < n by {
        assert(o.contains(o[k]));
        assert(o.to_multiset().count(o[k]) > 0);
        assert(c.contains(o[k]));
        let j = choose|j: int| 0 <= j < c.len() && c[j] == o[k];
        assert(c[j].0 < n);
    }
}

} // verus!
