//! Embedding a signed message into a picture: the plan.
//!
//! ```text
//! Picture + Secret Seed + Message
//!   → derive public key
//!   → Payload { pubkey, signature, message }
//!   → encode to bytes → bits
//!   → divide picture into 8×8 blocks
//!   → PRNG(pubkey, block_idx) selects which coefficients to modify
//!   → block FFT → QIM embed → Hermitian fix → IFFT
//! ```
//!
//! This module decides everything but the floating-point work: which blocks
//! are used and in which order, and which coefficient of which channel
//! receives which payload bit.
use vstd::prelude::*;

use crate::block::{
    bits_of, bits_per_block, block_channel_orders, block_rng, block_seed, candidates,
    channel_orders, conj_coord, fisher_yates, lemma_bits_of_fisher_yates,
    lemma_bits_of_prefix_bound, lemma_shuffled_candidates_in_range, shuffle_draws,
    shuffle_indices, std_rng_seeded_stream, stream_skip, used, used_from, BLOCK,
};
use crate::crypto::{derive_public, ed25519_public_key, ed25519_signature, verification_of, VerifyResult};
use crate::error::{fails_with, WsntpError};
use crate::payload::{
    encoding_of, signing_input_of, too_long_text, Payload, HEADER_SIZE, MAX_MESSAGE_LEN,
};
use crate::picture::{block_offset, Picture};
use crate::text::{decimal, push_decimal};

verus! {

/// The mask of bit `k` (0 = most significant) of a byte.
pub open spec fn bit_mask(k: int) -> u8 {
    if k == 0 {
        0x80u8
    } else if k == 1 {
        0x40u8
    } else if k == 2 {
        0x20u8
    } else if k == 3 {
        0x10u8
    } else if k == 4 {
        0x08u8
    } else if k == 5 {
        0x04u8
    } else if k == 6 {
        0x02u8
    } else {
        0x01u8
    }
}

/// Bit `k` (0 = most significant) of byte `x`.
pub open spec fn bit_of_byte(x: u8, k: int) -> bool {
    x & bit_mask(k) != 0u8
}

/// `0x80 >> k` is the mask of bit `k`.
pub proof fn lemma_shifted_mask(k: u8)
    requires
        k < 8,
    ensures
        0x80u8 >> k == bit_mask(k as int),
{
    if k == 0 {
        assert(0x80u8 >> 0u8 == 0x80u8) by (bit_vector);
    } else if k == 1 {
        assert(0x80u8 >> 1u8 == 0x40u8) by (bit_vector);
    } else if k == 2 {
        assert(0x80u8 >> 2u8 == 0x20u8) by (bit_vector);
    } else if k == 3 {
        assert(0x80u8 >> 3u8 == 0x10u8) by (bit_vector);
    } else if k == 4 {
        assert(0x80u8 >> 4u8 == 0x08u8) by (bit_vector);
    } else if k == 5 {
        assert(0x80u8 >> 5u8 == 0x04u8) by (bit_vector);
    } else if k == 6 {
        assert(0x80u8 >> 6u8 == 0x02u8) by (bit_vector);
    } else {
        assert(0x80u8 >> 7u8 == 0x01u8) by (bit_vector);
    }
}

/// Bit `k` of a byte counts from the most significant bit: it is the
/// remainder modulo 2 of the byte divided by `2^(7 - k)`.
pub proof fn lemma_bit_of_byte_msb_first(x: u8, k: int)
    requires
        0 <= k < 8,
    ensures
        bit_of_byte(x, k) <==> (x as int / vstd::arithmetic::power2::pow2((7 - k) as nat) as int) % 2 == 1,
{
    vstd::arithmetic::power2::lemma2_to64();
    if k == 0 {
        assert((x & 0x80u8 != 0u8) <==> (x / 128) % 2 == 1) by (bit_vector);
        assert(vstd::arithmetic::power2::pow2((7 - k) as nat) == 128);
    } else if k == 1 {
        assert((x & 0x40u8 != 0u8) <==> (x / 64) % 2 == 1) by (bit_vector);
        assert(vstd::arithmetic::power2::pow2((7 - k) as nat) == 64);
    } else if k == 2 {
        assert((x & 0x20u8 != 0u8) <==> (x / 32) % 2 == 1) by (bit_vector);
        assert(vstd::arithmetic::power2::pow2((7 - k) as nat) == 32);
    } else if k == 3 {
        assert((x & 0x10u8 != 0u8) <==> (x / 16) % 2 == 1) by (bit_vector);
        assert(vstd::arithmetic::power2::pow2((7 - k) as nat) == 16);
    } else if k == 4 {
        assert((x & 0x08u8 != 0u8) <==> (x / 8) % 2 == 1) by (bit_vector);
        assert(vstd::arithmetic::power2::pow2((7 - k) as nat) == 8);
    } else if k == 5 {
        assert((x & 0x04u8 != 0u8) <==> (x / 4) % 2 == 1) by (bit_vector);
        assert(vstd::arithmetic::power2::pow2((7 - k) as nat) == 4);
    } else if k == 6 {
        assert((x & 0x02u8 != 0u8) <==> (x / 2) % 2 == 1) by (bit_vector);
        assert(vstd::arithmetic::power2::pow2((7 - k) as nat) == 2);
    } else {
        assert((x & 0x01u8 != 0u8) <==> x % 2 == 1) by (bit_vector);
        assert(vstd::arithmetic::power2::pow2((7 - k) as nat) == 1);
        assert(x as int / 1 == x as int);
    }
}

/// The bits of `bytes`, most significant bit of each byte first.
pub open spec fn bits_of_bytes(bytes: Seq<u8>) -> Seq<bool> {
    Seq::new(8 * bytes.len(), |j: int| bit_of_byte(bytes[j / 8], j % 8))
}

/// Expand bytes into bits, most significant bit first.
pub fn bytes_to_bits(bytes: &[u8]) -> (bits: Vec<bool>)
    requires
        8 * bytes@.len() <= usize::MAX,
    ensures
        bits@ == bits_of_bytes(bytes@),
{
    let mut bits: Vec<bool> = Vec::new();
    let mut i: usize = 0;
    while i < bytes.len()
        invariant
            i <= bytes@.len(),
            8 * bytes@.len() <= usize::MAX,
            bits@.len() == 8 * i,
            forall|j: int| 0 <= j < bits@.len() ==> #[trigger] bits@[j] == bit_of_byte(bytes@[j / 8], j % 8),
        decreases bytes@.len() - i,
    {
        let b = bytes[i];
        let mut k: u8 = 0;
        while k < 8
            invariant
                i < bytes@.len(),
                b == bytes@[i as int],
                k <= 8,
                bits@.len() == 8 * i + k,
                forall|j: int| 0 <= j < bits@.len() ==> #[trigger] bits@[j] == bit_of_byte(bytes@[j / 8], j % 8),
            decreases 8 - k,
        {
            let ghost j = bits@.len() as int;
            assert(j / 8 == i && j % 8 == k) by {
                vstd::arithmetic::div_mod::lemma_fundamental_div_mod_converse(j, 8, i as int, k as int);
            }
            proof {
                lemma_shifted_mask(k);
            }
            bits.push(b & (0x80u8 >> k) != 0);
            k = k + 1;
        }
        i = i + 1;
    }
    assert(bits@ =~= bits_of_bytes(bytes@));
    bits
}

/// Bit `i` of `bits`, or `false` past the end.
pub open spec fn bit_or_false(bits: Seq<bool>, i: int) -> bool {
    if 0 <= i < bits.len() {
        bits[i]
    } else {
        false
    }
}

/// What to write into one coefficient of a channel's spectrum.
///
/// A self-conjugate coefficient gets `re_bit` in its real part (and is left
/// alone when `re_bit` is `None`, past the end of the payload).  Any other
/// coefficient gets `re_bit` and `im_bit` in its real and imaginary parts,
/// and its conjugate at `(conj_u, conj_v)` is set to keep the block real.
#[derive(Clone, Copy, Debug, PartialEq, Eq)]
pub struct CoeffWrite {
    pub u: usize,
    pub v: usize,
    pub conj_u: usize,
    pub conj_v: usize,
    pub self_conjugate: bool,
    pub re_bit: Option<bool>,
    pub im_bit: bool,
}

/// The write for the `k`-th coefficient of the order `c` of an `n`×`n`
/// block, when the channel's first bit is payload bit `offset`.
pub open spec fn write_for(
    c: Seq<(usize, usize, bool)>,
    n: int,
    bits: Seq<bool>,
    offset: int,
    k: int,
) -> CoeffWrite {
    let (u, v, sc) = c[k];
    let first = offset + bits_of(c.subrange(0, k));
    CoeffWrite {
        u,
        v,
        conj_u: conj_coord(n, u as int) as usize,
        conj_v: conj_coord(n, v as int) as usize,
        self_conjugate: sc,
        re_bit: if sc {
            if first < bits.len() {
                Some(bits[first])
            } else {
                None
            }
        } else {
            Some(bit_or_false(bits, first))
        },
        im_bit: if sc {
            false
        } else {
            bit_or_false(bits, first + 1)
        },
    }
}

/// The bit a write puts into the real part (`false` where it leaves the
/// coefficient alone).
pub open spec fn real_bit(w: CoeffWrite) -> bool {
    match w.re_bit {
        Some(b) => b,
        None => false,
    }
}

/// The bits that reading coefficients back gets from `writes` when nothing
/// disturbs them: the real part of each coefficient, and the imaginary part
/// of one that is not self-conjugate.
pub open spec fn carried(writes: Seq<CoeffWrite>) -> Seq<bool>
    decreases writes.len(),
{
    if writes.len() == 0 {
        Seq::empty()
    } else {
        let w = writes.last();
        carried(writes.drop_last()) + if w.self_conjugate {
            seq![real_bit(w)]
        } else {
            seq![real_bit(w), w.im_bit]
        }
    }
}

/// Payload bits land in a channel's coefficients one after another: the
/// writes for an order, read back in that order, give the payload bits from
/// the channel's first bit on, as many as the order carries (`false` past
/// the end of the payload).
pub proof fn lemma_writes_carry_bits(
    c: Seq<(usize, usize, bool)>,
    n: int,
    bits: Seq<bool>,
    offset: int,
)
    requires
        offset >= 0,
    ensures
        carried(Seq::new(c.len(), |k: int| write_for(c, n, bits, offset, k))) == Seq::new(
            bits_of(c),
            |i: int| bit_or_false(bits, offset + i),
        ),
    decreases c.len(),
{
    let ws = Seq::new(c.len(), |k: int| write_for(c, n, bits, offset, k));
    if c.len() > 0 {
        let p = c.drop_last();
        lemma_writes_carry_bits(p, n, bits, offset);
        let wp = Seq::new(p.len(), |k: int| write_for(p, n, bits, offset, k));
        assert forall|k: int| 0 <= k < p.len() implies #[trigger] wp[k] == ws[k] by {
            assert(p.subrange(0, k) =~= c.subrange(0, k));
        }
        assert(ws.drop_last() =~= wp);
        let k = c.len() - 1;
        assert(c.subrange(0, k) =~= p);
        let first = offset + bits_of(p);
        let w = ws.last();
        assert(w == write_for(c, n, bits, offset, k));
        let head = Seq::new(bits_of(p), |i: int| bit_or_false(bits, offset + i));
        let all = Seq::new(bits_of(c), |i: int| bit_or_false(bits, offset + i));
        if w.self_conjugate {
            assert(real_bit(w) == bit_or_false(bits, first));
            assert(all =~= head + seq![real_bit(w)]);
        } else {
            assert(all =~= head + seq![real_bit(w), w.im_bit]);
        }
    } else {
        assert(ws =~= Seq::<CoeffWrite>::empty());
        assert(Seq::new(bits_of(c), |i: int| bit_or_false(bits, offset + i)) =~= Seq::<bool>::empty());
    }
}

/// What a write does to the `k`-th coefficient `(u, v)` of an order: it names
/// that coefficient, and its Hermitian partner `((n - u) mod n, (n - v) mod n)`
/// whose value is set to the conjugate; a self-conjugate coefficient gets the
/// channel's next payload bit in its real part (nothing past the end of the
/// payload), any other the next two bits in its real and imaginary parts
/// (`false` past the end).
pub proof fn lemma_write_for_coefficient(
    c: Seq<(usize, usize, bool)>,
    n: int,
    bits: Seq<bool>,
    offset: int,
    k: int,
)
    requires
        0 < n <= usize::MAX,
        0 <= k < c.len(),
        c[k].0 < n,
        c[k].1 < n,
        offset >= 0,
    ensures
        ({
            let w = write_for(c, n, bits, offset, k);
            let first = offset + bits_of(c.subrange(0, k));
            &&& w.u == c[k].0
            &&& w.v == c[k].1
            &&& w.conj_u == (n - c[k].0) % n
            &&& w.conj_v == (n - c[k].1) % n
            &&& w.self_conjugate == c[k].2
            &&& c[k].2 ==> w.re_bit == (if first < bits.len() {
                Some(bits[first])
            } else {
                None
            }) && !w.im_bit
            &&& !c[k].2 ==> w.re_bit == Some(first < bits.len() && bits[first])
            &&& !c[k].2 ==> w.im_bit == (first + 1 < bits.len() && bits[first + 1])
        }),
{
    let u = c[k].0 as int;
    let v = c[k].1 as int;
    if u == 0 {
        vstd::arithmetic::div_mod::lemma_mod_self_0(n);
    } else {
        vstd::arithmetic::div_mod::lemma_small_mod((n - u) as nat, n as nat);
    }
    if v == 0 {
        vstd::arithmetic::div_mod::lemma_mod_self_0(n);
    } else {
        vstd::arithmetic::div_mod::lemma_small_mod((n - v) as nat, n as nat);
    }
}

/// Plan the embedding of payload bits into one channel's coefficients.
///
/// Walks the coefficients in `coeffs` order, starting at payload bit
/// `bit_offset`, until `budget` bits are taken: one bit for a
/// self-conjugate coefficient, two for any other.  Returns the writes and
/// the number of bits taken.
pub fn channel_writes(
    coeffs: &Vec<(usize, usize, bool)>,
    n: usize,
    bits: &Vec<bool>,
    bit_offset: usize,
    budget: usize,
) -> (r: (Vec<CoeffWrite>, usize))
    requires
        n > 0,
        forall|k: int| 0 <= k < coeffs@.len() ==> #[trigger] coeffs@[k].0 < n && coeffs@[k].1 < n,
        bit_offset + bits_of(coeffs@) <= usize::MAX,
    ensures
        r.0@.len() == used(coeffs@, budget as nat),
        forall|k: int| 0 <= k < r.0@.len() ==> #[trigger] r.0@[k] == write_for(coeffs@, n as int, bits@, bit_offset as int, k),
        r.1 == bits_of(coeffs@.subrange(0, used(coeffs@, budget as nat) as int)),
        bits_of(coeffs@) == budget ==> r.0@.len() == coeffs@.len() && r.1 == budget,
        forall|k: int|
            0 <= k < r.0@.len() ==> {
                &&& (#[trigger] r.0@[k]).u == coeffs@[k].0
                &&& r.0@[k].v == coeffs@[k].1
                &&& r.0@[k].conj_u == (n - coeffs@[k].0) % (n as int)
                &&& r.0@[k].conj_v == (n - coeffs@[k].1) % (n as int)
                &&& r.0@[k].self_conjugate == coeffs@[k].2
            },
{
    let mut writes: Vec<CoeffWrite> = Vec::new();
    let mut taken: usize = 0;
    let mut k: usize = 0;
    proof {
        lemma_bits_of_prefix_bound(coeffs@, coeffs@.len() as int);
        assert(coeffs@.subrange(0, coeffs@.len() as int) =~= coeffs@);
        assert(coeffs@.subrange(0, 0) =~= Seq::<(usize, usize, bool)>::empty());
    }
    while k < coeffs.len() && taken < budget
        invariant
            n > 0,
            k <= coeffs@.len(),
            forall|i: int| 0 <= i < coeffs@.len() ==> #[trigger] coeffs@[i].0 < n && coeffs@[i].1 < n,
            bit_offset + bits_of(coeffs@) <= usize::MAX,
            forall|j: int| 0 <= j <= coeffs@.len() ==> bits_of(#[trigger] coeffs@.subrange(0, j)) <= bits_of(coeffs@),
            taken == bits_of(coeffs@.subrange(0, k as int)),
            used(coeffs@, budget as nat) == used_from(coeffs@, budget as nat, k as nat),
            writes@.len() == k,
            forall|j: int| 0 <= j < k ==> #[trigger] writes@[j] == write_for(coeffs@, n as int, bits@, bit_offset as int, j),
        decreases coeffs@.len() - k,
    {
        let (u, v, sc) = coeffs[k];
        let first = bit_offset + taken;
        let conj_u = (n - u) % n;
        let conj_v = (n - v) % n;
        proof {
            if u == 0 {
                vstd::arithmetic::div_mod::lemma_mod_self_0(n as int);
            } else {
                vstd::arithmetic::div_mod::lemma_small_mod((n - u) as nat, n as nat);
            }
            if v == 0 {
                vstd::arithmetic::div_mod::lemma_mod_self_0(n as int);
            } else {
                vstd::arithmetic::div_mod::lemma_small_mod((n - v) as nat, n as nat);
            }
            assert(coeffs@.subrange(0, k + 1).drop_last() =~= coeffs@.subrange(0, k as int));
            assert(bits_of(coeffs@.subrange(0, k + 1)) <= bits_of(coeffs@));
        }
        if sc {
            let re_bit = if first < bits.len() {
                Some(bits[first])
            } else {
                None
            };
            writes.push(CoeffWrite { u, v, conj_u, conj_v, self_conjugate: true, re_bit, im_bit: false });
            taken = taken + 1;
        } else {
            let b0 = if first < bits.len() {
                bits[first]
            } else {
                false
            };
            let b1 = if bits.len() > 0 && first < bits.len() - 1 {
                bits[first + 1]
            } else {
                false
            };
            writes.push(
                CoeffWrite { u, v, conj_u, conj_v, self_conjugate: false, re_bit: Some(b0), im_bit: b1 },
            );
            taken = taken + 2;
        }
        k = k + 1;
    }
    proof {
        if bits_of(coeffs@) == budget {
            crate::block::lemma_used_all(coeffs@);
            assert(coeffs@.subrange(0, coeffs@.len() as int) =~= coeffs@);
        }
        assert forall|j: int| 0 <= j < writes@.len() implies {
            &&& (#[trigger] writes@[j]).u == coeffs@[j].0
            &&& writes@[j].v == coeffs@[j].1
            &&& writes@[j].conj_u == (n - coeffs@[j].0) % (n as int)
            &&& writes@[j].conj_v == (n - coeffs@[j].1) % (n as int)
            &&& writes@[j].self_conjugate == coeffs@[j].2
        } by {
            lemma_write_for_coefficient(coeffs@, n as int, bits@, bit_offset as int, j);
        }
    }
    (writes, taken)
}

/// Payload bits one 8×8 block carries over its three channels.
pub open spec fn block_capacity() -> nat {
    3 * ((BLOCK * BLOCK - 1) as nat)
}

/// The container that embedding `message` with `secret_seed` writes: the
/// derived public key, the signature over the signing input, the message.
pub open spec fn payload_bytes_for(secret_seed: Seq<u8>, message: Seq<u8>) -> Seq<u8> {
    let pk = ed25519_public_key(secret_seed);
    encoding_of(pk, ed25519_signature(secret_seed, signing_input_of(pk, message)), message)
}

/// The order in which the `count` blocks of a picture are visited: the
/// identity order shuffled by the generator of block 0 of `public_key`.
pub open spec fn block_order(public_key: Seq<u8>, count: nat) -> Seq<usize> {
    fisher_yates(
        Seq::new(count, |i: int| i as usize),
        std_rng_seeded_stream(block_seed(public_key, 0)),
    )
}

/// The block order visits every block of the picture exactly once.
pub proof fn lemma_block_order_permutes(public_key: Seq<u8>, count: nat)
    requires
        count <= usize::MAX,
    ensures
        block_order(public_key, count).len() == count,
        block_order(public_key, count).no_duplicates(),
        forall|k: int| 0 <= k < count ==> #[trigger] block_order(public_key, count)[k] < count,
{
    broadcast use vstd::seq_lib::to_multiset_contains;

    let id = Seq::new(count, |i: int| i as usize);
    let o = block_order(public_key, count);
    crate::block::lemma_fisher_yates_permutes(id, std_rng_seeded_stream(block_seed(public_key, 0)));
    assert forall|i: int, j: int| 0 <= i < id.len() && 0 <= j < id.len() && i != j implies id[i]
        != id[j] by {}
    id.lemma_multiset_has_no_duplicates();
    o.lemma_multiset_has_no_duplicates_conv();
    assert forall|k: int| 0 <= k < count implies #[trigger] o[k] < count by {
        assert(o.contains(o[k]));
        assert(o.to_multiset().count(o[k]) > 0);
        assert(id.contains(o[k]));
    }
}

/// Blocks needed to carry `n` bits.
pub open spec fn blocks_needed(n: nat) -> nat {
    ((n + block_capacity() - 1) as int / block_capacity() as int) as nat
}

/// What embedding a message into a picture does, decided before any pixel
/// is touched.
pub struct EmbedPlan {
    /// The public key derived from the secret seed.
    pub public_key: [u8; 32],
    /// The bits of the signed container, most significant bit first.
    pub bits: Vec<bool>,
    /// Blocks per row of blocks.
    pub cols: usize,
    /// Rows of blocks.
    pub rows: usize,
    /// The blocks that receive bits, in the order they receive them.
    pub blocks: Vec<usize>,
}

/// The text of the error for a container of `needed` bits that does not fit
/// the `available` bits of a picture.
pub open spec fn too_long_for_image_text(needed: nat, available: nat) -> Seq<char> {
    "message too long for image: "@ + decimal(needed) + " bits needed, "@ + decimal(available)
        + " available"@
}

/// The identity order `0, 1, ..., count - 1`.
pub(crate) fn identity_order(count: usize) -> (v: Vec<usize>)
    ensures
        v@ == Seq::new(count as nat, |i: int| i as usize),
{
    let mut v: Vec<usize> = Vec::new();
    let mut i: usize = 0;
    while i < count
        invariant
            i <= count,
            v@ == Seq::new(i as nat, |j: int| j as usize),
        decreases count - i,
    {
        v.push(i);
        i = i + 1;
        assert(v@ =~= Seq::new(i as nat, |j: int| j as usize));
    }
    v
}

/// Copy of a byte slice.
fn to_vec(bytes: &[u8]) -> (v: Vec<u8>)
    ensures
        v@ == bytes@,
{
    let mut v: Vec<u8> = Vec::new();
    let mut i: usize = 0;
    while i < bytes.len()
        invariant
            i <= bytes@.len(),
            v@ == bytes@.subrange(0, i as int),
        decreases bytes@.len() - i,
    {
        v.push(bytes[i]);
        i = i + 1;
        assert(v@ =~= bytes@.subrange(0, i as int));
    }
    assert(bytes@.subrange(0, bytes@.len() as int) =~= bytes@);
    v
}

/// `plan` is what embedding `message` with `secret_seed` into a
/// `width`×`height` picture does.
pub open spec fn is_embed_plan(
    plan: EmbedPlan,
    width: usize,
    height: usize,
    secret_seed: Seq<u8>,
    message: Seq<u8>,
) -> bool {
    &&& message.len() <= MAX_MESSAGE_LEN
    &&& plan.public_key@ == ed25519_public_key(secret_seed)
    &&& plan.bits@ == bits_of_bytes(payload_bytes_for(secret_seed, message))
    &&& plan.bits@.len() == 8 * (HEADER_SIZE + message.len())
    &&& plan.cols == width / BLOCK
    &&& plan.rows == height / BLOCK
    &&& plan.blocks@ == block_order(plan.public_key@, (plan.cols * plan.rows) as nat).subrange(
        0,
        blocks_needed(plan.bits@.len()) as int,
    )
    &&& blocks_needed(plan.bits@.len()) <= plan.cols * plan.rows
    &&& plan.blocks@.no_duplicates()
    &&& forall|k: int| 0 <= k < plan.blocks@.len() ==> #[trigger] plan.blocks@[k] < plan.cols * plan.rows
    &&& verification_of(
        signing_input_of(plan.public_key@, message),
        ed25519_signature(secret_seed, signing_input_of(plan.public_key@, message)),
        plan.public_key@,
    ) == VerifyResult::Valid
}

/// Embedding is deterministic: the plan is a function of the picture size,
/// the secret seed and the message.
pub proof fn lemma_embed_plan_determined(
    p1: EmbedPlan,
    p2: EmbedPlan,
    width: usize,
    height: usize,
    secret_seed: Seq<u8>,
    message: Seq<u8>,
)
    requires
        is_embed_plan(p1, width, height, secret_seed, message),
        is_embed_plan(p2, width, height, secret_seed, message),
    ensures
        p1.public_key == p2.public_key,
        p1.bits@ == p2.bits@,
        p1.cols == p2.cols,
        p1.rows == p2.rows,
        p1.blocks@ == p2.blocks@,
{
    assert(p1.public_key@ =~= p2.public_key@);
}

/// Plan the embedding of a signed message into a `width`×`height` picture.
///
/// `secret_seed` is the 32-byte Ed25519 seed.  The matching public key is
/// derived from it and embedded alongside the signature and message.  The
/// plan fails when the message is longer than 65535 bytes, when the picture
/// holds no whole 8×8 block, or when the container's bits exceed what the
/// blocks hold.  Edge pixels that do not form a full block are never used.
pub fn plan_embedding(width: usize, height: usize, secret_seed: &[u8; 32], message: &[u8]) -> (r:
    Result<EmbedPlan, WsntpError>)
    requires
        block_capacity() * (width / BLOCK) * (height / BLOCK) <= usize::MAX,
    ensures
        r is Ok <==> {
            &&& message@.len() <= MAX_MESSAGE_LEN
            &&& width / BLOCK > 0
            &&& height / BLOCK > 0
            &&& 8 * (HEADER_SIZE + message@.len()) <= block_capacity() * (width / BLOCK) * (
            height / BLOCK)
        },
        message@.len() > MAX_MESSAGE_LEN ==> fails_with(r, too_long_text(message@.len())),
        message@.len() <= MAX_MESSAGE_LEN && (width / BLOCK == 0 || height / BLOCK == 0)
            ==> fails_with(r, "image too small: need at least 8×8 pixels"@),
        message@.len() <= MAX_MESSAGE_LEN && width / BLOCK > 0 && height / BLOCK > 0 && 8 * (
        HEADER_SIZE + message@.len()) > block_capacity() * (width / BLOCK) * (height / BLOCK)
            ==> fails_with(
            r,
            too_long_for_image_text(
                (8 * (HEADER_SIZE + message@.len())) as nat,
                (block_capacity() * (width / BLOCK) * (height / BLOCK)) as nat,
            ),
        ),
        r matches Err(e) ==> e is Cli,
        r matches Ok(plan) ==> is_embed_plan(plan, width, height, secret_seed@, message@),
{
    let public_key = derive_public(secret_seed);
    // --- payload ---
    let mut payload = match Payload::new(public_key, to_vec(message)) {
        Ok(p) => p,
        Err(e) => return Err(e),
    };
    payload.sign(secret_seed);
    let payload_bytes = payload.encode();
    proof {
        assert(payload_bytes@ == payload_bytes_for(secret_seed@, message@));
        assert(payload_bytes@.len() == HEADER_SIZE + message@.len());
    }
    let bits = bytes_to_bits(payload_bytes.as_slice());
    // --- block grid ---
    let cols = width / BLOCK;
    let rows = height / BLOCK;
    if cols == 0 || rows == 0 {
        return Err(WsntpError::cli_str("image too small: need at least 8×8 pixels"));
    }
    let per_block = 3 * bits_per_block(BLOCK);
    proof {
        assert(per_block == block_capacity());
        assert(per_block * rows <= per_block * rows * cols) by (nonlinear_arith)
            requires
                cols >= 1,
                per_block >= 0,
                rows >= 0,
        ;
        assert(rows * cols <= per_block * rows * cols) by (nonlinear_arith)
            requires
                per_block >= 1,
                cols >= 0,
                rows >= 0,
        ;
        assert(per_block * rows * cols == per_block * (width / BLOCK) * (height / BLOCK)) by (nonlinear_arith)
            requires
                cols == width / BLOCK,
                rows == height / BLOCK,
        ;
        assert(cols * rows == rows * cols) by (nonlinear_arith);
    }
    let capacity = per_block * rows * cols;
    if bits.len() > capacity {
        let mut text = String::from_str("message too long for image: ");
        push_decimal(&mut text, bits.len());
        text.append(" bits needed, ");
        push_decimal(&mut text, capacity);
        text.append(" available");
        return Err(WsntpError::Cli(text));
    }
    // --- select blocks (deterministic shuffle seeded from the public key) ---
    let mut block_indices = identity_order(rows * cols);
    let mut master_rng = block_rng(&public_key, 0);
    shuffle_indices(&mut block_indices, &mut master_rng);
    let needed = (bits.len() + per_block - 1) / per_block;
    proof {
        crate::block::lemma_fisher_yates_permutes(
            Seq::new((rows * cols) as nat, |i: int| i as usize),
            std_rng_seeded_stream(block_seed(public_key@, 0)),
        );
        lemma_block_order_permutes(public_key@, (rows * cols) as nat);
        assert(needed <= rows * cols) by (nonlinear_arith)
            requires
                needed == (bits.len() + per_block - 1) as int / per_block as int,
                bits.len() <= per_block * rows * cols,
                per_block == 189,
        ;
        assert(needed == blocks_needed(bits@.len()));
    }
    block_indices.truncate(needed);
    proof {
        let o = block_order(public_key@, (rows * cols) as nat);
        assert(block_indices@ == o.subrange(0, needed as int));
        assert forall|k: int| 0 <= k < block_indices@.len() implies #[trigger] block_indices@[k] < cols * rows by {
            assert(block_indices@[k] == o[k]);
        }
    }
    Ok(EmbedPlan { public_key, bits, cols, rows, blocks: block_indices })
}

/// The work on one block: its samples, and the writes for each channel.
pub struct BlockJob {
    /// Block column.
    pub bx: usize,
    /// Block row.
    pub by: usize,
    /// The 64 row-major samples of the red, green and blue channels.
    pub samples: Vec<Vec<u8>>,
    /// The coefficient writes of the red, green and blue channels.
    pub writes: Vec<Vec<CoeffWrite>>,
}

/// An embedding in progress: the picture, the plan, and how many of the
/// planned blocks have been written back.
pub struct EmbedSession {
    pub picture: Picture,
    pub plan: EmbedPlan,
    pub done: usize,
    /// The picture as it was when the session started.
    pub original: Ghost<Picture>,
}

/// Embedding changes only the blocks it has written: every other pixel,
/// among them the edge pixels that form no whole 8×8 block, keeps the
/// samples of the original picture.
pub proof fn lemma_unwritten_pixels_kept(s: EmbedSession, x: int, y: int, c: int)
    requires
        s.wf(),
        0 <= x < s.picture.width,
        0 <= y < s.picture.height,
        0 <= c < 3,
        !s.written(x, y) || x >= s.plan.cols * 8 || y >= s.plan.rows * 8,
    ensures
        s.picture.width == s.original@.width,
        s.picture.height == s.original@.height,
        s.picture.sample(x, y, c) == s.original@.sample(x, y, c),
{
    if s.written(x, y) {
        let k = choose|k: int|
            0 <= k < s.done && #[trigger] Picture::in_block(
                (s.plan.blocks@[k] % s.plan.cols) as int,
                (s.plan.blocks@[k] / s.plan.cols) as int,
                x,
                y,
            );
        let b = s.plan.blocks@[k] as int;
        let cols = s.plan.cols as int;
        let rows = s.plan.rows as int;
        assert(b < cols * rows);
        assert(cols > 0) by (nonlinear_arith)
            requires
                0 <= b < cols * rows,
                rows >= 0,
        ;
        vstd::arithmetic::div_mod::lemma_multiply_divide_lt(b, cols, rows);
        assert(cols * rows == rows * cols) by (nonlinear_arith);
        vstd::arithmetic::div_mod::lemma_mod_pos_bound(b, cols);
        assert(x < cols * 8) by (nonlinear_arith)
            requires
                x < (b % cols) * 8 + 8,
                b % cols < cols,
        ;
        assert(y < rows * 8) by (nonlinear_arith)
            requires
                y < (b / cols) * 8 + 8,
                b / cols < rows,
        ;
    }
}

/// Bits of one channel of an 8×8 block.
pub open spec fn channel_capacity() -> nat {
    (BLOCK * BLOCK - 1) as nat
}

impl EmbedSession {
    /// Pixel `(x, y)` lies in one of the first `done` planned blocks.
    pub open spec fn written(&self, x: int, y: int) -> bool {
        exists|k: int|
            0 <= k < self.done && #[trigger] Picture::in_block(
                (self.plan.blocks@[k] % self.plan.cols) as int,
                (self.plan.blocks@[k] / self.plan.cols) as int,
                x,
                y,
            )
    }

    /// The session's parts agree with each other, and the picture differs
    /// from the original one only in the blocks written so far.
    pub open spec fn wf(&self) -> bool {
        &&& self.picture.wf()
        &&& self.original@.width == self.picture.width
        &&& self.original@.height == self.picture.height
        &&& forall|x: int, y: int, c: int|
            0 <= x < self.picture.width && 0 <= y < self.picture.height && 0 <= c < 3
                && !self.written(x, y) ==> #[trigger] self.picture.sample(x, y, c)
                == self.original@.sample(x, y, c)
        &&& self.plan.cols == self.picture.width / BLOCK
        &&& self.plan.rows == self.picture.height / BLOCK
        &&& block_capacity() * self.plan.cols * self.plan.rows <= usize::MAX
        &&& self.done <= self.plan.blocks@.len()
        &&& self.plan.blocks@.len() <= self.plan.cols * self.plan.rows
        &&& forall|k: int| 0 <= k < self.plan.blocks@.len() ==> #[trigger] self.plan.blocks@[k] < self.plan.cols * self.plan.rows
    }

    /// The block that the next job is about.
    pub open spec fn current_block(&self) -> usize {
        self.plan.blocks@[self.done as int]
    }

    /// The writes of channel `ch` of the next job: the channel's coefficient
    /// order for the current block, with payload bits from
    /// `189 * done + 63 * ch` on.
    pub open spec fn job_writes(&self, ch: int) -> Seq<CoeffWrite> {
        let order = channel_orders(self.plan.public_key@, self.current_block() as u32)[ch];
        Seq::new(
            order.len(),
            |k: int|
                write_for(
                    order,
                    BLOCK as int,
                    self.plan.bits@,
                    self.done * block_capacity() + ch * channel_capacity(),
                    k,
                ),
        )
    }

    /// Start embedding `message`, signed with `secret_seed`, into `picture`.
    pub fn start(picture: Picture, secret_seed: &[u8; 32], message: &[u8]) -> (r: Result<
        EmbedSession,
        WsntpError,
    >)
        requires
            picture.wf(),
            block_capacity() * (picture.width / BLOCK) * (picture.height / BLOCK) <= usize::MAX,
        ensures
            r is Ok <==> {
                &&& message@.len() <= MAX_MESSAGE_LEN
                &&& picture.width / BLOCK > 0
                &&& picture.height / BLOCK > 0
                &&& 8 * (HEADER_SIZE + message@.len()) <= block_capacity() * (picture.width / BLOCK)
                    * (picture.height / BLOCK)
            },
            message@.len() > MAX_MESSAGE_LEN ==> fails_with(r, too_long_text(message@.len())),
            message@.len() <= MAX_MESSAGE_LEN && (picture.width / BLOCK == 0 || picture.height
                / BLOCK == 0) ==> fails_with(r, "image too small: need at least 8×8 pixels"@),
            message@.len() <= MAX_MESSAGE_LEN && picture.width / BLOCK > 0 && picture.height
                / BLOCK > 0 && 8 * (HEADER_SIZE + message@.len()) > block_capacity() * (
            picture.width / BLOCK) * (picture.height / BLOCK) ==> fails_with(
                r,
                too_long_for_image_text(
                    (8 * (HEADER_SIZE + message@.len())) as nat,
                    (block_capacity() * (picture.width / BLOCK) * (picture.height / BLOCK)) as nat,
                ),
            ),
            r matches Err(e) ==> e is Cli,
            r matches Ok(s) ==> {
                &&& s.wf()
                &&& s.picture == picture
                &&& s.original@ == picture
                &&& s.done == 0
                &&& is_embed_plan(s.plan, picture.width, picture.height, secret_seed@, message@)
            },
    {
        match plan_embedding(picture.width, picture.height, secret_seed, message) {
            Ok(plan) => {
                proof {
                    assert(plan.cols * plan.rows <= block_capacity() * plan.cols * plan.rows) by (nonlinear_arith)
                        requires block_capacity() == 189;
                    lemma_block_order_permutes(plan.public_key@, (plan.cols * plan.rows) as nat);
                }
                let ghost original = picture;
                Ok(EmbedSession { picture, plan, done: 0, original: Ghost(original) })
            },
            Err(e) => Err(e),
        }
    }

    /// The next block to embed into, with what to write into it; `None` once
    /// every planned block is done.
    pub fn next_job(&self) -> (r: Option<BlockJob>)
        requires
            self.wf(),
        ensures
            r is None <==> self.done == self.plan.blocks@.len(),
            r matches Some(job) ==> {
                &&& job.bx == self.current_block() % self.plan.cols
                &&& job.by == self.current_block() / self.plan.cols
                &&& job.samples@.len() == 3
                &&& job.writes@.len() == 3
                &&& forall|ch: int| 0 <= ch < 3 ==> #[trigger] job.samples@[ch]@ == self.picture.spec_block_channel(job.bx as int, job.by as int, ch)
                &&& forall|ch: int| 0 <= ch < 3 ==> #[trigger] job.writes@[ch]@ == self.job_writes(ch)
                &&& forall|ch: int| 0 <= ch < 3 ==> #[trigger] carried(job.writes@[ch]@) == Seq::new(
                    channel_capacity(),
                    |i: int| bit_or_false(self.plan.bits@, self.done * block_capacity() + ch * channel_capacity() + i),
                )
            },
    {
        if self.done >= self.plan.blocks.len() {
            return None;
        }
        let block = self.plan.blocks[self.done];
        let cols = self.plan.cols;
        proof {
            assert(cols > 0) by (nonlinear_arith)
                requires block < cols * self.plan.rows;
            vstd::arithmetic::div_mod::lemma_multiply_divide_lt(block as int, cols as int, self.plan.rows as int);
            assert(cols * self.plan.rows == self.plan.rows * cols) by (nonlinear_arith);
        }
        let bx = block % cols;
        let by = block / cols;
        let budget = bits_per_block(BLOCK);
        let orders = block_channel_orders(&self.plan.public_key, block as u32);
        let mut samples: Vec<Vec<u8>> = Vec::new();
        let mut writes: Vec<Vec<CoeffWrite>> = Vec::new();
        let mut ch: usize = 0;
        while ch < 3
            invariant
                self.wf(),
                self.done < self.plan.blocks@.len(),
                block == self.current_block(),
                bx == block % cols,
                by == block / cols,
                cols == self.plan.cols,
                bx < self.picture.block_cols(),
                by < self.picture.block_rows(),
                budget == bits_of(candidates(BLOCK as nat)),
                budget == 63,
                orders@.len() == 3,
                forall|c: int| 0 <= c < 3 ==> #[trigger] orders@[c]@ == channel_orders(self.plan.public_key@, block as u32)[c],
                ch <= 3,
                samples@.len() == ch,
                writes@.len() == ch,
                forall|c: int| 0 <= c < ch ==> #[trigger] samples@[c]@ == self.picture.spec_block_channel(bx as int, by as int, c),
                forall|c: int| 0 <= c < ch ==> #[trigger] writes@[c]@ == self.job_writes(c),
                forall|c: int| 0 <= c < ch ==> #[trigger] carried(writes@[c]@) == Seq::new(
                    channel_capacity(),
                    |i: int| bit_or_false(self.plan.bits@, self.done * block_capacity() + c * channel_capacity() + i),
                ),
            decreases 3 - ch,
        {
            samples.push(self.picture.block_channel(bx, by, ch));
            proof {
                assert(self.done * 189 + 189 <= self.plan.cols * self.plan.rows * 189) by (nonlinear_arith)
                    requires
                        self.done < self.plan.blocks@.len(),
                        self.plan.blocks@.len() <= self.plan.cols * self.plan.rows,
                ;
                assert(block_capacity() * self.plan.cols * self.plan.rows == self.plan.cols * self.plan.rows * 189) by (nonlinear_arith)
                    requires block_capacity() == 189;
            }
            let offset = self.done * 189 + ch * 63;
            proof {
                let c = candidates(BLOCK as nat);
                let d = shuffle_draws(c.len());
                let s0 = crate::block::std_rng_seeded_stream(crate::block::block_seed(self.plan.public_key@, block as u32));
                let draws = if ch == 0 { s0 } else if ch == 1 { stream_skip(s0, d) } else { stream_skip(stream_skip(s0, d), d) };
                assert(orders@[ch as int]@ == fisher_yates(c, draws));
                lemma_bits_of_fisher_yates(c, draws);
                lemma_shuffled_candidates_in_range(BLOCK as nat, draws);
                assert(self.done * 189 + 189 <= self.plan.cols * self.plan.rows * 189) by (nonlinear_arith)
                    requires
                        self.done < self.plan.blocks@.len(),
                        self.plan.blocks@.len() <= self.plan.cols * self.plan.rows,
                ;
                assert(block_capacity() * self.plan.cols * self.plan.rows == self.plan.cols * self.plan.rows * 189) by (nonlinear_arith)
                    requires block_capacity() == 189;
            }
            let (w, taken) = channel_writes(&orders[ch], BLOCK, &self.plan.bits, offset, budget);
            proof {
                assert(w@ =~= self.job_writes(ch as int));
                lemma_writes_carry_bits(orders@[ch as int]@, BLOCK as int, self.plan.bits@, offset as int);
                assert(bits_of(orders@[ch as int]@) == 63);
            }
            writes.push(w);
            ch = ch + 1;
        }
        Some(BlockJob { bx, by, samples, writes })
    }

    /// Write back the new samples of the current block and move to the next
    /// one.  Returns `false`, and changes nothing, when every planned block
    /// is done or `samples` is not three channels of 64 samples.
    pub fn complete_job(&mut self, samples: &Vec<Vec<u8>>) -> (ok: bool)
        requires
            old(self).wf(),
        ensures
            final(self).wf(),
            ok == (old(self).done < old(self).plan.blocks@.len() && samples@.len() == 3 && forall|
                ch: int,
            | 0 <= ch < 3 ==> #[trigger] samples@[ch]@.len() == 64),
            !ok ==> *final(self) == *old(self),
            ok ==> {
                let bx = old(self).current_block() % old(self).plan.cols;
                let by = old(self).current_block() / old(self).plan.cols;
                &&& final(self).done == old(self).done + 1
                &&& final(self).plan == old(self).plan
                &&& final(self).original == old(self).original
                &&& final(self).picture.width == old(self).picture.width
                &&& final(self).picture.height == old(self).picture.height
                &&& forall|x: int, y: int, c: int|
                    0 <= x < old(self).picture.width && 0 <= y < old(self).picture.height && 0 <= c < 3
                        ==> #[trigger] final(self).picture.sample(x, y, c) == if Picture::in_block(bx as int, by as int, x, y) {
                        samples@[c]@[block_offset(x - bx * 8, y - by * 8)]
                    } else {
                        old(self).picture.sample(x, y, c)
                    }
            },
    {
        if self.done >= self.plan.blocks.len() || samples.len() != 3 || samples[0].len() != 64
            || samples[1].len() != 64 || samples[2].len() != 64 {
            proof {
                if samples@.len() == 3 && self.done < self.plan.blocks@.len() {
                    assert(!(forall|ch: int| 0 <= ch < 3 ==> #[trigger] samples@[ch]@.len() == 64)) by {
                        if samples[0].len() != 64 { assert(samples@[0]@.len() != 64); }
                        else if samples[1].len() != 64 { assert(samples@[1]@.len() != 64); }
                        else { assert(samples@[2]@.len() != 64); }
                    }
                }
            }
            return false;
        }
        let block = self.plan.blocks[self.done];
        let cols = self.plan.cols;
        proof {
            assert(cols > 0) by (nonlinear_arith)
                requires block < cols * self.plan.rows;
            vstd::arithmetic::div_mod::lemma_multiply_divide_lt(block as int, cols as int, self.plan.rows as int);
            assert(cols * self.plan.rows == self.plan.rows * cols) by (nonlinear_arith);
        }
        let bx = block % cols;
        let by = block / cols;
        let ghost before = self.picture;
        self.picture.store_block_channel(bx, by, 0, &samples[0]);
        let ghost mid1 = self.picture;
        self.picture.store_block_channel(bx, by, 1, &samples[1]);
        let ghost mid2 = self.picture;
        self.picture.store_block_channel(bx, by, 2, &samples[2]);
        self.done = self.done + 1;
        proof {
            assert forall|x: int, y: int, c: int|
                0 <= x < self.picture.width && 0 <= y < self.picture.height && 0 <= c < 3
                    && !self.written(x, y) implies #[trigger] self.picture.sample(x, y, c)
                == self.original@.sample(x, y, c) by {
                let k = (self.done - 1) as int;
                assert(self.plan.blocks@[k] == block);
                assert(!Picture::in_block(
                    (self.plan.blocks@[k] % self.plan.cols) as int,
                    (self.plan.blocks@[k] / self.plan.cols) as int,
                    x,
                    y,
                ));
                assert(self.picture.sample(x, y, c) == (if c == 2 && Picture::in_block(bx as int, by as int, x, y) { samples@[2]@[block_offset(x - bx * 8, y - by * 8)] } else { mid2.sample(x, y, c) }));
                assert(mid2.sample(x, y, c) == (if c == 1 && Picture::in_block(bx as int, by as int, x, y) { samples@[1]@[block_offset(x - bx * 8, y - by * 8)] } else { mid1.sample(x, y, c) }));
                assert(mid1.sample(x, y, c) == (if c == 0 && Picture::in_block(bx as int, by as int, x, y) { samples@[0]@[block_offset(x - bx * 8, y - by * 8)] } else { before.sample(x, y, c) }));
                if exists|j: int|
                    0 <= j < self.done - 1 && #[trigger] Picture::in_block(
                        (self.plan.blocks@[j] % self.plan.cols) as int,
                        (self.plan.blocks@[j] / self.plan.cols) as int,
                        x,
                        y,
                    ) {
                    let j = choose|j: int|
                        0 <= j < self.done - 1 && #[trigger] Picture::in_block(
                            (self.plan.blocks@[j] % self.plan.cols) as int,
                            (self.plan.blocks@[j] / self.plan.cols) as int,
                            x,
                            y,
                        );
                    assert(0 <= j < self.done);
                }
            }
        }
        proof {
            assert forall|x: int, y: int, c: int|
                0 <= x < before.width && 0 <= y < before.height && 0 <= c < 3 implies #[trigger] self.picture.sample(x, y, c) == if Picture::in_block(bx as int, by as int, x, y) {
                samples@[c]@[block_offset(x - bx * 8, y - by * 8)]
            } else {
                before.sample(x, y, c)
            } by {
                assert(self.picture.sample(x, y, c) == (if c == 2 && Picture::in_block(bx as int, by as int, x, y) { samples@[2]@[block_offset(x - bx * 8, y - by * 8)] } else { mid2.sample(x, y, c) }));
                assert(mid2.sample(x, y, c) == (if c == 1 && Picture::in_block(bx as int, by as int, x, y) { samples@[1]@[block_offset(x - bx * 8, y - by * 8)] } else { mid1.sample(x, y, c) }));
                assert(mid1.sample(x, y, c) == (if c == 0 && Picture::in_block(bx as int, by as int, x, y) { samples@[0]@[block_offset(x - bx * 8, y - by * 8)] } else { before.sample(x, y, c) }));
            }
        }
        true
    }

    /// The picture, as far as it has been written.
    pub fn into_picture(self) -> (picture: Picture)
        ensures
            picture == self.picture,
    {
        self.picture
    }
}

} // verus!
