//! Extracting and verifying a signed message from a picture: the decisions.
//!
//! ```text
//! Picture + Public Key
//!   → divide picture into 8×8 blocks
//!   → PRNG(pubkey) determines same block/coefficient order as embed
//!   → block FFT → QIM extract bits → pack to bytes
//!   → scan for "WSNT" magic → decode Payload
//!   → Ed25519 verify(embedded_pubkey, payload, embedded_sig)
//!   → compare embedded_pubkey == user_provided_pubkey
//!   → return message (or error)
//! ```
use vstd::prelude::*;

use crate::block::{block_channel_orders, block_rng, channel_orders, shuffle_indices, BLOCK};
use crate::crypto::{ed25519_signature, verification_of, VerifyResult};
use crate::embed::{
    bit_mask, bit_of_byte, bits_of_bytes, block_order, identity_order, is_embed_plan,
    lemma_block_order_permutes, lemma_shifted_mask, payload_bytes_for, EmbedPlan,
};
use crate::error::{fails_with, WsntpError};
use crate::payload::{
    decodable, decode_error_text, decoded_fields, encoding_of, first_magic, first_magic_from,
    lemma_decode_encoding, lemma_first_magic_is_first, magic_at, signing_input_of, Payload,
    MAX_MESSAGE_LEN,
};
use crate::picture::Picture;

verus! {

/// The value (0 or 1) of a bit.
pub open spec fn flag(b: bool) -> int {
    if b {
        1
    } else {
        0
    }
}

/// The byte whose bits, most significant first, are `b[0..8]`.
pub open spec fn byte_of_bits(b: Seq<bool>) -> u8 {
    (128 * flag(b[0]) + 64 * flag(b[1]) + 32 * flag(b[2]) + 16 * flag(b[3]) + 8 * flag(b[4]) + 4
        * flag(b[5]) + 2 * flag(b[6]) + flag(b[7])) as u8
}

/// The whole bytes that a bit stream packs into, most significant bit first;
/// trailing bits that do not fill a byte are left out.
pub open spec fn packed(bits: Seq<bool>) -> Seq<u8> {
    Seq::new(bits.len() / 8, |i: int| byte_of_bits(bits.subrange(8 * i, 8 * i + 8)))
}

proof fn lemma_set_bit(b: u8, m: u8, k: int)
    requires
        0 <= k < 8,
    ensures
        bit_of_byte(b | m, k) == ((m & bit_mask(k) != 0u8) || bit_of_byte(b, k)),
{
    let mk = bit_mask(k);
    assert(((b | m) & mk != 0u8) == ((m & mk != 0u8) || (b & mk != 0u8))) by (bit_vector);
}

/// A byte is determined by its eight bits.
pub proof fn lemma_bits_determine_byte(x: u8, y: u8)
    requires
        forall|k: int| 0 <= k < 8 ==> bit_of_byte(x, k) == bit_of_byte(y, k),
    ensures
        x == y,
{
    assert(bit_of_byte(x, 0) == bit_of_byte(y, 0));
    assert(bit_of_byte(x, 1) == bit_of_byte(y, 1));
    assert(bit_of_byte(x, 2) == bit_of_byte(y, 2));
    assert(bit_of_byte(x, 3) == bit_of_byte(y, 3));
    assert(bit_of_byte(x, 4) == bit_of_byte(y, 4));
    assert(bit_of_byte(x, 5) == bit_of_byte(y, 5));
    assert(bit_of_byte(x, 6) == bit_of_byte(y, 6));
    assert(bit_of_byte(x, 7) == bit_of_byte(y, 7));
    assert(x == y) by (bit_vector)
        requires
            (x & 0x80u8 != 0u8) == (y & 0x80u8 != 0u8),
            (x & 0x40u8 != 0u8) == (y & 0x40u8 != 0u8),
            (x & 0x20u8 != 0u8) == (y & 0x20u8 != 0u8),
            (x & 0x10u8 != 0u8) == (y & 0x10u8 != 0u8),
            (x & 0x08u8 != 0u8) == (y & 0x08u8 != 0u8),
            (x & 0x04u8 != 0u8) == (y & 0x04u8 != 0u8),
            (x & 0x02u8 != 0u8) == (y & 0x02u8 != 0u8),
            (x & 0x01u8 != 0u8) == (y & 0x01u8 != 0u8),
    ;
}

proof fn lemma_byte_of_flags(f0: u8, f1: u8, f2: u8, f3: u8, f4: u8, f5: u8, f6: u8, f7: u8, x: u8)
    by (bit_vector)
    requires
        f0 <= 1 && f1 <= 1 && f2 <= 1 && f3 <= 1 && f4 <= 1 && f5 <= 1 && f6 <= 1 && f7 <= 1,
        x == 128 * f0 + 64 * f1 + 32 * f2 + 16 * f3 + 8 * f4 + 4 * f5 + 2 * f6 + f7,
    ensures
        (x & 0x80u8 != 0u8) == (f0 == 1),
        (x & 0x40u8 != 0u8) == (f1 == 1),
        (x & 0x20u8 != 0u8) == (f2 == 1),
        (x & 0x10u8 != 0u8) == (f3 == 1),
        (x & 0x08u8 != 0u8) == (f4 == 1),
        (x & 0x04u8 != 0u8) == (f5 == 1),
        (x & 0x02u8 != 0u8) == (f6 == 1),
        (x & 0x01u8 != 0u8) == (f7 == 1),
{
}

/// The bits of `byte_of_bits(b)` are `b[0..8]`.
pub proof fn lemma_byte_of_bits(b: Seq<bool>)
    requires
        b.len() >= 8,
    ensures
        forall|k: int| 0 <= k < 8 ==> #[trigger] bit_of_byte(byte_of_bits(b), k) == b[k],
{
    lemma_byte_of_flags(
        flag(b[0]) as u8,
        flag(b[1]) as u8,
        flag(b[2]) as u8,
        flag(b[3]) as u8,
        flag(b[4]) as u8,
        flag(b[5]) as u8,
        flag(b[6]) as u8,
        flag(b[7]) as u8,
        byte_of_bits(b),
    );
}

proof fn lemma_mask_bits(i: int, k: int)
    requires
        0 <= i < 8,
        0 <= k < 8,
    ensures
        (bit_mask(i) & bit_mask(k) != 0u8) == (i == k),
{
    let a = i as u8;
    let c = k as u8;
    lemma_shifted_mask(a);
    lemma_shifted_mask(c);
    assert(((0x80u8 >> a) & (0x80u8 >> c) != 0u8) == (a == c)) by (bit_vector)
        requires
            a < 8,
            c < 8,
    ;
}

proof fn lemma_zero_bits(k: int)
    requires
        0 <= k < 8,
    ensures
        !bit_of_byte(0u8, k),
{
    let mk = bit_mask(k);
    assert(0u8 & mk == 0u8) by (bit_vector);
}

/// Pack the first eight bits (most significant first) into a byte.
pub fn bits_to_byte(bits: &[bool]) -> (byte: u8)
    requires
        bits@.len() >= 8,
    ensures
        byte == byte_of_bits(bits@),
        forall|k: int| 0 <= k < 8 ==> #[trigger] bit_of_byte(byte, k) == bits@[k],
{
    let mut b: u8 = 0;
    let mut i: u8 = 0;
    proof {
        assert forall|k: int| 0 <= k < 8 implies !#[trigger] bit_of_byte(0u8, k) by {
            lemma_zero_bits(k);
        }
    }
    while i < 8
        invariant
            i <= 8,
            bits@.len() >= 8,
            forall|k: int| 0 <= k < i ==> #[trigger] bit_of_byte(b, k) == bits@[k],
            forall|k: int| i <= k < 8 ==> !#[trigger] bit_of_byte(b, k),
        decreases 8 - i,
    {
        let ghost prev = b;
        if bits[i as usize] {
            proof {
                lemma_shifted_mask(i);
            }
            b = b | (0x80u8 >> i);
            proof {
                assert forall|k: int| 0 <= k < 8 implies #[trigger] bit_of_byte(b, k) == (k == i
                    || bit_of_byte(prev, k)) by {
                    lemma_set_bit(prev, bit_mask(i as int), k);
                    lemma_mask_bits(i as int, k);
                }
            }
        }
        i = i + 1;
    }
    proof {
        lemma_byte_of_bits(bits@);
        lemma_bits_determine_byte(b, byte_of_bits(bits@));
    }
    b
}

/// Packing the bits of some bytes gives those bytes back, whatever bits
/// follow them.
pub proof fn lemma_packed_bits_of_bytes(bytes: Seq<u8>, rest: Seq<bool>)
    ensures
        packed(bits_of_bytes(bytes) + rest).len() >= bytes.len(),
        packed(bits_of_bytes(bytes) + rest).subrange(0, bytes.len() as int) == bytes,
{
    let s = bits_of_bytes(bytes) + rest;
    assert((8 * bytes.len() + rest.len()) / 8 >= bytes.len()) by {
        vstd::arithmetic::div_mod::lemma_div_plus_one(0, 8);
        vstd::arithmetic::div_mod::lemma_fundamental_div_mod((8 * bytes.len() + rest.len()) as int, 8);
    }
    assert forall|i: int| 0 <= i < bytes.len() implies #[trigger] packed(s)[i] == bytes[i] by {
        let chunk = s.subrange(8 * i, 8 * i + 8);
        lemma_byte_of_bits(chunk);
        assert forall|k: int| 0 <= k < 8 implies bit_of_byte(byte_of_bits(chunk), k) == bit_of_byte(
            bytes[i],
            k,
        ) by {
            assert(chunk[k] == s[8 * i + k]);
            assert((8 * i + k) / 8 == i && (8 * i + k) % 8 == k) by {
                vstd::arithmetic::div_mod::lemma_fundamental_div_mod_converse(8 * i + k, 8, i, k);
            }
        }
        lemma_bits_determine_byte(byte_of_bits(chunk), bytes[i]);
    }
    assert(packed(s).subrange(0, bytes.len() as int) =~= bytes);
}

/// Every byte comes back from its own eight bits: packing bits `8 i` to
/// `8 i + 8` of the bits of `bytes` gives `bytes[i]`, for bytes of any
/// length.
pub proof fn lemma_byte_of_bits_of_bytes(bytes: Seq<u8>, i: int)
    requires
        0 <= i < bytes.len(),
    ensures
        byte_of_bits(bits_of_bytes(bytes).subrange(8 * i, 8 * i + 8)) == bytes[i],
{
    lemma_packed_bits_of_bytes(bytes, Seq::empty());
    let bits = bits_of_bytes(bytes);
    assert(bits + Seq::<bool>::empty() =~= bits);
    assert(packed(bits).subrange(0, bytes.len() as int)[i] == packed(bits)[i]);
}

/// The message that `data` yields for a reader expecting `expected_pubkey`:
/// the container at the first magic prefix decodes, its signature verifies,
/// and its public key is the expected one.
pub open spec fn decoded_message(data: Seq<u8>, expected_pubkey: Seq<u8>) -> Option<Seq<u8>> {
    match first_magic(data) {
        None => None,
        Some(offset) => {
            let rest = data.subrange(offset as int, data.len() as int);
            if !decodable(rest) {
                None
            } else {
                let (pk, sig, msg) = decoded_fields(rest);
                if verification_of(signing_input_of(pk, msg), sig, pk) != VerifyResult::Valid {
                    None
                } else if pk != expected_pubkey {
                    None
                } else {
                    Some(msg)
                }
            }
        },
    }
}

/// The text of the error that looking for a message in `data` with
/// `expected_pubkey` fails with, when `data` yields none.
pub open spec fn no_message_text(data: Seq<u8>, expected_pubkey: Seq<u8>) -> Seq<char> {
    match first_magic(data) {
        None => "magic not found"@,
        Some(offset) => {
            let rest = data.subrange(offset as int, data.len() as int);
            if !decodable(rest) {
                decode_error_text(rest)
            } else {
                let (pk, sig, msg) = decoded_fields(rest);
                if verification_of(signing_input_of(pk, msg), sig, pk) != VerifyResult::Valid {
                    "signature verification failed — image may be tampered"@
                } else {
                    "public key mismatch — image was signed by a different key"@
                }
            }
        },
    }
}

/// Whether two 32-byte keys are equal.
fn same_key(a: &[u8; 32], b: &[u8; 32]) -> (r: bool)
    ensures
        r == (a@ == b@),
{
    let mut i: usize = 0;
    while i < 32
        invariant
            i <= 32,
            forall|k: int| 0 <= k < i ==> a@[k] == b@[k],
        decreases 32 - i,
    {
        if a[i] != b[i] {
            assert(a@[i as int] != b@[i as int]);
            return false;
        }
        i = i + 1;
    }
    assert(a@ =~= b@);
    true
}

/// Try to find and decode a payload in `data`, verifying against `expected_pubkey`.
pub fn try_decode(data: &[u8], expected_pubkey: &[u8; 32]) -> (r: Result<Vec<u8>, WsntpError>)
    ensures
        r is Ok <==> decoded_message(data@, expected_pubkey@) is Some,
        r matches Ok(m) ==> m@ == decoded_message(data@, expected_pubkey@).unwrap(),
        decoded_message(data@, expected_pubkey@) is None ==> fails_with(
            r,
            no_message_text(data@, expected_pubkey@),
        ),
{
    let offset = match Payload::find_magic(data) {
        Some(o) => o,
        None => return Err(WsntpError::cli_str("magic not found")),
    };
    proof {
        lemma_first_magic_is_first(data@);
    }
    let payload = match Payload::decode(&data[offset..data.len()]) {
        Ok(p) => p,
        Err(e) => return Err(e),
    };
    // Layer 1: signature verification
    match payload.verify_signature() {
        VerifyResult::Valid => {},
        _ => {
            return Err(
                WsntpError::cli_str("signature verification failed — image may be tampered"),
            );
        },
    }
    // Layer 2: public key comparison
    if !same_key(&payload.public_key, expected_pubkey) {
        return Err(
            WsntpError::cli_str("public key mismatch — image was signed by a different key"),
        );
    }
    Ok(payload.message)
}

proof fn lemma_first_magic_extend(data: Seq<u8>, extra: Seq<u8>, i: int)
    requires
        0 <= i,
        first_magic_from(data, i) is Some,
    ensures
        first_magic_from(data + extra, i) == first_magic_from(data, i),
    decreases data.len() - i,
{
    let d2 = data + extra;
    if magic_at(data, i) {
        assert(magic_at(d2, i));
    } else {
        assert(!magic_at(d2, i));
        lemma_first_magic_extend(data, extra, i + 1);
    }
}

/// Once the bytes read so far yield a message, reading more bytes yields
/// the same message.
pub proof fn lemma_decoded_message_extend(data: Seq<u8>, extra: Seq<u8>, expected_pubkey: Seq<u8>)
    requires
        decoded_message(data, expected_pubkey) is Some,
    ensures
        decoded_message(data + extra, expected_pubkey) == decoded_message(data, expected_pubkey),
{
    lemma_first_magic_extend(data, extra, 0);
    lemma_first_magic_is_first(data);
    let o = first_magic(data).unwrap() as int;
    let rest = data.subrange(o, data.len() as int);
    let rest2 = (data + extra).subrange(o, (data + extra).len() as int);
    assert(rest2 =~= rest + extra);
    assert(rest2.subrange(0, rest.len() as int) =~= rest);
    assert(decoded_fields(rest2) == decoded_fields(rest)) by {
        assert(rest2.subrange(6, 38) =~= rest.subrange(6, 38));
        assert(rest2.subrange(38, 102) =~= rest.subrange(38, 102));
        let l = rest[102] as int * 256 + rest[103] as int;
        assert(rest2.subrange(104, 104 + l) =~= rest.subrange(104, 104 + l));
    }
}

/// A container at the start of the bytes read, whose message fits the
/// length field and whose signature verifies under the expected key, yields
/// its message, whatever bytes follow it.
pub proof fn lemma_decoded_message_of_encoding(
    public_key: Seq<u8>,
    signature: Seq<u8>,
    message: Seq<u8>,
    trailing: Seq<u8>,
)
    requires
        public_key.len() == 32,
        signature.len() == 64,
        message.len() <= MAX_MESSAGE_LEN,
        verification_of(signing_input_of(public_key, message), signature, public_key)
            == VerifyResult::Valid,
    ensures
        decoded_message(encoding_of(public_key, signature, message) + trailing, public_key)
            == Some(message),
{
    lemma_decode_encoding(public_key, signature, message, trailing);
    let data = encoding_of(public_key, signature, message) + trailing;
    assert(data.subrange(0, data.len() as int) =~= data);
}

/// Reading back the bits that an embedding plan writes, whatever bits
/// follow them, yields the embedded message under the plan's public key
/// (the key derived from the secret seed), and nothing under any other key.
pub proof fn lemma_plan_bits_yield_message(
    plan: EmbedPlan,
    width: usize,
    height: usize,
    secret_seed: Seq<u8>,
    message: Seq<u8>,
    trailing: Seq<bool>,
)
    requires
        is_embed_plan(plan, width, height, secret_seed, message),
    ensures
        decoded_message(packed(plan.bits@ + trailing), plan.public_key@) == Some(message),
        forall|other: Seq<u8>|
            other != plan.public_key@ ==> #[trigger] decoded_message(packed(plan.bits@ + trailing), other)
                is None,
{
    let pk = plan.public_key@;
    let sig = ed25519_signature(secret_seed, signing_input_of(pk, message));
    let bytes = payload_bytes_for(secret_seed, message);
    assert(bytes == encoding_of(pk, sig, message));
    assert(bits_of_bytes(bytes).len() == 8 * bytes.len());
    assert(sig.len() == 64);
    lemma_packed_bits_of_bytes(bytes, trailing);
    let data = packed(plan.bits@ + trailing);
    let extra = data.subrange(bytes.len() as int, data.len() as int);
    assert(data =~= bytes + extra);
    lemma_decoded_message_of_encoding(pk, sig, message, extra);
    lemma_decode_encoding(pk, sig, message, extra);
    assert(data.subrange(0, data.len() as int) =~= data);
}

/// An extraction with the embedding's public key, on a picture of the same
/// size, visits the blocks that carry the payload first, in the order they
/// were written.
pub proof fn lemma_extraction_follows_plan(
    plan: EmbedPlan,
    secret_seed: Seq<u8>,
    message: Seq<u8>,
    session: ExtractSession,
)
    requires
        session.wf(),
        is_embed_plan(plan, session.picture.width, session.picture.height, secret_seed, message),
        session.public_key@ == plan.public_key@,
    ensures
        plan.blocks@.len() <= session.order@.len(),
        forall|k: int| 0 <= k < plan.blocks@.len() ==> #[trigger] session.order@[k] == plan.blocks@[k],
{
}

/// An extraction with the embedding's public key that has been fed the
/// bits the embedding wrote, and any bits after them, holds the embedded
/// message: `finish` returns it, and so does `record` once 110 bytes are in.
pub proof fn lemma_fed_plan_bits_yield_message(
    plan: EmbedPlan,
    secret_seed: Seq<u8>,
    message: Seq<u8>,
    session: ExtractSession,
    trailing: Seq<bool>,
)
    requires
        session.wf(),
        is_embed_plan(plan, session.picture.width, session.picture.height, secret_seed, message),
        session.public_key@ == plan.public_key@,
        session.fed@ == plan.bits@ + trailing,
    ensures
        decoded_message(session.bytes@, session.public_key@) == Some(message),
{
    lemma_plan_bits_yield_message(
        plan,
        session.picture.width,
        session.picture.height,
        secret_seed,
        message,
        trailing,
    );
}

/// Packing is compositional at whole bytes: the bytes of `a + b` are the
/// bytes of `a`, then the bytes of `a`'s leftover bits followed by `b`.
pub proof fn lemma_packed_append(a: Seq<bool>, b: Seq<bool>)
    ensures
        packed(a + b) == packed(a) + packed(a.subrange(8 * (a.len() / 8) as int, a.len() as int) + b),
{
    let q = a.len() / 8;
    let rest = a.subrange(8 * q as int, a.len() as int);
    let lhs = packed(a + b);
    let rhs = packed(a) + packed(rest + b);
    assert(a.len() == 8 * q + a.len() % 8) by {
        vstd::arithmetic::div_mod::lemma_fundamental_div_mod(a.len() as int, 8);
    }
    assert((a + b).len() == 8 * q + (rest + b).len());
    assert(((a + b).len() / 8) == q + (rest + b).len() / 8) by {
        vstd::arithmetic::div_mod::lemma_fundamental_div_mod((rest + b).len() as int, 8);
        vstd::arithmetic::div_mod::lemma_fundamental_div_mod_converse(
            (a + b).len() as int,
            8,
            (q + (rest + b).len() / 8) as int,
            ((rest + b).len() % 8) as int,
        );
    }
    assert forall|i: int| 0 <= i < lhs.len() implies #[trigger] lhs[i] == rhs[i] by {
        if i < q {
            assert((a + b).subrange(8 * i, 8 * i + 8) =~= a.subrange(8 * i, 8 * i + 8));
        } else {
            let j = i - q;
            assert((a + b).subrange(8 * i, 8 * i + 8) =~= (rest + b).subrange(8 * j, 8 * j + 8));
        }
    }
    assert(lhs =~= rhs);
}

/// The whole bytes of a bit stream, and its leftover bits.
fn pack_bits(bits: &Vec<bool>) -> (r: (Vec<u8>, Vec<bool>))
    ensures
        r.0@ == packed(bits@),
        r.1@ == bits@.subrange(8 * (bits@.len() / 8) as int, bits@.len() as int),
{
    let whole = bits.len() / 8;
    let mut bytes: Vec<u8> = Vec::new();
    let mut i: usize = 0;
    proof {
        vstd::arithmetic::div_mod::lemma_fundamental_div_mod(bits@.len() as int, 8);
    }
    while i < whole
        invariant
            whole == bits@.len() / 8,
            8 * whole <= bits@.len() <= usize::MAX,
            i <= whole,
            bytes@.len() == i,
            forall|k: int| 0 <= k < i ==> #[trigger] bytes@[k] == byte_of_bits(bits@.subrange(8 * k, 8 * k + 8)),
        decreases whole - i,
    {
        proof {
            vstd::arithmetic::div_mod::lemma_fundamental_div_mod(bits@.len() as int, 8);
        }
        let chunk = &bits.as_slice()[8 * i..8 * i + 8];
        bytes.push(bits_to_byte(chunk));
        i = i + 1;
    }
    let mut rest: Vec<bool> = Vec::new();
    let mut j: usize = 8 * whole;
    proof {
        vstd::arithmetic::div_mod::lemma_fundamental_div_mod(bits@.len() as int, 8);
    }
    while j < bits.len()
        invariant
            whole == bits@.len() / 8,
            8 * whole <= j <= bits@.len(),
            rest@ == bits@.subrange(8 * whole, j as int),
        decreases bits@.len() - j,
    {
        rest.push(bits[j]);
        j = j + 1;
        assert(rest@ =~= bits@.subrange(8 * whole, j as int));
    }
    assert(bytes@ =~= packed(bits@));
    (bytes, rest)
}

/// The work on one block: its samples, and the coefficients to read in
/// each channel, in reading order.
pub struct ReadJob {
    /// Block column.
    pub bx: usize,
    /// Block row.
    pub by: usize,
    /// The 64 row-major samples of the red, green and blue channels.
    pub samples: Vec<Vec<u8>>,
    /// The coefficients of the red, green and blue channels, as
    /// `(u, v, is_self_conjugate)`: one bit from the real part of a
    /// self-conjugate coefficient, two (real, imaginary) from any other.
    pub reads: Vec<Vec<(usize, usize, bool)>>,
}

/// An extraction in progress: the picture, the key, the block order, how
/// many blocks have been handed out, and the bits read so far packed into
/// bytes.
pub struct ExtractSession {
    pub picture: Picture,
    pub public_key: [u8; 32],
    pub cols: usize,
    pub rows: usize,
    pub order: Vec<usize>,
    pub visited: usize,
    pub bytes: Vec<u8>,
    pub pending: Vec<bool>,
    /// Every bit recorded so far, in order.
    pub fed: Ghost<Seq<bool>>,
}

/// How many bytes must have been read before a decode is tried.
pub const EARLY_DECODE_BYTES: usize = 110;

impl ExtractSession {
    /// The session's parts agree with each other.
    pub open spec fn wf(&self) -> bool {
        &&& self.picture.wf()
        &&& self.cols == self.picture.width / BLOCK
        &&& self.rows == self.picture.height / BLOCK
        &&& self.cols * self.rows <= usize::MAX
        &&& self.order@ == block_order(self.public_key@, (self.cols * self.rows) as nat)
        &&& self.order@.len() == self.cols * self.rows
        &&& forall|k: int| 0 <= k < self.order@.len() ==> #[trigger] self.order@[k] < self.cols * self.rows
        &&& self.visited <= self.order@.len()
        &&& self.bytes@ == packed(self.fed@)
        &&& self.pending@ == self.fed@.subrange(8 * (self.fed@.len() / 8) as int, self.fed@.len() as int)
    }

    /// Start extracting from `picture` with `public_key`.
    ///
    /// Fails when the picture holds no whole 8×8 block.
    pub fn start(picture: Picture, public_key: &[u8; 32]) -> (r: Result<ExtractSession, WsntpError>)
        requires
            picture.wf(),
        ensures
            r is Ok <==> picture.width / BLOCK > 0 && picture.height / BLOCK > 0,
            !(picture.width / BLOCK > 0 && picture.height / BLOCK > 0) ==> fails_with(
                r,
                "image too small: need at least 8×8 pixels"@,
            ),
            r matches Ok(s) ==> {
                &&& s.wf()
                &&& s.picture == picture
                &&& s.public_key == *public_key
                &&& s.visited == 0
                &&& s.fed@ == Seq::<bool>::empty()
            },
    {
        // --- block grid ---
        let cols = picture.width / BLOCK;
        let rows = picture.height / BLOCK;
        if cols == 0 || rows == 0 {
            return Err(WsntpError::cli_str("image too small: need at least 8×8 pixels"));
        }
        let _len = picture.data.len();
        proof {
            assert(cols * rows <= picture.width * picture.height) by (nonlinear_arith)
                requires
                    cols == picture.width / 8,
                    rows == picture.height / 8,
            ;
            assert(picture.width * picture.height <= picture.width * picture.height * 3) by (nonlinear_arith);
        }
        // --- same block order as embed ---
        let mut order = identity_order(cols * rows);
        let mut master_rng = block_rng(public_key, 0);
        shuffle_indices(&mut order, &mut master_rng);
        proof {
            lemma_block_order_permutes(public_key@, (cols * rows) as nat);
            assert(packed(Seq::<bool>::empty()) =~= Seq::<u8>::empty());
        }
        let bytes: Vec<u8> = Vec::new();
        let pending: Vec<bool> = Vec::new();
        proof {
            assert(pending@ =~= Seq::<bool>::empty().subrange(0, 0));
        }
        Ok(ExtractSession {
            picture,
            public_key: *public_key,
            cols,
            rows,
            order,
            visited: 0,
            bytes,
            pending,
            fed: Ghost(Seq::empty()),
        })
    }

    /// The next block in the key's order, with the coefficients to read;
    /// `None` once every block has been handed out.
    pub fn next_job(&mut self) -> (r: Option<ReadJob>)
        requires
            old(self).wf(),
        ensures
            final(self).wf(),
            r is None <==> old(self).visited == old(self).order@.len(),
            r is None ==> *final(self) == *old(self),
            r matches Some(job) ==> {
                let block = old(self).order@[old(self).visited as int];
                &&& final(self).visited == old(self).visited + 1
                &&& final(self).picture == old(self).picture
                &&& final(self).public_key == old(self).public_key
                &&& final(self).order == old(self).order
                &&& final(self).fed == old(self).fed
                &&& final(self).bytes == old(self).bytes
                &&& job.bx == block % old(self).cols
                &&& job.by == block / old(self).cols
                &&& job.samples@.len() == 3
                &&& job.reads@.len() == 3
                &&& forall|ch: int| 0 <= ch < 3 ==> #[trigger] job.samples@[ch]@ == old(self).picture.spec_block_channel(job.bx as int, job.by as int, ch)
                &&& forall|ch: int| 0 <= ch < 3 ==> #[trigger] job.reads@[ch]@ == channel_orders(old(self).public_key@, block as u32)[ch]
            },
    {
        if self.visited >= self.order.len() {
            return None;
        }
        let block = self.order[self.visited];
        let cols = self.cols;
        proof {
            assert(cols > 0) by (nonlinear_arith)
                requires block < cols * self.rows;
            vstd::arithmetic::div_mod::lemma_multiply_divide_lt(block as int, cols as int, self.rows as int);
            assert(cols * self.rows == self.rows * cols) by (nonlinear_arith);
        }
        let bx = block % cols;
        let by = block / cols;
        let reads = block_channel_orders(&self.public_key, block as u32);
        let mut samples: Vec<Vec<u8>> = Vec::new();
        let mut ch: usize = 0;
        while ch < 3
            invariant
                self.wf(),
                bx < self.picture.block_cols(),
                by < self.picture.block_rows(),
                ch <= 3,
                samples@.len() == ch,
                forall|c: int| 0 <= c < ch ==> #[trigger] samples@[c]@ == self.picture.spec_block_channel(bx as int, by as int, c),
            decreases 3 - ch,
        {
            samples.push(self.picture.block_channel(bx, by, ch));
            ch = ch + 1;
        }
        self.visited = self.visited + 1;
        Some(ReadJob { bx, by, samples, reads })
    }

    /// Record the bits read from a block, in reading order.
    ///
    /// Once at least 110 bytes have been read (a 104-byte header and a few
    /// bytes of message), a decode is tried; its message is returned when it
    /// succeeds.
    pub fn record(&mut self, bits: &Vec<bool>) -> (found: Option<Vec<u8>>)
        requires
            old(self).wf(),
        ensures
            final(self).wf(),
            final(self).fed@ == old(self).fed@ + bits@,
            final(self).picture == old(self).picture,
            final(self).public_key == old(self).public_key,
            final(self).order == old(self).order,
            final(self).visited == old(self).visited,
            found is Some <==> final(self).bytes@.len() >= EARLY_DECODE_BYTES && decoded_message(
                final(self).bytes@,
                old(self).public_key@,
            ) is Some,
            found matches Some(m) ==> m@ == decoded_message(
                final(self).bytes@,
                old(self).public_key@,
            ).unwrap(),
    {
        let mut combined: Vec<bool> = Vec::new();
        let mut i: usize = 0;
        while i < self.pending.len()
            invariant
                i <= self.pending@.len(),
                combined@ == self.pending@.subrange(0, i as int),
            decreases self.pending@.len() - i,
        {
            combined.push(self.pending[i]);
            i = i + 1;
            assert(combined@ =~= self.pending@.subrange(0, i as int));
        }
        let mut j: usize = 0;
        while j < bits.len()
            invariant
                i == self.pending@.len(),
                j <= bits@.len(),
                combined@ == self.pending@ + bits@.subrange(0, j as int),
            decreases bits@.len() - j,
        {
            combined.push(bits[j]);
            j = j + 1;
            assert(combined@ =~= self.pending@ + bits@.subrange(0, j as int));
        }
        proof {
            assert(self.pending@.subrange(0, i as int) =~= self.pending@);
            assert(bits@.subrange(0, bits@.len() as int) =~= bits@);
        }
        let (new_bytes, rest) = pack_bits(&combined);
        let ghost packed_new = new_bytes@;
        let ghost old_fed = self.fed@;
        let mut new_bytes = new_bytes;
        self.bytes.append(&mut new_bytes);
        proof {
            lemma_packed_append(old_fed, bits@);
            let nf = old_fed + bits@;
            vstd::arithmetic::div_mod::lemma_fundamental_div_mod(old_fed.len() as int, 8);
            vstd::arithmetic::div_mod::lemma_fundamental_div_mod(combined@.len() as int, 8);
            let q = old_fed.len() / 8;
            assert(nf.len() == 8 * q + combined@.len());
            assert(nf.len() / 8 == q + combined@.len() / 8) by {
                vstd::arithmetic::div_mod::lemma_fundamental_div_mod_converse(
                    nf.len() as int,
                    8,
                    (q + combined@.len() / 8) as int,
                    (combined@.len() % 8) as int,
                );
            }
            assert(rest@ =~= nf.subrange(8 * (nf.len() / 8) as int, nf.len() as int));
        }
        self.pending = rest;
        self.fed = Ghost(old_fed + bits@);
        // Try to decode once enough bytes for a header have been seen
        if self.bytes.len() >= EARLY_DECODE_BYTES {
            match try_decode(self.bytes.as_slice(), &self.public_key) {
                Ok(msg) => return Some(msg),
                Err(_) => return None,
            }
        }
        None
    }

    /// The final attempt, with every byte read.
    pub fn finish(&self) -> (r: Result<Vec<u8>, WsntpError>)
        requires
            self.wf(),
        ensures
            r is Ok <==> decoded_message(self.bytes@, self.public_key@) is Some,
            r matches Ok(m) ==> m@ == decoded_message(self.bytes@, self.public_key@).unwrap(),
            r is Err ==> fails_with(r, "no valid payload found — wrong key or image not signed"@),
    {
        match try_decode(self.bytes.as_slice(), &self.public_key) {
            Ok(msg) => Ok(msg),
            Err(_) => Err(WsntpError::cli_str("no valid payload found — wrong key or image not signed")),
        }
    }
}

} // verus!
