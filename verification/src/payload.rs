//! Binary payload format.
//!
//! Serialization, deserialization, signing and verification of the
//! signed-message container that gets embedded into image FFT coefficients.
//!
//! ```text
//! |-----------|-----------|-----------|-----------|-----------|-----------|-----------|
//! |  "WSNT"   |   0x01    |   0x00    |  pubkey   | signature |  msg_len  |  message  |
//! |    4B     |    1B     |    1B     |   32B     |   64B     |   2B BE   |    N B    |
//! |-----------|-----------|-----------|-----------|-----------|-----------|-----------|
//! ```
use vstd::prelude::*;

use crate::crypto::{
    ed25519_key_accepted, ed25519_public_key, ed25519_signature, sign, verification_of, verify,
    VerifyResult,
};
use crate::error::{fails_with, WsntpError};
use crate::text::{decimal, push_decimal};

verus! {

/// Current container version.
pub const VERSION: u8 = 0x01;

/// Offset of the public key: after magic(4) + version(1) + reserved(1).
pub const OFF_PUBKEY: usize = 6;

/// Offset of the signature: after the public key (32).
pub const OFF_SIGNATURE: usize = 38;

/// Offset of the big-endian message length: after the signature (64).
pub const OFF_MSG_LEN: usize = 102;

/// Total overhead before the message.
pub const HEADER_SIZE: usize = 104;

/// Longest message the two-byte length field can declare.
pub const MAX_MESSAGE_LEN: usize = 65535;

/// The magic prefix "WSNT".
pub open spec fn magic() -> Seq<u8> {
    seq![0x57u8, 0x53u8, 0x4eu8, 0x54u8]
}

/// The magic prefix starts at byte `i` of `data`.
pub open spec fn magic_at(data: Seq<u8>, i: int) -> bool {
    &&& 0 <= i
    &&& i + 4 <= data.len()
    &&& data[i] == 0x57u8
    &&& data[i + 1] == 0x53u8
    &&& data[i + 2] == 0x4eu8
    &&& data[i + 3] == 0x54u8
}

/// The first position at or after `i` where the magic prefix starts.
pub open spec fn first_magic_from(data: Seq<u8>, i: int) -> Option<nat>
    decreases data.len() - i,
{
    if i < 0 || i + 4 > data.len() {
        None
    } else if magic_at(data, i) {
        Some(i as nat)
    } else {
        first_magic_from(data, i + 1)
    }
}

/// The first position where the magic prefix starts, if any.
pub open spec fn first_magic(data: Seq<u8>) -> Option<nat> {
    first_magic_from(data, 0)
}

/// The two-byte big-endian length field written for a message of `len` bytes
/// (the length is taken modulo 2^16, as a `u16` cast does).
pub open spec fn length_field(len: nat) -> Seq<u8> {
    seq![((len / 256) % 256) as u8, (len % 256) as u8]
}

/// The bytes that are signed: `pubkey || msg_len || message`.
pub open spec fn signing_input_of(public_key: Seq<u8>, message: Seq<u8>) -> Seq<u8> {
    public_key + length_field(message.len()) + message
}

/// The serialized container.
pub open spec fn encoding_of(public_key: Seq<u8>, signature: Seq<u8>, message: Seq<u8>) -> Seq<u8> {
    magic() + seq![VERSION, 0x00u8] + public_key + signature + length_field(message.len())
        + message
}

/// The signed bytes are the 32-byte public key, then the message length in
/// two bytes, most significant first, then the message.
pub proof fn lemma_signing_input_layout(public_key: Seq<u8>, message: Seq<u8>)
    requires
        public_key.len() == 32,
    ensures
        ({
            let s = signing_input_of(public_key, message);
            &&& s.len() == 34 + message.len()
            &&& forall|i: int| 0 <= i < 32 ==> #[trigger] s[i] == public_key[i]
            &&& s[32] == (message.len() / 256) % 256
            &&& s[33] == message.len() % 256
            &&& forall|i: int| 0 <= i < message.len() ==> #[trigger] s[34 + i] == message[i]
        }),
{
    let s = signing_input_of(public_key, message);
    assert forall|i: int| 0 <= i < message.len() implies #[trigger] s[34 + i] == message[i] by {}
}

/// The container is "WSNT", the version byte 1, a zero byte, the 32-byte
/// public key, the 64-byte signature, the message length in two bytes, most
/// significant first, and the message.
pub proof fn lemma_encoding_layout(public_key: Seq<u8>, signature: Seq<u8>, message: Seq<u8>)
    requires
        public_key.len() == 32,
        signature.len() == 64,
    ensures
        ({
            let e = encoding_of(public_key, signature, message);
            &&& e.len() == 104 + message.len()
            &&& e[0] == 0x57 && e[1] == 0x53 && e[2] == 0x4e && e[3] == 0x54
            &&& e[4] == 1 && e[5] == 0
            &&& forall|i: int| 0 <= i < 32 ==> #[trigger] e[6 + i] == public_key[i]
            &&& forall|i: int| 0 <= i < 64 ==> #[trigger] e[38 + i] == signature[i]
            &&& e[102] == (message.len() / 256) % 256
            &&& e[103] == message.len() % 256
            &&& forall|i: int| 0 <= i < message.len() ==> #[trigger] e[104 + i] == message[i]
        }),
{
    let e = encoding_of(public_key, signature, message);
    assert forall|i: int| 0 <= i < 32 implies #[trigger] e[6 + i] == public_key[i] by {}
    assert forall|i: int| 0 <= i < 64 implies #[trigger] e[38 + i] == signature[i] by {}
    assert forall|i: int| 0 <= i < message.len() implies #[trigger] e[104 + i] == message[i] by {}
}

/// The message length that a header declares.
pub open spec fn declared_len(data: Seq<u8>) -> nat {
    data[102] as nat * 256 + data[103] as nat
}

/// `data` starts with a well-formed container.
pub open spec fn decodable(data: Seq<u8>) -> bool {
    &&& data.len() >= HEADER_SIZE
    &&& magic_at(data, 0)
    &&& data[4] == VERSION
    &&& data[5] == 0x00u8
    &&& data.len() >= HEADER_SIZE + declared_len(data)
}

/// The text of the error that decoding `data` fails with, when `data` does
/// not start with a well-formed container.
pub open spec fn decode_error_text(data: Seq<u8>) -> Seq<char> {
    if data.len() < HEADER_SIZE {
        "payload too short"@
    } else if !magic_at(data, 0) {
        "invalid magic bytes"@
    } else if data[4] != VERSION {
        unknown_version_text(data[4])
    } else if data[5] != 0x00u8 {
        "reserved byte must be 0x00"@
    } else {
        "payload truncated: message shorter than declared length"@
    }
}

/// The (public key, signature, message) that a decodable `data` holds.
pub open spec fn decoded_fields(data: Seq<u8>) -> (Seq<u8>, Seq<u8>, Seq<u8>) {
    (
        data.subrange(6, 38),
        data.subrange(38, 102),
        data.subrange(104, 104 + declared_len(data) as int),
    )
}

/// A signed message container.
pub struct Payload {
    pub public_key: [u8; 32],
    pub signature: [u8; 64],
    pub message: Vec<u8>,
}

/// Appends `src` to `buf`.
fn append_bytes(buf: &mut Vec<u8>, src: &[u8])
    ensures
        final(buf)@ == old(buf)@ + src@,
{
    let mut i: usize = 0;
    while i < src.len()
        invariant
            i <= src@.len(),
            buf@ == old(buf)@ + src@.subrange(0, i as int),
        decreases src@.len() - i,
    {
        buf.push(src[i]);
        i = i + 1;
        assert(src@.subrange(0, i as int) == src@.subrange(0, i - 1) + seq![src@[i - 1]]);
    }
    assert(src@.subrange(0, src@.len() as int) == src@);
}

/// The text of the error for a message of `len` bytes, longer than the
/// length field allows.
pub open spec fn too_long_text(len: nat) -> Seq<char> {
    "message too long: "@ + decimal(len) + " bytes (max "@ + decimal(MAX_MESSAGE_LEN as nat) + ")"@
}

/// The text of the error for a container of unknown version.
pub open spec fn unknown_version_text(version: u8) -> Seq<char> {
    "unknown payload version: "@ + decimal(version as nat)
}

impl Payload {
    /// The bytes that the signature covers.
    pub open spec fn spec_signing_input(&self) -> Seq<u8> {
        signing_input_of(self.public_key@, self.message@)
    }

    /// The serialized container.
    pub open spec fn spec_encoding(&self) -> Seq<u8> {
        encoding_of(self.public_key@, self.signature@, self.message@)
    }

    /// What verifying the embedded signature yields.
    pub open spec fn spec_verification(&self) -> VerifyResult {
        verification_of(self.spec_signing_input(), self.signature@, self.public_key@)
    }

    /// Create a new payload with a zeroed-out signature.
    ///
    /// Returns an error if `message` exceeds 65535 bytes (u16::MAX).
    /// Call [`sign`](Self::sign) afterwards to populate the signature field.
    pub fn new(public_key: [u8; 32], message: Vec<u8>) -> (r: Result<Self, WsntpError>)
        ensures
            r is Ok <==> message@.len() <= MAX_MESSAGE_LEN,
            r matches Ok(p) ==> {
                &&& p.public_key == public_key
                &&& p.signature@ == Seq::new(64, |i: int| 0u8)
                &&& p.message@ == message@
            },
            message@.len() > MAX_MESSAGE_LEN ==> fails_with(r, too_long_text(message@.len())),
    {
        if message.len() > MAX_MESSAGE_LEN {
            let mut text = String::from_str("message too long: ");
            push_decimal(&mut text, message.len());
            text.append(" bytes (max ");
            push_decimal(&mut text, MAX_MESSAGE_LEN);
            text.append(")");
            return Err(WsntpError::Cli(text));
        }
        let signature = [0u8; 64];
        assert(signature@ =~= Seq::new(64, |i: int| 0u8));
        Ok(Payload { public_key, signature, message })
    }

    /// Build the signing input: `pubkey || msg_len || message`.
    ///
    /// The signing input deliberately excludes the version byte so that
    /// payloads signed under one version can be re-encoded under a newer
    /// version without invalidating the signature.  Magic and reserved
    /// bytes are excluded because they are framing markers, not data.
    fn signing_input(&self) -> (buf: Vec<u8>)
        ensures
            buf@ == self.spec_signing_input(),
    {
        let len = self.message.len();
        let mut buf: Vec<u8> = Vec::new();
        append_bytes(&mut buf, &self.public_key);
        buf.push(((len / 256) % 256) as u8);
        buf.push((len % 256) as u8);
        append_bytes(&mut buf, self.message.as_slice());
        assert(buf@ =~= self.spec_signing_input());
        buf
    }

    /// Sign the payload in-place with an Ed25519 secret seed.
    ///
    /// When the payload's public key is the one derived from `secret_seed`
    /// and `ed25519-dalek` accepts it, the signed payload verifies.
    pub fn sign(&mut self, secret_seed: &[u8; 32])
        ensures
            final(self).public_key == old(self).public_key,
            final(self).message@ == old(self).message@,
            final(self).signature@ == ed25519_signature(
                secret_seed@,
                old(self).spec_signing_input(),
            ),
            final(self).signature@ == ed25519_signature(
                secret_seed@,
                old(self).public_key@ + seq![
                    ((old(self).message@.len() / 256) % 256) as u8,
                    (old(self).message@.len() % 256) as u8,
                ] + old(self).message@,
            ),
            old(self).public_key@ == ed25519_public_key(secret_seed@) && ed25519_key_accepted(
                old(self).public_key@,
            ) ==> final(self).spec_verification() == VerifyResult::Valid,
    {
        let input = self.signing_input();
        self.signature = sign(input.as_slice(), secret_seed);
    }

    /// Verify the embedded Ed25519 signature.
    pub fn verify_signature(&self) -> (r: VerifyResult)
        ensures
            r == self.spec_verification(),
            r == verification_of(
                self.public_key@ + seq![
                    ((self.message@.len() / 256) % 256) as u8,
                    (self.message@.len() % 256) as u8,
                ] + self.message@,
                self.signature@,
                self.public_key@,
            ),
    {
        let input = self.signing_input();
        verify(input.as_slice(), &self.signature, &self.public_key)
    }

    /// Serialize to bytes:
    /// `magic | version | reserved | pubkey | signature | msg_len | message`.
    pub fn encode(&self) -> (buf: Vec<u8>)
        ensures
            buf@ == self.spec_encoding(),
    {
        let len = self.message.len();
        let mut buf: Vec<u8> = Vec::new();
        buf.push(0x57u8);
        buf.push(0x53u8);
        buf.push(0x4eu8);
        buf.push(0x54u8);
        buf.push(VERSION);
        buf.push(0x00u8);
        append_bytes(&mut buf, &self.public_key);
        append_bytes(&mut buf, &self.signature);
        buf.push(((len / 256) % 256) as u8);
        buf.push((len % 256) as u8);
        append_bytes(&mut buf, self.message.as_slice());
        assert(buf@ =~= self.spec_encoding());
        buf
    }

    /// Deserialize from bytes.  Caller is responsible for locating the magic
    /// bytes before calling this function: `data[0..4]` must be the magic.
    pub fn decode(data: &[u8]) -> (r: Result<Self, WsntpError>)
        ensures
            r is Ok <==> decodable(data@),
            r matches Ok(p) ==> (p.public_key@, p.signature@, p.message@) == decoded_fields(data@),
            !decodable(data@) ==> fails_with(r, decode_error_text(data@)),
    {
        if data.len() < HEADER_SIZE {
            return Err(WsntpError::cli_str("payload too short"));
        }
        if !(data[0] == 0x57u8 && data[1] == 0x53u8 && data[2] == 0x4eu8 && data[3] == 0x54u8) {
            return Err(WsntpError::cli_str("invalid magic bytes"));
        }
        if data[4] != VERSION {
            let mut text = String::from_str("unknown payload version: ");
            push_decimal(&mut text, data[4] as usize);
            return Err(WsntpError::Cli(text));
        }
        if data[5] != 0x00u8 {
            return Err(WsntpError::cli_str("reserved byte must be 0x00"));
        }
        let mut public_key = [0u8; 32];
        let mut i: usize = 0;
        while i < 32
            invariant
                i <= 32,
                data@.len() >= HEADER_SIZE,
                forall|k: int| 0 <= k < i ==> public_key@[k] == data@[OFF_PUBKEY + k],
            decreases 32 - i,
        {
            public_key[i] = data[OFF_PUBKEY + i];
            i = i + 1;
        }
        let mut signature = [0u8; 64];
        let mut i: usize = 0;
        while i < 64
            invariant
                i <= 64,
                data@.len() >= HEADER_SIZE,
                forall|k: int| 0 <= k < i ==> signature@[k] == data@[OFF_SIGNATURE + k],
            decreases 64 - i,
        {
            signature[i] = data[OFF_SIGNATURE + i];
            i = i + 1;
        }
        let msg_len = (data[OFF_MSG_LEN] as usize) * 256 + (data[OFF_MSG_LEN + 1] as usize);
        if data.len() < HEADER_SIZE + msg_len {
            return Err(
                WsntpError::cli_str("payload truncated: message shorter than declared length"),
            );
        }
        let mut message: Vec<u8> = Vec::new();
        let mut i: usize = 0;
        while i < msg_len
            invariant
                i <= msg_len,
                HEADER_SIZE + msg_len <= data.len(),
                message@ == data@.subrange(HEADER_SIZE as int, HEADER_SIZE + i),
            decreases msg_len - i,
        {
            message.push(data[HEADER_SIZE + i]);
            i = i + 1;
            assert(data@.subrange(HEADER_SIZE as int, HEADER_SIZE + i) =~= data@.subrange(
                HEADER_SIZE as int,
                HEADER_SIZE + i - 1,
            ).push(data@[HEADER_SIZE + i - 1]));
        }
        assert(public_key@ =~= data@.subrange(6, 38));
        assert(signature@ =~= data@.subrange(38, 102));
        Ok(Payload { public_key, signature, message })
    }

    /// Scan `data` for the magic prefix and return its byte offset, if any.
    pub fn find_magic(data: &[u8]) -> (r: Option<usize>)
        ensures
            r matches Some(i) ==> i as nat == first_magic(data@).unwrap() && first_magic(
                data@,
            ) is Some,
            r is None ==> first_magic(data@) is None,
    {
        let mut i: usize = 0;
        while data.len() >= 4 && i <= data.len() - 4
            invariant
                i <= data@.len(),
                first_magic(data@) == first_magic_from(data@, i as int),
            decreases data@.len() - i,
        {
            if data[i] == 0x57u8 && data[i + 1] == 0x53u8 && data[i + 2] == 0x4eu8 && data[i + 3]
                == 0x54u8 {
                return Some(i);
            }
            i = i + 1;
        }
        None
    }
}

/// A payload signs, and serializes to, the layouts of
/// `lemma_signing_input_layout` and `lemma_encoding_layout`: its signed bytes
/// are its public key, its message length (most significant byte first) and
/// its message.
pub proof fn lemma_payload_layout(p: Payload)
    ensures
        p.spec_signing_input().len() == 34 + p.message@.len(),
        forall|i: int| 0 <= i < 32 ==> #[trigger] p.spec_signing_input()[i] == p.public_key@[i],
        p.spec_signing_input()[32] == (p.message@.len() / 256) % 256,
        p.spec_signing_input()[33] == p.message@.len() % 256,
        forall|i: int| 0 <= i < p.message@.len() ==> #[trigger] p.spec_signing_input()[34 + i] == p.message@[i],
        p.spec_encoding().len() == 104 + p.message@.len(),
        p.spec_encoding()[102] == (p.message@.len() / 256) % 256,
        p.spec_encoding()[103] == p.message@.len() % 256,
        forall|i: int| 0 <= i < 32 ==> #[trigger] p.spec_encoding()[6 + i] == p.public_key@[i],
        forall|i: int| 0 <= i < 64 ==> #[trigger] p.spec_encoding()[38 + i] == p.signature@[i],
        forall|i: int| 0 <= i < p.message@.len() ==> #[trigger] p.spec_encoding()[104 + i] == p.message@[i],
{
    lemma_signing_input_layout(p.public_key@, p.message@);
    lemma_encoding_layout(p.public_key@, p.signature@, p.message@);
}

/// `first_magic` is the position of the first occurrence of the magic
/// prefix, and it is `None` exactly when the prefix occurs nowhere.
pub proof fn lemma_first_magic_is_first(data: Seq<u8>)
    ensures
        first_magic(data) matches Some(i) ==> magic_at(data, i as int) && forall|j: int|
            0 <= j < i ==> !magic_at(data, j),
        first_magic(data) is None ==> forall|j: int| !magic_at(data, j),
{
    lemma_first_magic_from(data, 0);
}

proof fn lemma_first_magic_from(data: Seq<u8>, i: int)
    requires
        0 <= i,
    ensures
        first_magic_from(data, i) matches Some(k) ==> i <= k && magic_at(data, k as int) && forall|
            j: int,
        | i <= j < k ==> !magic_at(data, j),
        first_magic_from(data, i) is None ==> forall|j: int| i <= j ==> !magic_at(data, j),
    decreases data.len() - i,
{
    if i + 4 > data.len() {
    } else if magic_at(data, i) {
    } else {
        lemma_first_magic_from(data, i + 1);
    }
}

/// A container whose message fits the length field decodes back to the
/// public key, signature and message it was encoded from, whatever bytes
/// follow it.
pub proof fn lemma_decode_encoding(
    public_key: Seq<u8>,
    signature: Seq<u8>,
    message: Seq<u8>,
    trailing: Seq<u8>,
)
    requires
        public_key.len() == 32,
        signature.len() == 64,
        message.len() <= MAX_MESSAGE_LEN,
    ensures
        decodable(encoding_of(public_key, signature, message) + trailing),
        decoded_fields(encoding_of(public_key, signature, message) + trailing) == (
            public_key,
            signature,
            message,
        ),
        first_magic(encoding_of(public_key, signature, message) + trailing) == Some(0nat),
{
    let data = encoding_of(public_key, signature, message) + trailing;
    let len = message.len();
    assert(data[102] == ((len / 256) % 256) as u8);
    assert(data[103] == (len % 256) as u8);
    assert(declared_len(data) == len) by (nonlinear_arith)
        requires
            declared_len(data) == ((len / 256) % 256) as u8 as nat * 256 + (len % 256) as u8 as nat,
            len <= 65535,
    ;
    assert(data.subrange(6, 38) =~= public_key);
    assert(data.subrange(38, 102) =~= signature);
    assert(data.subrange(104, 104 + len as int) =~= message);
}

} // verus!
