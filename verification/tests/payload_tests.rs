use wsntp::crypto::{self, VerifyResult};
use wsntp::error::WsntpError;
use wsntp::payload::{Payload, HEADER_SIZE, OFF_MSG_LEN, VERSION};

const MAGIC: &[u8; 4] = b"WSNT";

fn dummy_payload() -> Payload {
    let kp = crypto::generate_keypair().unwrap();
    Payload {
        public_key: kp.public,
        signature: [0u8; 64],
        message: b"hello world".to_vec(),
    }
}

#[test]
fn encode_decode_roundtrip() {
    let p = dummy_payload();
    let encoded = p.encode();
    let decoded = Payload::decode(&encoded).ok().unwrap();
    assert_eq!(decoded.public_key, p.public_key);
    assert_eq!(decoded.signature, p.signature);
    assert_eq!(decoded.message, p.message);
}

#[test]
fn sign_and_verify_roundtrip() {
    let kp = crypto::generate_keypair().unwrap();
    let mut p = Payload::new(kp.public, b"signed message".to_vec()).ok().unwrap();
    p.sign(&kp.secret);
    assert!(matches!(p.verify_signature(), VerifyResult::Valid));
}

#[test]
fn payload_tampered_message_fails_verification() {
    let kp = crypto::generate_keypair().unwrap();
    let mut p = Payload::new(kp.public, b"original".to_vec()).ok().unwrap();
    p.sign(&kp.secret);

    p.message = b"tampered!".to_vec();
    assert!(matches!(p.verify_signature(), VerifyResult::InvalidSignature));
}

#[test]
fn tampered_public_key_fails_verification() {
    let kp = crypto::generate_keypair().unwrap();
    let mut p = Payload::new(kp.public, b"msg".to_vec()).ok().unwrap();
    p.sign(&kp.secret);

    let other = crypto::generate_keypair().unwrap();
    p.public_key = other.public;
    assert!(matches!(p.verify_signature(), VerifyResult::InvalidSignature));
}

#[test]
fn oversized_message_rejected() {
    let kp = crypto::generate_keypair().unwrap();
    let msg = vec![b'x'; u16::MAX as usize + 1];
    assert!(Payload::new(kp.public, msg).is_err());
}

#[test]
fn decode_rejects_short_data() {
    assert!(Payload::decode(b"WSN").is_err());
}

#[test]
fn decode_rejects_bad_magic() {
    let mut data = vec![0u8; HEADER_SIZE];
    data[0..4].copy_from_slice(b"BAD!");
    assert!(Payload::decode(&data).is_err());
}

#[test]
fn decode_rejects_unsupported_version() {
    let mut data = vec![0u8; HEADER_SIZE];
    data[0..4].copy_from_slice(MAGIC);
    data[4] = 0xFF;
    assert!(Payload::decode(&data).is_err());
}

#[test]
fn decode_rejects_nonzero_reserved() {
    let mut data = vec![0u8; HEADER_SIZE];
    data[0..4].copy_from_slice(MAGIC);
    data[4] = VERSION;
    data[5] = 0x01; // bad reserved byte
    assert!(Payload::decode(&data).is_err());
}

#[test]
fn decode_rejects_truncated_message() {
    let mut data = vec![0u8; HEADER_SIZE];
    data[0..4].copy_from_slice(MAGIC);
    data[4] = VERSION;
    data[OFF_MSG_LEN] = 0x00;
    data[OFF_MSG_LEN + 1] = 0x10; // claims 16-byte message, but no data follows
    assert!(Payload::decode(&data).is_err());
}

#[test]
fn empty_message() {
    let kp = crypto::generate_keypair().unwrap();
    let mut p = Payload::new(kp.public, vec![]).ok().unwrap();
    p.sign(&kp.secret);
    let encoded = p.encode();
    let decoded = Payload::decode(&encoded).ok().unwrap();
    assert!(decoded.message.is_empty());
    assert!(matches!(decoded.verify_signature(), VerifyResult::Valid));
}

#[test]
fn max_length_message() {
    let kp = crypto::generate_keypair().unwrap();
    let msg = vec![b'x'; u16::MAX as usize];
    let mut p = Payload::new(kp.public, msg.clone()).ok().unwrap();
    p.sign(&kp.secret);
    let encoded = p.encode();
    let decoded = Payload::decode(&encoded).ok().unwrap();
    assert_eq!(decoded.message.len(), u16::MAX as usize);
    assert!(matches!(decoded.verify_signature(), VerifyResult::Valid));
}

#[test]
fn find_magic_at_start() {
    let p = dummy_payload();
    let encoded = p.encode();
    assert_eq!(Payload::find_magic(&encoded), Some(0));
}

#[test]
fn find_magic_with_garbage_prefix() {
    let p = dummy_payload();
    let encoded = p.encode();
    let mut noisy = vec![0x00u8; 5];
    noisy.extend_from_slice(&encoded);
    assert_eq!(Payload::find_magic(&noisy), Some(5));
}

#[test]
fn find_magic_not_present() {
    assert_eq!(Payload::find_magic(b"no magic here"), None);
}

#[test]
fn find_magic_data_shorter_than_4_bytes() {
    assert_eq!(Payload::find_magic(b"WS"), None);
}

// --- further cases ---

#[test]
fn encode_layout_is_exact() {
    let p = Payload {
        public_key: [7u8; 32],
        signature: [9u8; 64],
        message: vec![1, 2, 3],
    };
    let e = p.encode();
    assert_eq!(e.len(), HEADER_SIZE + 3);
    assert_eq!(&e[0..4], MAGIC);
    assert_eq!(e[4], VERSION);
    assert_eq!(e[5], 0x00);
    assert!(e[6..38].iter().all(|&b| b == 7));
    assert!(e[38..102].iter().all(|&b| b == 9));
    assert_eq!(e[102], 0x00);
    assert_eq!(e[103], 0x03);
    assert_eq!(&e[104..], &[1, 2, 3]);
}

#[test]
fn length_field_is_big_endian() {
    let p = Payload {
        public_key: [0u8; 32],
        signature: [0u8; 64],
        message: vec![0u8; 0x0102],
    };
    let e = p.encode();
    assert_eq!(e[OFF_MSG_LEN], 0x01);
    assert_eq!(e[OFF_MSG_LEN + 1], 0x02);
}

#[test]
fn decode_ignores_trailing_bytes() {
    let p = dummy_payload();
    let mut encoded = p.encode();
    encoded.extend_from_slice(b"trailing garbage");
    let decoded = Payload::decode(&encoded).ok().unwrap();
    assert_eq!(decoded.message, b"hello world".to_vec());
}

#[test]
fn new_zeroes_signature() {
    let p = Payload::new([3u8; 32], b"m".to_vec()).ok().unwrap();
    assert_eq!(p.signature, [0u8; 64]);
    assert_eq!(p.public_key, [3u8; 32]);
}

#[test]
fn decode_error_texts() {
    match Payload::decode(b"WSN") {
        Err(WsntpError::Cli(m)) => assert_eq!(m, "payload too short"),
        _ => panic!("expected a Cli error"),
    }
    let mut data = vec![0u8; HEADER_SIZE];
    data[0..4].copy_from_slice(MAGIC);
    data[4] = VERSION;
    data[OFF_MSG_LEN + 1] = 0x10;
    match Payload::decode(&data) {
        Err(WsntpError::Cli(m)) => {
            assert_eq!(m, "payload truncated: message shorter than declared length")
        }
        _ => panic!("expected a Cli error"),
    }
    data[4] = 2;
    match Payload::decode(&data) {
        Err(WsntpError::Cli(m)) => assert_eq!(m, "unknown payload version: 2"),
        _ => panic!("expected a Cli error"),
    }
}

#[test]
fn find_magic_returns_first_occurrence() {
    let data = b"xxWSNTyyWSNT";
    assert_eq!(Payload::find_magic(data), Some(2));
}

#[test]
fn oversized_message_error_text() {
    match Payload::new([0u8; 32], vec![0u8; 70000]) {
        Err(WsntpError::Cli(m)) => assert_eq!(m, "message too long: 70000 bytes (max 65535)"),
        _ => panic!("expected a Cli error"),
    }
    let mut data = vec![0u8; HEADER_SIZE];
    data[0..4].copy_from_slice(MAGIC);
    data[4] = 200;
    match Payload::decode(&data) {
        Err(WsntpError::Cli(m)) => assert_eq!(m, "unknown payload version: 200"),
        _ => panic!("expected a Cli error"),
    }
    data[4] = 0;
    match Payload::decode(&data) {
        Err(WsntpError::Cli(m)) => assert_eq!(m, "unknown payload version: 0"),
        _ => panic!("expected a Cli error"),
    }
}
