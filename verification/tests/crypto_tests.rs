use wsntp::crypto::{generate_keypair, sign, verify, VerifyResult};

#[test]
fn sign_verify_roundtrip() {
    let keypair = generate_keypair().unwrap();
    let message = b"hello world";
    let signature = sign(message, &keypair.secret);
    assert!(matches!(
        verify(message, &signature, &keypair.public),
        VerifyResult::Valid
    ));
}

#[test]
fn crypto_tampered_message_fails_verification() {
    let keypair = generate_keypair().unwrap();
    let signature = sign(b"original", &keypair.secret);
    assert!(matches!(
        verify(b"tampered", &signature, &keypair.public),
        VerifyResult::InvalidSignature
    ));
}

#[test]
fn wrong_key_fails_verification() {
    let alice = generate_keypair().unwrap();
    let bob = generate_keypair().unwrap();
    let signature = sign(b"msg", &alice.secret);
    assert!(matches!(
        verify(b"msg", &signature, &bob.public),
        VerifyResult::InvalidSignature
    ));
}

#[test]
fn invalid_public_key_detected() {
    let keypair = generate_keypair().unwrap();
    let signature = sign(b"msg", &keypair.secret);
    // Corrupt a valid key mid-byte.  Flipping one bit leaves a valid curve
    // point about half of the time, so the corruption of byte 16 used here is
    // the first one that the curve library itself refuses to decompress.
    let mut bad_pub = keypair.public;
    let mut mask: u8 = 0x01;
    loop {
        bad_pub[16] = keypair.public[16] ^ mask;
        if ed25519_dalek::VerifyingKey::from_bytes(&bad_pub).is_err() {
            break;
        }
        mask = mask.wrapping_add(1);
        assert_ne!(mask, 0, "every corruption of byte 16 decompressed");
    }
    assert!(matches!(
        verify(b"msg", &signature, &bad_pub),
        VerifyResult::InvalidPublicKey
    ));
}

// --- further cases ---

#[test]
fn signatures_are_deterministic() {
    let seed = [42u8; 32];
    assert_eq!(sign(b"same", &seed), sign(b"same", &seed));
    assert_ne!(sign(b"same", &seed), sign(b"other", &seed));
}

#[test]
fn rfc8032_test_vector_1() {
    // RFC 8032, section 7.1, TEST 1 (empty message).
    let seed: [u8; 32] = [
        0x9d, 0x61, 0xb1, 0x9d, 0xef, 0xfd, 0x5a, 0x60, 0xba, 0x84, 0x4a, 0xf4, 0x92, 0xec, 0x2c,
        0xc4, 0x44, 0x49, 0xc5, 0x69, 0x7b, 0x32, 0x69, 0x19, 0x70, 0x3b, 0xac, 0x03, 0x1c, 0xae,
        0x7f, 0x60,
    ];
    let public: [u8; 32] = [
        0xd7, 0x5a, 0x98, 0x01, 0x82, 0xb1, 0x0a, 0xb7, 0xd5, 0x4b, 0xfe, 0xd3, 0xc9, 0x64, 0x07,
        0x3a, 0x0e, 0xe1, 0x72, 0xf3, 0xda, 0xa6, 0x23, 0x25, 0xaf, 0x02, 0x1a, 0x68, 0xf7, 0x07,
        0x51, 0x1a,
    ];
    let sig = sign(b"", &seed);
    assert_eq!(sig[0], 0xe5);
    assert_eq!(sig[63], 0x0b);
    assert!(matches!(verify(b"", &sig, &public), VerifyResult::Valid));
}

#[test]
fn generated_keys_differ_and_sign() {
    let a = generate_keypair().unwrap();
    let b = generate_keypair().unwrap();
    assert_ne!(a.secret, b.secret);
    let sig = sign(b"m", &a.secret);
    assert!(matches!(verify(b"m", &sig, &a.public), VerifyResult::Valid));
}
