use wsntp::crypto::generate_keypair;
use wsntp::embed::{plan_embedding, CoeffWrite, EmbedSession};
use wsntp::extract::{try_decode, ExtractSession};
use wsntp::picture::Picture;

const TEST_IMG_SIZE: usize = 32;

fn mid_gray_picture(w: usize, h: usize) -> Picture {
    Picture { width: w, height: h, data: vec![128u8; w * h * 3] }
}

/// The bits a lossless channel would give back for one write, in reading
/// order: the real part, then the imaginary part of a coefficient that is
/// not self-conjugate.
fn bits_of_write(w: &CoeffWrite, out: &mut Vec<bool>) {
    out.push(w.re_bit.unwrap_or(false));
    if !w.self_conjugate {
        out.push(w.im_bit);
    }
}

/// Run an embedding session with unchanged samples and collect, block by
/// block, the coefficients and bits it writes.
fn embed_bits(
    picture: Picture,
    secret: &[u8; 32],
    message: &[u8],
) -> (Vec<Vec<Vec<(usize, usize)>>>, Vec<Vec<bool>>, [u8; 32], Picture) {
    let mut session = EmbedSession::start(picture, secret, message).ok().unwrap();
    let public = session.plan.public_key;
    let mut coords = Vec::new();
    let mut bits = Vec::new();
    while let Some(job) = session.next_job() {
        let mut block_coords = Vec::new();
        let mut block_bits = Vec::new();
        for ch in 0..3 {
            block_coords.push(job.writes[ch].iter().map(|w| (w.u, w.v)).collect::<Vec<_>>());
            for w in &job.writes[ch] {
                bits_of_write(w, &mut block_bits);
            }
        }
        assert_eq!(block_bits.len(), 189);
        coords.push(block_coords);
        bits.push(block_bits);
        assert!(session.complete_job(&job.samples));
    }
    (coords, bits, public, session.into_picture())
}

/// Extract with `public`, reading back `bits` from the blocks that carry
/// them (checking the coefficient order matches) and zeros elsewhere.
fn extract_bits(
    picture: Picture,
    public: &[u8; 32],
    coords: &[Vec<Vec<(usize, usize)>>],
    bits: &[Vec<bool>],
) -> Result<Vec<u8>, String> {
    let mut session = ExtractSession::start(picture, public).ok().unwrap();
    let mut i = 0;
    while let Some(job) = session.next_job() {
        let read = if i < bits.len() {
            for ch in 0..3 {
                let order: Vec<(usize, usize)> = job.reads[ch].iter().map(|r| (r.0, r.1)).collect();
                assert_eq!(order, coords[i][ch]);
            }
            bits[i].clone()
        } else {
            vec![false; 189]
        };
        i += 1;
        if let Some(m) = session.record(&read) {
            return Ok(m);
        }
    }
    session.finish().map_err(|e| e.message())
}

#[test]
fn embed_rejects_tiny_image() {
    let kp = generate_keypair().unwrap();
    assert!(EmbedSession::start(mid_gray_picture(4, 4), &kp.secret, b"hi").is_err());
}

#[test]
fn embed_rejects_huge_message() {
    let kp = generate_keypair().unwrap();
    let big = vec![b'x'; 300];
    assert!(EmbedSession::start(mid_gray_picture(TEST_IMG_SIZE, TEST_IMG_SIZE), &kp.secret, &big)
        .is_err());
}

// --- further cases ---

#[test]
fn plan_is_deterministic() {
    let seed = [9u8; 32];
    let a = plan_embedding(TEST_IMG_SIZE, TEST_IMG_SIZE, &seed, b"hello").ok().unwrap();
    let b = plan_embedding(TEST_IMG_SIZE, TEST_IMG_SIZE, &seed, b"hello").ok().unwrap();
    assert_eq!(a.bits, b.bits);
    assert_eq!(a.blocks, b.blocks);
    assert_eq!(a.public_key, b.public_key);
}

#[test]
fn plan_shape_and_capacity() {
    let seed = [1u8; 32];
    let plan = plan_embedding(TEST_IMG_SIZE, TEST_IMG_SIZE, &seed, b"hello").ok().unwrap();
    assert_eq!(plan.cols, 4);
    assert_eq!(plan.rows, 4);
    // (104 + 5) bytes of container, 189 bits per block.
    assert_eq!(plan.bits.len(), 8 * 109);
    assert_eq!(plan.blocks.len(), (8 * 109 + 188) / 189);
    let mut seen = plan.blocks.clone();
    seen.sort();
    seen.dedup();
    assert_eq!(seen.len(), plan.blocks.len());
    assert!(plan.blocks.iter().all(|&b| b < 16));
    // The container starts with the magic bytes "WSNT", most significant bit first.
    let w: Vec<bool> = (0..8).map(|k| (b'W' >> (7 - k)) & 1 == 1).collect();
    assert_eq!(&plan.bits[0..8], &w[..]);
}

#[test]
fn plan_edge_pixels_are_ignored() {
    let seed = [1u8; 32];
    let plan = plan_embedding(39, 47, &seed, b"").ok().unwrap();
    assert_eq!(plan.cols, 4);
    assert_eq!(plan.rows, 5);
}

#[test]
fn plan_rejects_exactly_too_long() {
    let seed = [1u8; 32];
    // 16 blocks hold 3024 bits = 378 bytes: 274 bytes of message fit, 275 do not.
    assert!(plan_embedding(TEST_IMG_SIZE, TEST_IMG_SIZE, &seed, &vec![0u8; 274]).is_ok());
    match plan_embedding(TEST_IMG_SIZE, TEST_IMG_SIZE, &seed, &vec![0u8; 275]) {
        Err(wsntp::error::WsntpError::Cli(m)) => {
            assert_eq!(m, "message too long for image: 3032 bits needed, 3024 available")
        }
        _ => panic!("expected a Cli error"),
    }
}

#[test]
fn plan_rejects_tiny_image_text() {
    let seed = [1u8; 32];
    match plan_embedding(7, 100, &seed, b"x") {
        Err(wsntp::error::WsntpError::Cli(m)) => {
            assert_eq!(m, "image too small: need at least 8×8 pixels")
        }
        _ => panic!("expected a Cli error"),
    }
}

#[test]
fn plans_differ_between_keys() {
    let a = plan_embedding(TEST_IMG_SIZE, TEST_IMG_SIZE, &[1u8; 32], b"hello").ok().unwrap();
    let b = plan_embedding(TEST_IMG_SIZE, TEST_IMG_SIZE, &[2u8; 32], b"hello").ok().unwrap();
    assert_ne!(a.public_key, b.public_key);
    assert_ne!(a.bits, b.bits);
}

#[test]
fn lossless_channel_roundtrip() {
    let kp = generate_keypair().unwrap();
    let (coords, bits, public, out) =
        embed_bits(mid_gray_picture(TEST_IMG_SIZE, TEST_IMG_SIZE), &kp.secret, b"hello world");
    assert_eq!(public, kp.public);
    assert_eq!(out.width, TEST_IMG_SIZE);
    assert_eq!(out.height, TEST_IMG_SIZE);
    let m = extract_bits(out, &kp.public, &coords, &bits).unwrap();
    assert_eq!(m, b"hello world");
}

#[test]
fn lossless_channel_roundtrip_empty_and_long() {
    let kp = generate_keypair().unwrap();
    for msg in [&b""[..], &b"Lorem ipsum dolor sit amet, consectetur adipiscing elit."[..]] {
        let (coords, bits, public, out) =
            embed_bits(mid_gray_picture(TEST_IMG_SIZE, TEST_IMG_SIZE), &kp.secret, msg);
        let m = extract_bits(out, &public, &coords, &bits).unwrap();
        assert_eq!(m, msg);
    }
}

#[test]
fn lossless_channel_wrong_key_fails() {
    let alice = generate_keypair().unwrap();
    let bob = generate_keypair().unwrap();
    let (coords, bits, _, out) =
        embed_bits(mid_gray_picture(TEST_IMG_SIZE, TEST_IMG_SIZE), &alice.secret, b"secret");
    // Bob's block order differs, so read Alice's bits in Bob's order anyway.
    let mut session = ExtractSession::start(out, &bob.public).ok().unwrap();
    let mut i = 0;
    let mut found = None;
    while let Some(_job) = session.next_job() {
        let read = if i < bits.len() { bits[i].clone() } else { vec![false; 189] };
        i += 1;
        if let Some(m) = session.record(&read) {
            found = Some(m);
            break;
        }
    }
    assert!(found.is_none());
    let _ = coords;
    match session.finish() {
        Err(wsntp::error::WsntpError::Cli(m)) => {
            assert_eq!(m, "no valid payload found — wrong key or image not signed")
        }
        _ => panic!("expected a Cli error"),
    }
}

#[test]
fn extract_rejects_tiny_image() {
    let kp = generate_keypair().unwrap();
    assert!(ExtractSession::start(mid_gray_picture(8, 7), &kp.public).is_err());
    assert!(ExtractSession::start(mid_gray_picture(8, 8), &kp.public).is_ok());
}

#[test]
fn complete_job_writes_block_samples() {
    let seed = [5u8; 32];
    let mut session =
        EmbedSession::start(mid_gray_picture(32, 32), &seed, b"").ok().unwrap();
    let job = session.next_job().unwrap();
    let new: Vec<Vec<u8>> = (0..3).map(|c| vec![c as u8 * 10 + 1; 64]).collect();
    assert!(!session.complete_job(&vec![vec![0u8; 64]; 2]));
    assert!(session.complete_job(&new));
    let pic = session.into_picture();
    for y in 0..32 {
        for x in 0..32 {
            for c in 0..3 {
                let v = pic.data[(y * 32 + x) * 3 + c];
                if x / 8 == job.bx && y / 8 == job.by {
                    assert_eq!(v, c as u8 * 10 + 1);
                } else {
                    assert_eq!(v, 128);
                }
            }
        }
    }
}

#[test]
fn try_decode_finds_payload_after_garbage() {
    let seed = [3u8; 32];
    let plan = plan_embedding(TEST_IMG_SIZE, TEST_IMG_SIZE, &seed, b"abc").ok().unwrap();
    let mut bytes = vec![0xAAu8; 5];
    for chunk in plan.bits.chunks(8) {
        bytes.push(wsntp::extract::bits_to_byte(chunk));
    }
    bytes.extend_from_slice(&[0u8; 7]);
    assert_eq!(try_decode(&bytes, &plan.public_key).ok().unwrap(), b"abc");
    assert!(try_decode(&bytes, &[0u8; 32]).is_err());
}

#[test]
fn job_writes_carry_plan_bits() {
    let seed = [4u8; 32];
    let mut session =
        EmbedSession::start(mid_gray_picture(TEST_IMG_SIZE, TEST_IMG_SIZE), &seed, b"bits")
            .ok()
            .unwrap();
    let bits = session.plan.bits.clone();
    let mut done = 0;
    while let Some(job) = session.next_job() {
        let mut got = Vec::new();
        for ch in 0..3 {
            for w in &job.writes[ch] {
                bits_of_write(w, &mut got);
            }
        }
        let expected: Vec<bool> =
            (0..189).map(|i| bits.get(done * 189 + i).copied().unwrap_or(false)).collect();
        assert_eq!(got, expected);
        assert!(session.complete_job(&job.samples));
        done += 1;
    }
    assert_eq!(done, session.plan.blocks.len());
    assert_eq!(done * 189 >= bits.len(), true);
}

#[test]
fn try_decode_error_texts() {
    let text = |r: Result<Vec<u8>, wsntp::error::WsntpError>| match r {
        Err(wsntp::error::WsntpError::Cli(m)) => m,
        _ => panic!("expected a Cli error"),
    };
    let key = [7u8; 32];
    assert_eq!(text(try_decode(b"nothing here", &key)), "magic not found");
    assert_eq!(text(try_decode(b"xxWSNTshort", &key)), "payload too short");

    let kp = generate_keypair().unwrap();
    let mut p = wsntp::payload::Payload::new(kp.public, b"signed".to_vec()).ok().unwrap();
    p.sign(&kp.secret);
    let good = p.encode();
    assert_eq!(try_decode(&good, &kp.public).ok().unwrap(), b"signed");
    assert_eq!(
        text(try_decode(&good, &key)),
        "public key mismatch — image was signed by a different key"
    );
    let mut bad = good.clone();
    let last = bad.len() - 1;
    bad[last] ^= 0x01;
    assert_eq!(
        text(try_decode(&bad, &kp.public)),
        "signature verification failed — image may be tampered"
    );
}
