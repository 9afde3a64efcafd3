use wsntp::qim::{embed_index, index_parity};

#[test]
fn index_parity_is_twos_complement_low_bit() {
    assert!(!index_parity(0));
    assert!(index_parity(1));
    // -1 is odd in two's complement → bit 1 (true)
    assert!(index_parity(-1));
    assert!(!index_parity(-2));
}

#[test]
fn embed_index_keeps_matching_parity() {
    assert_eq!(embed_index(0, false, true), 0);
    assert_eq!(embed_index(1, true, false), 1);
}

#[test]
fn embed_index_moves_to_the_value_side() {
    assert_eq!(embed_index(0, true, true), 1);
    assert_eq!(embed_index(0, true, false), -1);
    assert_eq!(embed_index(2, true, false), 1);
    assert_eq!(embed_index(2, true, true), 3);
}

#[test]
fn embed_then_read_index_roundtrip() {
    for q in -50i64..50 {
        for &bit in &[false, true] {
            for &above in &[false, true] {
                let k = embed_index(q, bit, above);
                assert_eq!(index_parity(k), bit);
                assert!((k - q).abs() <= 1);
            }
        }
    }
}
