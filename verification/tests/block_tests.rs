use rand::RngCore;
use wsntp::block::{
    bits_per_block, block_channel_orders, block_rng, candidate_coefficients, shuffle_coeffs,
    shuffle_indices, BLOCK,
};

#[test]
fn candidate_coefficients_sizes() {
    let c = candidate_coefficients(8);
    let bits: usize = c.iter().map(|&(_, _, sc)| if sc { 1 } else { 2 }).sum();
    assert_eq!(bits, 63);
    assert_eq!(bits_per_block(8), 63);
}

#[test]
fn shuffle_is_permutation() {
    let mut indices: Vec<usize> = (0..100).collect();
    let original = indices.clone();
    let key = [0xAAu8; 32];
    let mut rng = block_rng(&key, 0);
    shuffle_indices(&mut indices, &mut rng);
    indices.sort_unstable();
    assert_eq!(indices, original);
}

#[test]
fn block_rng_is_deterministic() {
    let key = [0xCCu8; 32];
    let mut a = block_rng(&key, 7);
    let mut b = block_rng(&key, 7);
    assert_eq!(a.next_u32(), b.next_u32());
    assert_eq!(a.next_u32(), b.next_u32());
}

#[test]
fn different_block_indices_produce_different_rng() {
    let key = [0xBBu8; 32];
    let mut a = block_rng(&key, 0);
    let mut b = block_rng(&key, 1);
    // Extremely unlikely to collide
    assert_ne!(a.next_u32(), b.next_u32());
}

// --- further cases ---

#[test]
fn candidates_of_8x8_block() {
    let c = candidate_coefficients(8);
    assert_eq!(c.len(), 33);
    // DC is left out; the first candidate is (0, 1), paired with (0, 7).
    assert_eq!(c[0], (0, 1, false));
    assert!(!c.contains(&(0, 0, true)));
    // The three non-DC self-conjugate positions carry one bit each.
    let sc: Vec<_> = c.iter().filter(|t| t.2).map(|t| (t.0, t.1)).collect();
    assert_eq!(sc, vec![(0, 4), (4, 0), (4, 4)]);
    // No candidate is the conjugate of an earlier one.
    assert!(!c.contains(&(0, 7, false)));
}

#[test]
fn bits_per_block_is_n_squared_minus_one() {
    for n in 1..12 {
        assert_eq!(bits_per_block(n), n * n - 1);
    }
    assert_eq!(bits_per_block(0), 0);
}

#[test]
fn shuffle_coeffs_is_permutation() {
    let mut c = candidate_coefficients(BLOCK);
    let mut sorted = c.clone();
    let mut rng = block_rng(&[1u8; 32], 3);
    shuffle_coeffs(&mut c, &mut rng);
    c.sort();
    sorted.sort();
    assert_eq!(c, sorted);
}

#[test]
fn shuffle_of_short_lists_draws_nothing() {
    let key = [5u8; 32];
    let mut a = block_rng(&key, 2);
    let mut b = block_rng(&key, 2);
    let mut one = vec![9usize];
    shuffle_indices(&mut one, &mut a);
    assert_eq!(one, vec![9]);
    assert_eq!(a.next_u32(), b.next_u32());
}

#[test]
fn channel_orders_are_deterministic_and_per_channel() {
    let key = [0x11u8; 32];
    let a = block_channel_orders(&key, 4);
    let b = block_channel_orders(&key, 4);
    assert_eq!(a, b);
    assert_eq!(a.len(), 3);
    for ch in 0..3 {
        assert_eq!(a[ch].len(), 33);
    }
    assert_ne!(a[0], a[1]);
}
