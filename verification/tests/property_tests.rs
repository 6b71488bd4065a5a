use pseg_sieve::primality::is_prime;
use pseg_sieve::sieve::{
    get_partition_indices, rayon_segmented_sieve, segmentation_fits, sequential_segmented_sieve,
    sequential_sieve,
};

#[test]
fn sieve_agrees_with_trial_division() {
    let primes = sequential_sieve(200);
    for n in 0..=200usize {
        assert_eq!(primes.contains(&n), is_prime(n), "candidate: {}", n);
    }
}

#[test]
fn sieve_small_exact() {
    assert_eq!(vec![2, 3, 5, 7, 11, 13, 17, 19], sequential_sieve(20));
    assert!(sequential_sieve(0).is_empty());
    assert!(sequential_sieve(1).is_empty());
    assert_eq!(vec![2], sequential_sieve(2));
}

#[test]
fn partition_exact_values() {
    // span 14 over 4 chunks: quotient 3, remainder 2, so sizes 4, 4, 3, 3.
    let indices = get_partition_indices(11, 25, 4);
    assert_eq!(vec![11, 15, 19, 22, 25], indices);
}

#[test]
fn partition_boundaries_well_formed() {
    let indices = get_partition_indices(100, 1777, 13);
    assert_eq!(14, indices.len());
    assert_eq!(100, indices[0]);
    assert_eq!(1777, indices[13]);
    let sizes: Vec<usize> = indices.windows(2).map(|w| w[1] - w[0]).collect();
    for pair in indices.windows(2) {
        assert!(pair[0] < pair[1]);
    }
    for pair in sizes.windows(2) {
        assert!(pair[1] <= pair[0] && pair[0] <= pair[1] + 1);
    }
}

#[test]
fn segmented_variants_agree() {
    let plain = sequential_sieve(10_000);
    let seq = sequential_segmented_sieve(10_000, 7);
    let par = rayon_segmented_sieve(10_000, 13);
    assert_eq!(plain, seq);
    assert_eq!(plain, par);
}

#[test]
fn zero_limit_all_variants_empty() {
    assert!(sequential_sieve(0).is_empty());
    assert!(sequential_segmented_sieve(0, 5).is_empty());
    assert!(rayon_segmented_sieve(0, 5).is_empty());
    assert!(sequential_segmented_sieve(1, 3).is_empty());
    assert!(rayon_segmented_sieve(1, 3).is_empty());
}

#[test]
fn repeated_calls_identical() {
    assert_eq!(sequential_sieve(5000), sequential_sieve(5000));
    assert_eq!(
        sequential_segmented_sieve(5000, 9),
        sequential_segmented_sieve(5000, 9)
    );
    assert_eq!(
        rayon_segmented_sieve(5000, 9),
        rayon_segmented_sieve(5000, 9)
    );
}

#[test]
fn segmented_includes_prime_limit() {
    // The limit itself is reported when it is prime.
    let primes = sequential_segmented_sieve(97, 3);
    assert_eq!(Some(&97), primes.last());
    let primes = rayon_segmented_sieve(97, 3);
    assert_eq!(Some(&97), primes.last());
}

#[test]
fn segmentation_fits_decides_validity() {
    assert!(segmentation_fits(230, 12));
    assert!(segmentation_fits(100_000_000, 20000));
    assert!(segmentation_fits(0, 3));
    assert!(segmentation_fits(1, 1));
    assert!(!segmentation_fits(230, 0));
    // A limit of 100 leaves room 91 past its root, so at most 45 segments.
    assert!(segmentation_fits(100, 45));
    assert!(!segmentation_fits(100, 46));
}
