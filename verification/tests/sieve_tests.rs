use pseg_sieve::sieve::{
    get_partition_indices, rayon_segmented_sieve, sequential_segmented_sieve, sequential_sieve,
};

const PRIMES: [usize; 50] = [
    2, 3, 5, 7, 11, 13, 17, 19, 23, 29, 31, 37, 41, 43, 47, 53, 59, 61, 67, 71, 73, 79, 83, 89,
    97, 101, 103, 107, 109, 113, 127, 131, 137, 139, 149, 151, 157, 163, 167, 173, 179, 181, 191,
    193, 197, 199, 211, 223, 227, 229,
];

#[test]
fn test_partition_indices() {
    assert_eq!(11, get_partition_indices(0, 100, 10).len());

    let indices = get_partition_indices(31623, 1_000_000_000, 10000);
    assert_eq!(10001, indices.len());

    let windows: Vec<&[usize]> = indices.windows(2).collect();
    assert_eq!(10000, windows.len());
}

#[test]
fn test_sequential_sieve() {
    assert_eq!(PRIMES, &sequential_sieve(230)[..]);

    let primes = sequential_sieve(100_000_000);
    assert_eq!(279209790387276usize, primes.iter().sum());
}

#[test]
fn test_seq_segmented_sieve() {
    // Test first few primes
    assert_eq!(PRIMES, &sequential_segmented_sieve(230, 12)[..]);

    // Big test
    for &i in [20, 1000, 10000, 20000].iter() {
        let primes = sequential_segmented_sieve(100_000_000, i);
        assert_eq!(5761455, primes.len(), "num_segments: {}", i);
        assert_eq!(
            279209790387276usize,
            primes.iter().sum(),
            "num_segments: {}",
            i
        );
    }
}

#[test]
fn test_rayon_sieve() {
    // Test first few primes
    assert_eq!(PRIMES, &rayon_segmented_sieve(230, 12)[..]);

    // Big test
    for &i in [20, 1000, 10000, 20000].iter() {
        let primes = rayon_segmented_sieve(100_000_000, i);
        assert_eq!(5761455, primes.len(), "num_segments: {}", i);
        assert_eq!(
            279209790387276usize,
            primes.into_iter().sum(),
            "num_segments: {}",
            i
        );
    }
}

#[test]
fn sieve_large_count() {
    assert_eq!(5761455, sequential_sieve(100_000_000).len());
}
