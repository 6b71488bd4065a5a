use pseg_sieve::primality::{is_prime, rayon_primality, sequential_primality};

const PRIMES: [usize; 50] = [
    2, 3, 5, 7, 11, 13, 17, 19, 23, 29, 31, 37, 41, 43, 47, 53, 59, 61, 67, 71, 73, 79, 83, 89,
    97, 101, 103, 107, 109, 113, 127, 131, 137, 139, 149, 151, 157, 163, 167, 173, 179, 181, 191,
    193, 197, 199, 211, 223, 227, 229,
];

#[test]
fn test_is_prime() {
    assert!(!is_prime(55));
    for &n in PRIMES.iter() {
        assert!(is_prime(n));
    }
}

#[test]
fn test_sequential_primality() {
    let primes = sequential_primality(230);
    assert_eq!(PRIMES, &primes[..]);
}

#[test]
fn test_rayon_primality() {
    let primes = rayon_primality(230);
    assert_eq!(PRIMES, &primes[..]);
}

#[test]
fn primality_agrees_with_sieve() {
    let by_division = sequential_primality(1000);
    let by_sieve = pseg_sieve::sieve::sequential_sieve(999);
    assert_eq!(by_division, by_sieve);
}

#[test]
fn primality_empty_below_two() {
    assert!(sequential_primality(0).is_empty());
    assert!(sequential_primality(1).is_empty());
    assert!(sequential_primality(2).is_empty());
    assert!(rayon_primality(0).is_empty());
    assert!(rayon_primality(2).is_empty());
}
