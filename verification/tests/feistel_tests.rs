use rand::Rng;
use std::collections::HashSet;
use weighted_raffle::feistel::{deshuffle, next_perfect_square, shuffle, sqrt};

#[test]
fn test_sqrt() {
    assert_eq!(sqrt(0), 0);
    assert_eq!(sqrt(1), 1);
    assert_eq!(sqrt(2), 1);
    assert_eq!(sqrt(3), 1);
    assert_eq!(sqrt(4), 2);
    assert_eq!(sqrt(5), 2);
    assert_eq!(sqrt(6), 2);
    assert_eq!(sqrt(7), 2);
    assert_eq!(sqrt(8), 2);
    assert_eq!(sqrt(9), 3);
}

#[test]
fn test_next_perfect_square() {
    assert_eq!(next_perfect_square(0), 0);
    assert_eq!(next_perfect_square(1), 1);
    assert_eq!(next_perfect_square(2), 4);
    assert_eq!(next_perfect_square(3), 4);
    assert_eq!(next_perfect_square(4), 4);
    assert_eq!(next_perfect_square(5), 9);
    assert_eq!(next_perfect_square(6), 9);
    assert_eq!(next_perfect_square(7), 9);
    assert_eq!(next_perfect_square(8), 9);
    assert_eq!(next_perfect_square(9), 9);
}

#[test]
fn test_invertibility() {
    let seed = rand::thread_rng().gen();
    let domain = 1000;
    let rounds = 4;
    for x in 0..domain {
        let x_prime = shuffle(x, seed, domain, rounds);
        let x_prime_prime = deshuffle(x_prime, seed, domain, rounds);
        assert_eq!(x, x_prime_prime);
    }
}

#[test]
fn test_bijectivity() {
    let mut set = HashSet::<u64>::new();
    let seed = rand::thread_rng().gen();
    let domain = 1000;
    let rounds = 4;
    for x in 0..domain {
        let x_prime = shuffle(x, seed, domain, rounds);
        set.insert(x_prime);
    }
    assert_eq!(set.len(), domain as usize, "not bijective");
}

#[test]
fn shuffle_round_trip_fixed_seed() {
    // A fixed 64-bit key over the domain [0, 1000): the shuffle is a
    // permutation and the deshuffle inverts it pointwise.
    let seed: u64 = 16045690984833335023;
    let domain = 1000;
    let rounds = 4;
    let mut seen = HashSet::<u64>::new();
    for x in 0..domain {
        let y = shuffle(x, seed, domain, rounds);
        assert!(y < domain, "shuffle left the domain");
        assert_eq!(deshuffle(y, seed, domain, rounds), x);
        assert_eq!(shuffle(x, seed, domain, rounds), y, "shuffle not deterministic");
        seen.insert(y);
    }
    assert_eq!(seen.len(), domain as usize);
}

#[test]
fn deshuffle_round_trip_fixed_seed() {
    let seed: u64 = 0xDEADBEEF;
    let domain = 997; // a prime, far from a perfect square
    let rounds = 2;
    for x in 0..domain {
        let y = deshuffle(x, seed, domain, rounds);
        assert!(y < domain, "deshuffle left the domain");
        assert_eq!(shuffle(y, seed, domain, rounds), x);
    }
}
