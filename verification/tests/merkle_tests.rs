use sha3::{Digest, Keccak256};
use weighted_raffle::errors::RaffleError;
use weighted_raffle::merkle::{get_commitment_root, get_merkle_root, get_winners_root, is_ordered};
use weighted_raffle::raffle::Entry;

fn keccak(data: &[u8]) -> [u8; 32] {
    let mut hasher = Keccak256::new();
    hasher.update(data);
    hasher.finalize().into()
}

#[test]
fn test_get_commitment_root_asserts_min_entries() {
    let entries_0: Vec<Entry> = vec![];
    assert_eq!(get_commitment_root(&entries_0), Err(RaffleError::TooFewEntries));

    let entries_1 = vec![Entry {
        address: [1; 20],
        start: 0,
        end: 10,
    }];
    let err = get_commitment_root(&entries_1).unwrap_err();
    assert_eq!(err.message(), "<2 entries");
}

#[test]
fn test_get_commitment_root_asserts_first_entry_valid() {
    let entries = vec![
        Entry {
            address: [1; 20],
            start: 1, // <-- invalid (must start at 0)
            end: 10,
        },
        Entry {
            address: [2; 20],
            start: 10,
            end: 20,
        },
    ];
    let err = get_commitment_root(&entries).unwrap_err();
    assert_eq!(err.message(), "first entry must start at 0");
}

#[test]
fn test_get_commitment_root_asserts_weight_nonzero() {
    let entries = vec![
        Entry {
            address: [1; 20],
            start: 0,
            end: 0, // <-- weight = 0 - 0 = 0
        },
        Entry {
            address: [2; 20],
            start: 0,
            end: 10,
        },
    ];
    let err = get_commitment_root(&entries).unwrap_err();
    assert_eq!(err.message(), "invalid entry");
}

#[test]
fn test_get_commitment_root_asserts_weight_positive() {
    let entries = vec![
        Entry {
            address: [1; 20],
            start: 0,
            end: 10,
        },
        Entry {
            address: [2; 20],
            start: 10,
            end: 9, // <-- weight = 9 - 10 = -1
        },
    ];
    let err = get_commitment_root(&entries).unwrap_err();
    assert_eq!(err.message(), "invalid entry");
}

#[test]
fn test_get_commitment_root_asserts_adjacentness() {
    let entries = vec![
        Entry {
            address: [1; 20],
            start: 0,
            end: 11, // <-- non-adjacent (ends after entry@1)
        },
        Entry {
            address: [2; 20],
            start: 10, // <-- non-adjacent (starts before entry@0)
            end: 20,
        },
    ];
    let err = get_commitment_root(&entries).unwrap_err();
    assert_eq!(err.message(), "non-adjacent entries");
}

#[test]
fn test_get_commitment_root_asserts_no_duplicates() {
    let entries = vec![
        Entry {
            address: [0x11; 20],
            start: 0,
            end: 10,
        },
        Entry {
            address: [0x11; 20], // <-- duplicate
            start: 10,
            end: 20,
        },
    ];
    let err = get_commitment_root(&entries).unwrap_err();
    assert_eq!(err.message(), "entries must be ordered (asc) by addresses");
}

#[test]
fn test_get_commitment_root_asserts_ordering() {
    let entries = vec![
        Entry {
            address: [0x22; 20],
            start: 0,
            end: 10,
        },
        Entry {
            address: [0x11; 20], // <-- ordered descendingly
            start: 10,
            end: 20,
        },
    ];
    let err = get_commitment_root(&entries).unwrap_err();
    assert_eq!(err.message(), "entries must be ordered (asc) by addresses");
}

#[test]
fn test_merkle_odd() {
    let leaves: Vec<[u8; 32]> = vec![[0x11u8; 20], [0x22; 20], [0x33; 20]]
        .into_iter()
        .map(|address| keccak(&address))
        .collect();
    println!("leaves = {:02x?}", leaves);
    println!("root = {:02x?}", get_merkle_root(leaves));
}

#[test]
fn merkle_root_of_single_leaf_is_the_leaf() {
    let leaf = keccak(b"only");
    assert_eq!(get_merkle_root(vec![leaf]), leaf);
}

#[test]
fn merkle_root_of_pair_matches_keccak() {
    let a = keccak(b"left");
    let b = keccak(b"right");
    let mut concat = Vec::new();
    concat.extend_from_slice(&a);
    concat.extend_from_slice(&b);
    let expected = keccak(&concat);
    let root = get_merkle_root(vec![a, b]);
    assert_eq!(root, expected);
    assert_ne!(root, a, "root must differ from its first leaf");
}

#[test]
fn merkle_odd_promotes_last_leaf_unchanged() {
    // Three leaves: root = H(H(l0 || l1) || l2).
    let l0 = keccak(b"a");
    let l1 = keccak(b"b");
    let l2 = keccak(b"c");
    let mut buf = Vec::new();
    buf.extend_from_slice(&l0);
    buf.extend_from_slice(&l1);
    let h01 = keccak(&buf);
    let mut buf2 = Vec::new();
    buf2.extend_from_slice(&h01);
    buf2.extend_from_slice(&l2);
    let expected = keccak(&buf2);
    assert_eq!(get_merkle_root(vec![l0, l1, l2]), expected);
}

#[test]
fn is_ordered_compares_lexicographically() {
    let lo = [0x11; 20];
    let hi = [0x22; 20];
    assert!(is_ordered(&lo, &hi));
    assert!(!is_ordered(&hi, &lo));
    assert!(!is_ordered(&lo, &lo));
    let mut almost = lo;
    almost[19] = 0x12;
    assert!(is_ordered(&lo, &almost));
}

#[test]
fn get_winners_root_rejects_zero_winners() {
    let entries = vec![
        Entry { address: [1; 20], start: 0, end: 10 },
        Entry { address: [2; 20], start: 10, end: 20 },
    ];
    let err = get_winners_root(0, [0u8; 32], &entries).unwrap_err();
    assert_eq!(err, RaffleError::NumWinnersZero);
    assert_eq!(err.message(), "num_winners == 0");
}

#[test]
fn get_winners_root_rejects_too_many_winners() {
    let entries = vec![
        Entry { address: [1; 20], start: 0, end: 10 },
        Entry { address: [2; 20], start: 10, end: 20 },
    ];
    let err = get_winners_root(3, [0u8; 32], &entries).unwrap_err();
    assert_eq!(err, RaffleError::NumWinnersTooMany);
    assert_eq!(err.message(), "num_winners > |entries|");
}
