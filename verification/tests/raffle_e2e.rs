//! End-to-end draws checked against a plain re-computation done directly
//! with the hash crate, plus pinned byte vectors.
use sha3::{Digest, Keccak256};
use weighted_raffle::errors::RaffleError;
use weighted_raffle::raffle::Entry;
use weighted_raffle::run_raffle;

fn keccak(data: &[u8]) -> [u8; 32] {
    let mut hasher = Keccak256::new();
    hasher.update(data);
    hasher.finalize().into()
}

fn ref_sqrt(s: u64) -> u64 {
    let mut z = 0;
    if s > 3 {
        z = s;
        let mut x = s / 2 + 1;
        while x < z {
            z = x;
            x = (s / x + x) / 2;
        }
    } else if s != 0 {
        z = 1;
    }
    z
}

fn ref_next_perfect_square(n: u64) -> u64 {
    let sqrt_n = ref_sqrt(n);
    if sqrt_n.pow(2) == n {
        return n;
    }
    (sqrt_n + 1).pow(2)
}

fn ref_round(x: u64, i: u64, seed: u64, modulus: u64) -> u64 {
    let mut hasher = Keccak256::new();
    hasher.update(x.to_le_bytes());
    hasher.update(i.to_le_bytes());
    hasher.update(seed.to_le_bytes());
    hasher.update(modulus.to_le_bytes());
    let output: [u8; 32] = hasher.finalize().into();
    u64::from_be_bytes(output[24..32].try_into().unwrap())
}

fn ref_shuffle(x0: u64, seed: u64, domain: u64, rounds: u64) -> u64 {
    let mut x = x0;
    let h = ref_sqrt(ref_next_perfect_square(domain));
    loop {
        let mut l = x % h;
        let mut r = x / h;
        for i in 0..rounds {
            let next_r = (l + ref_round(r, i, seed, domain) % h) % h;
            l = r;
            r = next_r;
        }
        x = h * r + l;
        if x < domain {
            break;
        }
    }
    x
}

fn ref_draw(num_winners: u64, seed: [u8; 32], entries: &[Entry]) -> Vec<[u8; 20]> {
    let domain = entries.last().unwrap().end;
    let trunc_seed = u64::from_be_bytes(seed[24..32].try_into().unwrap());
    let mut winners: Vec<[u8; 20]> = Vec::new();
    let mut i = 0u64;
    while (winners.len() as u64) < num_winners {
        let w = ref_shuffle(i, trunc_seed, domain, 4);
        let entry = entries.iter().find(|e| e.start <= w && w < e.end).unwrap();
        if !winners.contains(&entry.address) {
            winners.push(entry.address);
        }
        i += 1;
    }
    winners
}

fn ref_merkle_root(mut level: Vec<[u8; 32]>) -> [u8; 32] {
    while level.len() > 1 {
        let mut next = Vec::new();
        for pair in level.chunks(2) {
            if pair.len() == 2 {
                let mut buf = Vec::new();
                buf.extend_from_slice(&pair[0]);
                buf.extend_from_slice(&pair[1]);
                next.push(keccak(&buf));
            } else {
                next.push(pair[0]);
            }
        }
        level = next;
    }
    level[0]
}

fn three_entries() -> Vec<Entry> {
    vec![
        Entry { address: [0x11; 20], start: 0, end: 10 },
        Entry { address: [0x22; 20], start: 10, end: 30 },
        Entry { address: [0x33; 20], start: 30, end: 60 },
    ]
}

#[test]
fn end_to_end_matches_direct_recomputation() {
    let entries = three_entries();
    let seed = [0u8; 32];
    let out = run_raffle(seed, &entries, 2).unwrap();

    let commit_leaves: Vec<[u8; 32]> = entries
        .iter()
        .map(|e| {
            let mut buf = Vec::new();
            buf.extend_from_slice(&e.address);
            buf.extend_from_slice(&e.start.to_be_bytes());
            buf.extend_from_slice(&e.end.to_be_bytes());
            keccak(&buf)
        })
        .collect();
    assert_eq!(out.commit_root, ref_merkle_root(commit_leaves));

    let winners = ref_draw(2, seed, &entries);
    assert_eq!(winners.len(), 2);
    let winner_leaves: Vec<[u8; 32]> = winners.iter().map(|a| keccak(a)).collect();
    assert_eq!(out.winners_root, ref_merkle_root(winner_leaves));
    assert_eq!(out.seed, seed);
}

#[test]
fn end_to_end_is_deterministic() {
    let entries = three_entries();
    let seed = [0u8; 32];
    let first = run_raffle(seed, &entries, 2).unwrap();
    let second = run_raffle(seed, &entries, 2).unwrap();
    assert_eq!(first.commit_root, second.commit_root);
    assert_eq!(first.winners_root, second.winners_root);
    assert_eq!(first.encode(), second.encode());
    assert_eq!(first.encode().len(), 96);
}

#[test]
fn end_to_end_reference_vector() {
    // Pinned roots for the three-segment draw with the all-zero seed and
    // two winners: these bytes must never change.
    let entries = three_entries();
    let seed = [0u8; 32];
    let out = run_raffle(seed, &entries, 2).unwrap();
    assert_eq!(
        hex::encode(out.commit_root),
        "23429a2d714b8d37a305ff64b3c2a4bb75e3b1c69abee51c3fb14f32e9776bda"
    );
    assert_eq!(
        hex::encode(out.winners_root),
        "c9fa037efeeeeb762618b88b14dbd74cd1ea4c8a43e4d644e281a95b9a54999d"
    );
}

#[test]
fn run_raffle_reports_winner_count_errors() {
    let entries = three_entries();
    let seed = [0u8; 32];
    assert_eq!(run_raffle(seed, &entries, 0).unwrap_err(), RaffleError::NumWinnersZero);
    assert_eq!(run_raffle(seed, &entries, 4).unwrap_err(), RaffleError::NumWinnersTooMany);
}

#[test]
fn run_raffle_reports_validation_errors_first() {
    let entries = vec![
        Entry { address: [0x11; 20], start: 0, end: 11 },
        Entry { address: [0x22; 20], start: 10, end: 20 },
    ];
    // both the adjacency and the winner count are wrong: validation wins
    assert_eq!(
        run_raffle([0u8; 32], &entries, 0).unwrap_err(),
        RaffleError::NonAdjacentEntries
    );
}
