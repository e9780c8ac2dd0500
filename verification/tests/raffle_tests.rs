use rand::Rng;
use std::collections::HashSet;
use weighted_raffle::raffle::{compute_winner, draw, Entry};

#[test]
fn test_draw() {
    let num_entries = 1000;
    let mut entries = vec![];
    for i in 0..num_entries {
        entries.push(Entry {
            address: rand::thread_rng().gen(),
            start: i * 10,
            end: i * 10 + 10,
        });
    }
    assert_eq!(
        entries.len(),
        num_entries as usize,
        "rng did not generate {num_entries} distinct entries (rerun the test!)"
    );
    let num_winners = num_entries;
    let seed = rand::thread_rng().gen();
    let winners = draw(num_winners, seed, &entries);
    assert_eq!(
        winners.len(),
        num_winners as usize,
        "wrong number of winners drawn"
    );

    // Check winners are distinct
    let mut winners_set = HashSet::new();
    for winner in &winners {
        winners_set.insert(winner);
    }
    assert_eq!(
        winners_set.len(),
        num_winners as usize,
        "winners are not distinct"
    );
}

#[test]
fn draw_returns_distinct_winners_small() {
    let entries = vec![
        Entry { address: [0x11; 20], start: 0, end: 10 },
        Entry { address: [0x22; 20], start: 10, end: 30 },
        Entry { address: [0x33; 20], start: 30, end: 60 },
    ];
    let seed = [0u8; 32];
    let winners = draw(2, seed, &entries);
    assert_eq!(winners.len(), 2);
    assert_ne!(winners[0], winners[1]);
    // determinism: the same inputs give the same winners in the same order
    let again = draw(2, seed, &entries);
    assert_eq!(winners, again);
}

#[test]
fn compute_winner_respects_segments() {
    // With one weight unit per address the winner of attempt n is the
    // owner of the shuffled index, so every attempt yields some entry's
    // address.
    let entries = vec![
        Entry { address: [1; 20], start: 0, end: 1 },
        Entry { address: [2; 20], start: 1, end: 2 },
        Entry { address: [3; 20], start: 2, end: 3 },
    ];
    let seed = [7u8; 32];
    for n in 0..3 {
        let w = compute_winner(n, &entries, seed);
        assert!(w == [1; 20] || w == [2; 20] || w == [3; 20]);
    }
}
