//! Weighted sampling without replacement: the Feistel permutation walks the
//! draw domain, a binary search maps each drawn index to the entry owning
//! that weight unit, and winners are collected in insertion order.
use crate::bytes::be_to_int;
use crate::feistel::{
    lemma_shuffle_bijective, shuffle, shuffle_model, MAX_SQUARE_DOMAIN,
};
use vstd::prelude::*;

verus! {

/// A weighted segment of the integer line: the half-open weight interval
/// `[start, end)` owned by `address`.
#[derive(Clone, Copy, Debug)]
pub struct Entry {
    pub address: [u8; 20],
    pub start: u64,
    pub end: u64,
}

/// The segment shape the winner lookup needs: at least one entry, the
/// first starting at zero, positive weights, adjacent intervals.
pub open spec fn valid_segments(s: Seq<Entry>) -> bool {
    &&& s.len() >= 1
    &&& s[0].start == 0
    &&& forall|i: int| 0 <= i < s.len() ==> (#[trigger] s[i]).start < s[i].end
    &&& forall|i: int| 0 < i < s.len() ==> (#[trigger] s[i]).start == s[i - 1].end
}

/// No two entries share an address.
pub open spec fn distinct_addresses(s: Seq<Entry>) -> bool {
    forall|i: int, j: int|
        0 <= i < s.len() && 0 <= j < s.len() && i != j ==> (#[trigger] s[i]).address@ != (
        #[trigger] s[j]).address@
}

/// The draw domain: the total weight, i.e. the last entry's `end`.
pub open spec fn seg_domain(s: Seq<Entry>) -> int {
    s[s.len() - 1].end as int
}

/// The index of the entry owning weight unit `w`, found by scanning from
/// the back.
pub open spec fn seg_of(s: Seq<Entry>, w: int) -> int
    decreases s.len(),
{
    if s.len() == 0 {
        0
    } else if s[s.len() - 1].start <= w {
        s.len() - 1
    } else {
        seg_of(s.drop_last(), w)
    }
}

pub proof fn lemma_segment_bounds(s: Seq<Entry>, i: int, j: int)
    requires
        valid_segments(s),
        0 <= i <= j < s.len(),
    ensures
        s[i].start <= s[j].start,
        i < j ==> s[i].end <= s[j].start,
    decreases j - i,
{
    if i < j {
        lemma_segment_bounds(s, i, j - 1);
    }
}

pub proof fn lemma_seg_domain_bound(s: Seq<Entry>, i: int)
    requires
        valid_segments(s),
        0 <= i < s.len(),
    ensures
        s[i].end <= seg_domain(s),
        0 < seg_domain(s),
{
    lemma_segment_bounds(s, i, s.len() - 1);
    lemma_segment_bounds(s, 0, s.len() - 1);
}

pub proof fn lemma_seg_of_props(s: Seq<Entry>, w: int)
    requires
        valid_segments(s),
        0 <= w < seg_domain(s),
    ensures
        0 <= seg_of(s, w) < s.len(),
        s[seg_of(s, w)].start <= w < s[seg_of(s, w)].end,
    decreases s.len(),
{
    let last = s.len() - 1;
    if s[last].start <= w {
    } else {
        assert(s.len() >= 2);
        let pre = s.drop_last();
        assert(valid_segments(pre)) by {
            assert(forall|i: int| 0 <= i < pre.len() ==> pre[i] == s[i]);
        }
        assert(seg_domain(pre) == s[last - 1].end);
        lemma_seg_of_props(pre, w);
        assert(seg_of(s, w) == seg_of(pre, w));
    }
}

pub proof fn lemma_seg_of_unique(s: Seq<Entry>, w: int, t: int)
    requires
        valid_segments(s),
        0 <= t < s.len(),
        s[t].start <= w < s[t].end,
    ensures
        seg_of(s, w) == t,
{
    lemma_seg_domain_bound(s, t);
    lemma_seg_of_props(s, w);
    let g = seg_of(s, w);
    if g < t {
        lemma_segment_bounds(s, g, t);
    }
    if t < g {
        lemma_segment_bounds(s, t, g);
    }
}

/// The address owning weight unit `w`.
pub open spec fn winner_of(s: Seq<Entry>, w: int) -> Seq<u8> {
    s[seg_of(s, w)].address@
}

/// The 64-bit Feistel key: the last 8 bytes of the 32-byte seed, read
/// big-endian.
pub open spec fn seed_key(seed: Seq<u8>) -> u64 {
    be_to_int(seed.subrange(24, 32)) as u64
}

/// The number of Feistel rounds the draw uses.
pub open spec fn draw_rounds() -> u64 {
    4
}

/// The address drawn by attempt `n`: the owner of the shuffled index.
pub open spec fn winner_at(s: Seq<Entry>, seed: Seq<u8>, n: int) -> Seq<u8> {
    winner_of(
        s,
        shuffle_model(n, seed_key(seed), seg_domain(s) as u64, draw_rounds()),
    )
}

/// Locates the winner of attempt `n`: shuffles `n` over the total weight
/// and finds the owning entry by binary search.
#[verifier::loop_isolation(false)]
pub fn compute_winner(n: u64, entries: &Vec<Entry>, seed: [u8; 32]) -> (addr: [u8; 20])
    requires
        valid_segments(entries@),
        n < seg_domain(entries@),
        seg_domain(entries@) <= MAX_SQUARE_DOMAIN,
    ensures
        addr@ == winner_at(entries@, seed@, n as int),
{
    let last_entry = &entries[entries.len() - 1];
    let domain = last_entry.end;
    let trunc_seed = crate::bytes::be_u64_of_range(&seed, 24);
    proof {
        lemma_seg_domain_bound(entries@, 0);
        assert(trunc_seed == seed_key(seed@));
    }
    let winning_index = shuffle(n, trunc_seed, domain, 4);
    let ghost t = seg_of(entries@, winning_index as int);
    proof {
        lemma_seg_of_props(entries@, winning_index as int);
    }
    let mut lo: usize = 0;
    let mut hi: usize = entries.len();
    while lo < hi
        invariant
            lo <= t < hi,
            hi <= entries@.len(),
        decreases hi - lo,
    {
        let mid = lo + (hi - lo) / 2;
        let entry = &entries[mid];
        if entry.start <= winning_index && winning_index < entry.end {
            proof {
                lemma_seg_of_unique(entries@, winning_index as int, mid as int);
            }
            return entry.address;
        } else if entry.start > winning_index {
            proof {
                if t >= mid {
                    lemma_segment_bounds(entries@, mid as int, t);
                }
            }
            hi = mid;
        } else {
            proof {
                if t <= mid {
                    lemma_segment_bounds(entries@, t, mid as int);
                }
            }
            lo = mid + 1;
        }
    }
    proof {
        assert(false);  // segments partition the domain, so the search cannot exhaust
    }
    entries[0].address
}

/// Views of a winner list: each 20-byte address as a byte sequence.
pub open spec fn address_views(v: Seq<[u8; 20]>) -> Seq<Seq<u8>> {
    v.map_values(|a: [u8; 20]| a@)
}

/// The winner list after `attempts` draw attempts: each attempt's address
/// in order, keeping only first occurrences.
pub open spec fn winners_model(s: Seq<Entry>, seed: Seq<u8>, attempts: int) -> Seq<Seq<u8>>
    decreases attempts,
{
    if attempts <= 0 {
        Seq::empty()
    } else {
        let prev = winners_model(s, seed, attempts - 1);
        let a = winner_at(s, seed, attempts - 1);
        if prev.contains(a) {
            prev
        } else {
            prev.push(a)
        }
    }
}

/// What `draw` returns: the winner list at the first attempt count that
/// yields `k` winners.
pub open spec fn draw_model(s: Seq<Entry>, seed: Seq<u8>, k: int) -> Seq<Seq<u8>> {
    winners_model(s, seed, choose|n: int| 0 <= n && winners_model(s, seed, n).len() == k)
}

pub proof fn lemma_winners_model_props(s: Seq<Entry>, seed: Seq<u8>, attempts: int)
    ensures
        winners_model(s, seed, attempts).no_duplicates(),
        winners_model(s, seed, attempts).len() <= if attempts >= 0 {
            attempts
        } else {
            0
        },
    decreases attempts,
{
    if attempts > 0 {
        lemma_winners_model_props(s, seed, attempts - 1);
        let prev = winners_model(s, seed, attempts - 1);
        let a = winner_at(s, seed, attempts - 1);
        if !prev.contains(a) {
            assert forall|i: int, j: int|
                0 <= i < prev.push(a).len() && 0 <= j < prev.push(a).len() && i
                    != j implies prev.push(a)[i] != prev.push(a)[j] by {
                if i < prev.len() && j < prev.len() {
                } else if i == prev.len() {
                    assert(prev.contains(prev[j]));
                } else {
                    assert(prev.contains(prev[i]));
                }
            }
        }
    }
}

proof fn lemma_winners_len_monotone(s: Seq<Entry>, seed: Seq<u8>, n1: int, n2: int)
    requires
        n1 <= n2,
    ensures
        winners_model(s, seed, n1).len() <= winners_model(s, seed, n2).len(),
    decreases n2 - n1,
{
    if n1 < n2 {
        lemma_winners_len_monotone(s, seed, n1, n2 - 1);
    }
}

/// Two attempt counts with the same number of winners have the same
/// winner list: winners only accumulate.
pub proof fn lemma_winners_agree(s: Seq<Entry>, seed: Seq<u8>, n1: int, n2: int)
    requires
        n1 <= n2,
        winners_model(s, seed, n1).len() == winners_model(s, seed, n2).len(),
    ensures
        winners_model(s, seed, n1) == winners_model(s, seed, n2),
    decreases n2 - n1,
{
    if n1 < n2 {
        lemma_winners_len_monotone(s, seed, n1, n2 - 1);
        lemma_winners_agree(s, seed, n1, n2 - 1);
    }
}

proof fn lemma_winners_contains(s: Seq<Entry>, seed: Seq<u8>, attempts: int, j: int)
    requires
        0 <= j < attempts,
    ensures
        winners_model(s, seed, attempts).contains(winner_at(s, seed, j)),
    decreases attempts,
{
    let prev = winners_model(s, seed, attempts - 1);
    let a = winner_at(s, seed, attempts - 1);
    if j == attempts - 1 {
        if prev.contains(a) {
        } else {
            assert(prev.push(a)[prev.len() as int] == a);
        }
    } else {
        lemma_winners_contains(s, seed, attempts - 1, j);
        let w = winner_at(s, seed, j);
        let i = choose|i: int| 0 <= i < prev.len() && prev[i] == w;
        if !prev.contains(a) {
            assert(prev.push(a)[i] == w);
        }
    }
}

proof fn lemma_winners_are_addresses(s: Seq<Entry>, seed: Seq<u8>, attempts: int, e: Seq<u8>)
    requires
        valid_segments(s),
        seg_domain(s) <= MAX_SQUARE_DOMAIN,
        winners_model(s, seed, attempts).contains(e),
    ensures
        exists|t: int| 0 <= t < s.len() && (#[trigger] s[t]).address@ == e,
    decreases attempts,
{
    let prev = winners_model(s, seed, attempts - 1);
    let a = winner_at(s, seed, attempts - 1);
    if prev.contains(e) {
        lemma_winners_are_addresses(s, seed, attempts - 1, e);
    } else {
        assert(e == a);
        let n = seg_domain(s);
        let w = shuffle_model(attempts - 1, seed_key(seed), n as u64, draw_rounds());
        lemma_seg_domain_bound(s, 0);
        lemma_shuffle_bijective(seed_key(seed), n as u64, draw_rounds());
        if 0 <= attempts - 1 < n {
            lemma_seg_of_props(s, w);
            assert(s[seg_of(s, w)].address@ == e);
        } else {
            // Out-of-range attempts still index some entry or the scan
            // bottoms out at 0; either way the address is an entry's.
            lemma_seg_of_in_range(s, w);
            assert(s[seg_of(s, w)].address@ == e);
        }
    }
}

/// `seg_of` always lands on a real index, whatever `w` is.
proof fn lemma_seg_of_in_range(s: Seq<Entry>, w: int)
    requires
        s.len() >= 1,
    ensures
        0 <= seg_of(s, w) < s.len(),
    decreases s.len(),
{
    if !(s[s.len() - 1].start <= w) {
        if s.len() == 1 {
            assert(s.drop_last().len() == 0);
            assert(seg_of(s.drop_last(), w) == 0);
        } else {
            lemma_seg_of_in_range(s.drop_last(), w);
        }
    }
}

/// After as many attempts as there are weight units, every entry's address
/// has been drawn: the permutation visits every index, and each entry owns
/// at least one.
pub proof fn lemma_winners_complete(s: Seq<Entry>, seed: Seq<u8>)
    requires
        valid_segments(s),
        distinct_addresses(s),
        seg_domain(s) <= MAX_SQUARE_DOMAIN,
    ensures
        winners_model(s, seed, seg_domain(s)).len() == s.len(),
{
    broadcast use vstd::set::group_set_axioms;
    broadcast use vstd::seq_lib::seq_to_set_is_finite;

    let n = seg_domain(s);
    let w = winners_model(s, seed, n);
    let addrs = Seq::new(s.len(), |i: int| s[i].address@);
    lemma_seg_domain_bound(s, 0);
    lemma_shuffle_bijective(seed_key(seed), n as u64, draw_rounds());
    // every address is drawn within n attempts
    assert forall|t: int| 0 <= t < s.len() implies w.contains(#[trigger] addrs[t]) by {
        let wdx = s[t].start as int;
        lemma_seg_domain_bound(s, t);
        assert(0 <= wdx < n);
        let x = crate::feistel::deshuffle_model(wdx, seed_key(seed), n as u64, draw_rounds());
        assert(0 <= x < n && shuffle_model(x, seed_key(seed), n as u64, draw_rounds()) == wdx);
        lemma_seg_of_unique(s, wdx, t);
        assert(winner_at(s, seed, x) == addrs[t]);
        lemma_winners_contains(s, seed, n, x);
    }
    // every drawn address is an entry's
    assert forall|e: Seq<u8>| w.contains(e) implies addrs.contains(e) by {
        lemma_winners_are_addresses(s, seed, n, e);
        let t = choose|t: int| 0 <= t < s.len() && (#[trigger] s[t]).address@ == e;
        assert(addrs[t] == e);
    }
    lemma_winners_model_props(s, seed, n);
    w.unique_seq_to_set();
    assert(addrs.no_duplicates());
    addrs.unique_seq_to_set();
    assert(w.to_set() =~= addrs.to_set());
}

/// Compares two addresses byte for byte.
#[verifier::loop_isolation(false)]
fn address_eq(a: &[u8; 20], b: &[u8; 20]) -> (r: bool)
    ensures
        r == (a@ == b@),
{
    let mut j: usize = 0;
    while j < 20
        invariant
            j <= 20,
            forall|t: int| 0 <= t < j ==> a@[t] == b@[t],
        decreases 20 - j,
    {
        if a[j] != b[j] {
            return false;
        }
        j = j + 1;
    }
    proof {
        assert(a@ =~= b@);
    }
    true
}

/// Membership scan over the winners drawn so far.
#[verifier::loop_isolation(false)]
fn contains_address(winners: &Vec<[u8; 20]>, addr: &[u8; 20]) -> (r: bool)
    ensures
        r == address_views(winners@).contains(addr@),
{
    let mut j: usize = 0;
    while j < winners.len()
        invariant
            j <= winners@.len(),
            forall|t: int| 0 <= t < j ==> address_views(winners@)[t] != addr@,
        decreases winners@.len() - j,
    {
        if address_eq(&winners[j], addr) {
            proof {
                assert(address_views(winners@)[j as int] == addr@);
            }
            return true;
        }
        j = j + 1;
    }
    proof {
        if address_views(winners@).contains(addr@) {
            let t = choose|t: int|
                0 <= t < address_views(winners@).len() && address_views(winners@)[t] == addr@;
        }
    }
    false
}

/// Draws `num_winners` distinct addresses: attempt indices are shuffled
/// through the permutation in order, collisions are skipped, and winners
/// are returned in insertion order.
#[verifier::loop_isolation(false)]
pub fn draw(num_winners: u64, seed: [u8; 32], entries: &Vec<Entry>) -> (winners: Vec<[u8; 20]>)
    requires
        valid_segments(entries@),
        distinct_addresses(entries@),
        0 < num_winners <= entries@.len(),
        seg_domain(entries@) <= MAX_SQUARE_DOMAIN,
    ensures
        winners@.len() == num_winners,
        address_views(winners@) == draw_model(entries@, seed@, num_winners as int),
        address_views(winners@).no_duplicates(),
{
    let ghost n = seg_domain(entries@);
    let mut winners: Vec<[u8; 20]> = Vec::new();
    let mut i: u64 = 0;
    proof {
        assert(address_views(winners@) =~= winners_model(entries@, seed@, 0));
    }
    while (winners.len() as u64) < num_winners
        invariant
            address_views(winners@) == winners_model(entries@, seed@, i as int),
            winners@.len() <= num_winners,
            i <= n,
        decreases n - i,
    {
        proof {
            if i as int == n {
                lemma_winners_complete(entries@, seed@);
                assert(false);
            }
        }
        let winner = compute_winner(i, entries, seed);
        let already = contains_address(&winners, &winner);
        if !already {
            winners.push(winner);
            proof {
                assert(address_views(winners@) =~= winners_model(entries@, seed@, i as int).push(
                    winner_at(entries@, seed@, i as int),
                ));
            }
        }
        i = i + 1;
        proof {
            lemma_winners_model_props(entries@, seed@, i as int);
        }
    }
    proof {
        let ghost k = num_winners as int;
        assert(winners_model(entries@, seed@, i as int).len() == k);
        let n0 = choose|m: int| 0 <= m && winners_model(entries@, seed@, m).len() == k;
        if n0 <= i as int {
            lemma_winners_agree(entries@, seed@, n0, i as int);
        } else {
            lemma_winners_agree(entries@, seed@, i as int, n0);
        }
        lemma_winners_model_props(entries@, seed@, i as int);
    }
    winners
}

} // verus!
