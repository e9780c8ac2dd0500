//! Keccak-256 binary Merkle commitments: one root over the validated entry
//! list, one over the drawn winners, with odd nodes promoted unchanged.
use crate::bytes::{push_array, push_u64_be, u64_to_be};
use crate::errors::RaffleError;
use crate::keccak::{keccak256, keccak256_of};
use crate::raffle::{
    distinct_addresses, draw, draw_model, seg_domain, valid_segments, Entry,
};
use crate::feistel::MAX_SQUARE_DOMAIN;
use vstd::prelude::*;

verus! {

/// Strict lexicographic order on byte strings, as the address comparison
/// walks them: first differing byte decides.
pub open spec fn lex_less(a: Seq<u8>, b: Seq<u8>) -> bool
    decreases a.len(),
{
    if a.len() == 0 || b.len() == 0 {
        false
    } else if a.first() < b.first() {
        true
    } else if a.first() > b.first() {
        false
    } else {
        lex_less(a.drop_first(), b.drop_first())
    }
}

pub proof fn lemma_lex_irrefl(a: Seq<u8>)
    ensures
        !lex_less(a, a),
    decreases a.len(),
{
    if a.len() > 0 {
        lemma_lex_irrefl(a.drop_first());
    }
}

pub proof fn lemma_lex_trans(a: Seq<u8>, b: Seq<u8>, c: Seq<u8>)
    requires
        lex_less(a, b),
        lex_less(b, c),
    ensures
        lex_less(a, c),
    decreases a.len(),
{
    if a.first() == b.first() && b.first() == c.first() {
        lemma_lex_trans(a.drop_first(), b.drop_first(), c.drop_first());
    }
}

/// Byte-wise comparison of two addresses: true when `a` sorts strictly
/// before `b`.
#[verifier::loop_isolation(false)]
pub fn is_ordered(a: &[u8; 20], b: &[u8; 20]) -> (r: bool)
    ensures
        r == lex_less(a@, b@),
{
    let mut j: usize = 0;
    proof {
        assert(a@.skip(0) =~= a@);
        assert(b@.skip(0) =~= b@);
    }
    while j < 20
        invariant
            j <= 20,
            lex_less(a@, b@) == lex_less(a@.skip(j as int), b@.skip(j as int)),
        decreases 20 - j,
    {
        let x = a[j];
        let y = b[j];
        proof {
            assert(a@.skip(j as int).first() == a@[j as int]);
            assert(b@.skip(j as int).first() == b@[j as int]);
            assert(a@.skip(j as int).drop_first() =~= a@.skip(j as int + 1));
            assert(b@.skip(j as int).drop_first() =~= b@.skip(j as int + 1));
        }
        if x < y {
            return true;
        }
        if x > y {
            return false;
        }
        j = j + 1;
    }
    proof {
        assert(a@.skip(20) =~= Seq::<u8>::empty());
    }
    false
}

/// One Merkle level: adjacent pairs are hashed together; a lone last node
/// is promoted unchanged.
pub open spec fn level_up(l: Seq<Seq<u8>>) -> Seq<Seq<u8>> {
    Seq::new(
        (l.len() + 1) / 2,
        |i: int|
            if 2 * i + 1 < l.len() {
                keccak256_of(l[2 * i] + l[2 * i + 1])
            } else {
                l[2 * i]
            },
    )
}

/// The Merkle root over ordered leaves. A single leaf is its own root; the
/// empty case never arises (callers require at least one leaf).
pub open spec fn merkle_root_spec(l: Seq<Seq<u8>>) -> Seq<u8>
    decreases l.len(),
{
    if l.len() <= 1 {
        if l.len() == 1 {
            l[0]
        } else {
            Seq::empty()
        }
    } else {
        merkle_root_spec(level_up(l))
    }
}

/// Views of a digest list.
pub open spec fn hash_views(v: Seq<[u8; 32]>) -> Seq<Seq<u8>> {
    v.map_values(|a: [u8; 32]| a@)
}

/// The Keccak-256 of two digests concatenated in tree order.
fn hash_pair(a: &[u8; 32], b: &[u8; 32]) -> (r: [u8; 32])
    ensures
        r@ == keccak256_of(a@ + b@),
{
    let mut buf: Vec<u8> = Vec::new();
    push_array(&mut buf, a);
    push_array(&mut buf, b);
    proof {
        assert(buf@ =~= a@ + b@);
    }
    keccak256(&buf)
}

/// The Merkle root of the given 32-byte leaves in order.
#[verifier::loop_isolation(false)]
pub fn get_merkle_root(leaves: Vec<[u8; 32]>) -> (root: [u8; 32])
    requires
        leaves@.len() >= 1,
    ensures
        root@ == merkle_root_spec(hash_views(leaves@)),
{
    let ghost orig = leaves@;
    let mut cur = leaves;
    while cur.len() > 1
        invariant
            cur@.len() >= 1,
            merkle_root_spec(hash_views(cur@)) == merkle_root_spec(hash_views(orig)),
        decreases cur@.len(),
    {
        let ghost hv = hash_views(cur@);
        let pairs = cur.len() / 2;
        let mut next: Vec<[u8; 32]> = Vec::new();
        let mut i: usize = 0;
        proof {
            assert(hash_views(next@) =~= level_up(hv).take(0));
        }
        while i < pairs
            invariant
                i <= pairs,
                hash_views(next@) == level_up(hv).take(i as int),
            decreases pairs - i,
        {
            let combined = hash_pair(&cur[2 * i], &cur[2 * i + 1]);
            proof {
                assert(level_up(hv)[i as int] == keccak256_of(hv[2 * i] + hv[2 * i + 1]));
                assert(level_up(hv).take(i as int + 1) =~= level_up(hv).take(i as int).push(
                    level_up(hv)[i as int],
                ));
                assert(hash_views(next@.push(combined)) =~= hash_views(next@).push(combined@));
            }
            next.push(combined);
            i = i + 1;
        }
        if cur.len() % 2 == 1 {
            let last = cur[cur.len() - 1];
            proof {
                assert(2 * (pairs as int) == cur@.len() - 1);
                assert(level_up(hv)[pairs as int] == hv[cur@.len() - 1]);
                assert(level_up(hv).take(pairs as int + 1) =~= level_up(hv).take(pairs as int).push(
                    level_up(hv)[pairs as int],
                ));
                assert(hash_views(next@.push(last)) =~= hash_views(next@).push(last@));
            }
            next.push(last);
        }
        proof {
            assert(hash_views(next@) =~= level_up(hv));
            assert(merkle_root_spec(hv) == merkle_root_spec(level_up(hv)));
        }
        cur = next;
    }
    cur[0]
}

/// The structural check of one entry in scan order, as the fold performs
/// it.
pub open spec fn entry_check(s: Seq<Entry>, i: int) -> Option<RaffleError> {
    if i == 0 && s[0].start != 0 {
        Some(RaffleError::FirstStartNonzero)
    } else if s[i].start >= s[i].end {
        Some(RaffleError::InvalidEntry)
    } else if i > 0 && s[i - 1].end != s[i].start {
        Some(RaffleError::NonAdjacentEntries)
    } else if i > 0 && !lex_less(s[i - 1].address@, s[i].address@) {
        Some(RaffleError::UnorderedAddresses)
    } else {
        None
    }
}

/// The first structural violation at or after index `i`.
pub open spec fn scan_entries(s: Seq<Entry>, i: int) -> Option<RaffleError>
    decreases s.len() - i,
{
    if i < 0 || i >= s.len() {
        None
    } else if entry_check(s, i) is Some {
        entry_check(s, i)
    } else {
        scan_entries(s, i + 1)
    }
}

/// The first violation of the entry-list invariants, in check order; the
/// list is accepted exactly when this is `None`.
pub open spec fn validate(s: Seq<Entry>) -> Option<RaffleError> {
    if s.len() < 2 {
        Some(RaffleError::TooFewEntries)
    } else {
        scan_entries(s, 0)
    }
}

/// The declarative entry-list invariants: at least two entries, adjacent
/// positive segments from zero, addresses strictly ascending.
pub open spec fn valid_entries(s: Seq<Entry>) -> bool {
    &&& s.len() >= 2
    &&& valid_segments(s)
    &&& forall|i: int| 0 < i < s.len() ==> lex_less(s[i - 1].address@, (#[trigger] s[i]).address@)
}

proof fn lemma_scan_from(s: Seq<Entry>, i: int)
    requires
        0 <= i <= s.len(),
        forall|j: int| 0 <= j < i ==> entry_check(s, j) is None,
    ensures
        scan_entries(s, 0) == scan_entries(s, i),
    decreases i,
{
    if i > 0 {
        lemma_scan_from(s, i - 1);
        assert(entry_check(s, i - 1) is None);
    }
}

proof fn lemma_scan_none_means_checked(s: Seq<Entry>, i: int, j: int)
    requires
        0 <= i <= j < s.len(),
        scan_entries(s, i) is None,
    ensures
        entry_check(s, j) is None,
    decreases j - i,
{
    if i < j {
        lemma_scan_none_means_checked(s, i + 1, j);
    }
}

/// The scanning checker accepts exactly the lists satisfying the
/// declarative invariants.
pub proof fn lemma_validate_iff(s: Seq<Entry>)
    ensures
        (validate(s) is None) <==> valid_entries(s),
{
    if validate(s) is None {
        assert(s.len() >= 2);
        assert forall|i: int| 0 <= i < s.len() implies entry_check(s, i) is None by {
            lemma_scan_none_means_checked(s, 0, i);
        }
        assert(s[0].start == 0) by {
            assert(entry_check(s, 0) is None);
        }
        assert forall|i: int| 0 <= i < s.len() implies (#[trigger] s[i]).start < s[i].end by {
            assert(entry_check(s, i) is None);
        }
        assert forall|i: int| 0 < i < s.len() implies (#[trigger] s[i]).start == s[i - 1].end by {
            assert(entry_check(s, i) is None);
        }
        assert forall|i: int| 0 < i < s.len() implies lex_less(
            s[i - 1].address@,
            (#[trigger] s[i]).address@,
        ) by {
            assert(entry_check(s, i) is None);
        }
    }
    if valid_entries(s) {
        assert forall|j: int| 0 <= j < s.len() implies entry_check(s, j) is None by {
            assert(s[j].start < s[j].end);
            if j > 0 {
                assert(s[j].start == s[j - 1].end);
                assert(lex_less(s[j - 1].address@, s[j].address@));
            }
        }
        lemma_scan_from(s, s.len() as int);
    }
}

/// Strictly ascending addresses are pairwise distinct.
pub proof fn lemma_ordered_distinct(s: Seq<Entry>)
    requires
        valid_entries(s),
    ensures
        distinct_addresses(s),
{
    assert forall|i: int, j: int|
        0 <= i < s.len() && 0 <= j < s.len() && i != j implies (#[trigger] s[i]).address@ != (
    #[trigger] s[j]).address@ by {
        let lo = if i < j {
            i
        } else {
            j
        };
        let hi = if i < j {
            j
        } else {
            i
        };
        lemma_lex_chain(s, lo, hi);
        if s[i].address@ == s[j].address@ {
            lemma_lex_irrefl(s[i].address@);
        }
    }
}

proof fn lemma_lex_chain(s: Seq<Entry>, i: int, j: int)
    requires
        valid_entries(s),
        0 <= i < j < s.len(),
    ensures
        lex_less(s[i].address@, s[j].address@),
    decreases j - i,
{
    if i + 1 == j {
    } else {
        lemma_lex_chain(s, i, j - 1);
        lemma_lex_trans(s[i].address@, s[j - 1].address@, s[j].address@);
    }
}

/// The Merkle leaf of one entry: `Keccak256(address || be(start) || be(end))`.
pub open spec fn entry_leaf_bytes(e: Entry) -> Seq<u8> {
    e.address@ + u64_to_be(e.start) + u64_to_be(e.end)
}

pub open spec fn commit_leaves(s: Seq<Entry>) -> Seq<Seq<u8>> {
    Seq::new(s.len(), |i: int| keccak256_of(entry_leaf_bytes(s[i])))
}

/// The commitment root of a structurally valid entry list.
pub open spec fn commitment_root_spec(s: Seq<Entry>) -> Seq<u8> {
    merkle_root_spec(commit_leaves(s))
}

fn entry_leaf(e: &Entry) -> (r: [u8; 32])
    ensures
        r@ == keccak256_of(entry_leaf_bytes(*e)),
{
    let mut buf: Vec<u8> = Vec::new();
    push_array(&mut buf, &e.address);
    push_u64_be(&mut buf, e.start);
    push_u64_be(&mut buf, e.end);
    proof {
        assert(buf@ =~= entry_leaf_bytes(*e));
    }
    keccak256(&buf)
}

/// Validates the entry list and commits to it: enforces the structural
/// invariants in scan order and returns the Merkle root of the entry
/// leaves.
#[verifier::loop_isolation(false)]
pub fn get_commitment_root(entries: &Vec<Entry>) -> (res: Result<[u8; 32], RaffleError>)
    ensures
        res is Ok <==> validate(entries@) is None,
        match res {
            Ok(root) => root@ == commitment_root_spec(entries@),
            Err(e) => validate(entries@) == Some(e),
        },
{
    if entries.len() < 2 {
        return Err(RaffleError::TooFewEntries);
    }
    let mut leaves: Vec<[u8; 32]> = Vec::new();
    let mut idx: usize = 0;
    proof {
        assert(hash_views(leaves@) =~= commit_leaves(entries@).take(0));
    }
    while idx < entries.len()
        invariant
            idx <= entries@.len(),
            forall|j: int| 0 <= j < idx ==> entry_check(entries@, j) is None,
            hash_views(leaves@) == commit_leaves(entries@).take(idx as int),
            leaves@.len() == idx,
        decreases entries@.len() - idx,
    {
        let entry = &entries[idx];
        if idx == 0 && entry.start != 0 {
            proof {
                lemma_scan_from(entries@, idx as int);
            }
            return Err(RaffleError::FirstStartNonzero);
        }
        if entry.start >= entry.end {
            proof {
                lemma_scan_from(entries@, idx as int);
            }
            return Err(RaffleError::InvalidEntry);
        }
        if idx > 0 {
            let prev = &entries[idx - 1];
            if prev.end != entry.start {
                proof {
                    lemma_scan_from(entries@, idx as int);
                }
                return Err(RaffleError::NonAdjacentEntries);
            }
            if !is_ordered(&prev.address, &entry.address) {
                proof {
                    lemma_scan_from(entries@, idx as int);
                }
                return Err(RaffleError::UnorderedAddresses);
            }
        }
        let leaf = entry_leaf(entry);
        proof {
            assert(entry_check(entries@, idx as int) is None);
            assert(commit_leaves(entries@).take(idx as int + 1) =~= commit_leaves(
                entries@,
            ).take(idx as int).push(commit_leaves(entries@)[idx as int]));
            assert(hash_views(leaves@.push(leaf)) =~= hash_views(leaves@).push(leaf@));
        }
        leaves.push(leaf);
        idx = idx + 1;
    }
    proof {
        lemma_scan_from(entries@, entries@.len() as int);
        assert(commit_leaves(entries@).take(entries@.len() as int) =~= commit_leaves(entries@));
    }
    Ok(get_merkle_root(leaves))
}

/// The leaf of each winner: `Keccak256(address)`.
pub open spec fn winner_leaves(ws: Seq<Seq<u8>>) -> Seq<Seq<u8>> {
    ws.map_values(|a: Seq<u8>| keccak256_of(a))
}

/// The winners' commitment for a draw of `k` winners.
pub open spec fn winners_root_spec(s: Seq<Entry>, seed: Seq<u8>, k: int) -> Seq<u8> {
    merkle_root_spec(winner_leaves(draw_model(s, seed, k)))
}

fn winner_leaf(addr: &[u8; 20]) -> (r: [u8; 32])
    ensures
        r@ == keccak256_of(addr@),
{
    let mut buf: Vec<u8> = Vec::new();
    push_array(&mut buf, addr);
    keccak256(&buf)
}

/// Draws the winners and commits to them: the Merkle root over the winner
/// leaves in insertion order. The winner count is owed exactly when
/// `0 < num_winners <= |entries|`.
#[verifier::loop_isolation(false)]
pub fn get_winners_root(num_winners: u64, seed: [u8; 32], entries: &Vec<Entry>) -> (res: Result<
    [u8; 32],
    RaffleError,
>)
    requires
        valid_entries(entries@),
        seg_domain(entries@) <= MAX_SQUARE_DOMAIN,
    ensures
        res is Ok <==> 0 < num_winners <= entries@.len(),
        match res {
            Ok(root) => root@ == winners_root_spec(entries@, seed@, num_winners as int),
            Err(e) => (num_winners == 0 && e == RaffleError::NumWinnersZero) || (num_winners
                > entries@.len() && e == RaffleError::NumWinnersTooMany),
        },
{
    if num_winners == 0 {
        return Err(RaffleError::NumWinnersZero);
    }
    if num_winners > entries.len() as u64 {
        return Err(RaffleError::NumWinnersTooMany);
    }
    proof {
        lemma_ordered_distinct(entries@);
    }
    let winners = draw(num_winners, seed, entries);
    let ghost ws = crate::raffle::address_views(winners@);
    let mut leaves: Vec<[u8; 32]> = Vec::new();
    let mut i: usize = 0;
    proof {
        assert(hash_views(leaves@) =~= winner_leaves(ws).take(0));
    }
    while i < winners.len()
        invariant
            i <= winners@.len(),
            hash_views(leaves@) == winner_leaves(ws).take(i as int),
        decreases winners@.len() - i,
    {
        let leaf = winner_leaf(&winners[i]);
        proof {
            assert(winner_leaves(ws)[i as int] == keccak256_of(winners@[i as int]@));
            assert(winner_leaves(ws).take(i as int + 1) =~= winner_leaves(ws).take(i as int).push(
                winner_leaves(ws)[i as int],
            ));
            assert(hash_views(leaves@.push(leaf)) =~= hash_views(leaves@).push(leaf@));
        }
        leaves.push(leaf);
        i = i + 1;
    }
    proof {
        assert(winner_leaves(ws).take(ws.len() as int) =~= winner_leaves(ws));
    }
    Ok(get_merkle_root(leaves))
}

} // verus!
