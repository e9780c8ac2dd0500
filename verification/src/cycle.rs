//! Orbit theory for cycle-walking: iterating an invertible map on a finite
//! interval always returns to the starting interval, so the walk that skips
//! out-of-range values terminates and is itself invertible.
use vstd::prelude::*;
use vstd::seq_lib::group_seq_properties;
use vstd::set_lib::{lemma_int_range, lemma_len_subset, set_int_range};

verus! {

/// `k`-fold application of `step` to `x`.
pub open spec fn iterate(step: spec_fn(int) -> int, k: nat, x: int) -> int
    decreases k,
{
    if k == 0 {
        x
    } else {
        step(iterate(step, (k - 1) as nat, x))
    }
}

/// `step` maps the interval `[0, d)` into itself.
pub open spec fn maps_interval(step: spec_fn(int) -> int, d: int) -> bool {
    forall|y: int| 0 <= y < d ==> 0 <= #[trigger] step(y) < d
}

/// `back` undoes `step` everywhere on `[0, d)`.
pub open spec fn undoes_on_interval(step: spec_fn(int) -> int, back: spec_fn(int) -> int, d: int) -> bool {
    forall|y: int| 0 <= y < d ==> #[trigger] back(step(y)) == y
}

/// The walk from `x` first re-enters `[0, n)` after exactly `j` steps.
pub open spec fn hits_at(step: spec_fn(int) -> int, n: int, x: int, j: nat) -> bool {
    1 <= j && iterate(step, j, x) < n
}

pub open spec fn first_hit_at(step: spec_fn(int) -> int, n: int, x: int, j: nat) -> bool {
    &&& hits_at(step, n, x, j)
    &&& forall|j2: nat| 1 <= j2 < j ==> iterate(step, j2, x) >= n
}

/// The number of steps after which the walk from `x` first lands in
/// `[0, n)` again (meaningful once such a step is shown to exist).
pub open spec fn first_hit(step: spec_fn(int) -> int, n: int, x: int) -> nat {
    choose|j: nat| first_hit_at(step, n, x, j)
}

pub proof fn lemma_iterate_in_interval(step: spec_fn(int) -> int, d: int, k: nat, x: int)
    requires
        maps_interval(step, d),
        0 <= x < d,
    ensures
        0 <= iterate(step, k, x) < d,
    decreases k,
{
    if k > 0 {
        lemma_iterate_in_interval(step, d, (k - 1) as nat, x);
    }
}

/// If two iterates coincide, the walk is periodic: it returns to `x`
/// itself after the difference of the two step counts.
proof fn lemma_iterate_cancel(
    step: spec_fn(int) -> int,
    back: spec_fn(int) -> int,
    d: int,
    x: int,
    i1: nat,
    i2: nat,
)
    requires
        maps_interval(step, d),
        undoes_on_interval(step, back, d),
        0 <= x < d,
        i1 <= i2,
        iterate(step, i1, x) == iterate(step, i2, x),
    ensures
        x == iterate(step, (i2 - i1) as nat, x),
    decreases i1,
{
    if i1 > 0 {
        let y1 = iterate(step, (i1 - 1) as nat, x);
        let y2 = iterate(step, (i2 - 1) as nat, x);
        lemma_iterate_in_interval(step, d, (i1 - 1) as nat, x);
        lemma_iterate_in_interval(step, d, (i2 - 1) as nat, x);
        assert(back(step(y1)) == y1);
        assert(back(step(y2)) == y2);
        lemma_iterate_cancel(step, back, d, x, (i1 - 1) as nat, (i2 - 1) as nat);
    }
}

/// Pigeonhole on the orbit of `x`: among the first `d + 1` iterates two are
/// equal, so the orbit returns to `x` — in particular it re-enters `[0, n)`
/// within `d` steps.
pub proof fn lemma_orbit_returns(
    step: spec_fn(int) -> int,
    back: spec_fn(int) -> int,
    d: int,
    n: int,
    x: int,
)
    requires
        maps_interval(step, d),
        undoes_on_interval(step, back, d),
        0 <= x < n,
        n <= d,
    ensures
        exists|j: nat| 1 <= j <= d && #[trigger] iterate(step, j, x) < n,
{
    broadcast use group_seq_properties;
    broadcast use vstd::seq_lib::seq_to_set_is_finite;
    broadcast use vstd::set::group_set_axioms;

    let orbit = Seq::new((d + 1) as nat, |i: int| iterate(step, i as nat, x));
    assert forall|i: int| 0 <= i < orbit.len() implies 0 <= #[trigger] orbit[i] < d by {
        lemma_iterate_in_interval(step, d, i as nat, x);
    }
    // The orbit cannot be duplicate-free: d + 1 values inside [0, d).
    if orbit.no_duplicates() {
        orbit.unique_seq_to_set();
        assert(orbit.to_set().subset_of(set_int_range(0, d)));
        lemma_int_range(0, d);
        lemma_len_subset(orbit.to_set(), set_int_range(0, d));
        assert(false);
    }
    let (i1, i2) = choose|i1: int, i2: int|
        0 <= i1 < orbit.len() && 0 <= i2 < orbit.len() && i1 != i2 && #[trigger] orbit[i1]
            == #[trigger] orbit[i2];
    let lo = if i1 < i2 {
        i1
    } else {
        i2
    };
    let hi = if i1 < i2 {
        i2
    } else {
        i1
    };
    assert(orbit[lo] == orbit[hi]);
    lemma_iterate_cancel(step, back, d, x, lo as nat, hi as nat);
    let j = (hi - lo) as nat;
    assert(1 <= j <= d);
    assert(iterate(step, j, x) < n);
}

/// From any step count that lands in `[0, n)`, a first such step count
/// exists.
pub proof fn lemma_first_hit_exists(step: spec_fn(int) -> int, n: int, x: int, j: nat)
    requires
        hits_at(step, n, x, j),
    ensures
        exists|jf: nat| #[trigger] first_hit_at(step, n, x, jf) && jf <= j,
    decreases j,
{
    if forall|j2: nat| 1 <= j2 < j ==> iterate(step, j2, x) >= n {
        assert(first_hit_at(step, n, x, j));
    } else {
        let j2 = choose|j2: nat| 1 <= j2 < j && !(iterate(step, j2, x) >= n);
        lemma_first_hit_exists(step, n, x, j2);
        let jf = choose|jf: nat| #[trigger] first_hit_at(step, n, x, jf) && jf <= j2;
        assert(first_hit_at(step, n, x, jf) && jf <= j);
    }
}

/// The cycle walk from `x`: iterate `step` until the value re-enters
/// `[0, n)` (meaningful once a first hit is shown to exist).
pub open spec fn walk(step: spec_fn(int) -> int, n: int, x: int) -> int {
    iterate(step, first_hit(step, n, x), x)
}

proof fn lemma_walk_back_along(
    step: spec_fn(int) -> int,
    back: spec_fn(int) -> int,
    d: int,
    x: int,
    m: nat,
    l: nat,
)
    requires
        maps_interval(step, d),
        undoes_on_interval(step, back, d),
        0 <= x < d,
        m <= l,
    ensures
        iterate(back, m, iterate(step, l, x)) == iterate(step, (l - m) as nat, x),
    decreases m,
{
    if m > 0 {
        lemma_walk_back_along(step, back, d, x, (m - 1) as nat, l);
        let z = iterate(step, (l - m) as nat, x);
        lemma_iterate_in_interval(step, d, (l - m) as nat, x);
        assert(iterate(step, (l - m + 1) as nat, x) == step(z));
        assert(back(step(z)) == z);
    }
}

/// The two walks undo each other: walking forward from `x` and then
/// walking backward from the landing point returns to `x`.
pub proof fn lemma_walk_roundtrip(
    step: spec_fn(int) -> int,
    back: spec_fn(int) -> int,
    d: int,
    n: int,
    x: int,
)
    requires
        maps_interval(step, d),
        maps_interval(back, d),
        undoes_on_interval(step, back, d),
        undoes_on_interval(back, step, d),
        0 <= x < n,
        n <= d,
    ensures
        first_hit_at(step, n, x, first_hit(step, n, x)),
        0 <= walk(step, n, x) < n,
        walk(back, n, walk(step, n, x)) == x,
{
    lemma_orbit_returns(step, back, d, n, x);
    let j = choose|j: nat| 1 <= j <= d && #[trigger] iterate(step, j, x) < n;
    lemma_first_hit_exists(step, n, x, j);
    let l = first_hit(step, n, x);
    assert(first_hit_at(step, n, x, l));
    let y = walk(step, n, x);
    lemma_iterate_in_interval(step, d, l, x);
    // Walking backward from `y` retraces the forward walk, so its first
    // hit is `x` itself, after exactly `l` steps.
    assert forall|m: nat| m <= l implies iterate(back, m, y) == iterate(
        step,
        (l - m) as nat,
        x,
    ) by {
        lemma_walk_back_along(step, back, d, x, m, l);
    }
    assert(iterate(back, l, y) == iterate(step, 0, x));
    assert(first_hit_at(back, n, y, l)) by {
        assert forall|m: nat| 1 <= m < l implies iterate(back, m, y) >= n by {
            assert(iterate(back, m, y) == iterate(step, (l - m) as nat, x));
        }
    }
    let lb = first_hit(back, n, y);
    assert(first_hit_at(back, n, y, lb));
    lemma_first_hit_unique(back, n, y, lb, l);
}

/// The forward walk permutes `[0, n)`: it stays inside, never sends two
/// values to one, and reaches every value.
pub proof fn lemma_walk_bijective(
    step: spec_fn(int) -> int,
    back: spec_fn(int) -> int,
    d: int,
    n: int,
)
    requires
        maps_interval(step, d),
        maps_interval(back, d),
        undoes_on_interval(step, back, d),
        undoes_on_interval(back, step, d),
        n <= d,
    ensures
        forall|x: int| 0 <= x < n ==> 0 <= #[trigger] walk(step, n, x) < n,
        forall|x1: int, x2: int|
            0 <= x1 < n && 0 <= x2 < n && #[trigger] walk(step, n, x1) == #[trigger] walk(
                step,
                n,
                x2,
            ) ==> x1 == x2,
        forall|y: int|
            0 <= y < n ==> 0 <= #[trigger] walk(back, n, y) < n && walk(
                step,
                n,
                walk(back, n, y),
            ) == y,
{
    assert forall|x: int| 0 <= x < n implies 0 <= #[trigger] walk(step, n, x) < n by {
        lemma_walk_roundtrip(step, back, d, n, x);
    }
    assert forall|x1: int, x2: int|
        0 <= x1 < n && 0 <= x2 < n && #[trigger] walk(step, n, x1) == #[trigger] walk(
            step,
            n,
            x2,
        ) implies x1 == x2 by {
        lemma_walk_roundtrip(step, back, d, n, x1);
        lemma_walk_roundtrip(step, back, d, n, x2);
    }
    assert forall|y: int| 0 <= y < n implies 0 <= #[trigger] walk(back, n, y) < n && walk(
        step,
        n,
        walk(back, n, y),
    ) == y by {
        lemma_walk_roundtrip(back, step, d, n, y);
    }
}

pub proof fn lemma_first_hit_unique(step: spec_fn(int) -> int, n: int, x: int, j1: nat, j2: nat)
    requires
        first_hit_at(step, n, x, j1),
        first_hit_at(step, n, x, j2),
    ensures
        j1 == j2,
{
    if j1 < j2 {
        assert(iterate(step, j1, x) >= n);
    }
    if j2 < j1 {
        assert(iterate(step, j2, x) >= n);
    }
}

} // verus!
