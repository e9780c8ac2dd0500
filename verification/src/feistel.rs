//! Format-preserving permutation on `[0, domain)`: an unbalanced Feistel
//! network over `Z_h x Z_h` (where `h * h` is the next perfect square at or
//! above `domain`) combined with cycle-walking to handle non-square domains.
use crate::bytes::{be_to_int, lemma_be_to_int_bound};
use crate::cycle::{
    first_hit, first_hit_at, iterate, lemma_first_hit_exists, lemma_first_hit_unique,
    lemma_iterate_in_interval, lemma_orbit_returns, lemma_walk_bijective, lemma_walk_roundtrip,
    maps_interval, undoes_on_interval, walk,
};
use crate::keccak::{keccak256, keccak256_of};
use vstd::arithmetic::div_mod::{
    lemma_add_mod_noop_right, lemma_div_is_ordered, lemma_div_is_ordered_by_denominator,
    lemma_div_pos_is_pos, lemma_fundamental_div_mod, lemma_fundamental_div_mod_converse,
    lemma_mod_add_multiples_vanish, lemma_mod_pos_bound, lemma_multiply_divide_lt,
    lemma_remainder_lower, lemma_small_mod,
};
use vstd::bytes::spec_u64_to_le_bytes;
use vstd::prelude::*;

verus! {

/// `r` is the integer square root of `s`: the largest integer whose square
/// does not exceed `s`.
pub open spec fn is_isqrt(s: int, r: int) -> bool {
    &&& 0 <= r
    &&& r * r <= s
    &&& s < (r + 1) * (r + 1)
}

/// One Newton step from any positive `x` never lands below the integer
/// square root: `s / x + x >= 2 * r` whenever `r * r <= s`.
proof fn lemma_newton_step_lower(s: int, x: int, r: int)
    requires
        1 <= x,
        0 <= r,
        r * r <= s,
    ensures
        s / x + x >= 2 * r,
{
    if s / x + x <= 2 * r - 1 {
        let q = s / x;
        lemma_fundamental_div_mod(s, x);
        lemma_remainder_lower(s, x);
        assert(s < (q + 1) * x) by (nonlinear_arith)
            requires
                s == x * q + s % x,
                s % x < x,
        {}
        // (q + 1) + x <= 2 * r, so by AM-GM (q + 1) * x <= r * r <= s.
        assert((q + 1) * x <= r * r) by (nonlinear_arith)
            requires
                (q + 1) + x <= 2 * r,
                x >= 1,
                q >= 0,
        {}
        assert(false);
    }
}

/// Integer square root by Newton iteration, as used for the Feistel half
/// width: `r * r <= s < (r + 1) * (r + 1)`.
pub fn sqrt(s: u64) -> (r: u64)
    ensures
        is_isqrt(s as int, r as int),
{
    if s > 3 {
        let mut z: u64 = s;
        let mut x: u64 = s / 2 + 1;
        proof {
            lemma_div_is_ordered(4, s as int, 2);
            assert forall|r: int| 0 <= r && #[trigger] (r * r) <= s implies r <= s / 2 + 1 by {
                if r >= 2 {
                    assert(2 * r <= r * r) by (nonlinear_arith)
                        requires
                            r >= 2,
                    {}
                    lemma_div_is_ordered(2 * r, s as int, 2);
                    assert((2 * r) / 2 == r) by (nonlinear_arith) {}
                }
            }
            assert forall|r: int| 0 <= r && #[trigger] (r * r) <= s implies r <= s by {
                if r >= 1 {
                    assert(r <= r * r) by (nonlinear_arith)
                        requires
                            r >= 1,
                    {}
                }
            }
        }
        while x < z
            invariant
                3 < s,
                2 <= x,
                2 <= z,
                x <= s / 2 + 1,
                forall|r: int| 0 <= r && #[trigger] (r * r) <= s ==> r <= x,
                forall|r: int| 0 <= r && #[trigger] (r * r) <= s ==> r <= z,
                x == (s / z + z) / 2 || (z == s && x == s / 2 + 1),
            decreases z,
        {
            z = x;
            let ghost x0 = x as int;
            proof {
                lemma_div_is_ordered_by_denominator(s as int, 2, x as int);
                lemma_fundamental_div_mod(s as int, 2);
                if s % 2 == 0 {
                    assert(s < u64::MAX);
                }
                assert(s / x + x <= u64::MAX);
            }
            let q = s / x;
            proof {
                assert forall|r: int| 0 <= r && #[trigger] (r * r) <= s implies r <= ((s as int) / x0 + x0)
                    / 2 by {
                    lemma_newton_step_lower(s as int, x0, r);
                    lemma_div_is_ordered(2 * r, (s as int) / x0 + x0, 2);
                    assert((2 * r) / 2 == r) by (nonlinear_arith) {}
                }
                assert((2 as int) * 2 <= s as int);
                lemma_div_is_ordered((s as int) / x0 + x0, s as int + 1, 2);
                assert((s as int + 1) / 2 <= s / 2 + 1);
            }
            x = (q + x) / 2;
        }
        proof {
            // At exit `x >= z`; the initial pair cannot satisfy that when
            // `s > 3`, so `x == (s / z + z) / 2`, which forces `z * z <= s`.
            if z == s && x == s / 2 + 1 {
                lemma_div_is_ordered(s as int, 2 * (s as int) - 2, 2);
                assert((2 * (s as int) - 2) / 2 == s - 1);
                assert(false);
            }
            let q = (s as int) / (z as int);
            if q < z {
                lemma_div_is_ordered(q + z, 2 * (z as int) - 1, 2);
                assert((2 * (z as int) - 1) / 2 == z - 1);
                assert(false);
            }
            lemma_fundamental_div_mod(s as int, z as int);
            assert(z * z <= s) by (nonlinear_arith)
                requires
                    s == z * q + (s as int) % (z as int),
                    (s as int) % (z as int) >= 0,
                    q >= z,
                    z >= 1,
            {}
            assert(s < (z + 1) * (z + 1)) by {
                if (z + 1) * (z + 1) <= s {
                    assert(z + 1 <= z);  // from the quantified invariant
                }
            }
        }
        z
    } else if s != 0 {
        assert(is_isqrt(s as int, 1)) by (nonlinear_arith)
            requires
                1 <= s <= 3,
        {}
        1
    } else {
        0
    }
}

/// Largest domain whose next perfect square still fits in `u64`:
/// `(2^32 - 1) * (2^32 - 1)`.
pub const MAX_SQUARE_DOMAIN: u64 = 0xFFFF_FFFE_0000_0001;

pub open spec fn is_square(m: int) -> bool {
    exists|t: int| 0 <= t && #[trigger] (t * t) == m
}

/// Smallest perfect square at or above `n` (so `n` itself when `n` is
/// already a perfect square).
pub fn next_perfect_square(n: u64) -> (r: u64)
    requires
        n <= MAX_SQUARE_DOMAIN,
    ensures
        n <= r,
        is_square(r as int),
        forall|m: int| n <= m < r ==> !is_square(m),
{
    let t = sqrt(n);
    proof {
        assert(t < 0x1_0000_0000) by (nonlinear_arith)
            requires
                t * t <= n <= 0xFFFF_FFFE_0000_0001,
                t >= 0,
        {}
    }
    if t * t == n {
        proof {
            assert(0 <= t as int && (t as int) * (t as int) == n);
        }
        n
    } else {
        proof {
            // `t` cannot be 2^32 - 1 here, since then `n` would equal
            // `MAX_SQUARE_DOMAIN`, a perfect square.
            if t == 0xFFFF_FFFF {
                assert((0xFFFF_FFFF as int) * 0xFFFF_FFFF == 0xFFFF_FFFE_0000_0001);
                assert(false);
            }
            assert((t as int + 1) * (t as int + 1) <= 0xFFFF_FFFE_0000_0001) by (nonlinear_arith)
                requires
                    0 <= t as int + 1 <= 0xFFFF_FFFF,
            {}
        }
        let r = (t + 1) * (t + 1);
        proof {
            assert(0 <= t as int + 1 && (t as int + 1) * (t as int + 1) == r);
            assert forall|m: int| n <= m < r implies !is_square(m) by {
                if is_square(m) {
                    let u = choose|u: int| 0 <= u && #[trigger] (u * u) == m;
                    assert(u > t) by (nonlinear_arith)
                        requires
                            0 <= u,
                            0 <= t,
                            u * u == m,
                            (t as int) * (t as int) < m,
                    {}
                    assert(m >= (t as int + 1) * (t as int + 1)) by (nonlinear_arith)
                        requires
                            u >= t + 1,
                            t >= 0,
                            u * u == m,
                    {}
                }
            }
        }
        r
    }
}

/// `h` is the Feistel half width for `domain`: the least integer whose
/// square covers the domain.
pub open spec fn is_half_width(domain: int, h: int) -> bool {
    &&& 0 <= h
    &&& domain <= h * h
    &&& h == 0 || (h - 1) * (h - 1) < domain
}

pub proof fn lemma_half_width_exists(domain: int)
    requires
        0 <= domain,
    ensures
        exists|h: int| #[trigger] is_half_width(domain, h),
    decreases domain,
{
    if domain == 0 {
        assert(is_half_width(0, 0));
    } else {
        lemma_half_width_exists(domain - 1);
        let h = choose|h: int| #[trigger] is_half_width(domain - 1, h);
        if domain <= h * h {
            assert(is_half_width(domain, h));
        } else {
            // h * h == domain - 1, so (h + 1)^2 >= domain.
            assert(domain <= (h + 1) * (h + 1)) by (nonlinear_arith)
                requires
                    0 <= h,
                    domain - 1 <= h * h,
            {}
            assert(is_half_width(domain, h + 1));
        }
    }
}

pub proof fn lemma_half_width_unique(domain: int, h1: int, h2: int)
    requires
        is_half_width(domain, h1),
        is_half_width(domain, h2),
    ensures
        h1 == h2,
{
    if h1 < h2 {
        assert((h2 - 1) * (h2 - 1) >= h1 * h1) by (nonlinear_arith)
            requires
                0 <= h1 <= h2 - 1,
        {}
    }
    if h2 < h1 {
        assert((h1 - 1) * (h1 - 1) >= h2 * h2) by (nonlinear_arith)
            requires
                0 <= h2 <= h1 - 1,
        {}
    }
}

/// The Feistel half width of `domain`.
pub open spec fn half_width(domain: u64) -> int {
    choose|h: int| is_half_width(domain as int, h)
}

/// Computes the half width `h` with `h * h` the next perfect square at or
/// above `domain`, as the permutation's set-up step does.
pub fn half_width_of(domain: u64) -> (h: u64)
    requires
        domain <= MAX_SQUARE_DOMAIN,
    ensures
        h == half_width(domain),
        is_half_width(domain as int, h as int),
        domain <= h * h <= MAX_SQUARE_DOMAIN,
        h <= 0xFFFF_FFFF,
        domain > 0 ==> h >= 1,
{
    let sq = next_perfect_square(domain);
    let h = sqrt(sq);
    proof {
        // `sq` is a perfect square, so its integer root squares to it.
        let t = choose|t: int| 0 <= t && #[trigger] (t * t) == sq;
        assert(t == h) by (nonlinear_arith)
            requires
                0 <= t,
                0 <= h,
                t * t == sq,
                (h as int) * (h as int) <= sq < (h as int + 1) * (h as int + 1),
        {}
        if h >= 1 && (h as int - 1) * (h as int - 1) >= domain {
            // A smaller square at or above `domain` would contradict the
            // minimality of `sq`.
            assert((h as int - 1) * (h as int - 1) < sq) by (nonlinear_arith)
                requires
                    1 <= h,
                    (h as int) * (h as int) == sq,
            {}
            assert(is_square((h as int - 1) * (h as int - 1)));
            assert(false);
        }
        assert(is_half_width(domain as int, h as int));
        lemma_half_width_unique(domain as int, h as int, half_width(domain));
        assert(h <= 0xFFFF_FFFF) by (nonlinear_arith)
            requires
                (h as int) * (h as int) == sq as int,
                sq <= 0xFFFF_FFFF_FFFF_FFFF,
                0 <= h,
        {}
        assert((h as int) * (h as int) <= 0xFFFF_FFFE_0000_0001) by (nonlinear_arith)
            requires
                0 <= h <= 0xFFFF_FFFF,
        {}
    }
    h
}

/// Bytes hashed by the round function: the little-endian encodings of
/// `x`, `i`, `seed` and `modulus`, concatenated in that order.
pub open spec fn round_preimage(x: u64, i: u64, seed: u64, modulus: u64) -> Seq<u8> {
    spec_u64_to_le_bytes(x) + spec_u64_to_le_bytes(i) + spec_u64_to_le_bytes(seed)
        + spec_u64_to_le_bytes(modulus)
}

/// Keyed pseudorandom word: bytes `[24, 32)` of the Keccak-256 digest of
/// the round preimage, read big-endian.
pub open spec fn round_val(x: u64, i: u64, seed: u64, modulus: u64) -> int {
    be_to_int(keccak256_of(round_preimage(x, i, seed, modulus)).subrange(24, 32))
}

/// The round function `f`.
fn f(x: u64, i: u64, seed: u64, modulus: u64) -> (r: u64)
    ensures
        r == round_val(x, i, seed, modulus),
{
    let mut pre: Vec<u8> = Vec::new();
    let mut part = vstd::bytes::u64_to_le_bytes(x);
    pre.append(&mut part);
    let mut part = vstd::bytes::u64_to_le_bytes(i);
    pre.append(&mut part);
    let mut part = vstd::bytes::u64_to_le_bytes(seed);
    pre.append(&mut part);
    let mut part = vstd::bytes::u64_to_le_bytes(modulus);
    pre.append(&mut part);
    proof {
        assert(pre@ =~= round_preimage(x, i, seed, modulus));
    }
    let digest = keccak256(&pre);
    crate::bytes::be_u64_of_range(&digest, 24)
}

/// The round function's word is non-negative (it is read from bytes).
pub proof fn lemma_round_val_nonneg(x: u64, i: u64, seed: u64, modulus: u64)
    ensures
        0 <= round_val(x, i, seed, modulus),
{
    lemma_be_to_int_bound(keccak256_of(round_preimage(x, i, seed, modulus)).subrange(24, 32));
}

/// One forward Feistel round with round index `idx`, on a half pair
/// `(l, r)` drawn from `[0, h) x [0, h)`.
pub open spec fn fstep(p: (int, int), idx: int, h: int, seed: u64, domain: u64) -> (int, int) {
    (p.1, (p.0 + round_val(p.1 as u64, idx as u64, seed, domain)) % h)
}

/// One inverse Feistel round with round index `idx`.
pub open spec fn bstep(p: (int, int), idx: int, h: int, seed: u64, domain: u64) -> (int, int) {
    ((p.1 + h - (round_val(p.0 as u64, idx as u64, seed, domain) % h)) % h, p.0)
}

/// Forward rounds `i, i + 1, ..., rounds - 1` applied in order.
pub open spec fn fwd_rounds(
    p: (int, int),
    i: int,
    rounds: u64,
    h: int,
    seed: u64,
    domain: u64,
) -> (int, int)
    decreases rounds - i,
{
    if i < 0 || i >= rounds {
        p
    } else {
        fwd_rounds(fstep(p, i, h, seed, domain), i + 1, rounds, h, seed, domain)
    }
}

/// Inverse rounds: step `j` undoes forward round `rounds - j - 1`, so the
/// round schedule is replayed backwards.
pub open spec fn bwd_rounds(
    p: (int, int),
    j: int,
    rounds: u64,
    h: int,
    seed: u64,
    domain: u64,
) -> (int, int)
    decreases rounds - j,
{
    if j < 0 || j >= rounds {
        p
    } else {
        bwd_rounds(bstep(p, rounds - j - 1, h, seed, domain), j + 1, rounds, h, seed, domain)
    }
}

/// Adding `b` modulo `h` and then subtracting `b mod h` (with the `+ h`
/// guard against underflow) gives back the addend.
proof fn lemma_mod_shift_cancel(a: int, b: int, h: int)
    requires
        1 <= h,
        0 <= a < h,
        0 <= b,
    ensures
        ((a + b) % h + h - b % h) % h == a,
{
    let u = b % h;
    lemma_mod_pos_bound(b, h);
    lemma_add_mod_noop_right(a, b, h);
    if a + u < h {
        lemma_small_mod((a + u) as nat, h as nat);
        lemma_mod_add_multiples_vanish(a, h);
        lemma_small_mod(a as nat, h as nat);
    } else {
        lemma_fundamental_div_mod_converse(a + u, h, 1, a + u - h);
        lemma_small_mod(a as nat, h as nat);
    }
}

/// The mirror image: subtracting `b mod h` (guarded) and then adding `b`
/// modulo `h` gives back the minuend.
proof fn lemma_mod_unshift_cancel(a: int, b: int, h: int)
    requires
        1 <= h,
        0 <= a < h,
        0 <= b,
    ensures
        ((a + h - b % h) % h + b) % h == a,
{
    let u = b % h;
    lemma_mod_pos_bound(b, h);
    let c = (a + h - u) % h;
    lemma_add_mod_noop_right(c, b, h);
    if u <= a {
        lemma_fundamental_div_mod_converse(a + h - u, h, 1, a - u);
        lemma_small_mod(a as nat, h as nat);
    } else {
        lemma_small_mod((a + h - u) as nat, h as nat);
        lemma_mod_add_multiples_vanish(a, h);
        lemma_small_mod(a as nat, h as nat);
    }
}

/// A forward round stays in `[0, h) x [0, h)` and is undone by the inverse
/// round with the same index.
proof fn lemma_bstep_fstep(p: (int, int), idx: int, h: int, seed: u64, domain: u64)
    requires
        1 <= h,
        0 <= p.0 < h,
        0 <= p.1 < h,
    ensures
        ({
            let q = fstep(p, idx, h, seed, domain);
            0 <= q.0 < h && 0 <= q.1 < h && bstep(q, idx, h, seed, domain) == p
        }),
{
    let v = round_val(p.1 as u64, idx as u64, seed, domain);
    lemma_round_val_nonneg(p.1 as u64, idx as u64, seed, domain);
    lemma_mod_pos_bound(p.0 + v, h);
    lemma_mod_shift_cancel(p.0, v, h);
}

/// An inverse round stays in range and is undone by the forward round with
/// the same index.
proof fn lemma_fstep_bstep(p: (int, int), idx: int, h: int, seed: u64, domain: u64)
    requires
        1 <= h,
        0 <= p.0 < h,
        0 <= p.1 < h,
    ensures
        ({
            let q = bstep(p, idx, h, seed, domain);
            0 <= q.0 < h && 0 <= q.1 < h && fstep(q, idx, h, seed, domain) == p
        }),
{
    let v = round_val(p.0 as u64, idx as u64, seed, domain);
    lemma_round_val_nonneg(p.0 as u64, idx as u64, seed, domain);
    lemma_mod_pos_bound(v, h);
    lemma_mod_pos_bound(p.1 + h - v % h, h);
    lemma_mod_unshift_cancel(p.1, v, h);
}

proof fn lemma_fwd_rounds_range(p: (int, int), i: int, rounds: u64, h: int, seed: u64, domain: u64)
    requires
        1 <= h,
        0 <= p.0 < h,
        0 <= p.1 < h,
    ensures
        ({
            let q = fwd_rounds(p, i, rounds, h, seed, domain);
            0 <= q.0 < h && 0 <= q.1 < h
        }),
    decreases rounds - i,
{
    if 0 <= i < rounds {
        lemma_bstep_fstep(p, i, h, seed, domain);
        lemma_fwd_rounds_range(fstep(p, i, h, seed, domain), i + 1, rounds, h, seed, domain);
    }
}

proof fn lemma_bwd_rounds_range(p: (int, int), j: int, rounds: u64, h: int, seed: u64, domain: u64)
    requires
        1 <= h,
        0 <= p.0 < h,
        0 <= p.1 < h,
    ensures
        ({
            let q = bwd_rounds(p, j, rounds, h, seed, domain);
            0 <= q.0 < h && 0 <= q.1 < h
        }),
    decreases rounds - j,
{
    if 0 <= j < rounds {
        lemma_fstep_bstep(p, rounds - j - 1, h, seed, domain);
        lemma_bwd_rounds_range(
            bstep(p, rounds - j - 1, h, seed, domain),
            j + 1,
            rounds,
            h,
            seed,
            domain,
        );
    }
}

/// Replaying the inverse schedule undoes the forward rounds from `i` on.
proof fn lemma_bwd_undoes_fwd(p: (int, int), i: int, rounds: u64, h: int, seed: u64, domain: u64)
    requires
        1 <= h,
        0 <= p.0 < h,
        0 <= p.1 < h,
        0 <= i <= rounds,
    ensures
        bwd_rounds(fwd_rounds(p, i, rounds, h, seed, domain), 0, rounds, h, seed, domain)
            == bwd_rounds(p, rounds - i, rounds, h, seed, domain),
    decreases rounds - i,
{
    if i < rounds {
        let p2 = fstep(p, i, h, seed, domain);
        lemma_bstep_fstep(p, i, h, seed, domain);
        lemma_bwd_undoes_fwd(p2, i + 1, rounds, h, seed, domain);
        assert(bwd_rounds(p2, rounds - i - 1, rounds, h, seed, domain) == bwd_rounds(
            bstep(p2, i, h, seed, domain),
            rounds - i,
            rounds,
            h,
            seed,
            domain,
        ));
    }
}

/// Replaying the forward schedule undoes the inverse rounds from `j` on.
proof fn lemma_fwd_undoes_bwd(p: (int, int), j: int, rounds: u64, h: int, seed: u64, domain: u64)
    requires
        1 <= h,
        0 <= p.0 < h,
        0 <= p.1 < h,
        0 <= j <= rounds,
    ensures
        fwd_rounds(bwd_rounds(p, j, rounds, h, seed, domain), 0, rounds, h, seed, domain)
            == fwd_rounds(p, rounds - j, rounds, h, seed, domain),
    decreases rounds - j,
{
    if j < rounds {
        let p2 = bstep(p, rounds - j - 1, h, seed, domain);
        lemma_fstep_bstep(p, rounds - j - 1, h, seed, domain);
        lemma_fwd_undoes_bwd(p2, j + 1, rounds, h, seed, domain);
        assert(fwd_rounds(p2, rounds - j - 1, rounds, h, seed, domain) == fwd_rounds(
            fstep(p2, rounds - j - 1, h, seed, domain),
            rounds - j,
            rounds,
            h,
            seed,
            domain,
        ));
    }
}

/// One pass of the Feistel block over the square `[0, h * h)`: split into
/// halves, run the rounds, recombine.
pub open spec fn block_fwd(x: int, h: int, seed: u64, domain: u64, rounds: u64) -> int {
    let p = fwd_rounds((x % h, x / h), 0, rounds, h, seed, domain);
    h * p.1 + p.0
}

/// One inverse pass of the Feistel block.
pub open spec fn block_bwd(x: int, h: int, seed: u64, domain: u64, rounds: u64) -> int {
    let p = bwd_rounds((x % h, x / h), 0, rounds, h, seed, domain);
    h * p.1 + p.0
}

proof fn lemma_split_in_range(x: int, h: int)
    requires
        1 <= h,
        0 <= x < h * h,
    ensures
        0 <= x % h < h,
        0 <= x / h < h,
{
    lemma_mod_pos_bound(x, h);
    lemma_div_pos_is_pos(x, h);
    lemma_multiply_divide_lt(x, h, h);
}

proof fn lemma_join_in_range(l: int, r: int, h: int)
    requires
        1 <= h,
        0 <= l < h,
        0 <= r < h,
    ensures
        0 <= h * r + l < h * h,
        (h * r + l) % h == l,
        (h * r + l) / h == r,
{
    assert(0 <= h * r + l < h * h) by (nonlinear_arith)
        requires
            1 <= h,
            0 <= l < h,
            0 <= r < h,
    {}
    assert(h * r == r * h) by (nonlinear_arith) {}
    lemma_fundamental_div_mod_converse(h * r + l, h, r, l);
}

/// The forward block maps `[0, h * h)` to itself and the inverse block
/// undoes it.
pub proof fn lemma_block_fwd_inverse(x: int, h: int, seed: u64, domain: u64, rounds: u64)
    requires
        1 <= h,
        0 <= x < h * h,
    ensures
        0 <= block_fwd(x, h, seed, domain, rounds) < h * h,
        block_bwd(block_fwd(x, h, seed, domain, rounds), h, seed, domain, rounds) == x,
{
    lemma_split_in_range(x, h);
    let p0 = (x % h, x / h);
    lemma_fwd_rounds_range(p0, 0, rounds, h, seed, domain);
    let p = fwd_rounds(p0, 0, rounds, h, seed, domain);
    lemma_join_in_range(p.0, p.1, h);
    let y = h * p.1 + p.0;
    lemma_bwd_undoes_fwd(p0, 0, rounds, h, seed, domain);
    assert(bwd_rounds(p, 0, rounds, h, seed, domain) == p0);
    lemma_fundamental_div_mod(x, h);
}

/// The inverse block maps `[0, h * h)` to itself and the forward block
/// undoes it.
pub proof fn lemma_block_bwd_inverse(x: int, h: int, seed: u64, domain: u64, rounds: u64)
    requires
        1 <= h,
        0 <= x < h * h,
    ensures
        0 <= block_bwd(x, h, seed, domain, rounds) < h * h,
        block_fwd(block_bwd(x, h, seed, domain, rounds), h, seed, domain, rounds) == x,
{
    lemma_split_in_range(x, h);
    let p0 = (x % h, x / h);
    lemma_bwd_rounds_range(p0, 0, rounds, h, seed, domain);
    let p = bwd_rounds(p0, 0, rounds, h, seed, domain);
    lemma_join_in_range(p.0, p.1, h);
    lemma_fwd_undoes_bwd(p0, 0, rounds, h, seed, domain);
    assert(fwd_rounds(p, 0, rounds, h, seed, domain) == p0);
    lemma_fundamental_div_mod(x, h);
}

/// The forward block as a map on the square, for the cycle-walk theory.
pub open spec fn fwd_map(h: int, seed: u64, domain: u64, rounds: u64) -> spec_fn(int) -> int {
    |y: int| block_fwd(y, h, seed, domain, rounds)
}

/// The inverse block as a map on the square.
pub open spec fn bwd_map(h: int, seed: u64, domain: u64, rounds: u64) -> spec_fn(int) -> int {
    |y: int| block_bwd(y, h, seed, domain, rounds)
}

/// What `shuffle` returns: the forward cycle walk over the square.
pub open spec fn shuffle_model(x: int, seed: u64, domain: u64, rounds: u64) -> int {
    walk(fwd_map(half_width(domain), seed, domain, rounds), domain as int, x)
}

/// What `deshuffle` returns: the backward cycle walk over the square.
pub open spec fn deshuffle_model(x: int, seed: u64, domain: u64, rounds: u64) -> int {
    walk(bwd_map(half_width(domain), seed, domain, rounds), domain as int, x)
}

/// The two block maps are mutually inverse self-maps of the square
/// `[0, h * h)`.
proof fn lemma_maps_wf(h: int, seed: u64, domain: u64, rounds: u64)
    requires
        1 <= h,
    ensures
        maps_interval(fwd_map(h, seed, domain, rounds), h * h),
        maps_interval(bwd_map(h, seed, domain, rounds), h * h),
        undoes_on_interval(
            fwd_map(h, seed, domain, rounds),
            bwd_map(h, seed, domain, rounds),
            h * h,
        ),
        undoes_on_interval(
            bwd_map(h, seed, domain, rounds),
            fwd_map(h, seed, domain, rounds),
            h * h,
        ),
{
    let fm = fwd_map(h, seed, domain, rounds);
    let bm = bwd_map(h, seed, domain, rounds);
    assert forall|y: int| 0 <= y < h * h implies 0 <= #[trigger] fm(y) < h * h by {
        lemma_block_fwd_inverse(y, h, seed, domain, rounds);
    }
    assert forall|y: int| 0 <= y < h * h implies 0 <= #[trigger] bm(y) < h * h by {
        lemma_block_bwd_inverse(y, h, seed, domain, rounds);
    }
    assert forall|y: int| 0 <= y < h * h implies #[trigger] bm(fm(y)) == y by {
        lemma_block_fwd_inverse(y, h, seed, domain, rounds);
    }
    assert forall|y: int| 0 <= y < h * h implies #[trigger] fm(bm(y)) == y by {
        lemma_block_bwd_inverse(y, h, seed, domain, rounds);
    }
}

/// One forward pass of the Feistel block, in executable form.
#[verifier::loop_isolation(false)]
fn feistel_block_fwd(cur: u64, h: u64, seed: u64, domain: u64, rounds: u64) -> (next: u64)
    requires
        1 <= h <= 0xFFFF_FFFF,
        (h as int) * (h as int) <= MAX_SQUARE_DOMAIN,
        cur < (h as int) * (h as int),
    ensures
        next == block_fwd(cur as int, h as int, seed, domain, rounds),
        next < (h as int) * (h as int),
{
    let mut l = cur % h;
    let mut r = cur / h;
    proof {
        lemma_split_in_range(cur as int, h as int);
    }
    let ghost p0 = (l as int, r as int);
    for i in 0..rounds
        invariant
            l < h,
            r < h,
            fwd_rounds((l as int, r as int), i as int, rounds, h as int, seed, domain)
                == fwd_rounds(p0, 0, rounds, h as int, seed, domain),
    {
        let hash = f(r, i, seed, domain);
        let next_r = (l + hash % h) % h;
        proof {
            lemma_round_val_nonneg(r, i, seed, domain);
            lemma_mod_pos_bound(hash as int, h as int);
            lemma_add_mod_noop_right(l as int, hash as int, h as int);
            assert(fstep((l as int, r as int), i as int, h as int, seed, domain) == (
                r as int,
                next_r as int,
            ));
        }
        l = r;
        r = next_r;
    }
    proof {
        lemma_join_in_range(l as int, r as int, h as int);
    }
    h * r + l
}

/// One inverse pass of the Feistel block, in executable form.
#[verifier::loop_isolation(false)]
fn feistel_block_bwd(cur: u64, h: u64, seed: u64, domain: u64, rounds: u64) -> (next: u64)
    requires
        1 <= h <= 0xFFFF_FFFF,
        (h as int) * (h as int) <= MAX_SQUARE_DOMAIN,
        cur < (h as int) * (h as int),
    ensures
        next == block_bwd(cur as int, h as int, seed, domain, rounds),
        next < (h as int) * (h as int),
{
    let mut l = cur % h;
    let mut r = cur / h;
    proof {
        lemma_split_in_range(cur as int, h as int);
    }
    let ghost p0 = (l as int, r as int);
    for i in 0..rounds
        invariant
            l < h,
            r < h,
            bwd_rounds((l as int, r as int), i as int, rounds, h as int, seed, domain)
                == bwd_rounds(p0, 0, rounds, h as int, seed, domain),
    {
        let idx = rounds - i - 1;
        let hash = f(l, idx, seed, domain);
        let next_l = (r + h - hash % h) % h;
        proof {
            lemma_round_val_nonneg(l, idx, seed, domain);
            lemma_mod_pos_bound(hash as int, h as int);
            assert(bstep((l as int, r as int), idx as int, h as int, seed, domain) == (
                next_l as int,
                l as int,
            ));
        }
        r = l;
        l = next_l;
    }
    proof {
        lemma_join_in_range(l as int, r as int, h as int);
    }
    h * r + l
}

/// Format-preserving permutation, forward direction: Feistel rounds over
/// the covering square, walking the cycle until the value re-enters
/// `[0, domain)`.
#[verifier::loop_isolation(false)]
pub fn shuffle(x: u64, seed: u64, domain: u64, rounds: u64) -> (r: u64)
    requires
        domain != 0,
        x < domain,
        rounds % 2 == 0,
        domain <= MAX_SQUARE_DOMAIN,
    ensures
        r < domain,
        r == shuffle_model(x as int, seed, domain, rounds),
{
    let h = half_width_of(domain);
    let ghost hh = (h as int) * (h as int);
    let ghost stepm = fwd_map(h as int, seed, domain, rounds);
    let ghost backm = bwd_map(h as int, seed, domain, rounds);
    proof {
        lemma_maps_wf(h as int, seed, domain, rounds);
        lemma_orbit_returns(stepm, backm, hh, domain as int, x as int);
        let j = choose|j: nat| 1 <= j <= hh && #[trigger] iterate(stepm, j, x as int) < domain;
        lemma_first_hit_exists(stepm, domain as int, x as int, j);
    }
    let ghost fh = first_hit(stepm, domain as int, x as int);
    proof {
        assert(first_hit_at(stepm, domain as int, x as int, fh));
    }
    let mut cur = feistel_block_fwd(x, h, seed, domain, rounds);
    let ghost mut steps: nat = 1;
    proof {
        assert(stepm(x as int) == block_fwd(x as int, h as int, seed, domain, rounds));
        assert(iterate(stepm, 0, x as int) == x as int);
        assert(cur as int == iterate(stepm, 1, x as int));
    }
    while cur >= domain
        invariant
            cur as int == iterate(stepm, steps, x as int),
            forall|j2: nat| 1 <= j2 < steps ==> iterate(stepm, j2, x as int) >= domain,
            1 <= steps <= fh,
        decreases fh - steps,
    {
        proof {
            assert(steps < fh) by {
                assert(iterate(stepm, fh, x as int) < domain);
            }
            lemma_iterate_in_interval(stepm, hh, steps, x as int);
        }
        cur = feistel_block_fwd(cur, h, seed, domain, rounds);
        proof {
            steps = steps + 1;
            assert(stepm(iterate(stepm, (steps - 1) as nat, x as int)) == cur as int);
        }
    }
    proof {
        assert(first_hit_at(stepm, domain as int, x as int, steps));
        lemma_first_hit_unique(stepm, domain as int, x as int, steps, fh);
        lemma_half_width_unique(domain as int, h as int, half_width(domain));
        assert(cur as int == shuffle_model(x as int, seed, domain, rounds));
    }
    cur
}

/// Format-preserving permutation, inverse direction: the round schedule is
/// replayed backwards and each round is undone.
#[verifier::loop_isolation(false)]
pub fn deshuffle(x_prime: u64, seed: u64, domain: u64, rounds: u64) -> (r: u64)
    requires
        domain != 0,
        x_prime < domain,
        rounds % 2 == 0,
        domain <= MAX_SQUARE_DOMAIN,
    ensures
        r < domain,
        r == deshuffle_model(x_prime as int, seed, domain, rounds),
{
    let h = half_width_of(domain);
    let ghost hh = (h as int) * (h as int);
    let ghost stepm = bwd_map(h as int, seed, domain, rounds);
    let ghost backm = fwd_map(h as int, seed, domain, rounds);
    proof {
        lemma_maps_wf(h as int, seed, domain, rounds);
        lemma_orbit_returns(stepm, backm, hh, domain as int, x_prime as int);
        let j = choose|j: nat|
            1 <= j <= hh && #[trigger] iterate(stepm, j, x_prime as int) < domain;
        lemma_first_hit_exists(stepm, domain as int, x_prime as int, j);
    }
    let ghost fh = first_hit(stepm, domain as int, x_prime as int);
    proof {
        assert(first_hit_at(stepm, domain as int, x_prime as int, fh));
    }
    let mut cur = feistel_block_bwd(x_prime, h, seed, domain, rounds);
    let ghost mut steps: nat = 1;
    proof {
        assert(stepm(x_prime as int) == block_bwd(x_prime as int, h as int, seed, domain, rounds));
        assert(iterate(stepm, 0, x_prime as int) == x_prime as int);
        assert(cur as int == iterate(stepm, 1, x_prime as int));
    }
    while cur >= domain
        invariant
            cur as int == iterate(stepm, steps, x_prime as int),
            forall|j2: nat| 1 <= j2 < steps ==> iterate(stepm, j2, x_prime as int) >= domain,
            1 <= steps <= fh,
        decreases fh - steps,
    {
        proof {
            assert(steps < fh) by {
                assert(iterate(stepm, fh, x_prime as int) < domain);
            }
            lemma_iterate_in_interval(stepm, hh, steps, x_prime as int);
        }
        cur = feistel_block_bwd(cur, h, seed, domain, rounds);
        proof {
            steps = steps + 1;
            assert(stepm(iterate(stepm, (steps - 1) as nat, x_prime as int)) == cur as int);
        }
    }
    proof {
        assert(first_hit_at(stepm, domain as int, x_prime as int, steps));
        lemma_first_hit_unique(stepm, domain as int, x_prime as int, steps, fh);
        lemma_half_width_unique(domain as int, h as int, half_width(domain));
        assert(cur as int == deshuffle_model(x_prime as int, seed, domain, rounds));
    }
    cur
}

/// Sets up the cycle-walk theory for a positive domain: its half width
/// exists and the block maps are mutually inverse on the covering square.
proof fn lemma_domain_setup(seed: u64, domain: u64, rounds: u64)
    requires
        0 < domain,
    ensures
        is_half_width(domain as int, half_width(domain)),
        1 <= half_width(domain),
        domain as int <= half_width(domain) * half_width(domain),
        maps_interval(
            fwd_map(half_width(domain), seed, domain, rounds),
            half_width(domain) * half_width(domain),
        ),
        maps_interval(
            bwd_map(half_width(domain), seed, domain, rounds),
            half_width(domain) * half_width(domain),
        ),
        undoes_on_interval(
            fwd_map(half_width(domain), seed, domain, rounds),
            bwd_map(half_width(domain), seed, domain, rounds),
            half_width(domain) * half_width(domain),
        ),
        undoes_on_interval(
            bwd_map(half_width(domain), seed, domain, rounds),
            fwd_map(half_width(domain), seed, domain, rounds),
            half_width(domain) * half_width(domain),
        ),
{
    lemma_half_width_exists(domain as int);
    let h = half_width(domain);
    assert(is_half_width(domain as int, h));
    if h == 0 {
        assert(domain as int <= 0 * 0);
        assert(false);
    }
    lemma_maps_wf(h, seed, domain, rounds);
}

/// Invertibility: `deshuffle` undoes `shuffle` on every point of the
/// domain, and `shuffle` undoes `deshuffle`.
pub proof fn lemma_shuffle_deshuffle_inverse(x: int, seed: u64, domain: u64, rounds: u64)
    requires
        0 < domain,
        0 <= x < domain,
        2 <= rounds,
        rounds % 2 == 0,
    ensures
        0 <= shuffle_model(x, seed, domain, rounds) < domain,
        deshuffle_model(shuffle_model(x, seed, domain, rounds), seed, domain, rounds) == x,
        0 <= deshuffle_model(x, seed, domain, rounds) < domain,
        shuffle_model(deshuffle_model(x, seed, domain, rounds), seed, domain, rounds) == x,
{
    lemma_domain_setup(seed, domain, rounds);
    let h = half_width(domain);
    let fm = fwd_map(h, seed, domain, rounds);
    let bm = bwd_map(h, seed, domain, rounds);
    lemma_walk_roundtrip(fm, bm, h * h, domain as int, x);
    lemma_walk_roundtrip(bm, fm, h * h, domain as int, x);
}

/// Bijectivity: for every seed and even round count the shuffle is a
/// permutation of `[0, domain)` — into the domain, injective, and onto
/// (with the inverse walk exhibiting the preimage).
pub proof fn lemma_shuffle_bijective(seed: u64, domain: u64, rounds: u64)
    requires
        0 < domain,
        2 <= rounds,
        rounds % 2 == 0,
    ensures
        forall|x: int|
            0 <= x < domain ==> 0 <= #[trigger] shuffle_model(x, seed, domain, rounds) < domain,
        forall|x1: int, x2: int|
            0 <= x1 < domain && 0 <= x2 < domain && #[trigger] shuffle_model(
                x1,
                seed,
                domain,
                rounds,
            ) == #[trigger] shuffle_model(x2, seed, domain, rounds) ==> x1 == x2,
        forall|y: int|
            0 <= y < domain ==> 0 <= #[trigger] deshuffle_model(y, seed, domain, rounds) < domain
                && shuffle_model(deshuffle_model(y, seed, domain, rounds), seed, domain, rounds)
                == y,
{
    lemma_domain_setup(seed, domain, rounds);
    let h = half_width(domain);
    let fm = fwd_map(h, seed, domain, rounds);
    let bm = bwd_map(h, seed, domain, rounds);
    lemma_walk_bijective(fm, bm, h * h, domain as int);
}

} // verus!
