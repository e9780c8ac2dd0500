//! Big-endian byte encodings of 64-bit words, used for the seed truncation,
//! the round-function digest truncation and the Merkle leaf layout.
use vstd::prelude::*;

verus! {

/// `256^n`: the number of values an `n`-byte string can denote.
pub open spec fn pow256(n: nat) -> int
    decreases n,
{
    if n == 0 {
        1
    } else {
        256 * pow256((n - 1) as nat)
    }
}

/// The unsigned integer denoted by `s` read as big-endian base-256 digits.
pub open spec fn be_to_int(s: Seq<u8>) -> int
    decreases s.len(),
{
    if s.len() == 0 {
        0
    } else {
        be_to_int(s.drop_last()) * 256 + s.last()
    }
}

pub proof fn lemma_be_to_int_bound(s: Seq<u8>)
    ensures
        0 <= be_to_int(s) < pow256(s.len()),
    decreases s.len(),
{
    if s.len() > 0 {
        lemma_be_to_int_bound(s.drop_last());
        let v = be_to_int(s.drop_last());
        let p = pow256((s.len() - 1) as nat);
        assert(v * 256 + s.last() < 256 * p) by (nonlinear_arith)
            requires
                0 <= v < p,
                0 <= s.last() < 256,
        {}
        assert(v * 256 >= 0) by (nonlinear_arith)
            requires
                v >= 0,
        {}
    }
}

/// Big-endian byte `j` (0 is the most significant) of a 64-bit word.
pub open spec fn be_byte_of(x: u64, j: int) -> u8 {
    ((x >> (((7 - j) as u64) * 8)) & 0xff) as u8
}

/// The 8-byte big-endian encoding of a 64-bit word.
pub open spec fn u64_to_be(x: u64) -> Seq<u8> {
    Seq::new(8, |j: int| be_byte_of(x, j))
}

/// Reads bytes `[start, start + 8)` of a 32-byte block as a big-endian
/// 64-bit integer.
pub fn be_u64_of_range(bytes: &[u8; 32], start: usize) -> (r: u64)
    requires
        start + 8 <= 32,
    ensures
        r == be_to_int(bytes@.subrange(start as int, start as int + 8)),
{
    let ghost all = bytes@.subrange(start as int, start as int + 8);
    let mut r: u64 = 0;
    let mut j: usize = 0;
    proof {
        assert(all.subrange(0, 0) =~= Seq::<u8>::empty());
    }
    while j < 8
        invariant
            j <= 8,
            start + 8 <= 32,
            all == bytes@.subrange(start as int, start as int + 8),
            r == be_to_int(all.subrange(0, j as int)),
            r < pow256(j as nat),
        decreases 8 - j,
    {
        proof {
            assert(pow256(0) == 1);
            assert(pow256(1) == 256);
            assert(pow256(2) == 0x1_0000);
            assert(pow256(3) == 0x100_0000);
            assert(pow256(4) == 0x1_0000_0000);
            assert(pow256(5) == 0x100_0000_0000);
            assert(pow256(6) == 0x1_0000_0000_0000);
            assert(pow256(7) == 0x100_0000_0000_0000);
            assert(pow256(8) == 0x1_0000_0000_0000_0000);
        }
        let b = bytes[start + j];
        proof {
            let pre = all.subrange(0, j as int);
            let nxt = all.subrange(0, j as int + 1);
            assert(nxt.drop_last() =~= pre);
            assert(nxt.last() == all[j as int]);
            assert(all[j as int] == bytes@[start + j]);
            let v = be_to_int(pre);
            assert(v * 256 + b < pow256((j + 1) as nat)) by (nonlinear_arith)
                requires
                    0 <= v < pow256(j as nat),
                    pow256((j + 1) as nat) == 256 * pow256(j as nat),
                    0 <= b < 256,
            {}
            assert(v * 256 >= 0) by (nonlinear_arith)
                requires
                    v >= 0,
            {}
        }
        r = r * 256 + (b as u64);
        j = j + 1;
    }
    proof {
        assert(all.subrange(0, 8) =~= all);
    }
    r
}

/// Appends the 8-byte big-endian encoding of `x` to `out`.
pub fn push_u64_be(out: &mut Vec<u8>, x: u64)
    ensures
        final(out)@ == old(out)@ + u64_to_be(x),
{
    let ghost base = out@;
    let mut j: usize = 0;
    proof {
        assert(base + u64_to_be(x).subrange(0, 0) =~= base);
    }
    while j < 8
        invariant
            j <= 8,
            out@ == base + u64_to_be(x).subrange(0, j as int),
        decreases 8 - j,
    {
        let b: u8 = ((x >> (((7 - j) as u64) * 8)) & 0xff) as u8;
        proof {
            assert(b == be_byte_of(x, j as int));
            assert(u64_to_be(x).subrange(0, j as int + 1) =~= u64_to_be(x).subrange(0, j as int).push(
                be_byte_of(x, j as int)));
            assert(base + u64_to_be(x).subrange(0, j as int + 1) =~= (base + u64_to_be(x).subrange(
                0,
                j as int,
            )).push(be_byte_of(x, j as int)));
        }
        out.push(b);
        j = j + 1;
    }
    proof {
        assert(u64_to_be(x).subrange(0, 8) =~= u64_to_be(x));
    }
}

/// Appends a fixed-size byte array to `out`.
pub fn push_array<const N: usize>(out: &mut Vec<u8>, a: &[u8; N])
    ensures
        final(out)@ == old(out)@ + a@,
{
    let mut j: usize = 0;
    proof {
        assert(old(out)@ + a@.subrange(0, 0) =~= old(out)@);
    }
    while j < N
        invariant
            j <= N,
            out@ == old(out)@ + a@.subrange(0, j as int),
        decreases N - j,
    {
        let b = a[j];
        proof {
            assert(old(out)@ + a@.subrange(0, j as int + 1) =~= (old(out)@ + a@.subrange(
                0,
                j as int,
            )).push(a@[j as int]));
        }
        out.push(b);
        j = j + 1;
    }
    proof {
        assert(a@.subrange(0, N as int) =~= a@);
    }
}

} // verus!
