//! Fixed-width big-endian integers.

use vstd::prelude::*;

verus! {

/// The number that `s` spells in base 256, most significant byte first.
pub open spec fn be_value(s: Seq<u8>) -> nat
    decreases s.len(),
{
    if s.len() == 0 {
        0
    } else {
        be_value(s.drop_last()) * 256 + s.last() as nat
    }
}

/// The `n` low-order base-256 digits of `v`, most significant first.
pub open spec fn be_bytes(v: nat, n: nat) -> Seq<u8>
    decreases n,
{
    if n == 0 {
        Seq::empty()
    } else {
        be_bytes(v / 256, (n - 1) as nat).push((v % 256) as u8)
    }
}

/// 256 to the power `n`: one more than the largest value of `n` bytes.
pub open spec fn pow256(n: nat) -> nat
    decreases n,
{
    if n == 0 {
        1
    } else {
        256 * pow256((n - 1) as nat)
    }
}

pub proof fn lemma_be_bytes_len(v: nat, n: nat)
    ensures
        be_bytes(v, n).len() == n,
    decreases n,
{
    if n > 0 {
        lemma_be_bytes_len(v / 256, (n - 1) as nat);
    }
}

/// Reading back what was written gives the number, if it fits.
pub proof fn lemma_be_value_of_bytes(v: nat, n: nat)
    requires
        v < pow256(n),
    ensures
        be_value(be_bytes(v, n)) == v,
    decreases n,
{
    if n > 0 {
        let hi = be_bytes(v / 256, (n - 1) as nat);
        lemma_be_value_of_bytes(v / 256, (n - 1) as nat);
        assert(be_bytes(v, n).drop_last() =~= hi);
    }
}

/// Writing what was read gives the bytes back.
pub proof fn lemma_be_bytes_of_value(s: Seq<u8>)
    ensures
        be_bytes(be_value(s), s.len()) == s,
        be_value(s) < pow256(s.len()),
    decreases s.len(),
{
    if s.len() > 0 {
        lemma_be_bytes_of_value(s.drop_last());
        let hi = be_value(s.drop_last());
        let v = be_value(s);
        assert(v / 256 == hi && v % 256 == s.last());
        assert(be_bytes(v, s.len()) =~= s);
    }
}

pub proof fn lemma_pow256_values()
    ensures
        pow256(2) == 0x1_0000,
        pow256(4) == 0x1_0000_0000,
        pow256(8) == 0x1_0000_0000_0000_0000,
        pow256(16) == 0x1_0000_0000_0000_0000_0000_0000_0000_0000,
{
    reveal_with_fuel(pow256, 17);
}

/// Append `v` as `n` big-endian bytes.
pub fn put_be(out: &mut Vec<u8>, v: u128, n: usize)
    requires
        n <= 16,
    ensures
        final(out)@ == old(out)@ + be_bytes(v as nat, n as nat),
    decreases n,
{
    if n > 0 {
        put_be(out, v / 256, n - 1);
        out.push((v % 256) as u8);
    }
}

/// Overwrite the `n` bytes at `at` with the big-endian bytes of `v`.
pub fn set_be<const N: usize>(out: &mut [u8; N], at: usize, v: u128, n: usize)
    requires
        at + n <= N,
    ensures
        final(out)@ == old(out)@.take(at as int) + be_bytes(v as nat, n as nat) + old(out)@.skip(
            at + n,
        ),
    decreases n,
{
    let ghost before = out@;
    proof {
        lemma_be_bytes_len(v as nat, n as nat);
    }
    if n > 0 {
        set_be(out, at, v / 256, n - 1);
        let ghost mid = out@;
        proof {
            lemma_be_bytes_len(v as nat / 256, (n - 1) as nat);
        }
        out[at + (n - 1)] = (v % 256) as u8;
        assert(out@ =~= before.take(at as int) + be_bytes(v as nat, n as nat) + before.skip(
            at + n,
        ));
    } else {
        assert(out@ =~= before.take(at as int) + be_bytes(v as nat, 0) + before.skip(at as int));
    }
}

/// Read `n` big-endian bytes starting at `at`.
pub fn get_be(buf: &[u8], at: usize, n: usize) -> (v: u128)
    requires
        n <= 16,
        at + n <= buf@.len(),
    ensures
        v == be_value(buf@.subrange(at as int, at + n)),
        v < pow256(n as nat),
    decreases n,
{
    let ghost s = buf@.subrange(at as int, at + n);
    proof {
        lemma_be_bytes_of_value(s);
    }
    if n == 0 {
        0
    } else {
        let hi: u128 = get_be(buf, at, n - 1);
        proof {
            assert(s.drop_last() =~= buf@.subrange(at as int, at + n - 1));
            reveal_with_fuel(pow256, 17);
            assert(buf@.len() == buf.len());
        }
        hi * 256 + buf[at + (n - 1)] as u128
    }
}

} // verus!
