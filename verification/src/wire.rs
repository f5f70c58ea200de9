//! Big-endian byte strings for the multi-byte quantities of the wire format.

use vstd::prelude::*;
use vstd::arithmetic::div_mod::lemma_fundamental_div_mod;

verus! {

/// `256` raised to the power `n`: the number of values an `n`-byte
/// big-endian string can carry.
pub open spec fn pow256(n: nat) -> int
    decreases n,
{
    if n == 0 {
        1
    } else {
        256 * pow256((n - 1) as nat)
    }
}

/// The `n`-byte big-endian form of `x` (for `x` in `0..pow256(n)`).
pub open spec fn be_bytes(x: int, n: nat) -> Seq<u8>
    decreases n,
{
    if n == 0 {
        Seq::empty()
    } else {
        be_bytes(x / 256, (n - 1) as nat).push((x % 256) as u8)
    }
}

/// The value of a big-endian byte string.
pub open spec fn be_val(s: Seq<u8>) -> int
    decreases s.len(),
{
    if s.len() == 0 {
        0
    } else {
        be_val(s.drop_last()) * 256 + s.last()
    }
}

pub proof fn lemma_pow256_pos(n: nat)
    ensures
        pow256(n) >= 1,
    decreases n,
{
    if n > 0 {
        lemma_pow256_pos((n - 1) as nat);
    }
}

pub proof fn lemma_pow256_increases(m: nat, n: nat)
    requires
        m <= n,
    ensures
        pow256(m) <= pow256(n),
    decreases n,
{
    if m < n {
        lemma_pow256_increases(m, (n - 1) as nat);
        lemma_pow256_pos((n - 1) as nat);
    }
}

pub proof fn lemma_be_bytes_len(x: int, n: nat)
    ensures
        be_bytes(x, n).len() == n,
    decreases n,
{
    if n > 0 {
        lemma_be_bytes_len(x / 256, (n - 1) as nat);
    }
}

/// Reading back the big-endian form of an in-range value yields the value.
pub proof fn lemma_be_val_of_bytes(x: int, n: nat)
    requires
        0 <= x < pow256(n),
    ensures
        be_val(be_bytes(x, n)) == x,
    decreases n,
{
    if n > 0 {
        lemma_fundamental_div_mod(x, 256);
        assert(x / 256 < pow256((n - 1) as nat)) by (nonlinear_arith)
            requires
                x < 256 * pow256((n - 1) as nat),
                0 <= x,
        {}
        assert(x / 256 >= 0) by (nonlinear_arith)
            requires
                0 <= x,
        {}
        lemma_be_val_of_bytes(x / 256, (n - 1) as nat);
        let s = be_bytes(x, n);
        lemma_be_bytes_len(x, n);
        assert(s.drop_last() =~= be_bytes(x / 256, (n - 1) as nat));
    }
}

/// The value of a byte string is in range for its length, and re-encoding it
/// yields the same byte string.
pub proof fn lemma_be_bytes_of_val(s: Seq<u8>)
    ensures
        0 <= be_val(s) < pow256(s.len()),
        be_bytes(be_val(s), s.len()) == s,
    decreases s.len(),
{
    if s.len() == 0 {
        assert(be_bytes(be_val(s), s.len()) =~= s);
    } else {
        let t = s.drop_last();
        lemma_be_bytes_of_val(t);
        let a = be_val(t);
        let b = s.last() as int;
        let x = be_val(s);
        assert(x == a * 256 + b);
        assert(0 <= x && x < 256 * pow256(t.len())) by (nonlinear_arith)
            requires
                0 <= a < pow256(t.len()),
                0 <= b < 256,
                x == a * 256 + b,
        {}
        lemma_fundamental_div_mod(x, 256);
        assert(x / 256 == a && x % 256 == b) by (nonlinear_arith)
            requires
                x == a * 256 + b,
                0 <= b < 256,
                x == 256 * (x / 256) + x % 256,
                0 <= x % 256 < 256,
        {}
        assert(be_bytes(x, s.len()) =~= s);
    }
}

/// The small powers the wire format's width choices turn on.
pub proof fn lemma_pow256_units()
    ensures
        pow256(1) == 0x100,
        pow256(2) == 0x10000,
        pow256(4) == 0x100000000,
        pow256(8) == 0x10000000000000000,
        pow256(16) == 0x100000000000000000000000000000000,
{
    reveal_with_fuel(pow256, 17);
}

/// A one-byte big-endian string is its byte.
pub proof fn lemma_be_val_single(s: Seq<u8>)
    requires
        s.len() >= 1,
    ensures
        be_val(s.subrange(0, 1)) == s[0],
{
    let t = s.subrange(0, 1);
    assert(t.drop_last() =~= Seq::<u8>::empty());
    assert(be_val(t) == be_val(t.drop_last()) * 256 + t.last());
    assert(t.last() == s[0]);
}

/// Appends the `n`-byte big-endian form of `x`.
pub fn push_be(out: &mut Vec<u8>, x: u64, n: u32)
    requires
        n <= 8,
        x < pow256(n as nat),
    ensures
        final(out)@ == old(out)@ + be_bytes(x as int, n as nat),
    decreases n,
{
    if n == 0 {
        assert(out@ =~= old(out)@ + be_bytes(x as int, 0));
    } else {
        proof {
            lemma_fundamental_div_mod(x as int, 256);
            assert((x as int) / 256 < pow256((n - 1) as nat)) by (nonlinear_arith)
                requires
                    (x as int) < 256 * pow256((n - 1) as nat),
                    0 <= (x as int),
            {}
        }
        push_be(out, x / 256, n - 1);
        out.push((x % 256) as u8);
        assert(out@ =~= old(out)@ + be_bytes(x as int, n as nat));
    }
}

/// Appends the `n`-byte big-endian form of a 128-bit value.
pub fn push_be_128(out: &mut Vec<u8>, x: u128, n: u32)
    requires
        n <= 16,
        x < pow256(n as nat),
    ensures
        final(out)@ == old(out)@ + be_bytes(x as int, n as nat),
    decreases n,
{
    if n == 0 {
        assert(out@ =~= old(out)@ + be_bytes(x as int, 0));
    } else {
        proof {
            lemma_fundamental_div_mod(x as int, 256);
            assert((x as int) / 256 < pow256((n - 1) as nat)) by (nonlinear_arith)
                requires
                    (x as int) < 256 * pow256((n - 1) as nat),
                    0 <= (x as int),
            {}
        }
        push_be_128(out, x / 256, n - 1);
        out.push((x % 256) as u8);
        assert(out@ =~= old(out)@ + be_bytes(x as int, n as nat));
    }
}

/// The value of a big-endian byte string of at most 8 bytes.
pub fn read_be_u64(s: &[u8]) -> (x: u64)
    requires
        s@.len() <= 8,
    ensures
        x == be_val(s@),
{
    let n = s.len();
    let mut acc: u64 = 0;
    let mut i: usize = 0;
    proof {
        assert(s@.take(0) =~= Seq::<u8>::empty());
    }
    while i < n
        invariant
            i <= n,
            n == s@.len() <= 8,
            acc == be_val(s@.take(i as int)),
            0 <= be_val(s@.take(i as int)) < pow256(i as nat),
        decreases n - i,
    {
        proof {
            lemma_pow256_increases(i as nat, 7);
            assert(acc * 256 + s@[i as int] < pow256((i + 1) as nat)) by (nonlinear_arith)
                requires
                    0 <= (acc as int) < pow256(i as nat),
                    0 <= s@[i as int] < 256,
            {}
            lemma_pow256_increases((i + 1) as nat, 8);
            assert(pow256(8) == 0x10000000000000000) by {
                reveal_with_fuel(pow256, 9);
            }
            assert(s@.take(i + 1).drop_last() =~= s@.take(i as int));
        }
        acc = acc * 256 + (s[i] as u64);
        i = i + 1;
    }
    proof {
        assert(s@.take(n as int) =~= s@);
    }
    acc
}

/// The value of a big-endian byte string of at most 16 bytes.
pub fn read_be_u128(s: &[u8]) -> (x: u128)
    requires
        s@.len() <= 16,
    ensures
        x == be_val(s@),
{
    let n = s.len();
    let mut acc: u128 = 0;
    let mut i: usize = 0;
    proof {
        assert(s@.take(0) =~= Seq::<u8>::empty());
    }
    while i < n
        invariant
            i <= n,
            n == s@.len() <= 16,
            acc == be_val(s@.take(i as int)),
            0 <= be_val(s@.take(i as int)) < pow256(i as nat),
        decreases n - i,
    {
        proof {
            lemma_pow256_increases(i as nat, 15);
            assert(acc * 256 + s@[i as int] < pow256((i + 1) as nat)) by (nonlinear_arith)
                requires
                    0 <= (acc as int) < pow256(i as nat),
                    0 <= s@[i as int] < 256,
            {}
            lemma_pow256_increases((i + 1) as nat, 16);
            assert(pow256(16) == 0x100000000000000000000000000000000) by {
                reveal_with_fuel(pow256, 17);
            }
            assert(s@.take(i + 1).drop_last() =~= s@.take(i as int));
        }
        acc = acc * 256 + (s[i] as u128);
        i = i + 1;
    }
    proof {
        assert(s@.take(n as int) =~= s@);
    }
    acc
}

} // verus!
