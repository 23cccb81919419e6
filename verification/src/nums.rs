//! Arithmetic facts shared by the codecs: powers of two, shifts and masks.
use vstd::arithmetic::power2::{
    lemma2_to64, lemma_pow2_adds, lemma_pow2_pos, lemma_pow2_strictly_increases,
    lemma_pow2_unfold, pow2,
};
use vstd::bits::{
    lemma_u64_low_bits_mask_is_mod, lemma_u64_pow2_no_overflow, lemma_u64_shl_is_mul,
    lemma_u64_shr_is_div, low_bits_mask,
};
use vstd::prelude::*;

verus! {

/// `pow2` grows with its argument.
pub proof fn lemma_pow2_le(a: nat, b: nat)
    requires
        a <= b,
    ensures
        0 < pow2(a) <= pow2(b),
{
    lemma_pow2_pos(a);
    if a < b {
        lemma_pow2_strictly_increases(a, b);
    }
}

/// The powers of two that fixed-size fields need.
pub proof fn lemma_pow2_values()
    ensures
        pow2(0) == 1,
        pow2(1) == 2,
        pow2(2) == 4,
        pow2(3) == 8,
        pow2(4) == 16,
        pow2(5) == 32,
        pow2(6) == 64,
        pow2(7) == 128,
        pow2(8) == 256,
        pow2(9) == 512,
        pow2(10) == 1024,
        pow2(11) == 2048,
        pow2(12) == 4096,
        pow2(13) == 8192,
        pow2(14) == 16384,
        pow2(15) == 32768,
        pow2(16) == 65536,
        pow2(24) == 0x100_0000,
        pow2(32) == 0x1_0000_0000,
{
    lemma2_to64();
}

/// `x` times `2^n`, as a shift.
#[inline]
pub fn shl64(x: u64, n: u32) -> (r: u64)
    requires
        n < 64,
        x * pow2(n as nat) <= u64::MAX,
    ensures
        r == x * pow2(n as nat),
{
    proof {
        lemma_u64_shl_is_mul(x, n as u64);
    }
    x << (n as u64)
}

/// `x` divided by `2^n`, as a shift.
#[inline]
pub fn shr64(x: u64, n: u32) -> (r: u64)
    requires
        n < 64,
    ensures
        r == x as nat / pow2(n as nat),
{
    proof {
        lemma_u64_shr_is_div(x, n as u64);
    }
    x >> (n as u64)
}

/// The low `n` bits of `x`.
#[inline]
pub fn low64(x: u64, n: u32) -> (r: u64)
    requires
        n < 64,
    ensures
        r == x as nat % pow2(n as nat),
{
    proof {
        lemma_u64_low_bits_mask_is_mod(x, n as nat);
        lemma_u64_pow2_no_overflow(n as nat);
        lemma_pow2_pos(n as nat);
        lemma_u64_shl_is_mul(1, n as u64);
        assert(low_bits_mask(n as nat) == pow2(n as nat) - 1);
    }
    x & ((1u64 << (n as u64)) - 1)
}

/// `2^n` as a machine number.
#[inline]
pub fn two_to(n: u32) -> (r: u64)
    requires
        n < 64,
    ensures
        r == pow2(n as nat),
        r > 0,
{
    proof {
        lemma_u64_pow2_no_overflow(n as nat);
        lemma_pow2_pos(n as nat);
        lemma_u64_shl_is_mul(1, n as u64);
    }
    1u64 << (n as u64)
}

/// Splitting `a < 2^(m + n)` at bit `m`.
pub proof fn lemma_split_pow2(a: nat, m: nat, n: nat)
    requires
        a < pow2(m + n),
    ensures
        a / pow2(m) < pow2(n),
        a % pow2(m) < pow2(m),
        a == a % pow2(m) + (a / pow2(m)) * pow2(m),
{
    lemma_pow2_adds(m, n);
    lemma_pow2_pos(m);
    let p = pow2(m) as int;
    let q = pow2(n) as int;
    vstd::arithmetic::div_mod::lemma_fundamental_div_mod(a as int, p);
    assert((a as int) / p < q) by (nonlinear_arith)
        requires
            0 <= a as int,
            (a as int) < p * q,
            p > 0,
            a as int == p * ((a as int) / p) + (a as int) % p,
            (a as int) % p >= 0,
    ;
    assert((a / pow2(m)) * pow2(m) == pow2(m) * (a / pow2(m))) by (nonlinear_arith);
}

/// Joining a low part below `2^m` with a high part gives both parts back.
pub proof fn lemma_join_pow2(lo: nat, hi: nat, m: nat)
    requires
        lo < pow2(m),
    ensures
        (lo + hi * pow2(m)) % pow2(m) == lo,
        (lo + hi * pow2(m)) / pow2(m) == hi,
{
    lemma_pow2_pos(m);
    lemma_divmod_unique(lo + hi * pow2(m), pow2(m), hi, lo);
}

/// Quotient and remainder are determined by the division equation.
pub proof fn lemma_divmod_unique(a: nat, d: nat, q: nat, r: nat)
    requires
        d > 0,
        a == r + q * d,
        r < d,
    ensures
        a / d == q,
        a % d == r,
{
    assert(a as int == q as int * d as int + r as int) by (nonlinear_arith)
        requires
            a == r + q * d,
    ;
    vstd::arithmetic::div_mod::lemma_fundamental_div_mod_converse(
        a as int,
        d as int,
        q as int,
        r as int,
    );
}

/// A product of bounds bounds the joined value.
pub proof fn lemma_join_bound(lo: nat, hi: nat, m: nat, n: nat)
    requires
        lo < pow2(m),
        hi < pow2(n),
    ensures
        lo + hi * pow2(m) < pow2(m + n),
{
    lemma_pow2_adds(m, n);
    assert(lo + hi * pow2(m) < pow2(m) * pow2(n)) by (nonlinear_arith)
        requires
            lo < pow2(m),
            hi + 1 <= pow2(n),
    ;
}

/// The number that bytes stand for, least significant first.
pub open spec fn le_value(s: Seq<u8>) -> nat
    decreases s.len(),
{
    if s.len() == 0 {
        0
    } else {
        s[0] as nat + 256 * le_value(s.skip(1))
    }
}

/// The lowest `n` bytes of `v`, least significant first.
pub open spec fn le_bytes(v: nat, n: nat) -> Seq<u8>
    decreases n,
{
    if n == 0 {
        Seq::empty()
    } else {
        seq![(v % 256) as u8] + le_bytes(v / 256, (n - 1) as nat)
    }
}

/// Bytes written are the number again.
pub proof fn lemma_le_bytes(v: nat, n: nat)
    requires
        v < pow2(8 * n),
    ensures
        le_bytes(v, n).len() == n,
        le_value(le_bytes(v, n)) == v,
    decreases n,
{
    lemma_pow2_values();
    if n > 0 {
        let m = (n - 1) as nat;
        lemma_pow2_adds(8, 8 * m);
        assert(v / 256 < pow2(8 * m)) by {
            assert(v < 256 * pow2(8 * m));
        }
        lemma_le_bytes(v / 256, m);
        assert(le_bytes(v, n).skip(1) =~= le_bytes(v / 256, m));
    }
}

/// The number of bytes, whatever the number.
pub proof fn lemma_le_len(v: nat, n: nat)
    ensures
        le_bytes(v, n).len() == n,
    decreases n,
{
    if n > 0 {
        lemma_le_len(v / 256, (n - 1) as nat);
    }
}

/// Byte `i` that is written of a number is the one worth `256^i`.
pub proof fn le_bytes_are_digits(v: nat, n: nat, i: nat)
    requires
        i < n,
    ensures
        le_bytes(v, n).len() == n,
        le_bytes(v, n)[i as int] == v / pow2(8 * i) % 256,
    decreases i,
{
    lemma_pow2_values();
    lemma_le_len(v, n);
    if i > 0 {
        let m = (i - 1) as nat;
        le_bytes_are_digits(v / 256, (n - 1) as nat, m);
        assert(8 * i == 8 + 8 * m);
        lemma_pow2_adds(8, 8 * m);
        lemma_pow2_pos(8 * m);
        vstd::arithmetic::div_mod::lemma_div_denominator(v as int, 256, pow2(8 * m) as int);
    } else {
        assert(8 * i == 0);
    }
}

/// Byte `i` of a little-endian number is worth `256^i`.
pub proof fn le_digits(s: Seq<u8>, i: nat)
    requires
        i < s.len(),
    ensures
        s[i as int] == le_value(s) / pow2(8 * i) % 256,
    decreases i,
{
    lemma_pow2_values();
    let v = le_value(s);
    let more = le_value(s.skip(1));
    assert(v == s[0] as nat + 256 * more);
    if i > 0 {
        let m = (i - 1) as nat;
        le_digits(s.skip(1), m);
        assert(s[i as int] == s.skip(1)[m as int]);
        assert(8 * i == 8 + 8 * m);
        lemma_pow2_adds(8, 8 * m);
        lemma_pow2_pos(8 * m);
        vstd::arithmetic::div_mod::lemma_div_denominator(v as int, 256, pow2(8 * m) as int);
        assert(v / 256 == more);
    } else {
        assert(8 * i == 0);
    }
}

/// A number that was read is written with the same bytes.
pub proof fn lemma_le_value(s: Seq<u8>)
    ensures
        le_bytes(le_value(s), s.len()) == s,
    decreases s.len(),
{
    if s.len() > 0 {
        let more = s.skip(1);
        lemma_le_value(more);
        let v = le_value(s);
        assert(v % 256 == s[0] && v / 256 == le_value(more));
        assert(seq![s[0]] + more =~= s);
    } else {
        assert(s =~= Seq::<u8>::empty());
    }
}

/// A number of `n` bytes is below `256^n`.
pub proof fn lemma_le_value_bound(s: Seq<u8>)
    ensures
        le_value(s) < pow2(8 * s.len()),
    decreases s.len(),
{
    lemma_pow2_values();
    if s.len() > 0 {
        lemma_le_value_bound(s.skip(1));
        lemma_pow2_adds(8, (8 * (s.len() - 1)) as nat);
        assert(8 * s.len() == 8 + 8 * (s.len() - 1));
    }
}

/// Append the lowest `n` bytes of `v`, least significant first.
pub fn push_le(out: &mut Vec<u8>, v: u64, n: usize)
    ensures
        final(out)@ == old(out)@ + le_bytes(v as nat, n as nat),
{
    let ghost target = out@ + le_bytes(v as nat, n as nat);
    let mut rest: u64 = v;
    let mut left: usize = n;
    while left > 0
        invariant
            out@ + le_bytes(rest as nat, left as nat) == target,
        decreases left,
    {
        let ghost before = out@;
        out.push((rest % 256) as u8);
        proof {
            assert(before + le_bytes(rest as nat, left as nat) =~= out@ + le_bytes(
                rest as nat / 256,
                (left - 1) as nat,
            ));
        }
        rest = rest / 256;
        left = left - 1;
    }
    proof {
        assert(out@ + Seq::<u8>::empty() =~= out@);
    }
}

/// The number in the `n` bytes at `at`, least significant first.
pub fn read_le(data: &[u8], at: usize, n: usize) -> (r: u64)
    requires
        n <= 8,
        at + n <= data@.len(),
    ensures
        r == le_value(data@.subrange(at as int, at + n)),
        r < pow2((8 * n) as nat),
{
    let mut r: u64 = 0;
    let mut i: usize = n;
    proof {
        lemma_pow2_values();
        assert(data@.subrange(at as int + n, at as int + n) =~= Seq::<u8>::empty());
    }
    while i > 0
        invariant
            i <= n <= 8,
            at + n <= data@.len(),
            data@.len() == data.len(),
            r == le_value(data@.subrange(at + i, at + n)),
        decreases i,
    {
        i = i - 1;
        proof {
            let s = data@.subrange(at + i, at + n);
            assert(s.skip(1) =~= data@.subrange(at + i + 1, at + n));
            assert(s[0] == data@[at + i]);
            lemma_le_value_bound(s);
            lemma_pow2_le(8 * s.len(), 64);
            vstd::arithmetic::power2::lemma2_to64_rest();
        }
        r = data[at + i] as u64 + 256 * r;
    }
    proof {
        lemma_le_value_bound(data@.subrange(at as int, at + n));
    }
    r
}

} // verus!
