//! Reading and writing individual bits.
//!
//! Compressors think in bits, not bytes: a common symbol might get a 2-bit
//! code and a rare one 13 bits. These types pack such codes tightly into
//! bytes and unpack them again.
//!
//! **Bit order:** bits fill each byte starting from the least significant
//! bit (LSB-first). This is the order Deflate (zip, gzip, png) uses.
//!
//! In contracts a stream is a `Seq<bool>`: a writer's view is everything
//! written so far, a reader's view is everything not yet read.
pub mod fields;
pub mod layout;

use crate::error::Error;
use crate::nums::{
    lemma_join_bound, lemma_join_pow2, lemma_pow2_le, lemma_pow2_values, lemma_split_pow2, low64,
    shl64, shr64, two_to,
};
use vstd::arithmetic::power2::{lemma_pow2_adds, lemma_pow2_pos, lemma_pow2_unfold, pow2};
use vstd::prelude::*;

verus! {

/// The low `n` bits of `v`, lowest first.
pub open spec fn bits_of(v: nat, n: nat) -> Seq<bool>
    decreases n,
{
    if n == 0 {
        Seq::empty()
    } else {
        seq![v % 2 == 1] + bits_of(v / 2, (n - 1) as nat)
    }
}

/// The number whose bits, lowest first, are `s`.
pub open spec fn value_of(s: Seq<bool>) -> nat
    decreases s.len(),
{
    if s.len() == 0 {
        0
    } else {
        (if s[0] {
            1nat
        } else {
            0nat
        }) + 2 * value_of(s.skip(1))
    }
}

/// The bits of a byte string, each byte lowest bit first.
pub open spec fn bytes_bits(b: Seq<u8>) -> Seq<bool> {
    Seq::new(b.len() * 8, |i: int| bits_of(b[i / 8] as nat, 8)[i % 8])
}

/// `n` zero bits.
pub open spec fn zeros(n: nat) -> Seq<bool> {
    Seq::new(n, |i: int| false)
}

/// `s` padded with zero bits to a whole number of bytes.
pub open spec fn padded(s: Seq<bool>) -> Seq<bool> {
    s + zeros(((8 - s.len() % 8) % 8) as nat)
}

/// Position of the highest set bit of `n >= 1`.
pub open spec fn ilog2(n: nat) -> nat
    decreases n,
{
    if n < 2 {
        0
    } else {
        1 + ilog2(n / 2)
    }
}

/// The Elias gamma code of `n >= 1`: as many zeros as `n` has bits below
/// its highest one, a one, then those bits.
pub open spec fn gamma_bits(n: nat) -> Seq<bool> {
    let e = ilog2(n);
    zeros(e) + seq![true] + bits_of((n - pow2(e)) as nat, e)
}

/// How many zero bits `s` starts with.
pub open spec fn leading_zero_bits(s: Seq<bool>) -> nat
    decreases s.len(),
{
    if s.len() == 0 || s[0] {
        0
    } else {
        1 + leading_zero_bits(s.skip(1))
    }
}

/// Reading `n` bits from `s`: the number they hold and what is left.
pub open spec fn take_bits(s: Seq<bool>, n: nat) -> Result<(nat, Seq<bool>), Error> {
    if s.len() < n {
        Err(Error::UnexpectedEof)
    } else {
        Ok((value_of(s.take(n as int)), s.skip(n as int)))
    }
}

/// The first `n` bytes of `s`.
pub open spec fn first_bytes(s: Seq<bool>, n: nat) -> Seq<u8> {
    Seq::new(n, |i: int| value_of(s.subrange(8 * i, 8 * i + 8)) as u8)
}

/// Reading `n` whole bytes from `s`.
pub open spec fn take_bytes(s: Seq<bool>, n: nat) -> Result<(Seq<u8>, Seq<bool>), Error> {
    if s.len() < 8 * n {
        Err(Error::UnexpectedEof)
    } else {
        Ok((first_bytes(s, n), s.skip(8 * n as int)))
    }
}

/// The bits from the next byte boundary on. What is left of a byte string
/// ends at a boundary.
pub open spec fn aligned(s: Seq<bool>) -> Seq<bool> {
    s.skip((s.len() % 8) as int)
}

/// The bits, padded, as bytes.
pub open spec fn packed_bytes(s: Seq<bool>) -> Seq<u8> {
    first_bytes(padded(s), padded(s).len() / 8)
}

/// Reading an Elias gamma code from `s`.
pub open spec fn take_gamma(s: Seq<bool>) -> Result<(nat, Seq<bool>), Error> {
    let e = leading_zero_bits(s);
    if e >= 64 {
        Err(Error::Corrupt("gamma code longer than 64 bits"))
    } else if s.len() < 2 * e + 1 {
        Err(Error::UnexpectedEof)
    } else {
        Ok(
            (
                pow2(e) + value_of(s.subrange(e as int + 1, 2 * e as int + 1)),
                s.skip(2 * e as int + 1),
            ),
        )
    }
}

/// What is left behind a gamma code that cannot be read.
pub open spec fn gamma_left(s: Seq<bool>) -> Seq<bool> {
    let e = leading_zero_bits(s);
    if e >= 64 {
        s.skip(64)
    } else if e == s.len() {
        Seq::empty()
    } else if e > 32 && s.len() >= e + 33 {
        s.skip(e as int + 33)
    } else {
        s.skip(e as int + 1)
    }
}

pub proof fn lemma_bits_of_len(v: nat, n: nat)
    ensures
        bits_of(v, n).len() == n,
    decreases n,
{
    if n > 0 {
        lemma_bits_of_len(v / 2, (n - 1) as nat);
    }
}

/// A gamma code stands for at least 1.
pub proof fn lemma_take_gamma(s: Seq<bool>)
    ensures
        take_gamma(s) matches Ok((v, rest)) ==> v >= 1 && rest.len() < s.len(),
{
    lemma_pow2_pos(leading_zero_bits(s));
}

/// Bits of a number joined from a low and a high part.
pub proof fn lemma_bits_of_join(lo: nat, hi: nat, m: nat, n: nat)
    requires
        lo < pow2(m),
    ensures
        bits_of(lo + hi * pow2(m), m + n) == bits_of(lo, m) + bits_of(hi, n),
    decreases m,
{
    let v = lo + hi * pow2(m);
    if m == 0 {
        lemma_pow2_values();
        assert(v == hi) by (nonlinear_arith)
            requires
                v == lo + hi * pow2(m),
                lo == 0,
                pow2(m) == 1,
        ;
        assert(bits_of(lo, 0) + bits_of(hi, n) =~= bits_of(hi, n));
    } else {
        let m1 = (m - 1) as nat;
        lemma_pow2_unfold(m);
        let h = hi * pow2(m1);
        assert(hi * pow2(m) == 2 * h) by (nonlinear_arith)
            requires
                pow2(m) == 2 * pow2(m1),
                h == hi * pow2(m1),
        ;
        assert(v / 2 == lo / 2 + h);
        assert(v % 2 == lo % 2);
        lemma_bits_of_join(lo / 2, hi, m1, n);
        assert(m + n - 1 == m1 + n);
        assert(bits_of(v, m + n) == seq![v % 2 == 1] + bits_of(v / 2, m1 + n));
        assert(bits_of(v, m + n) =~= bits_of(lo, m) + bits_of(hi, n));
    }
}

/// Bits of a number split at bit `m`.
pub proof fn lemma_bits_of_split(v: nat, m: nat, n: nat)
    ensures
        bits_of(v, m + n) == bits_of(v % pow2(m), m) + bits_of(v / pow2(m), n),
        bits_of(v % pow2(m), m) == bits_of(v, m),
{
    lemma_pow2_pos(m);
    vstd::arithmetic::div_mod::lemma_fundamental_div_mod(v as int, pow2(m) as int);
    assert(v == v % pow2(m) + (v / pow2(m)) * pow2(m)) by (nonlinear_arith)
        requires
            v as int == pow2(m) as int * (v as int / pow2(m) as int) + v as int % pow2(m) as int,
    ;
    lemma_bits_of_join(v % pow2(m), v / pow2(m), m, n);
    lemma_bits_of_join(v % pow2(m), v / pow2(m), m, 0);
    assert(bits_of(v / pow2(m), 0) =~= Seq::<bool>::empty());
    assert(bits_of(v % pow2(m), m) + Seq::<bool>::empty() =~= bits_of(v % pow2(m), m));
}

pub proof fn lemma_value_bound(s: Seq<bool>)
    ensures
        value_of(s) < pow2(s.len()),
    decreases s.len(),
{
    if s.len() == 0 {
        lemma_pow2_values();
    } else {
        lemma_value_bound(s.skip(1));
        lemma_pow2_unfold(s.len());
    }
}

/// `value_of` undoes `bits_of`.
pub proof fn lemma_value_of_bits(v: nat, n: nat)
    requires
        v < pow2(n),
    ensures
        value_of(bits_of(v, n)) == v,
        bits_of(v, n).len() == n,
    decreases n,
{
    if n == 0 {
        lemma_pow2_values();
    } else {
        lemma_pow2_unfold(n);
        lemma_value_of_bits(v / 2, (n - 1) as nat);
        let b = bits_of(v, n);
        assert(b.skip(1) =~= bits_of(v / 2, (n - 1) as nat));
    }
}

/// `bits_of` undoes `value_of`.
pub proof fn lemma_bits_of_value(s: Seq<bool>)
    ensures
        bits_of(value_of(s), s.len()) == s,
    decreases s.len(),
{
    if s.len() > 0 {
        lemma_bits_of_value(s.skip(1));
        let v = value_of(s);
        assert(v / 2 == value_of(s.skip(1)));
        assert(seq![s[0]] + s.skip(1) =~= s);
    } else {
        assert(s =~= Seq::empty());
    }
}

pub proof fn lemma_bytes_bits_append(a: Seq<u8>, b: Seq<u8>)
    ensures
        bytes_bits(a + b) == bytes_bits(a) + bytes_bits(b),
{
    assert(bytes_bits(a + b) =~= bytes_bits(a) + bytes_bits(b));
}

pub proof fn lemma_bytes_bits_one(x: u8)
    ensures
        bytes_bits(seq![x]) == bits_of(x as nat, 8),
{
    lemma_bits_of_len(x as nat, 8);
    assert(bytes_bits(seq![x]) =~= bits_of(x as nat, 8));
}

pub proof fn lemma_bytes_bits_push(a: Seq<u8>, x: u8)
    ensures
        bytes_bits(a.push(x)) == bytes_bits(a) + bits_of(x as nat, 8),
{
    lemma_bytes_bits_append(a, seq![x]);
    lemma_bytes_bits_one(x);
    assert(a.push(x) =~= a + seq![x]);
}

pub proof fn lemma_zero_bits(n: nat)
    ensures
        bits_of(0, n) == zeros(n),
    decreases n,
{
    if n > 0 {
        lemma_zero_bits((n - 1) as nat);
    }
    assert(bits_of(0, n) =~= zeros(n));
}

/// Reading back `n` bits that hold `v`.
pub proof fn bits_roundtrip(v: nat, n: nat, rest: Seq<bool>)
    requires
        v < pow2(n),
    ensures
        take_bits(bits_of(v, n) + rest, n) == Ok::<(nat, Seq<bool>), Error>((v, rest)),
{
    lemma_value_of_bits(v, n);
    let s = bits_of(v, n) + rest;
    assert(s.take(n as int) =~= bits_of(v, n));
    assert(s.skip(n as int) =~= rest);
}

/// Bytes that were written are read again.
pub proof fn lemma_first_bytes(b: Seq<u8>, rest: Seq<bool>)
    ensures
        first_bytes(bytes_bits(b) + rest, b.len()) == b,
{
    let s = bytes_bits(b) + rest;
    lemma_pow2_values();
    assert forall|i: int| 0 <= i < b.len() implies value_of(s.subrange(8 * i, 8 * i + 8)) as u8
        == b[i] by {
        lemma_value_of_bits(b[i] as nat, 8);
        assert(s.subrange(8 * i, 8 * i + 8) =~= bits_of(b[i] as nat, 8)) by {
            assert forall|k: int| 0 <= k < 8 implies s.subrange(8 * i, 8 * i + 8)[k] == bits_of(
                b[i] as nat,
                8,
            )[k] by {
                assert((8 * i + k) / 8 == i && (8 * i + k) % 8 == k);
            }
        }
    }
    assert(first_bytes(s, b.len()) =~= b);
}

/// There is only one way to pad bits to bytes.
pub proof fn lemma_packed_bytes(b: Seq<u8>, s: Seq<bool>)
    requires
        bytes_bits(b) == padded(s),
    ensures
        b == packed_bytes(s),
{
    lemma_first_bytes(b, Seq::empty());
    assert(bytes_bits(b) + Seq::<bool>::empty() =~= bytes_bits(b));
    assert(bytes_bits(b).len() == 8 * b.len());
}

/// The bytes of padded bits hold the bits.
pub proof fn lemma_packed_bits(s: Seq<bool>)
    ensures
        bytes_bits(packed_bytes(s)) == padded(s),
        8 * packed_bytes(s).len() == padded(s).len(),
{
    let p = padded(s);
    let b = packed_bytes(s);
    assert(p.len() % 8 == 0);
    assert(bytes_bits(b).len() == 8 * b.len());
    lemma_pow2_values();
    assert forall|i: int| 0 <= i < p.len() implies bytes_bits(b)[i] == p[i] by {
        let part = p.subrange(8 * (i / 8), 8 * (i / 8) + 8);
        lemma_bits_of_value(part);
        lemma_value_bound(part);
        assert(part[i % 8] == p[i]);
    }
    assert(bytes_bits(b) =~= p);
}

/// Padded bits before other bytes: what a reader finds behind the bits.
pub proof fn lemma_before_bytes(s: Seq<bool>, tail: Seq<u8>)
    ensures
        ({
            let rest = zeros(((8 - s.len() % 8) % 8) as nat) + bytes_bits(tail);
            &&& bytes_bits(packed_bytes(s) + tail) == s + rest
            &&& aligned(rest).len() == 8 * tail.len()
        }),
{
    lemma_packed_bits(s);
    lemma_bytes_bits_append(packed_bytes(s), tail);
    let pad = zeros(((8 - s.len() % 8) % 8) as nat);
    let rest = pad + bytes_bits(tail);
    assert(bytes_bits(packed_bytes(s) + tail) =~= s + rest);
    assert(bytes_bits(tail).len() == 8 * tail.len());
    assert(rest.len() == pad.len() + 8 * tail.len());
}

pub proof fn lemma_ilog2(n: nat)
    requires
        n >= 1,
    ensures
        pow2(ilog2(n)) <= n < pow2(ilog2(n) + 1),
    decreases n,
{
    lemma_pow2_values();
    if n >= 2 {
        lemma_ilog2(n / 2);
        lemma_pow2_unfold(ilog2(n));
        lemma_pow2_unfold(ilog2(n) + 1);
    }
}

pub proof fn lemma_ilog2_small(n: nat)
    requires
        1 <= n <= u64::MAX,
    ensures
        ilog2(n) < 64,
{
    lemma_ilog2(n);
    if ilog2(n) >= 64 {
        lemma_pow2_le(64, ilog2(n));
        vstd::arithmetic::power2::lemma2_to64();
    }
}

/// The highest set bit is determined by the bounds around it.
pub proof fn lemma_ilog2_unique(n: nat, e: nat)
    requires
        pow2(e) <= n < pow2(e + 1),
    ensures
        ilog2(n) == e,
{
    lemma_pow2_pos(e);
    lemma_ilog2(n);
    if e < ilog2(n) {
        lemma_pow2_le(e + 1, ilog2(n));
    } else if ilog2(n) < e {
        lemma_pow2_le(ilog2(n) + 1, e);
    }
}

pub proof fn lemma_leading_zeros_prefix(k: nat, rest: Seq<bool>)
    requires
        rest.len() > 0,
        rest[0],
    ensures
        leading_zero_bits(zeros(k) + rest) == k,
    decreases k,
{
    let s = zeros(k) + rest;
    if k == 0 {
        assert(s =~= rest);
    } else {
        assert(s.skip(1) =~= zeros((k - 1) as nat) + rest);
        lemma_leading_zeros_prefix((k - 1) as nat, rest);
    }
}

pub proof fn lemma_leading_zeros_at(s: Seq<bool>)
    ensures
        leading_zero_bits(s) <= s.len(),
        forall|i: int| 0 <= i < leading_zero_bits(s) ==> !s[i],
        leading_zero_bits(s) < s.len() ==> s[leading_zero_bits(s) as int],
    decreases s.len(),
{
    if s.len() > 0 && !s[0] {
        lemma_leading_zeros_at(s.skip(1));
        assert forall|i: int| 0 <= i < leading_zero_bits(s) implies !s[i] by {
            if i > 0 {
                assert(s[i] == s.skip(1)[i - 1]);
            }
        }
    }
}

pub proof fn lemma_leading_zeros_is(s: Seq<bool>, k: nat)
    requires
        k <= s.len(),
        forall|i: int| 0 <= i < k ==> !s[i],
        k < s.len() ==> s[k as int],
    ensures
        leading_zero_bits(s) == k,
{
    lemma_leading_zeros_at(s);
    let z = leading_zero_bits(s);
    if z < k {
        assert(s[z as int]);
    } else if k < z {
        assert(s[k as int]);
    }
}

/// Every number from 1 up to 64 bits is read back from its gamma code.
pub proof fn gamma_roundtrip(n: nat, rest: Seq<bool>)
    requires
        1 <= n <= u64::MAX,
    ensures
        take_gamma(gamma_bits(n) + rest) == Ok::<(nat, Seq<bool>), Error>((n, rest)),
        gamma_bits(n).len() == 2 * ilog2(n) + 1,
{
    let e = ilog2(n);
    lemma_ilog2(n);
    lemma_ilog2_small(n);
    lemma_pow2_unfold(e + 1);
    let low = (n - pow2(e)) as nat;
    lemma_value_of_bits(low, e);
    let s = gamma_bits(n) + rest;
    let tail = seq![true] + bits_of(low, e) + rest;
    assert(s =~= zeros(e) + tail);
    lemma_leading_zeros_prefix(e, tail);
    assert(s.subrange(e as int + 1, 2 * e as int + 1) =~= bits_of(low, e));
    assert(s.skip(2 * e as int + 1) =~= rest);
}

/// Packs bit fields into a byte buffer, LSB-first.
#[derive(Debug)]
pub struct BitWriter {
    out: Vec<u8>,
    /// Pending bits not yet flushed to `out`, lowest bit first.
    acc: u64,
    /// Number of valid bits in `acc` (always < 8 between calls).
    nbits: u32,
}

impl View for BitWriter {
    type V = Seq<bool>;

    closed spec fn view(&self) -> Seq<bool> {
        bytes_bits(self.out@) + bits_of(self.acc as nat, self.nbits as nat)
    }
}

impl Default for BitWriter {
    fn default() -> (r: Self)
        ensures
            r.wf(),
            r@ == Seq::<bool>::empty(),
    {
        Self::new()
    }
}

impl BitWriter {
    /// Fewer than 8 bits are pending.
    pub closed spec fn wf(&self) -> bool {
        &&& self.nbits < 8
        &&& self.acc < pow2(self.nbits as nat)
    }

    pub fn new() -> (r: Self)
        ensures
            r.wf(),
            r@ == Seq::<bool>::empty(),
    {
        Self::with_capacity(0)
    }

    pub fn with_capacity(bytes: usize) -> (r: Self)
        ensures
            r.wf(),
            r@ == Seq::<bool>::empty(),
    {
        let r = Self { out: Vec::with_capacity(bytes), acc: 0, nbits: 0 };
        proof {
            lemma_pow2_values();
            assert(r@ =~= Seq::<bool>::empty());
        }
        r
    }

    /// Write the low `n` bits of `value` (`n` <= 32), lowest bit first.
    pub fn write_bits(&mut self, value: u32, n: u32)
        requires
            old(self).wf(),
            n <= 32,
            value < pow2(n as nat),
        ensures
            final(self).wf(),
            final(self)@ == old(self)@ + bits_of(value as nat, n as nat),
    {
        let ghost start = self@;
        let ghost target = start + bits_of(value as nat, n as nat);
        proof {
            lemma_join_bound(
                self.acc as nat,
                value as nat,
                self.nbits as nat,
                n as nat,
            );
            lemma_pow2_le(self.nbits as nat + n as nat, 40);
            lemma_pow2_adds(8, 32);
            lemma_pow2_values();
            lemma_bits_of_join(
                self.acc as nat,
                value as nat,
                self.nbits as nat,
                n as nat,
            );
        }
        let mut acc: u64 = self.acc + shl64(value as u64, self.nbits);
        let mut nbits: u32 = self.nbits + n;
        proof {
            assert(bytes_bits(self.out@) + bits_of(acc as nat, nbits as nat) =~= target);
        }
        while nbits >= 8
            invariant
                nbits <= 40,
                acc < pow2(nbits as nat),
                bytes_bits(self.out@) + bits_of(acc as nat, nbits as nat) == target,
            decreases nbits,
        {
            let ghost before = self.out@;
            let ghost a0 = acc as nat;
            let ghost n1 = (nbits - 8) as nat;
            self.out.push((acc % 256) as u8);
            proof {
                lemma_pow2_values();
                lemma_split_pow2(a0, 8, n1);
                lemma_bits_of_split(a0, 8, n1);
                lemma_bytes_bits_push(before, (a0 % 256) as u8);
            }
            acc = acc / 256;
            nbits = nbits - 8;
            proof {
                assert(bytes_bits(self.out@) + bits_of(acc as nat, nbits as nat) =~= target);
            }
        }
        self.acc = acc;
        self.nbits = nbits;
    }

    pub fn write_bit(&mut self, bit: bool)
        requires
            old(self).wf(),
        ensures
            final(self).wf(),
            final(self)@ == old(self)@.push(bit),
    {
        let ghost start = self@;
        proof {
            lemma_pow2_values();
        }
        let v: u32 = if bit {
            1
        } else {
            0
        };
        self.write_bits(v, 1);
        proof {
            reveal_with_fuel(bits_of, 2);
            assert(self@ =~= start.push(bit));
        }
    }

    /// Write a whole byte (8 bits). Does not need to be byte-aligned.
    pub fn write_byte(&mut self, byte: u8)
        requires
            old(self).wf(),
        ensures
            final(self).wf(),
            final(self)@ == old(self)@ + bits_of(byte as nat, 8),
    {
        proof {
            lemma_pow2_values();
        }
        self.write_bits(byte as u32, 8);
    }

    /// Write `n` zero bits.
    fn write_zeros(&mut self, n: u32)
        requires
            old(self).wf(),
        ensures
            final(self).wf(),
            final(self)@ == old(self)@ + zeros(n as nat),
    {
        let ghost start = self@;
        let mut left: u32 = n;
        proof {
            assert(self@ =~= start + zeros((n - left) as nat));
        }
        while left > 0
            invariant
                self.wf(),
                left <= n,
                self@ == start + zeros((n - left) as nat),
            decreases left,
        {
            let chunk: u32 = if left < 32 {
                left
            } else {
                32
            };
            proof {
                lemma_pow2_pos(chunk as nat);
                lemma_zero_bits(chunk as nat);
            }
            self.write_bits(0, chunk);
            left = left - chunk;
            proof {
                assert(self@ =~= start + zeros((n - left) as nat));
            }
        }
    }

    /// Write `n` >= 1 as an Elias gamma code.
    ///
    /// A number with `k` significant bits is written as `k - 1` zero bits,
    /// a one bit, then its remaining `k - 1` bits. Small numbers are cheap:
    ///
    /// | n | bits |
    /// |---|------|
    /// | 1 | 1 |
    /// | 2-3 | 3 |
    /// | 4-7 | 5 |
    /// | 1 000 000 | 39 |
    ///
    /// The decoder needs no length prefix, because the zeros say how many
    /// bits follow.
    pub fn write_gamma(&mut self, n: u64)
        requires
            old(self).wf(),
            n >= 1,
        ensures
            final(self).wf(),
            final(self)@ == old(self)@ + gamma_bits(n as nat),
    {
        let ghost start = self@;
        let mut extra: u32 = 0;
        let mut m: u64 = n;
        proof {
            lemma_ilog2_small(n as nat);
        }
        while m > 1
            invariant
                m >= 1,
                n >= 1,
                extra as nat + ilog2(m as nat) == ilog2(n as nat),
                ilog2(n as nat) < 64,
            decreases m,
        {
            m = m / 2;
            extra = extra + 1;
        }
        proof {
            lemma_ilog2(n as nat);
            lemma_pow2_unfold(extra as nat + 1);
        }
        let rest: u64 = n - two_to(extra);
        self.write_zeros(extra);
        self.write_bit(true);
        proof {
            lemma_pow2_values();
        }
        if extra > 32 {
            let low: u64 = low64(rest, 32);
            let high: u64 = shr64(rest, 32);
            proof {
                lemma_split_pow2(rest as nat, 32, (extra - 32) as nat);
                lemma_bits_of_split(rest as nat, 32, (extra - 32) as nat);
                lemma_pow2_le((extra - 32) as nat, 32);
            }
            self.write_bits(low as u32, 32);
            self.write_bits(high as u32, extra - 32);
        } else {
            proof {
                lemma_pow2_le(extra as nat, 32);
            }
            self.write_bits(rest as u32, extra);
        }
        proof {
            assert(self@ =~= start + gamma_bits(n as nat));
        }
    }

    /// Pad with zero bits up to the next byte boundary.
    pub fn align_to_byte(&mut self)
        requires
            old(self).wf(),
        ensures
            final(self).wf(),
            final(self)@ == padded(old(self)@),
            final(self)@.len() % 8 == 0,
    {
        let ghost start = self@;
        proof {
            lemma_bits_of_len(self.acc as nat, self.nbits as nat);
        }
        if self.nbits > 0 {
            let n: u32 = 8 - self.nbits;
            proof {
                lemma_pow2_pos(n as nat);
                lemma_zero_bits(n as nat);
            }
            self.write_bits(0, n);
        } else {
            proof {
                assert(start + zeros(0) =~= start);
            }
        }
    }

    /// Total bits written so far.
    pub fn bit_len(&self) -> (r: u64)
        requires
            self.wf(),
            self@.len() <= u64::MAX,
        ensures
            r == self@.len(),
    {
        proof {
            lemma_bits_of_len(self.acc as nat, self.nbits as nat);
        }
        self.out.len() as u64 * 8 + self.nbits as u64
    }

    /// Bits in the last, partial byte.
    pub(crate) fn pending_bits(&self) -> (r: u32)
        requires
            self.wf(),
        ensures
            r == self@.len() % 8,
    {
        proof {
            lemma_bits_of_len(self.acc as nat, self.nbits as nat);
        }
        self.nbits
    }

    /// Flush any partial byte (padded with zeros) and return the buffer.
    pub fn finish(self) -> (r: Vec<u8>)
        requires
            self.wf(),
        ensures
            bytes_bits(r@) == padded(self@),
            r@.len() * 8 == padded(self@).len(),
    {
        let mut w = self;
        w.align_to_byte();
        proof {
            lemma_bits_of_len(w.acc as nat, w.nbits as nat);
            assert(w@ =~= bytes_bits(w.out@));
        }
        w.out
    }
}

/// Reads bit fields written by [`BitWriter`].
#[derive(Debug, Clone)]
pub struct BitReader<'a> {
    data: &'a [u8],
    /// Next byte of `data` to load into `acc`.
    pos: usize,
    acc: u64,
    nbits: u32,
}

impl View for BitReader<'_> {
    type V = Seq<bool>;

    closed spec fn view(&self) -> Seq<bool> {
        bits_of(self.acc as nat, self.nbits as nat) + bytes_bits(self.data@.skip(self.pos as int))
    }
}

impl<'a> BitReader<'a> {
    /// The loaded bits were taken from the bytes before `pos`.
    pub closed spec fn wf(&self) -> bool {
        &&& self.pos <= self.data@.len()
        &&& self.nbits <= 40
        &&& self.nbits <= 8 * self.pos
        &&& self.acc < pow2(self.nbits as nat)
    }

    /// The bytes this reader was made for.
    pub closed spec fn source(&self) -> Seq<u8> {
        self.data@
    }

    pub fn new(data: &'a [u8]) -> (r: Self)
        ensures
            r.wf(),
            r@ == bytes_bits(data@),
            r.source() == data@,
    {
        let r = Self { data, pos: 0, acc: 0, nbits: 0 };
        proof {
            lemma_pow2_values();
            assert(data@.skip(0) =~= data@);
            assert(r@ =~= bytes_bits(data@));
        }
        r
    }

    /// Load bytes until at least `n` bits are pending or the input ends.
    fn refill(&mut self, n: u32)
        requires
            old(self).wf(),
            n <= 32,
        ensures
            final(self).wf(),
            final(self)@ == old(self)@,
            final(self).source() == old(self).source(),
            final(self).nbits >= n || final(self).pos == final(self).data@.len(),
    {
        let ghost start = self@;
        let ghost src = self.data@;
        while self.nbits < n && self.pos < self.data.len()
            invariant
                self.wf(),
                n <= 32,
                self@ == start,
                self.data@ == src,
            decreases self.data@.len() - self.pos,
        {
            let byte: u8 = self.data[self.pos];
            let ghost a0 = self.acc as nat;
            let ghost n0 = self.nbits as nat;
            let ghost p0 = self.pos as int;
            proof {
                lemma_pow2_values();
                lemma_join_bound(a0, byte as nat, n0, 8);
                lemma_pow2_le(n0 + 8, 40);
                lemma_pow2_adds(8, 32);
                lemma_bits_of_join(a0, byte as nat, n0, 8);
                lemma_bytes_bits_one(byte);
                lemma_bytes_bits_append(seq![byte], src.skip(p0 + 1));
                assert(src.skip(p0) =~= seq![byte] + src.skip(p0 + 1));
            }
            self.acc = self.acc + shl64(byte as u64, self.nbits);
            self.pos = self.pos + 1;
            self.nbits = self.nbits + 8;
            proof {
                assert(self@ =~= start);
            }
        }
    }

    /// Drop `n` bits that are already loaded.
    fn drop_loaded(&mut self, n: u32)
        requires
            old(self).wf(),
            n <= old(self).nbits,
        ensures
            final(self).wf(),
            final(self)@ == old(self)@.skip(n as int),
            old(self)@.len() >= n,
            final(self).source() == old(self).source(),
    {
        let ghost start = self@;
        let ghost a0 = self.acc as nat;
        let ghost k = (self.nbits - n) as nat;
        proof {
            lemma_split_pow2(a0, n as nat, k);
            lemma_bits_of_split(a0, n as nat, k);
            lemma_bits_of_len(a0, n as nat);
            lemma_bits_of_len(a0, self.nbits as nat);
            lemma_bits_of_len(a0 / pow2(n as nat), k);
        }
        self.acc = shr64(self.acc, n);
        self.nbits = self.nbits - n;
        proof {
            assert(self@ =~= start.skip(n as int));
        }
    }

    /// Read `n` bits (`n` <= 32).
    pub fn read_bits(&mut self, n: u32) -> (r: Result<u32, Error>)
        requires
            old(self).wf(),
            n <= 32,
        ensures
            final(self).wf(),
            final(self).source() == old(self).source(),
            match take_bits(old(self)@, n as nat) {
                Ok((v, rest)) => r matches Ok(x) && x == v && final(self)@ == rest && v < pow2(
                    n as nat,
                ),
                Err(e) => r == Err::<u32, Error>(e) && final(self)@ == old(self)@,
            },
    {
        let ghost start = self@;
        self.refill(n);
        proof {
            lemma_bits_of_len(self.acc as nat, self.nbits as nat);
        }
        if self.nbits < n {
            return Err(Error::UnexpectedEof);
        }
        let value: u64 = low64(self.acc, n);
        proof {
            let a0 = self.acc as nat;
            let k = (self.nbits - n) as nat;
            lemma_bits_of_split(a0, n as nat, k);
            lemma_split_pow2(a0, n as nat, k);
            lemma_value_of_bits(value as nat, n as nat);
            assert(start.take(n as int) =~= bits_of(value as nat, n as nat));
            lemma_pow2_le(n as nat, 32);
            lemma_pow2_values();
        }
        self.drop_loaded(n);
        Ok(value as u32)
    }

    pub fn read_bit(&mut self) -> (r: Result<bool, Error>)
        requires
            old(self).wf(),
        ensures
            final(self).wf(),
            final(self).source() == old(self).source(),
            old(self)@.len() == 0 ==> r == Err::<bool, Error>(Error::UnexpectedEof) && final(self)@
                == old(self)@,
            old(self)@.len() > 0 ==> r == Ok::<bool, Error>(old(self)@[0]) && final(self)@ == old(
                self,
            )@.skip(1),
    {
        let ghost start = self@;
        let v: u32 = self.read_bits(1)?;
        proof {
            reveal_with_fuel(value_of, 2);
            assert(start.take(1)[0] == start[0]);
        }
        Ok(v == 1)
    }

    pub fn read_byte(&mut self) -> (r: Result<u8, Error>)
        requires
            old(self).wf(),
        ensures
            final(self).wf(),
            final(self).source() == old(self).source(),
            match take_bits(old(self)@, 8) {
                Ok((v, rest)) => r matches Ok(x) && x == v && final(self)@ == rest,
                Err(e) => r == Err::<u8, Error>(e) && final(self)@ == old(self)@,
            },
    {
        proof {
            lemma_pow2_values();
        }
        let v: u32 = self.read_bits(8)?;
        Ok(v as u8)
    }

    /// Read a number written by [`BitWriter::write_gamma`].
    pub fn read_gamma(&mut self) -> (r: Result<u64, Error>)
        requires
            old(self).wf(),
        ensures
            final(self).wf(),
            final(self).source() == old(self).source(),
            match take_gamma(old(self)@) {
                Ok((v, rest)) => r matches Ok(x) && x == v && x >= 1 && final(self)@ == rest,
                Err(e) => r == Err::<u64, Error>(e) && final(self)@ == gamma_left(old(self)@),
            },
    {
        let ghost start = self@;
        let ghost src = self.source();
        let mut extra: u32 = 0;
        let mut bit: bool = self.read_bit()?;
        proof {
            assert(start.skip(0) =~= start);
        }
        while !bit
            invariant
                self.wf(),
                self.source() == src,
                start == old(self)@,
                src == old(self).source(),
                extra <= 63,
                extra < start.len(),
                self@ == start.skip(extra as int + 1),
                bit == start[extra as int],
                forall|i: int| 0 <= i < extra ==> !start[i],
            decreases 64 - extra,
        {
            extra = extra + 1;
            if extra > 63 {
                proof {
                    lemma_leading_zeros_at(start);
                }
                return Err(Error::Corrupt("gamma code longer than 64 bits"));
            }
            proof {
                if extra as int == start.len() {
                    lemma_leading_zeros_is(start, extra as nat);
                }
            }
            bit = self.read_bit()?;
            proof {
                assert(start.skip(extra as int).skip(1) =~= start.skip(extra as int + 1));
            }
        }
        proof {
            lemma_leading_zeros_is(start, extra as nat);
        }
        let ghost e = extra as int;
        let ghost body = start.subrange(e + 1, 2 * e + 1);
        let rest: u64;
        if extra > 32 {
            let low: u32 = self.read_bits(32)?;
            let high: u32 = self.read_bits(extra - 32)?;
            proof {
                let h = (e - 32) as nat;
                lemma_pow2_values();
                lemma_pow2_le(h, 31);
                lemma_pow2_unfold(32);
                lemma_value_bound(start.skip(e + 1).skip(32).take(h as int));
                lemma_bits_of_value(start.skip(e + 1).take(32));
                lemma_bits_of_value(start.skip(e + 1).skip(32).take(h as int));
                lemma_bits_of_join(low as nat, high as nat, 32, h);
                assert(body =~= start.skip(e + 1).take(32) + start.skip(e + 1).skip(32).take(
                    h as int,
                ));
                lemma_join_bound(low as nat, high as nat, 32, h);
                lemma_value_of_bits(low as nat + high as nat * pow2(32), 32 + h);
                assert(start.skip(e + 1).skip(32).skip(h as int) =~= start.skip(2 * e + 1));
            }
            rest = low as u64 + high as u64 * 0x1_0000_0000;
        } else {
            rest = self.read_bits(extra)? as u64;
            proof {
                assert(body =~= start.skip(e + 1).take(e));
                assert(start.skip(e + 1).skip(e) =~= start.skip(2 * e + 1));
            }
        }
        proof {
            lemma_value_bound(body);
            lemma_pow2_pos(e as nat);
            lemma_pow2_unfold(e as nat + 1);
            lemma_pow2_le(e as nat + 1, 64);
            vstd::arithmetic::power2::lemma2_to64();
        }
        Ok(two_to(extra) + rest)
    }

    /// The next `n` bits (`n` <= 32) without consuming them; bits past the
    /// end of the input read as 0.
    pub fn peek_bits(&mut self, n: u32) -> (r: u32)
        requires
            old(self).wf(),
            n <= 32,
        ensures
            final(self).wf(),
            final(self)@ == old(self)@,
            final(self).source() == old(self).source(),
            r == value_of((old(self)@ + zeros(n as nat)).take(n as int)),
            r < pow2(n as nat),
    {
        self.refill(n);
        let value: u64 = low64(self.acc, n);
        proof {
            let a0 = self.acc as nat;
            let nb = self.nbits as nat;
            let nn = n as nat;
            lemma_pow2_values();
            lemma_pow2_le(nn, 32);
            lemma_pow2_pos(nn);
            lemma_bits_of_len(a0, nb);
            lemma_value_of_bits(value as nat, nn);
            let t = (self@ + zeros(nn)).take(nn as int);
            if nb >= nn {
                lemma_bits_of_split(a0, nn, (nb - nn) as nat);
                assert(t =~= bits_of(value as nat, nn));
            } else {
                let k = (nn - nb) as nat;
                lemma_pow2_le(nb, nn);
                vstd::arithmetic::div_mod::lemma_small_mod(a0, pow2(nn));
                assert(a0 + 0 * pow2(nb) == a0) by (nonlinear_arith);
                lemma_bits_of_join(a0, 0, nb, k);
                lemma_zero_bits(k);
                assert(self.data@.skip(self.pos as int) =~= Seq::<u8>::empty());
                assert(bytes_bits(Seq::<u8>::empty()) =~= Seq::<bool>::empty());
                assert(t =~= bits_of(a0, nb) + zeros(k));
                assert(nb + k == nn);
            }
        }
        value as u32
    }

    /// Skip `n` bits (`n` <= 32).
    pub fn consume(&mut self, n: u32) -> (r: Result<(), Error>)
        requires
            old(self).wf(),
            n <= 32,
        ensures
            final(self).wf(),
            final(self).source() == old(self).source(),
            old(self)@.len() < n ==> r == Err::<(), Error>(Error::UnexpectedEof) && final(self)@
                == old(self)@,
            old(self)@.len() >= n ==> r is Ok && final(self)@ == old(self)@.skip(n as int),
    {
        self.refill(n);
        proof {
            lemma_bits_of_len(self.acc as nat, self.nbits as nat);
        }
        if self.nbits < n {
            return Err(Error::UnexpectedEof);
        }
        self.drop_loaded(n);
        Ok(())
    }

    /// Skip to the next byte boundary, discarding the padding bits.
    pub fn align_to_byte(&mut self)
        requires
            old(self).wf(),
        ensures
            final(self).wf(),
            final(self).source() == old(self).source(),
            final(self)@ == old(self)@.skip((old(self)@.len() % 8) as int),
    {
        proof {
            lemma_bits_of_len(self.acc as nat, self.nbits as nat);
        }
        let drop: u32 = self.nbits % 8;
        self.drop_loaded(drop);
    }

    /// Bits not yet read, including padding in the final byte.
    pub fn bits_remaining(&self) -> (r: u64)
        requires
            self.wf(),
            self@.len() <= u64::MAX,
        ensures
            r == self@.len(),
    {
        proof {
            lemma_bits_of_len(self.acc as nat, self.nbits as nat);
        }
        (self.data.len() - self.pos) as u64 * 8 + self.nbits as u64
    }

    /// Whole bytes consumed so far, counting a partly read byte as consumed.
    pub fn byte_position(&self) -> (r: usize)
        requires
            self.wf(),
        ensures
            r == self.source().len() - self@.len() / 8,
    {
        proof {
            lemma_bits_of_len(self.acc as nat, self.nbits as nat);
        }
        self.pos - (self.nbits / 8) as usize
    }
}

} // verus!
