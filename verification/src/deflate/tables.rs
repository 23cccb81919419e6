//! Constant tables from RFC 1951 sections 3.2.5 to 3.2.7.
use crate::huffman::lengths_ok;
use crate::huffman::slot_share;
use crate::huffman::slots;
use crate::nums::lemma_pow2_values;
use vstd::arithmetic::power2::pow2;
use vstd::prelude::*;

verus! {

/// Smallest length for length codes 257..=285.
pub const LENGTH_BASE: [u16; 29] = [
    3, 4, 5, 6, 7, 8, 9, 10, 11, 13, 15, 17, 19, 23, 27, 31, 35, 43, 51, 59, 67, 83, 99, 115, 131,
    163, 195, 227, 258,
];

/// Extra bits after each length code.
pub const LENGTH_EXTRA: [u8; 29] = [
    0, 0, 0, 0, 0, 0, 0, 0, 1, 1, 1, 1, 2, 2, 2, 2, 3, 3, 3, 3, 4, 4, 4, 4, 5, 5, 5, 5, 0,
];

/// Smallest distance for distance codes 0..=29.
pub const DIST_BASE: [u16; 30] = [
    1, 2, 3, 4, 5, 7, 9, 13, 17, 25, 33, 49, 65, 97, 129, 193, 257, 385, 513, 769, 1025, 1537,
    2049, 3073, 4097, 6145, 8193, 12289, 16385, 24577,
];

/// Extra bits after each distance code.
pub const DIST_EXTRA: [u8; 30] = [
    0, 0, 0, 0, 1, 1, 2, 2, 3, 3, 4, 4, 5, 5, 6, 6, 7, 7, 8, 8, 9, 9, 10, 10, 11, 11, 12, 12, 13,
    13,
];

/// Order in which code-length code lengths are sent (most likely first, so
/// trailing zeros can be dropped).
pub const CL_ORDER: [usize; 19] = [
    16, 17, 18, 0, 8, 7, 9, 6, 10, 5, 11, 4, 12, 3, 13, 2, 14, 1, 15,
];

pub const END_OF_BLOCK: usize = 256;

/// Literal/length symbols actually used (286 and 287 are reserved).
pub const NUM_LITLEN: usize = 286;

pub const NUM_DIST: usize = 30;

/// Smallest length of length code `i`.
#[verifier::opaque]
pub open spec fn length_base(i: int) -> nat {
    LENGTH_BASE[i] as nat
}

/// Extra bits after length code `i`.
#[verifier::opaque]
pub open spec fn length_extra(i: int) -> nat {
    LENGTH_EXTRA[i] as nat
}

/// Smallest distance of distance code `i`.
#[verifier::opaque]
pub open spec fn dist_base(i: int) -> nat {
    DIST_BASE[i] as nat
}

/// Extra bits after distance code `i`.
#[verifier::opaque]
pub open spec fn dist_extra(i: int) -> nat {
    DIST_EXTRA[i] as nat
}

/// The symbol whose code length is sent at place `i`.
#[verifier::opaque]
pub open spec fn cl_order(i: int) -> nat {
    CL_ORDER[i] as nat
}

/// Each length code covers the lengths up to the next one's.
pub proof fn lemma_length_codes(i: int)
    requires
        0 <= i < 29,
    ensures
        length_extra(i) <= 5,
        3 <= length_base(i) <= 258,
        length_base(i) + pow2(length_extra(i)) <= 259,
        i < 28 ==> length_base(i) < length_base(i + 1) <= length_base(i) + pow2(length_extra(i)),
        i == 28 ==> length_base(i) == 258 && length_extra(i) == 0,
        i == 0 ==> length_base(i) == 3,
{
    reveal(length_base);
    reveal(length_extra);
    lemma_pow2_values();
}

/// Each distance code covers the distances up to the next one's.
pub proof fn lemma_dist_codes(i: int)
    requires
        0 <= i < 30,
    ensures
        dist_extra(i) <= 13,
        1 <= dist_base(i) <= 24577,
        dist_base(i) + pow2(dist_extra(i)) <= 32769,
        i < 29 ==> dist_base(i) < dist_base(i + 1) <= dist_base(i) + pow2(dist_extra(i)),
        i == 29 ==> dist_base(i) == 24577 && dist_extra(i) == 13,
        i == 0 ==> dist_base(i) == 1,
{
    reveal(dist_base);
    reveal(dist_extra);
    lemma_pow2_values();
}

pub proof fn lemma_cl_order(i: int)
    requires
        0 <= i < 19,
    ensures
        cl_order(i) < 19,
        forall|j: int| 0 <= j < 19 && j != i ==> #[trigger] cl_order(j) != cl_order(i),
{
    reveal(cl_order);
}

/// A length or distance split into (code index, extra bits value, extra bit
/// count).
#[derive(Debug, Clone, Copy, PartialEq, Eq)]
pub struct Coded {
    pub index: usize,
    pub extra: u32,
    pub extra_bits: u32,
}

/// The length code of a length.
pub open spec fn length_index(len: nat, i: int) -> int
    decreases i,
{
    if i <= 0 || length_base(i) <= len {
        i
    } else {
        length_index(len, i - 1)
    }
}

/// The distance code of a distance.
pub open spec fn dist_index(dist: nat, i: int) -> int
    decreases i,
{
    if i <= 0 || dist_base(i) <= dist {
        i
    } else {
        dist_index(dist, i - 1)
    }
}

/// A length as code, extra value and extra bits.
pub open spec fn coded_length(len: nat) -> Coded {
    let i = length_index(len, 28);
    Coded {
        index: i as usize,
        extra: (len - length_base(i)) as u32,
        extra_bits: length_extra(i) as u32,
    }
}

/// A distance as code, extra value and extra bits.
pub open spec fn coded_dist(dist: nat) -> Coded {
    let i = dist_index(dist, 29);
    Coded {
        index: i as usize,
        extra: (dist - dist_base(i)) as u32,
        extra_bits: dist_extra(i) as u32,
    }
}

proof fn lemma_length_index(len: nat, i: int)
    requires
        3 <= len <= 258,
        0 <= i <= 28,
        i < 28 ==> len < length_base(i + 1),
    ensures
        ({
            let k = length_index(len, i);
            0 <= k <= i && length_base(k) <= len < length_base(k) + pow2(length_extra(k))
        }),
    decreases i,
{
    lemma_length_codes(i);
    lemma_pow2_values();
    if i > 0 && length_base(i) > len {
        lemma_length_index(len, i - 1);
    }
}

proof fn lemma_dist_index(dist: nat, i: int)
    requires
        1 <= dist <= 32768,
        0 <= i <= 29,
        i < 29 ==> dist < dist_base(i + 1),
    ensures
        ({
            let k = dist_index(dist, i);
            0 <= k <= i && dist_base(k) <= dist < dist_base(k) + pow2(dist_extra(k))
        }),
    decreases i,
{
    lemma_dist_codes(i);
    lemma_pow2_values();
    if i > 0 && dist_base(i) > dist {
        lemma_dist_index(dist, i - 1);
    }
}

/// A length is its code's smallest length plus its extra value, which fits
/// in the extra bits.
pub proof fn lengths_roundtrip(len: nat)
    requires
        3 <= len <= 258,
    ensures
        ({
            let c = coded_length(len);
            &&& c.index < 29
            &&& c.extra_bits == length_extra(c.index as int)
            &&& c.extra_bits <= 5
            &&& c.extra < pow2(c.extra_bits as nat)
            &&& length_base(c.index as int) + c.extra == len
        }),
{
    lemma_length_index(len, 28);
    lemma_length_codes(length_index(len, 28));
}

/// A distance is its code's smallest distance plus its extra value, which
/// fits in the extra bits.
pub proof fn dists_roundtrip(dist: nat)
    requires
        1 <= dist <= 32768,
    ensures
        ({
            let c = coded_dist(dist);
            &&& c.index < 30
            &&& c.extra_bits == dist_extra(c.index as int)
            &&& c.extra_bits <= 13
            &&& c.extra < pow2(c.extra_bits as nat)
            &&& dist_base(c.index as int) + c.extra == dist
        }),
{
    lemma_dist_index(dist, 29);
    lemma_dist_codes(dist_index(dist, 29));
}

/// Length 3..=258 -> index into the length codes (symbol = 257 + index).
pub fn length_code(len: usize) -> (r: Coded)
    requires
        3 <= len <= 258,
    ensures
        r == coded_length(len as nat),
{
    proof {
        lengths_roundtrip(len as nat);
    }
    let mut i: usize = 28;
    while i > 0 && LENGTH_BASE[i] as usize > len
        invariant
            i <= 28,
            length_index(len as nat, 28) == length_index(len as nat, i as int),
        decreases i,
    {
        reveal(length_base);
        i = i - 1;
    }
    reveal(length_base);
    reveal(length_extra);
    Coded {
        index: i,
        extra: (len - LENGTH_BASE[i] as usize) as u32,
        extra_bits: LENGTH_EXTRA[i] as u32,
    }
}

/// Distance 1..=32768 -> distance code.
pub fn dist_code(dist: usize) -> (r: Coded)
    requires
        1 <= dist <= 32768,
    ensures
        r == coded_dist(dist as nat),
{
    proof {
        dists_roundtrip(dist as nat);
    }
    let mut i: usize = 29;
    while i > 0 && DIST_BASE[i] as usize > dist
        invariant
            i <= 29,
            dist_index(dist as nat, 29) == dist_index(dist as nat, i as int),
        decreases i,
    {
        reveal(dist_base);
        i = i - 1;
    }
    reveal(dist_base);
    reveal(dist_extra);
    Coded {
        index: i,
        extra: (dist - DIST_BASE[i] as usize) as u32,
        extra_bits: DIST_EXTRA[i] as u32,
    }
}

/// Code lengths of the fixed literal/length code.
pub open spec fn fixed_litlen() -> Seq<u8> {
    Seq::new(
        288,
        |i: int|
            if i < 144 {
                8u8
            } else if i < 256 {
                9u8
            } else if i < 280 {
                7u8
            } else {
                8u8
            },
    )
}

/// Code lengths of the fixed distance code.
pub open spec fn fixed_dist() -> Seq<u8> {
    Seq::new(30, |i: int| 5u8)
}

/// Code lengths of the fixed literal/length code (block type 1).
pub fn fixed_litlen_lengths() -> (r: [u8; 288])
    ensures
        r@ == fixed_litlen(),
{
    let mut l: [u8; 288] = [8;288];
    let mut i: usize = 0;
    while i < 288
        invariant
            i <= 288,
            forall|j: int| 0 <= j < i ==> #[trigger] l@[j] == fixed_litlen()[j],
        decreases 288 - i,
    {
        l[i] = if i < 144 {
            8
        } else if i < 256 {
            9
        } else if i < 280 {
            7
        } else {
            8
        };
        i = i + 1;
    }
    assert(l@ =~= fixed_litlen());
    l
}

/// Code lengths of the fixed distance code: 5 bits each.
pub fn fixed_dist_lengths() -> (r: [u8; 30])
    ensures
        r@ == fixed_dist(),
{
    let mut l: [u8; 30] = [0;30];
    let mut i: usize = 0;
    while i < 30
        invariant
            i <= 30,
            forall|j: int| 0 <= j < i ==> #[trigger] l@[j] == 5,
        decreases 30 - i,
    {
        l[i] = 5;
        i = i + 1;
    }
    assert(l@ =~= fixed_dist());
    l
}

proof fn lemma_slots_run(s: Seq<u8>, n: nat, c: u8)
    requires
        n <= s.len(),
        forall|i: int| s.len() - n <= i < s.len() ==> #[trigger] s[i] == c,
    ensures
        slots(s) == slots(s.take(s.len() - n)) + n * slot_share(c),
    decreases n,
{
    let x = slot_share(c);
    if n == 0 {
        assert(s.take(s.len() as int) =~= s);
        assert(0 * x == 0);
    } else {
        let t = s.drop_last();
        assert forall|i: int| t.len() - (n - 1) <= i < t.len() implies #[trigger] t[i] == c by {
            assert(s[i] == c);
        }
        lemma_slots_run(t, (n - 1) as nat, c);
        assert(t.take(t.len() - (n - 1)) =~= s.take(s.len() - n));
        assert(s[s.len() - 1] == c);
        assert((n - 1) * x + x == n * x) by (nonlinear_arith);
    }
}

/// The fixed codes are usable.
pub proof fn lemma_fixed_ok()
    ensures
        lengths_ok(fixed_litlen()),
        lengths_ok(fixed_dist()),
{
    lemma_pow2_values();
    let s = fixed_litlen();
    lemma_slots_run(s, 8, 8);
    let a = s.take(280);
    lemma_slots_run(a, 24, 7);
    let b = a.take(256);
    lemma_slots_run(b, 112, 9);
    let c = b.take(144);
    lemma_slots_run(c, 144, 8);
    assert(c.take(0) =~= Seq::<u8>::empty());
    let d = fixed_dist();
    lemma_slots_run(d, 30, 5);
    assert(d.take(0) =~= Seq::<u8>::empty());
}

} // verus!
