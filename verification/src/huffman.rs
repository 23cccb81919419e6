//! Huffman coding: short codes for common symbols, long codes for rare ones.
//!
//! Three steps, each reusable by later codecs (Deflate uses all of them):
//!
//! 1. [`code_lengths`]: from symbol counts, decide how many bits each
//!    symbol gets. This is the actual Huffman algorithm, plus a length limit.
//! 2. [`canonical_codes`]: turn lengths into concrete bit patterns. With
//!    "canonical" codes the lengths alone define the codes, so an archive
//!    stores only the lengths.
//! 3. [`Encoder`] / [`Decoder`]: write and read symbols using those codes.
//!    The decoder is table-driven: one lookup per symbol, no tree walking.
use crate::bits::bits_of;
use crate::bits::lemma_bits_of_len;
use crate::bits::lemma_bits_of_split;
use crate::bits::lemma_bits_of_value;
use crate::bits::lemma_value_of_bits;
use crate::bits::zeros;
use crate::bits::BitReader;
use crate::bits::BitWriter;
use crate::error::Error;
use crate::nums::lemma_pow2_le;
use crate::nums::lemma_pow2_values;
use crate::nums::lemma_split_pow2;
use crate::nums::two_to;
use vstd::arithmetic::power2::lemma_pow2_adds;
use vstd::arithmetic::power2::lemma_pow2_pos;
use vstd::arithmetic::power2::lemma_pow2_unfold;
use vstd::arithmetic::power2::pow2;
use vstd::prelude::*;

pub mod canonical;
pub mod lengths;
pub mod optimal;

pub use crate::huffman::lengths::code_lengths;



verus! {

/// Longest code allowed. Deflate uses 15, and so do we, so our tables are
/// Deflate-compatible and the decode table stays small (2^15 entries).
pub const MAX_CODE_LEN: u32 = 15;

/// How many symbols have codes of `len` bits.
pub open spec fn count_len(lengths: Seq<u8>, len: nat) -> nat
    decreases lengths.len(),
{
    if lengths.len() == 0 {
        0
    } else {
        count_len(lengths.drop_last(), len) + if lengths.last() == len {
            1nat
        } else {
            0nat
        }
    }
}

/// One past the last code of `len` bits: twice that of the codes one bit
/// shorter, and the codes of this length.
pub open spec fn codes_end(lengths: Seq<u8>, len: nat) -> nat
    decreases len,
{
    if len == 0 {
        0
    } else {
        2 * codes_end(lengths, (len - 1) as nat) + count_len(lengths, len)
    }
}

/// The canonical code of a symbol as a number (the algorithm in RFC 1951
/// section 3.2.2). Codes of the same length are consecutive in symbol
/// order, and shorter codes come before longer ones.
pub open spec fn code_of(lengths: Seq<u8>, symbol: int) -> nat {
    let len = lengths[symbol] as nat;
    if len == 0 {
        0
    } else {
        2 * codes_end(lengths, (len - 1) as nat) + count_len(lengths.take(symbol), len)
    }
}

/// The codes fit in 32 bits.
pub open spec fn codes_fit(lengths: Seq<u8>) -> bool {
    forall|i: int|
        0 <= i < lengths.len() && #[trigger] lengths[i] > 0 ==> codes_end(
            lengths,
            lengths[i] as nat,
        ) <= u32::MAX
}

/// The low `n` bits of `v`, highest first.
pub open spec fn msb_bits(v: nat, n: nat) -> Seq<bool> {
    bits_of(v, n).reverse()
}

/// The code of a symbol as it is written.
pub open spec fn code_bits(lengths: Seq<u8>, symbol: int) -> Seq<bool> {
    msb_bits(code_of(lengths, symbol), lengths[symbol] as nat)
}

/// How much of the code space the lengths take up, in units of 15-bit
/// codes.
pub open spec fn slots(lengths: Seq<u8>) -> nat
    decreases lengths.len(),
{
    if lengths.len() == 0 {
        0
    } else {
        slots(lengths.drop_last()) + slot_share(lengths.last())
    }
}

/// The share of one symbol.
pub open spec fn slot_share(len: u8) -> nat {
    if 0 < len <= 15 {
        pow2((15 - len) as nat)
    } else {
        0
    }
}

/// Every length is within the limit.
pub open spec fn lengths_small(lengths: Seq<u8>) -> bool {
    forall|i: int| 0 <= i < lengths.len() ==> #[trigger] lengths[i] <= 15
}

/// The lengths describe a usable prefix code.
pub open spec fn lengths_ok(lengths: Seq<u8>) -> bool {
    lengths_small(lengths) && slots(lengths) <= 32768
}

/// What is wrong with lengths, if anything.
pub open spec fn check(lengths: Seq<u8>) -> Result<(), Error> {
    if !lengths_small(lengths) {
        Err(Error::Corrupt("huffman code length above 15"))
    } else if slots(lengths) > 32768 {
        Err(Error::Corrupt("huffman code lengths over-subscribed"))
    } else {
        Ok(())
    }
}

/// The first symbol, of the first `n`, whose code `s` starts with; bits
/// past the end of `s` count as 0.
pub open spec fn find_symbol(lengths: Seq<u8>, s: Seq<bool>, n: nat) -> Option<nat>
    decreases n,
{
    if n == 0 {
        None
    } else {
        match find_symbol(lengths, s, (n - 1) as nat) {
            Some(t) => Some(t),
            None => if starts_with(lengths, s, n - 1) {
                Some((n - 1) as nat)
            } else {
                None
            },
        }
    }
}

/// `s`, continued with zeros, starts with the code of `symbol`.
pub open spec fn starts_with(lengths: Seq<u8>, s: Seq<bool>, symbol: int) -> bool {
    lengths[symbol] > 0 && code_bits(lengths, symbol) == (s + zeros(15)).take(
        lengths[symbol] as int,
    )
}

/// Reading a symbol from `s`.
#[verifier::opaque]
pub open spec fn take_symbol(lengths: Seq<u8>, s: Seq<bool>) -> Result<(nat, Seq<bool>), Error> {
    match find_symbol(lengths, s, lengths.len()) {
        None => Err(Error::Corrupt("invalid huffman code")),
        Some(t) => if s.len() < lengths[t as int] {
            Err(Error::UnexpectedEof)
        } else {
            Ok((t, s.skip(lengths[t as int] as int)))
        },
    }
}

// Canonical codes are a prefix code.

proof fn lemma_count_mono(lengths: Seq<u8>, len: nat, n: int)
    requires
        0 <= n < lengths.len(),
    ensures
        count_len(lengths.take(n), len) + (if lengths[n] == len {
            1nat
        } else {
            0nat
        }) <= count_len(lengths, len),
    decreases lengths.len(),
{
    if n == lengths.len() - 1 {
        assert(lengths.take(n) =~= lengths.drop_last());
    } else {
        lemma_count_mono(lengths.drop_last(), len, n);
        assert(lengths.drop_last().take(n) =~= lengths.take(n));
    }
}

/// Symbols of one length have different codes.
proof fn lemma_count_strict(lengths: Seq<u8>, len: nat, a: int, b: int)
    requires
        0 <= a < b <= lengths.len(),
        lengths[a] == len,
    ensures
        count_len(lengths.take(a), len) < count_len(lengths.take(b), len),
    decreases b,
{
    let t = lengths.take(b);
    assert(t.take(a) =~= lengths.take(a));
    lemma_count_mono(t, len, a);
}

/// A code lies below the end of the codes of its length.
pub proof fn lemma_code_below_end(lengths: Seq<u8>, symbol: int)
    requires
        0 <= symbol < lengths.len(),
        lengths[symbol] > 0,
    ensures
        code_of(lengths, symbol) < codes_end(lengths, lengths[symbol] as nat),
{
    lemma_count_mono(lengths, lengths[symbol] as nat, symbol);
}

/// Longer codes start behind the shorter ones.
proof fn lemma_end_grows(lengths: Seq<u8>, a: nat, b: nat)
    requires
        a <= b,
    ensures
        codes_end(lengths, b) >= codes_end(lengths, a) * pow2((b - a) as nat),
    decreases b - a,
{
    lemma_pow2_values();
    if a == b {
        assert(codes_end(lengths, a) * pow2(0) == codes_end(lengths, a)) by (nonlinear_arith)
            requires
                pow2(0) == 1,
        ;
    } else {
        let m = (b - 1) as nat;
        lemma_end_grows(lengths, a, m);
        lemma_pow2_unfold((b - a) as nat);
        let e = codes_end(lengths, a);
        let p = pow2((m - a) as nat);
        assert(e * (2 * p) == 2 * (e * p)) by (nonlinear_arith);
        assert(pow2((b - a) as nat) == 2 * p);
    }
}

proof fn lemma_end_push(lengths: Seq<u8>, len: nat)
    requires
        lengths.len() > 0,
    ensures
        codes_end(lengths, len) == codes_end(lengths.drop_last(), len) + if 0 < lengths.last()
            <= len {
            pow2((len - lengths.last()) as nat)
        } else {
            0
        },
    decreases len,
{
    lemma_pow2_values();
    if len > 0 {
        let m = (len - 1) as nat;
        lemma_end_push(lengths, m);
        let x = lengths.last() as nat;
        if 0 < x <= m {
            lemma_pow2_unfold((len - x) as nat);
        }
    }
}

/// The code space taken up is where the 15-bit codes end.
pub proof fn lemma_slots_end(lengths: Seq<u8>)
    requires
        lengths_small(lengths),
    ensures
        slots(lengths) == codes_end(lengths, 15),
    decreases lengths.len(),
{
    if lengths.len() == 0 {
        lemma_no_codes(15);
        assert(lengths =~= Seq::<u8>::empty());
    } else {
        assert forall|i: int| 0 <= i < lengths.drop_last().len() implies #[trigger]
            lengths.drop_last()[i] <= 15 by {
            assert(lengths[i] <= 15);
        }
        lemma_slots_end(lengths.drop_last());
        lemma_end_push(lengths, 15);
        assert(lengths[lengths.len() - 1] <= 15);
    }
}

proof fn lemma_no_codes(len: nat)
    ensures
        codes_end(Seq::empty(), len) == 0,
    decreases len,
{
    if len > 0 {
        lemma_no_codes((len - 1) as nat);
    }
}

/// Codes of `len` bits fit in `len` bits.
pub proof fn lemma_end_fits(lengths: Seq<u8>, len: nat)
    requires
        lengths_ok(lengths),
        len <= 15,
    ensures
        codes_end(lengths, len) <= pow2(len),
{
    lemma_slots_end(lengths);
    lemma_end_grows(lengths, len, 15);
    lemma_pow2_values();
    lemma_pow2_adds(len, (15 - len) as nat);
    lemma_pow2_pos((15 - len) as nat);
    let p = pow2((15 - len) as nat);
    let e = codes_end(lengths, len);
    assert(e <= pow2(len)) by (nonlinear_arith)
        requires
            e * p <= pow2(len) * p,
            p > 0,
    ;
}

/// There are no codes of more than 15 bits.
pub proof fn lemma_end_beyond(lengths: Seq<u8>, len: nat)
    requires
        lengths_ok(lengths),
        len <= 32,
    ensures
        codes_end(lengths, len) <= pow2(len),
    decreases len,
{
    if len <= 15 {
        lemma_end_fits(lengths, len);
    } else {
        lemma_end_beyond(lengths, (len - 1) as nat);
        lemma_none_of(lengths, len);
        lemma_pow2_unfold(len);
    }
}

proof fn lemma_none_of(lengths: Seq<u8>, len: nat)
    requires
        lengths_small(lengths),
        len > 15,
    ensures
        count_len(lengths, len) == 0,
    decreases lengths.len(),
{
    if lengths.len() > 0 {
        assert forall|i: int| 0 <= i < lengths.drop_last().len() implies #[trigger]
            lengths.drop_last()[i] <= 15 by {
            assert(lengths[i] <= 15);
        }
        assert(lengths[lengths.len() - 1] <= 15);
        lemma_none_of(lengths.drop_last(), len);
    }
}

/// The first bits of a longer number, highest first.
proof fn lemma_msb_take(v: nat, m: nat, n: nat)
    ensures
        msb_bits(v, m + n).take(n as int) == msb_bits(v / pow2(m), n),
        msb_bits(v, n).len() == n,
{
    lemma_bits_of_split(v, m, n);
    lemma_bits_of_len(v % pow2(m), m);
    lemma_bits_of_len(v / pow2(m), n);
    lemma_bits_of_len(v, n);
    lemma_bits_of_len(v, m + n);
    let lo = bits_of(v % pow2(m), m);
    let hi = bits_of(v / pow2(m), n);
    assert((lo + hi).reverse().take(n as int) =~= hi.reverse());
}

proof fn lemma_msb_injective(a: nat, b: nat, n: nat)
    requires
        a < pow2(n),
        b < pow2(n),
        msb_bits(a, n) == msb_bits(b, n),
    ensures
        a == b,
{
    lemma_value_of_bits(a, n);
    lemma_value_of_bits(b, n);
    assert(bits_of(a, n) =~= msb_bits(a, n).reverse());
    assert(bits_of(b, n) =~= msb_bits(b, n).reverse());
}

/// No code is the start of another.
pub proof fn codes_are_prefix_free(lengths: Seq<u8>, a: int, b: int)
    requires
        lengths_ok(lengths),
        0 <= a < lengths.len(),
        0 <= b < lengths.len(),
        a != b,
        0 < lengths[a] <= lengths[b],
    ensures
        code_bits(lengths, b).take(lengths[a] as int) != code_bits(lengths, a),
{
    let la = lengths[a] as nat;
    let lb = lengths[b] as nat;
    let ca = code_of(lengths, a);
    let cb = code_of(lengths, b);
    assert(lengths[a] <= 15 && lengths[b] <= 15);
    lemma_code_below_end(lengths, a);
    lemma_code_below_end(lengths, b);
    lemma_end_fits(lengths, la);
    lemma_end_fits(lengths, lb);
    let d = (lb - la) as nat;
    lemma_msb_take(cb, d, la);
    lemma_split_pow2(cb, d, la);
    if code_bits(lengths, b).take(la as int) == code_bits(lengths, a) {
        lemma_msb_injective(cb / pow2(d), ca, la);
        if la == lb {
            lemma_pow2_values();
            assert(cb / pow2(0) == cb);
            if a < b {
                lemma_count_strict(lengths, la, a, b);
            } else {
                lemma_count_strict(lengths, la, b, a);
            }
        } else {
            let m = (lb - 1) as nat;
            lemma_end_grows(lengths, la, m);
            lemma_pow2_unfold(d);
            let p = pow2((m - la) as nat);
            assert(pow2(d) == 2 * p);
            let e = codes_end(lengths, la);
            assert(cb >= e * pow2(d)) by (nonlinear_arith)
                requires
                    cb >= 2 * codes_end(lengths, m),
                    codes_end(lengths, m) >= e * p,
                    pow2(d) == 2 * p,
            ;
            lemma_pow2_pos(d);
            assert(cb / pow2(d) >= e) by (nonlinear_arith)
                requires
                    cb >= e * pow2(d),
                    pow2(d) > 0,
                    cb == cb % pow2(d) + (cb / pow2(d)) * pow2(d),
                    cb % pow2(d) < pow2(d),
            ;
        }
    }
}

/// At most one symbol's code starts `s`.
proof fn lemma_one_symbol(lengths: Seq<u8>, s: Seq<bool>, a: int, b: int)
    requires
        lengths_ok(lengths),
        0 <= a < lengths.len(),
        0 <= b < lengths.len(),
        starts_with(lengths, s, a),
        starts_with(lengths, s, b),
    ensures
        a == b,
{
    if a != b {
        let t = s + zeros(15);
        assert(lengths[a] <= 15 && lengths[b] <= 15);
        if lengths[a] <= lengths[b] {
            codes_are_prefix_free(lengths, a, b);
            assert(t.take(lengths[b] as int).take(lengths[a] as int) =~= t.take(
                lengths[a] as int,
            ));
        } else {
            codes_are_prefix_free(lengths, b, a);
            assert(t.take(lengths[a] as int).take(lengths[b] as int) =~= t.take(
                lengths[b] as int,
            ));
        }
    }
}

pub proof fn lemma_find_symbol(lengths: Seq<u8>, s: Seq<bool>, n: nat)
    ensures
        match find_symbol(lengths, s, n) {
            Some(t) => t < n && starts_with(lengths, s, t as int),
            None => forall|t: int| 0 <= t < n ==> !starts_with(lengths, s, t),
        },
    decreases n,
{
    if n > 0 {
        lemma_find_symbol(lengths, s, (n - 1) as nat);
    }
}

/// The symbol whose code starts `s` is the one that is read.
proof fn lemma_find_is(lengths: Seq<u8>, s: Seq<bool>, t: int)
    requires
        lengths_ok(lengths),
        0 <= t < lengths.len(),
        starts_with(lengths, s, t),
    ensures
        find_symbol(lengths, s, lengths.len()) == Some(t as nat),
{
    lemma_find_symbol(lengths, s, lengths.len());
    match find_symbol(lengths, s, lengths.len()) {
        Some(u) => lemma_one_symbol(lengths, s, t, u as int),
        None => {},
    }
}

/// A symbol that was written is read again, whatever follows it.
pub proof fn symbols_roundtrip(lengths: Seq<u8>, symbol: int, rest: Seq<bool>)
    requires
        lengths_ok(lengths),
        0 <= symbol < lengths.len(),
        lengths[symbol] > 0,
    ensures
        take_symbol(lengths, code_bits(lengths, symbol) + rest) == Ok::<(nat, Seq<bool>), Error>(
            (symbol as nat, rest),
        ),
        code_bits(lengths, symbol).len() == lengths[symbol],
{
    reveal(take_symbol);
    let len = lengths[symbol] as nat;
    let code = code_bits(lengths, symbol);
    lemma_bits_of_len(code_of(lengths, symbol), len);
    assert((code + rest + zeros(15)).take(len as int) =~= code);
    lemma_find_is(lengths, code + rest, symbol);
    assert((code + rest).skip(len as int) =~= rest);
}

/// What is read is shorter than what was there.
pub proof fn lemma_take_symbol(lengths: Seq<u8>, s: Seq<bool>)
    ensures
        take_symbol(lengths, s) matches Ok((t, rest)) ==> {
            &&& t < lengths.len()
            &&& rest.len() < s.len()
            &&& lengths[t as int] > 0
            &&& rest.len() == s.len() - lengths[t as int]
        },
{
    reveal(take_symbol);
    lemma_find_symbol(lengths, s, lengths.len());
}

/// Assign canonical codes from lengths.
///
/// Returned codes are plain numbers, to be sent most significant bit first.
/// Symbols with length 0 get 0.
pub fn canonical_codes(lengths: &[u8]) -> (r: Vec<u32>)
    requires
        codes_fit(lengths@),
    ensures
        r@.len() == lengths@.len(),
        forall|i: int| 0 <= i < r@.len() ==> #[trigger] r@[i] == code_of(lengths@, i),
{
    let ghost all = lengths@;
    // How many codes of each length, among the first `i`.
    let mut per_len: Vec<u32> = vec![0;256];
    let mut max: usize = 0;
    let mut i: usize = 0;
    while i < lengths.len()
        invariant
            all == lengths@,
            codes_fit(all),
            i <= all.len(),
            max < 256,
            max > 0 ==> codes_end(all, max as nat) <= u32::MAX,
            forall|j: int| 0 <= j < i ==> #[trigger] all[j] <= max,
            per_len@.len() == 256,
            forall|l: int|
                0 < l < 256 ==> #[trigger] per_len@[l] == count_len(all.take(i as int), l as nat),
            per_len@[0] == 0,
        decreases all.len() - i,
    {
        let l: usize = lengths[i] as usize;
        let ghost before = per_len@;
        proof {
            assert(all.take(i + 1).drop_last() =~= all.take(i as int));
            if l > 0 {
                lemma_count_mono(all, l as nat, i as int);
                assert(codes_end(all, all[i as int] as nat) <= u32::MAX);
            }
        }
        if l > 0 {
            per_len[l] = per_len[l] + 1;
        }
        if l > max {
            max = l;
        }
        i = i + 1;
        proof {
            assert forall|k: int| 0 < k < 256 implies #[trigger] per_len@[k] == count_len(
                all.take(i as int),
                k as nat,
            ) by {
                assert(before[k] == count_len(all.take(i - 1), k as nat));
            }
        }
    }
    assert(all.take(i as int) =~= all);
    let mut next_code: Vec<u32> = vec![0;256];
    let mut len: usize = 1;
    let mut end: u32 = 0;
    while len <= max
        invariant
            all == lengths@,
            max < 256,
            max > 0 ==> codes_end(all, max as nat) <= u32::MAX,
            1 <= len <= max + 1,
            per_len@.len() == 256,
            next_code@.len() == 256,
            forall|l: int| 0 < l < 256 ==> #[trigger] per_len@[l] == count_len(all, l as nat),
            end == codes_end(all, (len - 1) as nat),
            forall|l: int|
                0 < l < len ==> #[trigger] next_code@[l] == 2 * codes_end(all, (l - 1) as nat),
        decreases max + 1 - len,
    {
        proof {
            lemma_end_mono(all, len as nat, max as nat);
        }
        next_code[len] = end * 2;
        end = end * 2 + per_len[len];
        len = len + 1;
    }
    let mut out: Vec<u32> = Vec::with_capacity(lengths.len());
    let mut i: usize = 0;
    assert(all.take(0) =~= Seq::<u8>::empty());
    while i < lengths.len()
        invariant
            all == lengths@,
            codes_fit(all),
            i <= all.len(),
            out@.len() == i,
            next_code@.len() == 256,
            max < 256,
            forall|j: int| 0 <= j < all.len() ==> #[trigger] all[j] <= max,
            forall|l: int|
                0 < l <= max ==> #[trigger] next_code@[l] == 2 * codes_end(all, (l - 1) as nat)
                    + count_len(all.take(i as int), l as nat),
            forall|j: int| 0 <= j < i ==> #[trigger] out@[j] == code_of(all, j),
        decreases all.len() - i,
    {
        let l: usize = lengths[i] as usize;
        let ghost before = next_code@;
        proof {
            assert(all.take(i + 1).drop_last() =~= all.take(i as int));
        }
        if l == 0 {
            out.push(0);
        } else {
            let c: u32 = next_code[l];
            proof {
                lemma_code_below_end(all, i as int);
                assert(codes_end(all, all[i as int] as nat) <= u32::MAX);
            }
            next_code[l] = c + 1;
            out.push(c);
        }
        i = i + 1;
        proof {
            assert forall|k: int| 0 < k <= max implies #[trigger] next_code@[k] == 2 * codes_end(
                all,
                (k - 1) as nat,
            ) + count_len(all.take(i as int), k as nat) by {
                assert(before[k] == 2 * codes_end(all, (k - 1) as nat) + count_len(
                    all.take(i - 1),
                    k as nat,
                ));
            }
        }
    }
    out
}

/// Valid lengths have codes that fit.
pub proof fn lemma_codes_fit(lengths: Seq<u8>)
    requires
        lengths_ok(lengths),
    ensures
        codes_fit(lengths),
{
    lemma_pow2_values();
    assert forall|i: int|
        0 <= i < lengths.len() && #[trigger] lengths[i] > 0 implies codes_end(
        lengths,
        lengths[i] as nat,
    ) <= u32::MAX by {
        lemma_end_fits(lengths, lengths[i] as nat);
        lemma_pow2_le(lengths[i] as nat, 15);
    }
}

/// Shorter codes end before longer ones.
proof fn lemma_end_mono(lengths: Seq<u8>, a: nat, b: nat)
    requires
        a <= b,
    ensures
        codes_end(lengths, a) <= codes_end(lengths, b),
    decreases b - a,
{
    if a < b {
        lemma_end_mono(lengths, a, (b - 1) as nat);
    }
}

/// Reverse the low `len` bits of `code`.
///
/// Huffman codes are defined most-significant-bit first, but our bit stream
/// is LSB-first (like Deflate), so codes are stored reversed.
fn reverse_bits(code: u32, len: u8) -> (r: u32)
    requires
        len <= 32,
    ensures
        r < pow2(len as nat),
        bits_of(r as nat, len as nat) == msb_bits(code as nat, len as nat),
{
    let mut r: u64 = 0;
    let mut rest: u32 = code;
    let mut k: u8 = 0;
    proof {
        lemma_pow2_values();
        assert(msb_bits(code as nat, 0) =~= Seq::<bool>::empty());
    }
    while k < len
        invariant
            k <= len <= 32,
            r < pow2(k as nat),
            rest == code as nat / pow2(k as nat),
            bits_of(r as nat, k as nat) == msb_bits(code as nat, k as nat),
        decreases len - k,
    {
        let ghost kn = k as nat;
        let ghost v = code as nat;
        let b: u32 = rest % 2;
        proof {
            lemma_pow2_values();
            lemma_pow2_le(kn, 32);
            lemma_pow2_unfold(kn + 1);
            lemma_pow2_pos(kn);
            vstd::arithmetic::div_mod::lemma_div_denominator(v as int, pow2(kn) as int, 2);
            let next = 2 * r as nat + b as nat;
            assert(next / 2 == r && next % 2 == b);
            assert(bits_of(next, kn + 1) == seq![b == 1] + bits_of(r as nat, kn));
            lemma_bits_of_split(v, kn, 1);
            lemma_bits_of_len(v, kn);
            let one = bits_of(v / pow2(kn), 1);
            reveal_with_fuel(bits_of, 2);
            assert(one =~= seq![b == 1]);
            assert((bits_of(v, kn) + one).reverse() =~= one + bits_of(v, kn).reverse());
        }
        r = 2 * r + b as u64;
        rest = rest / 2;
        k = k + 1;
    }
    proof {
        lemma_pow2_values();
        lemma_pow2_le(len as nat, 32);
    }
    r as u32
}

/// Check the lengths describe a usable prefix code (Kraft sum <= 1).
fn validate(lengths: &[u8]) -> (r: Result<(), Error>)
    ensures
        r == check(lengths@),
{
    let ghost all = lengths@;
    let mut taken: u64 = 0;
    let mut i: usize = 0;
    while i < lengths.len()
        invariant
            all == lengths@,
            i <= all.len(),
            taken <= 65536,
            taken <= 32768 ==> taken == slots(all.take(i as int)),
            taken > 32768 ==> slots(all.take(i as int)) > 32768,
            forall|j: int| 0 <= j < i ==> #[trigger] all[j] <= 15,
        decreases all.len() - i,
    {
        let l: u8 = lengths[i];
        if l > 15 {
            assert(!lengths_small(all));
            return Err(Error::Corrupt("huffman code length above 15"));
        }
        proof {
            assert(all.take(i + 1).drop_last() =~= all.take(i as int));
            lemma_pow2_values();
            if l > 0 {
                lemma_pow2_le((15 - l) as nat, 15);
            }
        }
        if l > 0 && taken <= 32768 {
            taken = taken + two_to(MAX_CODE_LEN - l as u32);
        }
        i = i + 1;
    }
    assert(all.take(i as int) =~= all);
    if taken > 32768 {
        return Err(Error::Corrupt("huffman code lengths over-subscribed"));
    }
    Ok(())
}

/// Writes symbols with a fixed set of Huffman codes.
#[derive(Clone)]
pub struct Encoder {
    /// Per symbol: (bit-reversed code, length).
    codes: Vec<(u32, u8)>,
    lengths: Ghost<Seq<u8>>,
}

impl Encoder {
    /// The code lengths.
    pub closed spec fn lengths(&self) -> Seq<u8> {
        self.lengths@
    }

    /// The codes are those of the lengths.
    pub closed spec fn wf(&self) -> bool {
        let lengths = self.lengths@;
        &&& self.codes@.len() == lengths.len()
        &&& forall|i: int|
            0 <= i < lengths.len() ==> {
                &&& (#[trigger] self.codes@[i]).1 == lengths[i]
                &&& lengths[i] <= 32
                &&& self.codes@[i].0 < pow2(lengths[i] as nat)
                &&& bits_of(self.codes@[i].0 as nat, lengths[i] as nat) == code_bits(lengths, i)
            }
    }

    pub fn from_lengths(lengths: &[u8]) -> (r: Self)
        requires
            codes_fit(lengths@),
            forall|i: int| 0 <= i < lengths@.len() ==> #[trigger] lengths@[i] <= 32,
        ensures
            r.wf(),
            r.lengths() == lengths@,
    {
        let codes = canonical_codes(lengths);
        let mut out: Vec<(u32, u8)> = Vec::with_capacity(lengths.len());
        let mut i: usize = 0;
        while i < lengths.len()
            invariant
                i <= lengths@.len(),
                codes@.len() == lengths@.len(),
                out@.len() == i,
                forall|j: int|
                    0 <= j < codes@.len() ==> #[trigger] codes@[j] == code_of(lengths@, j),
                forall|j: int| 0 <= j < lengths@.len() ==> #[trigger] lengths@[j] <= 32,
                forall|j: int|
                    0 <= j < i ==> {
                        &&& (#[trigger] out@[j]).1 == lengths@[j]
                        &&& out@[j].0 < pow2(lengths@[j] as nat)
                        &&& bits_of(out@[j].0 as nat, lengths@[j] as nat) == code_bits(
                            lengths@,
                            j,
                        )
                    },
            decreases lengths@.len() - i,
        {
            let len: u8 = lengths[i];
            out.push((reverse_bits(codes[i], len), len));
            i = i + 1;
        }
        Self { codes: out, lengths: Ghost(lengths@) }
    }

    /// Write `symbol`, which must have a code.
    pub fn write(&self, w: &mut BitWriter, symbol: usize)
        requires
            self.wf(),
            old(w).wf(),
            symbol < self.lengths().len(),
            self.lengths()[symbol as int] > 0,
        ensures
            final(w).wf(),
            final(w)@ == old(w)@ + code_bits(self.lengths(), symbol as int),
    {
        let (code, len) = self.codes[symbol];
        w.write_bits(code, len as u32);
    }

    /// Bits needed to encode `symbol`.
    pub fn len(&self, symbol: usize) -> (r: u8)
        requires
            self.wf(),
            symbol < self.lengths().len(),
        ensures
            r == self.lengths()[symbol as int],
    {
        self.codes[symbol].1
    }
}

/// The `bits` bits of the number `i` start with the code of symbol `t`.
spec fn indexes(lengths: Seq<u8>, bits: nat, i: nat, t: int) -> bool {
    lengths[t] > 0 && code_bits(lengths, t) == bits_of(i, bits).take(lengths[t] as int)
}

/// Table entry `i` holds the symbol whose code it starts with, among the
/// first `n`; 0 in the low bits if there is none.
spec fn entry_ok(lengths: Seq<u8>, bits: nat, n: int, i: nat, e: u16) -> bool {
    &&& e % 16 == 0 ==> forall|t: int| 0 <= t < n ==> !#[trigger] indexes(lengths, bits, i, t)
    &&& e % 16 != 0 ==> {
        &&& e / 16 < n
        &&& lengths[e as int / 16] == e % 16
        &&& indexes(lengths, bits, i, e as int / 16)
    }
}

spec fn table_ok(lengths: Seq<u8>, bits: nat, n: int, table: Seq<u16>) -> bool {
    &&& table.len() == pow2(bits)
    &&& forall|i: int|
        0 <= i < table.len() ==> entry_ok(lengths, bits, n, i as nat, #[trigger] table[i])
}

/// A number starts with a code if its low bits are the reversed code.
proof fn lemma_indexes(lengths: Seq<u8>, bits: nat, i: nat, t: int, rev: nat)
    requires
        lengths[t] > 0,
        lengths[t] <= bits,
        rev < pow2(lengths[t] as nat),
        bits_of(rev, lengths[t] as nat) == code_bits(lengths, t),
    ensures
        indexes(lengths, bits, i, t) == (i % pow2(lengths[t] as nat) == rev),
{
    let len = lengths[t] as nat;
    lemma_bits_of_split(i, len, (bits - len) as nat);
    lemma_pow2_pos(len);
    let low = i % pow2(len);
    lemma_bits_of_len(low, len);
    assert(len + (bits - len) as nat == bits);
    assert(bits_of(i, bits).take(len as int) =~= bits_of(low, len));
    lemma_value_of_bits(low, len);
    lemma_value_of_bits(rev, len);
}

/// Reads symbols with a lookup table.
///
/// The table has one entry for every possible `max_len`-bit input. For a
/// symbol with a `len`-bit code, every entry whose low `len` bits equal the
/// (reversed) code points to it, since the remaining bits belong to the
/// following symbols. Decoding is then: peek `max_len` bits, look up, consume
/// `len` bits.
#[derive(Clone)]
pub struct Decoder {
    /// `symbol << 4 | len`; `len == 0` marks bit patterns that are not a code.
    table: Vec<u16>,
    bits: u32,
    lengths: Ghost<Seq<u8>>,
}

impl Decoder {
    /// The code lengths.
    pub closed spec fn lengths(&self) -> Seq<u8> {
        self.lengths@
    }

    /// The table is that of the lengths.
    pub closed spec fn wf(&self) -> bool {
        &&& 1 <= self.bits <= 15
        &&& lengths_ok(self.lengths@)
        &&& self.lengths@.len() <= 4096
        &&& forall|i: int|
            0 <= i < self.lengths@.len() ==> #[trigger] self.lengths@[i] <= self.bits
        &&& table_ok(
            self.lengths@,
            self.bits as nat,
            self.lengths@.len() as int,
            self.table@,
        )
    }

    pub fn from_lengths(lengths: &[u8]) -> (r: Result<Self, Error>)
        requires
            lengths@.len() <= 4096 || check(lengths@) is Err,
        ensures
            match check(lengths@) {
                Err(e) => r matches Err(f) && f == e,
                Ok(_) => r matches Ok(d) && d.wf() && d.lengths() == lengths@,
            },
    {
        match validate(lengths) {
            Err(e) => {
                return Err(e);
            },
            Ok(_) => {},
        }
        let ghost all = lengths@;
        let mut max: u8 = 1;
        let mut i: usize = 0;
        while i < lengths.len()
            invariant
                all == lengths@,
                lengths_small(all),
                i <= all.len(),
                1 <= max <= 15,
                forall|j: int| 0 <= j < i ==> #[trigger] all[j] <= max,
            decreases all.len() - i,
        {
            assert(all[i as int] <= 15);
            if lengths[i] > max {
                max = lengths[i];
            }
            i = i + 1;
        }
        let bits: u32 = max as u32;
        proof {
            lemma_pow2_values();
            lemma_pow2_le(bits as nat, 15);
            lemma_codes_fit(all);
        }
        let size: usize = two_to(bits) as usize;
        let mut table: Vec<u16> = vec![0;size];
        let codes = canonical_codes(lengths);
        let mut sym: usize = 0;
        while sym < lengths.len()
            invariant
                all == lengths@,
                lengths_ok(all),
                all.len() <= 4096,
                sym <= all.len(),
                codes@.len() == all.len(),
                forall|j: int| 0 <= j < codes@.len() ==> #[trigger] codes@[j] == code_of(all, j),
                forall|j: int| 0 <= j < all.len() ==> #[trigger] all[j] <= bits,
                1 <= bits <= 15,
                size == pow2(bits as nat),
                size <= 32768,
                table_ok(all, bits as nat, sym as int, table@),
            decreases all.len() - sym,
        {
            let len: u8 = lengths[sym];
            assert(all[sym as int] <= bits);
            let ghost before = table@;
            if len > 0 {
                let entry: u16 = sym as u16 * 16 + len as u16;
                assert(entry / 16 == sym && entry % 16 == len);
                proof {
                    lemma_pow2_le(len as nat, bits as nat);
                }
                let step: usize = two_to(len as u32) as usize;
                let rev: u32 = reverse_bits(codes[sym], len);
                let mut i: usize = rev as usize;
                proof {
                    assert forall|j: int| 0 <= j <= rev implies #[trigger] (j as nat % step as nat)
                        == j by {
                        vstd::arithmetic::div_mod::lemma_small_mod(j as nat, step as nat);
                    }
                    vstd::arithmetic::div_mod::lemma_small_mod(rev as nat, step as nat);
                }
                while i < size
                    invariant
                        size == pow2(bits as nat),
                        size <= 32768,
                        step == pow2(len as nat),
                        1 <= step <= size,
                        rev < step,
                        i <= size + step,
                        i as nat % step as nat == rev,
                        table@.len() == size,
                        before.len() == size,
                        forall|j: int|
                            0 <= j < size ==> #[trigger] table@[j] == if j < i && j as nat
                                % step as nat == rev {
                                entry
                            } else {
                                before[j]
                            },
                    decreases size + step - i,
                {
                    let ghost was = table@;
                    let ghost i0 = i as int;
                    table[i] = entry;
                    i = i + step;
                    proof {
                        vstd::arithmetic::div_mod::lemma_mod_add_multiples_vanish(
                            i0,
                            step as int,
                        );
                        assert forall|j: int| 0 <= j < size implies #[trigger] table@[j] == if j
                            < i && j as nat % step as nat == rev {
                            entry
                        } else {
                            before[j]
                        } by {
                            if j > i0 && j < i && j as nat % step as nat == rev {
                                lemma_between(i0 as nat, j as nat, step as nat);
                            }
                            assert(was[j] == if j < i0 && j as nat % step as nat == rev {
                                entry
                            } else {
                                before[j]
                            });
                        }
                    }
                }
                proof {
                    assert forall|j: int| 0 <= j < table@.len() implies entry_ok(
                        all,
                        bits as nat,
                        sym + 1,
                        j as nat,
                        #[trigger] table@[j],
                    ) by {
                        lemma_indexes(all, bits as nat, j as nat, sym as int, rev as nat);
                        assert(entry_ok(all, bits as nat, sym as int, j as nat, before[j]));
                    }
                }
            } else {
                proof {
                    assert forall|j: int| 0 <= j < table@.len() implies entry_ok(
                        all,
                        bits as nat,
                        sym + 1,
                        j as nat,
                        #[trigger] table@[j],
                    ) by {
                        assert(entry_ok(all, bits as nat, sym as int, j as nat, before[j]));
                    }
                }
            }
            sym = sym + 1;
        }
        Ok(Self { table, bits, lengths: Ghost(all) })
    }

    pub fn read(&self, r: &mut BitReader) -> (out: Result<usize, Error>)
        requires
            self.wf(),
            old(r).wf(),
        ensures
            final(r).wf(),
            final(r).source() == old(r).source(),
            match take_symbol(self.lengths(), old(r)@) {
                Ok((t, rest)) => out matches Ok(x) && x == t && final(r)@ == rest && t
                    < self.lengths().len(),
                Err(e) => out matches Err(f) && f == e && final(r)@ == old(r)@,
            },
    {
        reveal(take_symbol);
        let ghost s = r@;
        let ghost all = self.lengths@;
        let ghost bits = self.bits as nat;
        let index: u32 = r.peek_bits(self.bits);
        let entry: u16 = self.table[index as usize];
        proof {
            let t = (s + zeros(bits)).take(bits as int);
            lemma_bits_of_value(t);
            assert(bits_of(index as nat, bits) == t);
            assert forall|u: int| 0 <= u < all.len() implies #[trigger] indexes(
                all,
                bits,
                index as nat,
                u,
            ) == starts_with(all, s, u) by {
                assert(all[u] <= self.bits);
                assert(t.take(all[u] as int) =~= (s + zeros(15)).take(all[u] as int));
            }
            assert(entry_ok(all, bits, all.len() as int, index as nat, self.table@[index as int]));
            lemma_find_symbol(all, s, all.len());
            if entry % 16 != 0 {
                lemma_find_is(all, s, entry as int / 16);
            } else if find_symbol(all, s, all.len()) is Some {
                let u = find_symbol(all, s, all.len())->0 as int;
                assert(indexes(all, bits, index as nat, u));
            }
        }
        let len: u32 = (entry % 16) as u32;
        if len == 0 {
            return Err(Error::Corrupt("invalid huffman code"));
        }
        match r.consume(len) {
            Err(e) => Err(e),
            Ok(_) => Ok((entry / 16) as usize),
        }
    }
}

/// Numbers with the same remainder are a whole step apart.
proof fn lemma_between(a: nat, b: nat, step: nat)
    requires
        step > 0,
        a < b,
        a % step == b % step,
    ensures
        b >= a + step,
{
    vstd::arithmetic::div_mod::lemma_fundamental_div_mod(a as int, step as int);
    vstd::arithmetic::div_mod::lemma_fundamental_div_mod(b as int, step as int);
    let x = a as int / step as int;
    let y = b as int / step as int;
    assert(b - a == step * (y - x)) by (nonlinear_arith)
        requires
            b - a == step * y - step * x,
    ;
    assert(y - x >= 1) by (nonlinear_arith)
        requires
            step * (y - x) > 0,
            step > 0,
    ;
    assert(step * (y - x) >= step) by (nonlinear_arith)
        requires
            y - x >= 1,
            step > 0,
    ;
}

} // verus!
