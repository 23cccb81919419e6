//! What canonical codes are, from symbol to symbol, and what is read of them.
use crate::bits::layout::bits_go_up;
use crate::bits::lemma_bits_of_len;
use crate::error::Error;
use crate::huffman::check;
use crate::huffman::code_bits;
use crate::huffman::code_of;
use crate::huffman::codes_end;
use crate::huffman::count_len;
use crate::huffman::find_symbol;
use crate::huffman::lemma_find_symbol;
use crate::huffman::lengths_ok;
use crate::huffman::lengths_small;
use crate::huffman::slots;
use crate::huffman::starts_with;
use crate::huffman::take_symbol;
use vstd::arithmetic::power2::lemma_pow2_unfold;
use vstd::arithmetic::power2::pow2;
use vstd::prelude::*;

verus! {

/// Where no symbol has a length, the count of that length stands still.
proof fn lemma_count_still(lengths: Seq<u8>, len: nat, a: int, b: int)
    requires
        0 <= a <= b <= lengths.len(),
        forall|i: int| a <= i < b ==> #[trigger] lengths[i] != len,
    ensures
        count_len(lengths.take(b), len) == count_len(lengths.take(a), len),
    decreases b - a,
{
    if a < b {
        lemma_count_still(lengths, len, a, b - 1);
        assert(lengths.take(b).drop_last() =~= lengths.take(b - 1));
        assert(lengths.take(b).last() == lengths[b - 1]);
    }
}

proof fn lemma_count_one(lengths: Seq<u8>, a: int)
    requires
        0 <= a < lengths.len(),
    ensures
        count_len(lengths.take(a + 1), lengths[a] as nat) == count_len(
            lengths.take(a),
            lengths[a] as nat,
        ) + 1,
{
    assert(lengths.take(a + 1).drop_last() =~= lengths.take(a));
    assert(lengths.take(a + 1).last() == lengths[a]);
}

/// Codes of the same length are consecutive in the order of their symbols.
pub proof fn codes_are_consecutive(lengths: Seq<u8>, a: int, b: int)
    requires
        0 <= a < b < lengths.len(),
        lengths[a] == lengths[b],
        lengths[a] > 0,
        forall|i: int| a < i < b ==> #[trigger] lengths[i] != lengths[a],
    ensures
        code_of(lengths, b) == code_of(lengths, a) + 1,
{
    lemma_count_one(lengths, a);
    lemma_count_still(lengths, lengths[a] as nat, a + 1, b);
}

/// The first code of the shortest length is 0.
pub proof fn first_code_is_zero(lengths: Seq<u8>, a: int)
    requires
        0 <= a < lengths.len(),
        lengths[a] > 0,
        forall|i: int| 0 <= i < a ==> #[trigger] lengths[i] != lengths[a],
        forall|i: int|
            0 <= i < lengths.len() ==> #[trigger] lengths[i] == 0 || lengths[i] >= lengths[a],
    ensures
        code_of(lengths, a) == 0,
{
    lemma_count_still(lengths, lengths[a] as nat, 0, a);
    assert(lengths.take(0).len() == 0);
    lemma_end_zero(lengths, (lengths[a] - 1) as nat);
}

proof fn lemma_end_zero(lengths: Seq<u8>, len: nat)
    requires
        forall|i: int|
            0 <= i < lengths.len() ==> #[trigger] lengths[i] == 0 || lengths[i] > len,
    ensures
        codes_end(lengths, len) == 0,
    decreases len,
{
    if len > 0 {
        lemma_end_zero(lengths, (len - 1) as nat);
        lemma_count_still(lengths, len, 0, lengths.len() as int);
        assert(lengths.take(lengths.len() as int) =~= lengths);
        assert(lengths.take(0).len() == 0);
    }
}

proof fn lemma_end_doubles(lengths: Seq<u8>, l: nat, m: nat)
    requires
        l <= m,
        forall|i: int|
            0 <= i < lengths.len() ==> !(l < #[trigger] lengths[i] <= m),
    ensures
        codes_end(lengths, m) == codes_end(lengths, l) * pow2((m - l) as nat),
    decreases m - l,
{
    if l < m {
        let k = (m - 1) as nat;
        lemma_end_doubles(lengths, l, k);
        lemma_count_still(lengths, m, 0, lengths.len() as int);
        assert(lengths.take(lengths.len() as int) =~= lengths);
        assert(lengths.take(0).len() == 0);
        lemma_pow2_unfold((m - l) as nat);
        let (e, p) = (codes_end(lengths, l), pow2((k - l) as nat));
        assert(((m - l) - 1) as nat == (k - l) as nat);
        assert(2 * (e * p) == e * (2 * p)) by (nonlinear_arith);
    } else {
        let e = codes_end(lengths, l);
        vstd::arithmetic::power2::lemma2_to64();
        assert(e * pow2(0) == e) by (nonlinear_arith)
            requires
                pow2(0) == 1,
        ;
    }
}

/// Longer codes go on behind the shorter ones: one more than the last code
/// of a length, with zeros behind it, is the first of the next length in use.
pub proof fn longer_codes_follow(lengths: Seq<u8>, a: int, b: int)
    requires
        0 <= a < lengths.len(),
        0 <= b < lengths.len(),
        0 < lengths[a] < lengths[b],
        forall|i: int| a < i < lengths.len() ==> #[trigger] lengths[i] != lengths[a],
        forall|i: int| 0 <= i < b ==> #[trigger] lengths[i] != lengths[b],
        forall|i: int|
            0 <= i < lengths.len() ==> !(lengths[a] < #[trigger] lengths[i] < lengths[b]),
    ensures
        code_of(lengths, b) == (code_of(lengths, a) + 1) * pow2((lengths[b] - lengths[a]) as nat),
{
    let l = lengths[a] as nat;
    let m = lengths[b] as nat;
    let k = (m - 1) as nat;
    lemma_count_one(lengths, a);
    lemma_count_still(lengths, l, a + 1, lengths.len() as int);
    assert(lengths.take(lengths.len() as int) =~= lengths);
    lemma_count_still(lengths, m, 0, b);
    assert(lengths.take(0).len() == 0);
    lemma_end_doubles(lengths, l, k);
    lemma_pow2_unfold((m - l) as nat);
    assert(((m - l) - 1) as nat == (k - l) as nat);
    let (e, p) = (codes_end(lengths, l), pow2((k - l) as nat));
    assert(e == code_of(lengths, a) + 1);
    assert(2 * (e * p) == e * (2 * p)) by (nonlinear_arith);
}

/// A code is written from its highest bit down.
pub proof fn codes_go_down(lengths: Seq<u8>, symbol: int, i: int)
    requires
        0 <= i < lengths[symbol],
    ensures
        code_bits(lengths, symbol).len() == lengths[symbol],
        code_bits(lengths, symbol)[i] == (code_of(lengths, symbol) / pow2(
            (lengths[symbol] - 1 - i) as nat,
        ) % 2 == 1),
{
    let n = lengths[symbol] as nat;
    let c = code_of(lengths, symbol);
    lemma_bits_of_len(c, n);
    bits_go_up(c, n, (n - 1 - i) as nat);
}

/// What is read is a code that stands there, and nothing more.
pub proof fn codes_are_read(lengths: Seq<u8>, s: Seq<bool>)
    requires
        lengths_small(lengths),
    ensures
        take_symbol(lengths, s) matches Ok((t, rest)) ==> t < lengths.len() && lengths[t as int] > 0
            && s == code_bits(lengths, t as int) + rest,
        take_symbol(lengths, s) matches Err(e) ==> e == Error::UnexpectedEof || e
            == Error::Corrupt("invalid huffman code"),
{
    reveal(take_symbol);
    lemma_find_symbol(lengths, s, lengths.len());
    if let Some(t) = find_symbol(lengths, s, lengths.len()) {
        let n = lengths[t as int] as int;
        assert(starts_with(lengths, s, t as int));
        if s.len() >= n {
            assert((s + crate::bits::zeros(15)).take(n) =~= s.take(n));
            assert(s =~= s.take(n) + s.skip(n));
        }
    }
}

/// Lengths are refused if one is above 15, or if the codes are too many: each
/// symbol takes its share of the whole, half for one bit, a quarter for two.
pub proof fn lengths_are_checked(lengths: Seq<u8>, x: u8)
    ensures
        check(lengths) == Ok::<(), Error>(()) <==> lengths_ok(lengths),
        (exists|i: int| 0 <= i < lengths.len() && #[trigger] lengths[i] > 15) <==> check(lengths)
            == Err::<(), Error>(Error::Corrupt("huffman code length above 15")),
        slots(Seq::empty()) == 0,
        slots(lengths.push(0)) == slots(lengths),
        1 <= x <= 15 ==> slots(lengths.push(x)) == slots(lengths) + pow2((15 - x) as nat),
        lengths_ok(lengths) <==> (forall|i: int|
            0 <= i < lengths.len() ==> #[trigger] lengths[i] <= 15) && slots(lengths) <= 32768,
{
    assert(lengths.push(x).drop_last() =~= lengths);
    assert(lengths.push(0).drop_last() =~= lengths);
}

} // verus!
