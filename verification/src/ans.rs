//! rANS: range Asymmetric Numeral Systems, the entropy coder family behind
//! zstd, LZFSE, JPEG XL and AV1.
//!
//! ANS gets the fractional-bit efficiency of arithmetic coding with the
//! speed of Huffman. The whole coder state is one integer `x`. Coding a
//! symbol `s` that has frequency `f` (out of `M = 2^SCALE_BITS`) grows `x`
//! by a factor of about `M / f`, so it gains `log2(M / f)` bits, which is
//! exactly the symbol's information content. When `x` gets too big, its low
//! 16 bits are written out.
//!
//! ```text
//! encode: x' = (x / f) * M + start + (x % f)
//! decode: slot = x' % M        -> the symbol whose [start, start + f) holds slot
//!         x    = f * (x' / M) + slot - start
//! ```
//!
//! Decoding is the exact inverse of encoding, so it runs *backwards*: the
//! last symbol encoded is the first decoded. The encoder therefore walks
//! the input from the end, and its output is reversed so the decoder can
//! read front to back.
//!
//! Decoding a symbol is a table lookup, a multiply and an add, with no bit
//! loop. And unlike a range coder, several independent states can be
//! interleaved in one stream ([`LANES`]), so the CPU can work on several
//! symbols at once. Both are why ANS decodes several times faster than the
//! bitwise range coder in [`crate::range`].
//!
//! Frequencies are static here: counted in advance and sent with the data.
//!
//! Reference: Fabian Giesen's `ryg_rans` (public domain), and Jarek Duda,
//! "Asymmetric numeral systems" (2009).
use crate::error::Error;
use crate::nums::le_bytes;
use crate::nums::le_value;
use crate::nums::lemma_le_bytes;
use crate::nums::lemma_le_len;
use crate::nums::lemma_pow2_values;
use crate::nums::push_le;
use crate::nums::read_le;
use vstd::arithmetic::power2::pow2;
use crate::nums::lemma_divmod_unique;
use crate::nums::lemma_le_value;
use crate::nums::lemma_le_value_bound;
use vstd::prelude::*;

verus! {

/// Frequencies are scaled to sum to `M = 1 << SCALE_BITS`.
pub const SCALE_BITS: u32 = 12;

const M: u32 = 4096;

/// Lower bound of the normalized state; `x` stays in `[L, 2^32)`.
const L: u32 = 65536;

/// Independent states interleaved in one stream. Symbol `i` uses state
/// `i % LANES`.
pub const LANES: usize = 4;

// Frequencies.

/// The sum of the first `s` frequencies: where symbol `s`'s slots start.
pub open spec fn sum_to(freq: Seq<u32>, s: int) -> nat
    decreases s,
{
    if s <= 0 {
        0
    } else {
        sum_to(freq, s - 1) + freq[s - 1] as nat
    }
}

/// Frequencies of all bytes that sum to `M`.
pub open spec fn freqs_ok(freq: Seq<u32>) -> bool {
    freq.len() == 256 && sum_to(freq, 256) == 4096
}

/// The sum of byte counts.
pub open spec fn count_sum(counts: Seq<u64>, n: int) -> nat
    decreases n,
{
    if n <= 0 {
        0
    } else {
        count_sum(counts, n - 1) + counts[n - 1] as nat
    }
}

/// A count's share of `M`, rounded, and at least 1 if the byte occurs.
pub open spec fn share(c: nat, total: nat) -> nat {
    if c == 0 {
        0
    } else {
        let f = (c * 4096 + total / 2) / total;
        if f < 1 {
            1
        } else {
            f
        }
    }
}

/// The shares of all counts.
pub open spec fn shares(counts: Seq<u64>) -> Seq<u32> {
    Seq::new(
        counts.len(),
        |i: int| share(counts[i] as nat, count_sum(counts, counts.len() as int)) as u32,
    )
}

/// The last of the largest frequencies among the first `n`.
pub open spec fn largest(freq: Seq<u32>, n: int) -> int
    decreases n,
{
    if n <= 1 {
        0
    } else {
        let b = largest(freq, n - 1);
        if freq[n - 1] >= freq[b] {
            n - 1
        } else {
            b
        }
    }
}

/// Frequencies brought to the sum `M` one step at a time, always on the most
/// common symbol, where one step changes the cost least.
pub open spec fn adjusted(freq: Seq<u32>, sum: nat) -> Seq<u32>
    decreases
            (if sum < 4096 {
                4096 - sum
            } else {
                sum - 4096
            }),
{
    let i = largest(freq, freq.len() as int);
    if sum == 4096 {
        freq
    } else if sum < 4096 {
        adjusted(freq.update(i, (freq[i] + 1) as u32), sum + 1)
    } else {
        adjusted(freq.update(i, (freq[i] - 1) as u32), (sum - 1) as nat)
    }
}

/// Byte counts scaled to frequencies that sum to `M`.
pub open spec fn normalized(counts: Seq<u64>) -> Option<Seq<u32>> {
    if count_sum(counts, 256) == 0 {
        None
    } else {
        Some(adjusted(shares(counts), sum_to(shares(counts), 256)))
    }
}

/// The counts can be scaled without overflow.
pub open spec fn counts_fit(counts: Seq<u64>) -> bool {
    &&& count_sum(counts, 256) <= u64::MAX
    &&& forall|i: int|
        0 <= i < 256 ==> (#[trigger] counts[i]) * 4096 + count_sum(counts, 256) / 2 <= u64::MAX
}

proof fn lemma_sum_update(freq: Seq<u32>, i: int, x: u32, n: int)
    requires
        0 <= i < freq.len(),
        0 <= n <= freq.len(),
    ensures
        sum_to(freq.update(i, x), n) == sum_to(freq, n) + if i < n {
            x - freq[i]
        } else {
            0
        },
    decreases n,
{
    if n > 0 {
        lemma_sum_update(freq, i, x, n - 1);
    }
}

pub proof fn lemma_sum_mono(freq: Seq<u32>, a: int, b: int)
    requires
        0 <= a <= b,
    ensures
        sum_to(freq, a) <= sum_to(freq, b),
    decreases b,
{
    if a < b {
        lemma_sum_mono(freq, a, b - 1);
    }
}

proof fn lemma_sum_bound(freq: Seq<u32>, n: int, top: nat)
    requires
        0 <= n <= freq.len(),
        forall|i: int| 0 <= i < freq.len() ==> #[trigger] freq[i] <= top,
    ensures
        sum_to(freq, n) <= n * top,
    decreases n,
{
    if n > 0 {
        lemma_sum_bound(freq, n - 1, top);
        assert(n * top == (n - 1) * top + top) by (nonlinear_arith);
        assert(freq[n - 1] <= top);
    } else {
        assert(0 * top == 0);
    }
}

proof fn lemma_count_mono(counts: Seq<u64>, a: int, b: int)
    requires
        0 <= a <= b,
    ensures
        count_sum(counts, a) <= count_sum(counts, b),
    decreases b,
{
    if a < b {
        lemma_count_mono(counts, a, b - 1);
    }
}

proof fn lemma_count_at(counts: Seq<u64>, i: int, n: int)
    requires
        0 <= i < n,
    ensures
        counts[i] <= count_sum(counts, n),
{
    lemma_count_mono(counts, i + 1, n);
}

proof fn lemma_count_some(counts: Seq<u64>, n: int) -> (i: int)
    requires
        count_sum(counts, n) > 0,
    ensures
        0 <= i < n,
        counts[i] > 0,
    decreases n,
{
    if counts[n - 1] > 0 {
        n - 1
    } else {
        lemma_count_some(counts, n - 1)
    }
}

proof fn lemma_largest(freq: Seq<u32>, n: int)
    requires
        1 <= n <= freq.len(),
    ensures
        0 <= largest(freq, n) < n,
        forall|i: int| 0 <= i < n ==> #[trigger] freq[i] <= freq[largest(freq, n)],
    decreases n,
{
    if n > 1 {
        lemma_largest(freq, n - 1);
    }
}

proof fn lemma_share(c: nat, total: nat)
    requires
        0 < total,
        c <= total,
    ensures
        share(c, total) <= 4096,
        share(c, total) > 0 <==> c > 0,
{
    let f = (c * 4096 + total / 2) / total;
    assert(f <= 4096) by (nonlinear_arith)
        requires
            0 < total,
            c <= total,
            f == (c * 4096 + total / 2) / total,
    ;
}

/// The frequency that is changed keeps within bounds.
proof fn lemma_adjust_step(freq: Seq<u32>, sum: nat)
    requires
        freq.len() == 256,
        sum == sum_to(freq, 256),
        sum > 0,
        sum != 4096,
        forall|i: int| 0 <= i < 256 ==> #[trigger] freq[i] <= 4096,
    ensures
        ({
            let i = largest(freq, 256);
            &&& 0 <= i < 256
            &&& sum < 4096 ==> 0 < freq[i] < 4096
            &&& sum > 4096 ==> 1 < freq[i]
        }),
{
    lemma_largest(freq, 256);
    let i = largest(freq, 256);
    lemma_sum_bound(freq, 256, freq[i] as nat);
    lemma_sum_mono(freq, i + 1, 256);
}

/// Adjusting ends with the sum `M`, and neither drops a symbol nor adds one.
proof fn lemma_adjusted(freq: Seq<u32>, sum: nat)
    requires
        freq.len() == 256,
        sum == sum_to(freq, 256),
        sum > 0,
        forall|i: int| 0 <= i < 256 ==> #[trigger] freq[i] <= 4096,
    ensures
        freqs_ok(adjusted(freq, sum)),
        forall|i: int|
            0 <= i < 256 ==> (#[trigger] adjusted(freq, sum)[i] > 0 <==> freq[i] > 0),
    decreases
            (if sum < 4096 {
                4096 - sum
            } else {
                sum - 4096
            }),
{
    if sum != 4096 {
        lemma_adjust_step(freq, sum);
        let i = largest(freq, 256);
        if sum < 4096 {
            let next = freq.update(i, (freq[i] + 1) as u32);
            lemma_sum_update(freq, i, (freq[i] + 1) as u32, 256);
            lemma_adjusted(next, sum + 1);
        } else {
            let next = freq.update(i, (freq[i] - 1) as u32);
            lemma_sum_update(freq, i, (freq[i] - 1) as u32, 256);
            lemma_adjusted(next, (sum - 1) as nat);
        }
    }
}

/// The shares of the counts, before any adjustment.
proof fn lemma_shares(counts: Seq<u64>)
    requires
        counts.len() == 256,
        count_sum(counts, 256) > 0,
    ensures
        forall|i: int|
            0 <= i < 256 ==> #[trigger] shares(counts)[i] <= 4096 && (shares(counts)[i] > 0
                <==> counts[i] > 0) && shares(counts)[i] == share(
                counts[i] as nat,
                count_sum(counts, 256),
            ),
        sum_to(shares(counts), 256) > 0,
{
    let s = shares(counts);
    let total = count_sum(counts, 256);
    assert forall|i: int| 0 <= i < 256 implies #[trigger] s[i] <= 4096 && (s[i] > 0 <==> counts[i]
        > 0) && s[i] == share(counts[i] as nat, total) by {
        lemma_count_at(counts, i, 256);
        lemma_share(counts[i] as nat, total);
    }
    let i = lemma_count_some(counts, 256);
    assert(s[i] > 0);
    lemma_sum_mono(s, i + 1, 256);
}

/// Counts that are not all 0 have frequencies that sum to `M`, and exactly
/// the bytes that occur have one above 0.
pub proof fn frequencies_are_complete(counts: Seq<u64>)
    requires
        counts.len() == 256,
        count_sum(counts, 256) > 0,
    ensures
        normalized(counts) matches Some(freq) && freqs_ok(freq) && forall|i: int|
            0 <= i < 256 ==> (#[trigger] freq[i] > 0 <==> counts[i] > 0),
{
    lemma_shares(counts);
    lemma_adjusted(shares(counts), sum_to(shares(counts), 256));
    let freq = adjusted(shares(counts), sum_to(shares(counts), 256));
    assert forall|i: int| 0 <= i < 256 implies (#[trigger] freq[i] > 0 <==> counts[i] > 0) by {
        assert(shares(counts)[i] > 0 <==> counts[i] > 0);
    }
}

/// Where there is too little, the largest frequency gets all of what is
/// missing.
proof fn lemma_adjusted_up(freq: Seq<u32>, sum: nat)
    requires
        freq.len() == 256,
        sum == sum_to(freq, 256),
        0 < sum <= 4096,
        forall|i: int| 0 <= i < 256 ==> #[trigger] freq[i] <= 4096,
    ensures
        ({
            let r = adjusted(freq, sum);
            &&& r.len() == 256
            &&& forall|i: int| 0 <= i < 256 && i != largest(freq, 256) ==> #[trigger] r[i] == freq[i]
            &&& r[largest(freq, 256)] >= freq[largest(freq, 256)]
        }),
    decreases 4096 - sum,
{
    if sum < 4096 {
        lemma_adjust_step(freq, sum);
        let i = largest(freq, 256);
        lemma_largest(freq, 256);
        let next = freq.update(i, (freq[i] + 1) as u32);
        lemma_sum_update(freq, i, (freq[i] + 1) as u32, 256);
        lemma_largest(next, 256);
        assert(next[i] <= next[largest(next, 256)]);
        assert(largest(next, 256) == i);
        lemma_adjusted_up(next, sum + 1);
    }
}

/// Where there is too much, it is taken from the largest, step by step.
proof fn lemma_adjusted_down(freq: Seq<u32>, sum: nat)
    requires
        freq.len() == 256,
        sum == sum_to(freq, 256),
        sum >= 4096,
        forall|i: int| 0 <= i < 256 ==> #[trigger] freq[i] <= 4096,
    ensures
        ({
            let r = adjusted(freq, sum);
            &&& r.len() == 256
            &&& forall|i: int| 0 <= i < 256 ==> #[trigger] r[i] <= freq[i]
            &&& forall|i: int, j: int|
                0 <= i < 256 && 0 <= j < 256 && (#[trigger] r[i]) < freq[i] ==> #[trigger] r[j]
                    <= r[i] + 1
        }),
    decreases sum,
{
    if sum > 4096 {
        lemma_adjust_step(freq, sum);
        let i = largest(freq, 256);
        lemma_largest(freq, 256);
        let next = freq.update(i, (freq[i] - 1) as u32);
        lemma_sum_update(freq, i, (freq[i] - 1) as u32, 256);
        lemma_adjusted_down(next, (sum - 1) as nat);
        let r = adjusted(next, (sum - 1) as nat);
        assert forall|a: int, b: int|
            0 <= a < 256 && 0 <= b < 256 && (#[trigger] r[a]) < freq[a] implies #[trigger] r[b]
            <= r[a] + 1 by {
            if r[a] >= next[a] {
                assert(a == i);
                assert(r[b] <= next[b] && next[b] <= freq[b] && freq[b] <= freq[i]);
            }
        }
    }
}

/// A frequency is its count's share of 4096, rounded, and at least 1; what
/// that leaves over or takes too much goes to or comes from the largest.
pub proof fn frequencies_follow_counts(counts: Seq<u64>, i: int, j: int)
    requires
        counts.len() == 256,
        count_sum(counts, 256) > 0,
        0 <= i < 256,
        0 <= j < 256,
    ensures
        normalized(counts) matches Some(freq) && {
            let total = count_sum(counts, 256);
            let rounded = |c: u64| (c * 4096 + total / 2) / total as int;
            let a = if counts[i] > 0 && rounded(counts[i]) < 1 {
                1
            } else {
                rounded(counts[i])
            };
            let b = if counts[j] > 0 && rounded(counts[j]) < 1 {
                1
            } else {
                rounded(counts[j])
            };
            &&& freq[i] < a ==> freq[j] <= freq[i] + 1
            &&& freq[i] > a && i != j ==> freq[j] == b && b <= a
            &&& counts[i] == 0 ==> freq[i] == 0
        },
{
    lemma_shares(counts);
    let s = shares(counts);
    let total = count_sum(counts, 256);
    let sum = sum_to(s, 256);
    frequencies_are_complete(counts);
    lemma_largest(s, 256);
    assert(s[i] <= 4096 && s[j] <= 4096);
    if counts[i] == 0 {
        assert((0 * 4096 + total as int / 2) / total as int == 0) by {
            vstd::arithmetic::div_mod::lemma_basic_div((total / 2) as int, total as int);
        }
    }
    if counts[j] == 0 {
        assert((0 * 4096 + total as int / 2) / total as int == 0) by {
            vstd::arithmetic::div_mod::lemma_basic_div((total / 2) as int, total as int);
        }
    }
    if sum <= 4096 {
        lemma_adjusted_up(s, sum);
        let r = adjusted(s, sum);
        if i != largest(s, 256) {
            assert(r[i] == s[i]);
        }
        if j != largest(s, 256) {
            assert(r[j] == s[j]);
        }
    } else {
        lemma_adjusted_down(s, sum);
        let r = adjusted(s, sum);
        assert(r[i] <= s[i] && r[j] <= s[j]);
    }
}

/// A word is spilled only where the state would not fit in 32 bits with the
/// symbol coded; then it always fits.
pub proof fn words_spill_when_needed(x: nat, f: nat, start: nat)
    requires
        65536 <= x < 0x1_0000_0000,
        0 < f,
        start + f <= 4096,
    ensures
        spills(x, f) <==> grown(x, f, start) >= 0x1_0000_0000,
        65536 <= grown(shrunk(x, f), f, start) < 0x1_0000_0000,
        spills(x, f) ==> shrunk(x, f) == x / 65536,
        !spills(x, f) ==> shrunk(x, f) == x,
{
    let q = x / f;
    vstd::arithmetic::div_mod::lemma_fundamental_div_mod(x as int, f as int);
    if x >= 0x10_0000 * f {
        assert(q >= 0x10_0000) by (nonlinear_arith)
            requires
                x >= 0x10_0000 * f,
                f > 0,
                q == x / f,
        ;
    } else {
        assert(q < 0x10_0000) by (nonlinear_arith)
            requires
                x < 0x10_0000 * f,
                f > 0,
                q == x / f,
        ;
    }
    let y = shrunk(x, f);
    let p = y / f;
    vstd::arithmetic::div_mod::lemma_fundamental_div_mod(y as int, f as int);
    assert(16 * f <= y < 0x10_0000 * f);
    assert(16 <= p < 0x10_0000) by (nonlinear_arith)
        requires
            16 * f <= y < 0x10_0000 * f,
            f > 0,
            p == y / f,
    ;
}

// Coding.

/// The first symbol from `s` on whose slots reach beyond `slot`.
pub open spec fn symbol_from(freq: Seq<u32>, s: int, slot: nat) -> int
    decreases 256 - s,
{
    if s >= 255 || slot < sum_to(freq, s + 1) {
        s
    } else {
        symbol_from(freq, s + 1, slot)
    }
}

/// The symbol whose slots hold `slot`.
pub open spec fn symbol_at(freq: Seq<u32>, slot: nat) -> int {
    symbol_from(freq, 0, slot)
}

/// Whether a state is too big to code a symbol of frequency `f`.
pub open spec fn spills(x: nat, f: nat) -> bool {
    x >= 0x10_0000 * f
}

/// The state that a symbol of frequency `f` is coded on.
pub open spec fn shrunk(x: nat, f: nat) -> nat {
    if spills(x, f) {
        x / 65536
    } else {
        x
    }
}

/// The state with a symbol coded.
pub open spec fn grown(x: nat, f: nat, start: nat) -> nat {
    (x / f) * 4096 + x % f + start
}

/// The states of the lanes, and the words spilled, in the decoder's order.
#[verifier::ext_equal]
pub ghost struct Coded {
    pub x: Seq<nat>,
    pub words: Seq<nat>,
}

/// The lanes' states before any symbol.
pub open spec fn idle() -> Seq<nat> {
    seq![65536nat, 65536, 65536, 65536]
}

/// One symbol coded, on the lane of position `i`.
pub open spec fn put_symbol(c: Coded, freq: Seq<u32>, i: int, b: u8) -> Coded {
    let x = c.x[i % 4];
    let f = freq[b as int] as nat;
    Coded {
        x: c.x.update(i % 4, grown(shrunk(x, f), f, sum_to(freq, b as int))),
        words: if spills(x, f) {
            seq![x % 65536] + c.words
        } else {
            c.words
        },
    }
}

/// `data` from position `i` on, coded from its end.
pub open spec fn coded_from(data: Seq<u8>, freq: Seq<u32>, i: int) -> Coded
    decreases data.len() - i,
{
    if i >= data.len() {
        Coded { x: idle(), words: Seq::empty() }
    } else {
        put_symbol(coded_from(data, freq, i + 1), freq, i, data[i])
    }
}

/// Coding a symbol of frequency `f` puts the state over 4096 what it was over
/// `f`, and what was over into the symbol's own slots, in order.
pub proof fn states_grow_by_slots(x: nat, f: nat, start: nat)
    requires
        0 < f,
        start + f <= 4096,
    ensures
        grown(x, f, start) / 4096 == x / f,
        grown(x, f, start) % 4096 == start + x % f,
{
    let r = x % f;
    assert(r < f) by (nonlinear_arith)
        requires
            r == x % f,
            f > 0,
    ;
    lemma_divmod_unique(grown(x, f, start), 4096, x / f, start + r);
}

/// A lane codes every fourth byte and no other: the others may differ.
pub proof fn lanes_are_apart(a: Seq<u8>, b: Seq<u8>, freq: Seq<u32>, i: int, lane: int)
    requires
        a.len() == b.len(),
        0 <= i,
        0 <= lane < 4,
        forall|k: int| i <= k < a.len() && k % 4 == lane ==> #[trigger] a[k] == b[k],
    ensures
        coded_from(a, freq, i).x.len() == 4,
        coded_from(b, freq, i).x.len() == 4,
        coded_from(a, freq, i).x[lane] == coded_from(b, freq, i).x[lane],
    decreases a.len() - i,
{
    if i < a.len() {
        lanes_are_apart(a, b, freq, i + 1, lane);
        if i % 4 == lane {
            assert(a[i] == b[i]);
        }
    }
}

/// Coding goes by what is still to come, from the last byte back, and not by
/// how much came before.
pub proof fn coding_goes_back(before: Seq<u8>, data: Seq<u8>, freq: Seq<u32>, i: int)
    requires
        before.len() % 4 == 0,
        0 <= i,
    ensures
        coded_from(before + data, freq, before.len() + i) == coded_from(data, freq, i),
        i >= data.len() ==> coded_from(data, freq, i).x == seq![65536nat, 65536, 65536, 65536],
    decreases data.len() - i,
{
    if i < data.len() {
        coding_goes_back(before, data, freq, i + 1);
        assert((before + data)[before.len() + i] == data[i]);
        assert((before.len() + i) % 4 == i % 4);
    }
}

/// The states as bytes.
pub open spec fn lane_bytes(x: Seq<nat>) -> Seq<u8> {
    le_bytes(x[0], 4) + le_bytes(x[1], 4) + le_bytes(x[2], 4) + le_bytes(x[3], 4)
}

/// The words as bytes.
pub open spec fn word_bytes(words: Seq<nat>) -> Seq<u8>
    decreases words.len(),
{
    if words.len() == 0 {
        Seq::empty()
    } else {
        le_bytes(words[0], 2) + word_bytes(words.skip(1))
    }
}

/// The stream of `data`: the final states, then the words.
pub open spec fn rans_bytes(data: Seq<u8>, freq: Seq<u32>) -> Seq<u8> {
    let c = coded_from(data, freq, 0);
    lane_bytes(c.x) + word_bytes(c.words)
}

/// The state after a symbol is taken from it.
pub open spec fn taken(x: nat, freq: Seq<u32>) -> nat {
    let s = symbol_at(freq, x % 4096);
    (freq[s] as nat * (x / 4096) + (x % 4096 - sum_to(freq, s))) as nat
}

/// The word at `pos`. Past the end reads as 0.
pub open spec fn word_at(input: Seq<u8>, pos: nat) -> nat {
    if pos + 2 <= input.len() {
        le_value(input.subrange(pos as int, pos as int + 2))
    } else {
        0
    }
}

/// What a decoder has read, its states, and where it stands.
#[verifier::ext_equal]
pub ghost struct Decoded {
    pub bytes: Seq<u8>,
    pub x: Seq<nat>,
    pub pos: nat,
}

/// Symbols `i..n` decoded, from the given states on.
pub open spec fn decoded_from(
    input: Seq<u8>,
    freq: Seq<u32>,
    x: Seq<nat>,
    pos: nat,
    i: int,
    n: int,
) -> Decoded
    decreases n - i,
{
    if i >= n {
        Decoded { bytes: Seq::empty(), x, pos }
    } else {
        let state = x[i % 4];
        let s = symbol_at(freq, state % 4096);
        let low = taken(state, freq);
        let rest = if low < 65536 {
            decoded_from(
                input,
                freq,
                x.update(i % 4, low * 65536 + word_at(input, pos)),
                pos + 2,
                i + 1,
                n,
            )
        } else {
            decoded_from(input, freq, x.update(i % 4, low), pos, i + 1, n)
        };
        Decoded { bytes: seq![s as u8] + rest.bytes, ..rest }
    }
}

/// The states at the start of a stream.
pub open spec fn lanes_of(input: Seq<u8>) -> Seq<nat> {
    Seq::new(4, |c: int| le_value(input.subrange(4 * c, 4 * c + 4)))
}

/// Whether a stream starts with four proper states.
pub open spec fn head_check(input: Seq<u8>) -> Result<(), Error> {
    if input.len() < 16 {
        Err(Error::Corrupt("rANS stream too short"))
    } else if exists|c: int| 0 <= c < 4 && #[trigger] lanes_of(input)[c] < 65536 {
        Err(Error::Corrupt("rANS state out of range"))
    } else {
        Ok(())
    }
}

/// All `n` symbols of a stream.
pub open spec fn decoded_all(input: Seq<u8>, freq: Seq<u32>, n: nat) -> Decoded {
    decoded_from(input, freq, lanes_of(input), 16, 0, n as int)
}

/// The `n` bytes of a stream. The encoder started every state at `L`, so a
/// clean decode ends there, with nothing left over.
pub open spec fn rans_decoded(input: Seq<u8>, freq: Seq<u32>, n: nat) -> Result<Seq<u8>, Error> {
    match head_check(input) {
        Err(e) => Err(e),
        Ok(_) => {
            let d = decoded_all(input, freq, n);
            if d.pos != input.len() || d.x != idle() {
                Err(Error::Corrupt("rANS stream did not end cleanly"))
            } else {
                Ok(d.bytes)
            }
        },
    }
}

proof fn lemma_symbol_from(freq: Seq<u32>, s: int, slot: nat)
    requires
        freqs_ok(freq),
        0 <= s < 256,
        sum_to(freq, s) <= slot < 4096,
    ensures
        ({
            let r = symbol_from(freq, s, slot);
            s <= r < 256 && sum_to(freq, r) <= slot < sum_to(freq, r) + freq[r]
        }),
    decreases 256 - s,
{
    if s < 255 && slot >= sum_to(freq, s + 1) {
        lemma_symbol_from(freq, s + 1, slot);
    }
}

/// Each slot belongs to one symbol.
pub proof fn lemma_symbol_at(freq: Seq<u32>, slot: nat)
    requires
        freqs_ok(freq),
        slot < 4096,
    ensures
        ({
            let s = symbol_at(freq, slot);
            &&& 0 <= s < 256
            &&& sum_to(freq, s) <= slot < sum_to(freq, s) + freq[s]
            &&& sum_to(freq, s) + freq[s] <= 4096
        }),
        forall|t: int|
            0 <= t < 256 && #[trigger] sum_to(freq, t) <= slot < sum_to(freq, t) + freq[t] ==> t
                == symbol_at(freq, slot),
{
    lemma_symbol_from(freq, 0, slot);
    let s = symbol_at(freq, slot);
    lemma_sum_mono(freq, s + 1, 256);
    assert forall|t: int|
        0 <= t < 256 && #[trigger] sum_to(freq, t) <= slot < sum_to(freq, t) + freq[t] implies t
        == s by {
        if t < s {
            lemma_sum_mono(freq, t + 1, s);
        } else if s < t {
            lemma_sum_mono(freq, s + 1, t);
        }
    }
}

/// A state stays in its range, and coding a symbol can be undone.
proof fn lemma_put(x: nat, freq: Seq<u32>, b: int)
    requires
        freqs_ok(freq),
        0 <= b < 256,
        freq[b] > 0,
        65536 <= x < 0x1_0000_0000,
    ensures
        ({
            let f = freq[b] as nat;
            let start = sum_to(freq, b);
            let s = shrunk(x, f);
            let y = grown(s, f, start);
            &&& f <= 4096
            &&& 65536 <= y < 0x1_0000_0000
            &&& y % 4096 == s % f + start
            &&& symbol_at(freq, y % 4096) == b
            &&& taken(y, freq) == s
            &&& (s < 65536 <==> spills(x, f))
            &&& s / f < 0x10_0000
        }),
{
    let f = freq[b] as nat;
    let start = sum_to(freq, b);
    let s = shrunk(x, f);
    let y = grown(s, f, start);
    lemma_sum_mono(freq, b + 1, 256);
    assert(f <= 4096);
    if spills(x, f) {
        assert(s >= 16 * f);
        assert(s < 65536);
        assert(s < 0x10_0000 * f);
    } else {
        assert(s >= 16 * f);
    }
    let q = s / f;
    let r = s % f;
    assert(s == f * q + r && r < f) by (nonlinear_arith)
        requires
            q == s / f,
            r == s % f,
            f > 0,
    ;
    assert(16 <= q < 0x10_0000) by (nonlinear_arith)
        requires
            s == f * q + r,
            r < f,
            16 * f <= s < 0x10_0000 * f,
            f > 0,
    ;
    assert(y == q * 4096 + (r + start));
    assert(r + start < 4096);
    assert(y % 4096 == r + start && y / 4096 == q);
    lemma_symbol_at(freq, y % 4096);
    assert(sum_to(freq, b) <= y % 4096 && y % 4096 < sum_to(freq, b) + freq[b]);
    assert(symbol_at(freq, y % 4096) == b);
}

/// The states and words that the encoder can reach.
pub open spec fn coded_ok(c: Coded) -> bool {
    &&& c.x.len() == 4
    &&& forall|k: int| 0 <= k < 4 ==> 65536 <= #[trigger] c.x[k] < 0x1_0000_0000
    &&& forall|k: int| 0 <= k < c.words.len() ==> #[trigger] c.words[k] < 65536
}

/// Every byte of `data` has a frequency.
pub open spec fn covers(freq: Seq<u32>, data: Seq<u8>) -> bool {
    forall|i: int| 0 <= i < data.len() ==> freq[(#[trigger] data[i]) as int] > 0
}

proof fn lemma_coded_ok(data: Seq<u8>, freq: Seq<u32>, i: int)
    requires
        freqs_ok(freq),
        covers(freq, data),
        0 <= i,
    ensures
        coded_ok(coded_from(data, freq, i)),
        coded_from(data, freq, i).words.len() <= if i <= data.len() {
            data.len() - i
        } else {
            0
        },
    decreases data.len() - i,
{
    if i < data.len() {
        lemma_coded_ok(data, freq, i + 1);
        let c = coded_from(data, freq, i + 1);
        assert(65536 <= c.x[i % 4] < 0x1_0000_0000);
        lemma_put(c.x[i % 4], freq, data[i] as int);
    }
}

proof fn lemma_word_bytes_len(words: Seq<nat>)
    ensures
        word_bytes(words).len() == 2 * words.len(),
    decreases words.len(),
{
    if words.len() > 0 {
        lemma_word_bytes_len(words.skip(1));
        lemma_le_len(words[0], 2);
    }
}

/// Decoding gives as many bytes as were asked for.
pub proof fn lemma_decoded_len(
    input: Seq<u8>,
    freq: Seq<u32>,
    x: Seq<nat>,
    pos: nat,
    i: int,
    n: int,
)
    requires
        i <= n,
    ensures
        decoded_from(input, freq, x, pos, i, n).bytes.len() == n - i,
    decreases n - i,
{
    if i < n {
        let state = x[i % 4];
        let low = taken(state, freq);
        if low < 65536 {
            lemma_decoded_len(
                input,
                freq,
                x.update(i % 4, low * 65536 + word_at(input, pos)),
                pos + 2,
                i + 1,
                n,
            );
        } else {
            lemma_decoded_len(input, freq, x.update(i % 4, low), pos, i + 1, n);
        }
    }
}

/// A stream takes at most two bytes per symbol and the states.
pub proof fn lemma_rans_len(data: Seq<u8>, freq: Seq<u32>)
    requires
        freqs_ok(freq),
        covers(freq, data),
    ensures
        rans_bytes(data, freq).len() <= 16 + 2 * data.len(),
{
    let c = coded_from(data, freq, 0);
    lemma_coded_ok(data, freq, 0);
    lemma_word_bytes_len(c.words);
    lemma_le_len(c.x[0], 4);
    lemma_le_len(c.x[1], 4);
    lemma_le_len(c.x[2], 4);
    lemma_le_len(c.x[3], 4);
}

/// Decoding from the encoder's states and words gives back the data.
proof fn lemma_decodes(data: Seq<u8>, freq: Seq<u32>, input: Seq<u8>, pos: nat, i: int)
    requires
        freqs_ok(freq),
        covers(freq, data),
        0 <= i <= data.len(),
        pos <= input.len(),
        input.skip(pos as int) == word_bytes(coded_from(data, freq, i).words),
    ensures
        ({
            let d = decoded_from(
                input,
                freq,
                coded_from(data, freq, i).x,
                pos,
                i,
                data.len() as int,
            );
            &&& d.bytes == data.skip(i)
            &&& d.x == idle()
            &&& d.pos == input.len()
        }),
    decreases data.len() - i,
{
    let n = data.len() as int;
    let c = coded_from(data, freq, i);
    lemma_coded_ok(data, freq, i);
    lemma_word_bytes_len(c.words);
    if i == n {
        assert(data.skip(i) =~= Seq::<u8>::empty());
    } else {
        let before = coded_from(data, freq, i + 1);
        lemma_coded_ok(data, freq, i + 1);
        let b = data[i] as int;
        let f = freq[b] as nat;
        let x = before.x[i % 4];
        lemma_put(x, freq, b);
        let s = shrunk(x, f);
        assert(c.x[i % 4] == grown(s, f, sum_to(freq, b)));
        if spills(x, f) {
            assert(c.words.skip(1) =~= before.words);
            let w = c.words[0];
            lemma_pow2_values();
            lemma_le_bytes(w, 2);
            lemma_le_len(w, 2);
            assert(input.subrange(pos as int, pos as int + 2) =~= le_bytes(w, 2)) by {
                assert(input.subrange(pos as int, pos as int + 2) =~= input.skip(
                    pos as int,
                ).take(2));
            }
            assert(input.skip((pos + 2) as int) =~= word_bytes(before.words)) by {
                assert(input.skip((pos + 2) as int) =~= input.skip(pos as int).skip(2));
            }
            assert(s * 65536 + w == x);
            assert(c.x.update(i % 4, x) =~= before.x);
            lemma_decodes(data, freq, input, pos + 2, i + 1);
        } else {
            assert(c.x.update(i % 4, x) =~= before.x);
            lemma_decodes(data, freq, input, pos, i + 1);
        }
        assert(data.skip(i) =~= seq![data[i]] + data.skip(i + 1));
    }
}

/// A stream decodes to the data it was made of.
pub proof fn rans_is_lossless(data: Seq<u8>, freq: Seq<u32>)
    requires
        freqs_ok(freq),
        covers(freq, data),
    ensures
        rans_decoded(rans_bytes(data, freq), freq, data.len()) == Ok::<Seq<u8>, Error>(data),
{
    let c = coded_from(data, freq, 0);
    let input = rans_bytes(data, freq);
    lemma_coded_ok(data, freq, 0);
    lemma_pow2_values();
    assert forall|k: int| 0 <= k < 4 implies input.subrange(4 * k, 4 * k + 4) == #[trigger] le_bytes(
        c.x[k],
        4,
    ) && le_value(le_bytes(c.x[k], 4)) == c.x[k] by {
        lemma_le_len(c.x[0], 4);
        lemma_le_len(c.x[1], 4);
        lemma_le_len(c.x[2], 4);
        lemma_le_len(c.x[3], 4);
        lemma_le_bytes(c.x[k], 4);
        if k == 0 {
            assert(input.subrange(0, 4) =~= le_bytes(c.x[0], 4));
        } else if k == 1 {
            assert(input.subrange(4, 8) =~= le_bytes(c.x[1], 4));
        } else if k == 2 {
            assert(input.subrange(8, 12) =~= le_bytes(c.x[2], 4));
        } else {
            assert(input.subrange(12, 16) =~= le_bytes(c.x[3], 4));
        }
    }
    lemma_le_len(c.x[0], 4);
    lemma_le_len(c.x[1], 4);
    lemma_le_len(c.x[2], 4);
    lemma_le_len(c.x[3], 4);
    assert forall|k: int| 0 <= k < 4 implies lanes_of(input)[k] == c.x[k] by {
        assert(input.subrange(4 * k, 4 * k + 4) == le_bytes(c.x[k], 4));
    }
    assert(lanes_of(input) =~= c.x);
    assert(input.skip(16) =~= word_bytes(c.words));
    lemma_decodes(data, freq, input, 16, 0);
    assert(data.skip(0) =~= data);
}

/// Taking a symbol from a state can be undone.
proof fn lemma_take(y: nat, freq: Seq<u32>, word: nat)
    requires
        freqs_ok(freq),
        65536 <= y < 0x1_0000_0000,
        word < 65536,
    ensures
        ({
            let b = symbol_at(freq, y % 4096);
            let f = freq[b] as nat;
            let low = taken(y, freq);
            let x = if low < 65536 {
                low * 65536 + word
            } else {
                low
            };
            &&& 0 <= b < 256
            &&& f > 0
            &&& 65536 <= x < 0x1_0000_0000
            &&& spills(x, f) <==> low < 65536
            &&& shrunk(x, f) == low
            &&& low < 65536 ==> x % 65536 == word
            &&& grown(low, f, sum_to(freq, b)) == y
        }),
{
    lemma_symbol_at(freq, y % 4096);
    let b = symbol_at(freq, y % 4096);
    let f = freq[b] as nat;
    let start = sum_to(freq, b);
    let q = y / 4096;
    let r = (y % 4096 - start) as nat;
    let low = taken(y, freq);
    assert(low == r + q * f) by (nonlinear_arith)
        requires
            low == f * q + r,
    ;
    lemma_divmod_unique(low, f, q, r);
    assert(16 <= q < 0x10_0000);
    assert(16 * f <= low < 0x10_0000 * f) by (nonlinear_arith)
        requires
            low == r + q * f,
            16 <= q,
            q + 1 <= 0x10_0000,
            r < f,
    ;
    assert(low < 0x1_0000_0000);
}

proof fn lemma_coded_again(
    data: Seq<u8>,
    freq: Seq<u32>,
    input: Seq<u8>,
    x: Seq<nat>,
    pos: nat,
    i: int,
)
    requires
        freqs_ok(freq),
        0 <= i <= data.len(),
        x.len() == 4,
        forall|k: int| 0 <= k < 4 ==> 65536 <= #[trigger] x[k] < 0x1_0000_0000,
        decoded_from(input, freq, x, pos, i, data.len() as int) == (Decoded {
            bytes: data.skip(i),
            x: idle(),
            pos: input.len(),
        }),
    ensures
        pos <= input.len(),
        coded_from(data, freq, i).x == x,
        input.skip(pos as int) == word_bytes(coded_from(data, freq, i).words),
        forall|k: int| i <= k < data.len() ==> freq[(#[trigger] data[k]) as int] > 0,
    decreases data.len() - i,
{
    let n = data.len() as int;
    if i == n {
        assert(input.skip(pos as int) =~= Seq::<u8>::empty());
    } else {
        let y = x[i % 4];
        assert(65536 <= y < 0x1_0000_0000);
        let b = symbol_at(freq, y % 4096);
        let low = taken(y, freq);
        let word = word_at(input, pos);
        if pos + 2 <= input.len() {
            lemma_pow2_values();
            lemma_le_value_bound(input.subrange(pos as int, pos as int + 2));
        }
        lemma_take(y, freq, word);
        let x2 = x.update(
            i % 4,
            if low < 65536 {
                low * 65536 + word
            } else {
                low
            },
        );
        let pos2 = if low < 65536 {
            pos + 2
        } else {
            pos
        };
        let rest = decoded_from(input, freq, x2, pos2, i + 1, n);
        assert((seq![b as u8] + rest.bytes)[0] == b as u8);
        assert(data.skip(i)[0] == data[i]);
        assert(data[i] == b);
        assert(rest.bytes =~= data.skip(i).skip(1));
        assert(data.skip(i).skip(1) =~= data.skip(i + 1));
        lemma_coded_again(data, freq, input, x2, pos2, i + 1);
        let c = coded_from(data, freq, i + 1);
        assert(c.x == x2);
        assert(coded_from(data, freq, i).x =~= x);
        if low < 65536 {
            let w = input.subrange(pos as int, pos as int + 2);
            lemma_le_value(w);
            let words = seq![word] + c.words;
            assert(words.skip(1) =~= c.words);
            assert(input.skip(pos as int) =~= w + input.skip(pos as int + 2));
            assert(coded_from(data, freq, i).words == words);
        }
    }
}

/// A stream is accepted only if it is what its bytes are coded as: every
/// other one, with a bit changed or bytes cut off or added, is refused.
pub proof fn accepted_streams_are_coded(input: Seq<u8>, freq: Seq<u32>, data: Seq<u8>)
    requires
        freqs_ok(freq),
        rans_decoded(input, freq, data.len()) == Ok::<Seq<u8>, Error>(data),
    ensures
        covers(freq, data),
        input == rans_bytes(data, freq),
{
    let x = lanes_of(input);
    lemma_pow2_values();
    assert forall|k: int| 0 <= k < 4 implies 65536 <= #[trigger] x[k] < 0x1_0000_0000 by {
        lemma_le_value_bound(input.subrange(4 * k, 4 * k + 4));
    }
    assert(data.skip(0) =~= data);
    lemma_coded_again(data, freq, input, x, 16, 0);
    lemma_le_value(input.subrange(0, 4));
    lemma_le_value(input.subrange(4, 8));
    lemma_le_value(input.subrange(8, 12));
    lemma_le_value(input.subrange(12, 16));
    assert(input =~= lane_bytes(x) + input.skip(16));
}

/// Normalized symbol frequencies for bytes, summing to `M`.
#[derive(Debug, Clone, PartialEq, Eq)]
pub struct Freqs {
    freq: [u32; 256],
    /// Cumulative frequency: symbol `s` owns slots `start[s]..start[s] + freq[s]`.
    start: [u32; 256],
}

impl Freqs {
    pub closed spec fn view(&self) -> Seq<u32> {
        self.freq@
    }

    pub closed spec fn wf(&self) -> bool {
        &&& freqs_ok(self.freq@)
        &&& forall|s: int| 0 <= s < 256 ==> #[trigger] self.start@[s] == sum_to(self.freq@, s)
    }

    /// Frequencies sum to `M`.
    pub proof fn lemma_wf(&self)
        requires
            self.wf(),
        ensures
            freqs_ok(self@),
    {
    }

    /// Scale byte counts to frequencies summing to `M`. Every byte that
    /// occurs keeps at least frequency 1, since frequency 0 can't be coded.
    /// Returns `None` when all counts are 0.
    pub fn normalize(counts: &[u64; 256]) -> (r: Option<Self>)
        requires
            counts_fit(counts@),
        ensures
            match normalized(counts@) {
                None => r is None,
                Some(freq) => r matches Some(f) && f.wf() && f@ == freq && forall|i: int|
                    0 <= i < 256 ==> (#[trigger] freq[i] > 0 <==> counts@[i] > 0),
            },
    {
        let ghost c = counts@;
        let mut total: u64 = 0;
        let mut i: usize = 0;
        while i < 256
            invariant
                i <= 256,
                c == counts@,
                c.len() == 256,
                counts_fit(c),
                total == count_sum(c, i as int),
            decreases 256 - i,
        {
            proof {
                lemma_count_mono(c, i + 1, 256);
            }
            total = total + counts[i];
            i = i + 1;
        }
        if total == 0 {
            return None;
        }
        proof {
            frequencies_are_complete(c);
            lemma_shares(c);
        }
        let mut freq: [u32; 256] = [0;256];
        let mut i: usize = 0;
        while i < 256
            invariant
                i <= 256,
                c == counts@,
                c.len() == 256,
                counts_fit(c),
                total == count_sum(c, 256),
                total > 0,
                forall|k: int|
                    0 <= k < 256 ==> #[trigger] shares(c)[k] == share(
                        c[k] as nat,
                        count_sum(c, 256),
                    ) && shares(c)[k] <= 4096,
                forall|k: int| 0 <= k < i ==> #[trigger] freq@[k] == shares(c)[k],
            decreases 256 - i,
        {
            let n: u64 = counts[i];
            assert(n == c[i as int]);
            assert(shares(c)[i as int] == share(c[i as int] as nat, count_sum(c, 256)));
            let f: u64 = (n * 4096 + total / 2) / total;
            freq[i] = if n == 0 {
                0
            } else if f < 1 {
                1
            } else {
                f as u32
            };
            i = i + 1;
        }
        assert(freq@ =~= shares(c));
        let freq = adjust(freq);
        match Self::from_freqs(freq) {
            Ok(f) => Some(f),
            Err(_) => None,
        }
    }

    /// Frequencies as stored in a stream. They must sum to exactly `M`.
    pub fn from_freqs(freq: [u32; 256]) -> (r: Result<Self, Error>)
        ensures
            match freqs_check(freq@) {
                Err(e) => r matches Err(x) && x == e,
                Ok(_) => r matches Ok(f) && f.wf() && f@ == freq@,
            },
    {
        let ghost all = freq@;
        let mut start: [u32; 256] = [0;256];
        let mut sum: u32 = 0;
        let mut i: usize = 0;
        while i < 256
            invariant
                i <= 256,
                all == freq@,
                all.len() == 256,
                sum == sum_to(all, i as int),
                sum <= 4096,
                forall|k: int| 0 <= k < i ==> #[trigger] start@[k] == sum_to(all, k),
            decreases 256 - i,
        {
            start[i] = sum;
            if freq[i] > M - sum {
                proof {
                    lemma_sum_mono(all, i + 1, 256);
                }
                return Err(Error::Corrupt("rANS frequencies exceed the total"));
            }
            sum = sum + freq[i];
            i = i + 1;
        }
        if sum != M {
            return Err(Error::Corrupt("rANS frequencies do not add up"));
        }
        Ok(Self { freq, start })
    }

    pub fn freqs(&self) -> (r: &[u32; 256])
        ensures
            r@ == self@,
    {
        &self.freq
    }
}

/// Whether frequencies sum to exactly `M`.
pub open spec fn freqs_check(freq: Seq<u32>) -> Result<(), Error> {
    if sum_to(freq, 256) > 4096 {
        Err(Error::Corrupt("rANS frequencies exceed the total"))
    } else if sum_to(freq, 256) < 4096 {
        Err(Error::Corrupt("rANS frequencies do not add up"))
    } else {
        Ok(())
    }
}

/// Rounding leaves the sum a little off. Fix it on the most common symbols,
/// where one step changes the cost least.
fn adjust(shares: [u32; 256]) -> (r: [u32; 256])
    requires
        sum_to(shares@, 256) > 0,
        forall|i: int| 0 <= i < 256 ==> #[trigger] shares@[i] <= 4096,
    ensures
        r@ == adjusted(shares@, sum_to(shares@, 256)),
        freqs_ok(r@),
{
    let ghost target = adjusted(shares@, sum_to(shares@, 256));
    let mut freq: [u32; 256] = shares;
    let mut sum: u32 = 0;
    let mut i: usize = 0;
    while i < 256
        invariant
            i <= 256,
            freq@.len() == 256,
            forall|i: int| 0 <= i < 256 ==> #[trigger] freq@[i] <= 4096,
            sum == sum_to(freq@, i as int),
            sum <= 4096 * i,
        decreases 256 - i,
    {
        sum = sum + freq[i];
        i = i + 1;
    }
    while sum != M
        invariant
            freq@.len() == 256,
            forall|i: int| 0 <= i < 256 ==> #[trigger] freq@[i] <= 4096,
            sum == sum_to(freq@, 256),
            sum > 0,
            adjusted(freq@, sum as nat) == target,
        decreases
                (if sum < 4096 {
                    4096 - sum
                } else {
                    sum - 4096
                }),
    {
        proof {
            lemma_adjust_step(freq@, sum as nat);
        }
        let i: usize = find_largest(&freq);
        let ghost was = freq@;
        if sum < M {
            proof {
                lemma_sum_update(was, i as int, (was[i as int] + 1) as u32, 256);
            }
            freq[i] = freq[i] + 1;
            sum = sum + 1;
            assert(freq@ =~= was.update(i as int, (was[i as int] + 1) as u32));
        } else {
            proof {
                lemma_sum_update(was, i as int, (was[i as int] - 1) as u32, 256);
            }
            freq[i] = freq[i] - 1;
            sum = sum - 1;
            assert(freq@ =~= was.update(i as int, (was[i as int] - 1) as u32));
        }
    }
    freq
}

/// The last of the largest frequencies.
fn find_largest(freq: &[u32; 256]) -> (r: usize)
    ensures
        r == largest(freq@, 256),
        r < 256,
{
    let mut best: usize = 0;
    let mut i: usize = 1;
    while i < 256
        invariant
            1 <= i <= 256,
            best < i,
            best == largest(freq@, i as int),
        decreases 256 - i,
    {
        if freq[i] >= freq[best] {
            best = i;
        }
        i = i + 1;
    }
    best
}

/// Decoding table entry for one slot of `0..M`.
#[derive(Debug, Clone, Copy)]
struct Slot {
    symbol: u8,
    freq: u16,
    /// `slot - start[symbol]`.
    bias: u16,
}

/// An entry fits its slot.
spec fn slot_ok(e: Slot, freq: Seq<u32>, slot: nat) -> bool {
    let s = symbol_at(freq, slot);
    &&& e.symbol == s
    &&& e.freq == freq[s]
    &&& e.bias == slot - sum_to(freq, s)
}

/// One lookup per symbol: everything decoding needs, by slot.
fn build_table(f: &Freqs) -> (table: Vec<Slot>)
    requires
        f.wf(),
    ensures
        table@.len() == 4096,
        forall|k: int| 0 <= k < 4096 ==> slot_ok(#[trigger] table@[k], f@, k as nat),
{
    let ghost freq = f@;
    let mut table: Vec<Slot> = Vec::with_capacity(M as usize);
    let mut s: usize = 0;
    while s < 256
        invariant
            f.wf(),
            freq == f@,
            s <= 256,
            table@.len() == sum_to(freq, s as int),
            forall|k: int|
                0 <= k < table@.len() ==> k < 4096 && slot_ok(
                    #[trigger] table@[k],
                    freq,
                    k as nat,
                ),
        decreases 256 - s,
    {
        let count: u32 = f.freq[s];
        let ghost start = sum_to(freq, s as int);
        let mut bias: u32 = 0;
        proof {
            lemma_sum_mono(freq, s + 1, 256);
        }
        while bias < count
            invariant
                freqs_ok(freq),
                s < 256,
                bias <= count,
                count == freq[s as int],
                start == sum_to(freq, s as int),
                start + count <= 4096,
                table@.len() == start + bias,
                forall|k: int|
                    0 <= k < table@.len() ==> k < 4096 && slot_ok(
                        #[trigger] table@[k],
                        freq,
                        k as nat,
                    ),
            decreases count - bias,
        {
            proof {
                let slot = (start + bias) as nat;
                lemma_symbol_at(freq, slot);
                assert(sum_to(freq, s as int) <= slot < sum_to(freq, s as int) + freq[s as int]);
            }
            table.push(Slot { symbol: s as u8, freq: count as u16, bias: bias as u16 });
            bias = bias + 1;
        }
        s = s + 1;
    }
    table
}

/// Encode `data`. Every byte in it must have a nonzero frequency in `f`.
pub fn encode(data: &[u8], f: &Freqs) -> (out: Vec<u8>)
    requires
        f.wf(),
        covers(f@, data@),
    ensures
        out@ == rans_bytes(data@, f@),
        rans_decoded(out@, f@, data@.len()) == Ok::<Seq<u8>, Error>(data@),
{
    let ghost freq = f@;
    let mut words: Vec<u16> = Vec::with_capacity(data.len() / 4);
    let mut x: [u32; 4] = [L, L, L, L];
    let mut i: usize = data.len();
    // Backwards, so the decoder gets the symbols front to back.
    while i > 0
        invariant
            f.wf(),
            freq == f@,
            covers(freq, data@),
            i <= data@.len(),
            forall|k: int|
                0 <= k < 4 ==> #[trigger] x@[k] as nat == coded_from(data@, freq, i as int).x[k],
            words@.len() == coded_from(data@, freq, i as int).words.len(),
            forall|k: int|
                0 <= k < words@.len() ==> #[trigger] words@[k] as nat == coded_from(
                    data@,
                    freq,
                    i as int,
                ).words[words@.len() - 1 - k],
        decreases i,
    {
        let ghost before = coded_from(data@, freq, i as int);
        proof {
            lemma_coded_ok(data@, freq, i as int);
        }
        i = i - 1;
        let s: usize = data[i] as usize;
        let lane: usize = i % 4;
        let (count, start) = (f.freq[s], f.start[s]);
        let state: u32 = x[lane];
        proof {
            assert(freq[data@[i as int] as int] > 0);
            assert(state as nat == before.x[lane as int]);
            assert(65536 <= before.x[lane as int] < 0x1_0000_0000);
            lemma_put(state as nat, freq, s as int);
        }
        // Shrink x so coding s keeps it below 2^32. Once is always enough.
        // (In u64: for a symbol with frequency M this is exactly 2^32.)
        let most: u64 = 0x10_0000 * count as u64;
        let mut small: u32 = state;
        if state as u64 >= most {
            words.push((state % 65536) as u16);
            small = state / 65536;
        }
        assert(small as nat == shrunk(state as nat, count as nat));
        x[lane] = (small / count) * 4096 + small % count + start;
        proof {
            let now = coded_from(data@, freq, i as int);
            assert(now.x[lane as int] == x@[lane as int]);
            assert forall|k: int| 0 <= k < words@.len() implies #[trigger] words@[k] as nat
                == now.words[words@.len() - 1 - k] by {
                if spills(state as nat, count as nat) {
                    if k < words@.len() - 1 {
                        assert(now.words[words@.len() - 1 - k] == before.words[words@.len() - 2
                            - k]);
                    }
                }
            }
        }
    }
    // Final states first, lane 0 first, then the words in reverse order of
    // writing, which is the order the decoder needs them.
    let ghost c = coded_from(data@, freq, 0);
    let mut out: Vec<u8> = Vec::with_capacity(16);
    push_le(&mut out, x[0] as u64, 4);
    push_le(&mut out, x[1] as u64, 4);
    push_le(&mut out, x[2] as u64, 4);
    push_le(&mut out, x[3] as u64, 4);
    assert(out@ =~= lane_bytes(c.x)) by {
        assert(x@[0] as nat == c.x[0]);
        assert(x@[1] as nat == c.x[1]);
        assert(x@[2] as nat == c.x[2]);
        assert(x@[3] as nat == c.x[3]);
    }
    let ghost target = rans_bytes(data@, freq);
    let mut left: usize = words.len();
    assert(c.words.skip(0) =~= c.words);
    while left > 0
        invariant
            left <= words@.len(),
            words@.len() == c.words.len(),
            forall|k: int|
                0 <= k < words@.len() ==> #[trigger] words@[k] as nat == c.words[words@.len() - 1
                    - k],
            out@ + word_bytes(c.words.skip(words@.len() - left)) == target,
        decreases left,
    {
        let ghost was = out@;
        let ghost rest = c.words.skip(words@.len() - left);
        left = left - 1;
        push_le(&mut out, words[left] as u64, 2);
        proof {
            assert(rest[0] == words@[left as int]);
            assert(rest.skip(1) =~= c.words.skip(words@.len() - left));
            assert(out@ + word_bytes(rest.skip(1)) =~= was + word_bytes(rest));
        }
    }
    proof {
        assert(c.words.skip(words@.len() as int) =~= Seq::<nat>::empty());
        assert(out@ =~= target);
        rans_is_lossless(data@, freq);
    }
    out
}

/// Decode `n` bytes from `input` into `out`. `input` must be exactly one
/// stream from [`encode`] with the same frequencies.
pub fn decode(input: &[u8], f: &Freqs, n: usize, out: &mut Vec<u8>) -> (r: Result<(), Error>)
    requires
        f.wf(),
    ensures
        match rans_decoded(input@, f@, n as nat) {
            Err(e) => r == Err::<(), Error>(e),
            Ok(bytes) => r == Ok::<(), Error>(()) && bytes.len() == n && final(out)@ == old(out)@
                + bytes,
        },
        head_check(input@) is Err ==> final(out)@ == old(out)@,
        head_check(input@) is Ok ==> final(out)@ == old(out)@ + decoded_all(
            input@,
            f@,
            n as nat,
        ).bytes,
{
    let ghost freq = f@;
    let ghost start = out@;
    if input.len() < 16 {
        return Err(Error::Corrupt("rANS stream too short"));
    }
    let mut x: [u32; 4] = [0;4];
    let mut c: usize = 0;
    proof {
        lemma_pow2_values();
    }
    while c < 4
        invariant
            c <= 4,
            input@.len() >= 16,
            pow2(32) == 0x1_0000_0000,
            out@ == start,
            start == old(out)@,
            forall|k: int| 0 <= k < c ==> #[trigger] x@[k] as nat == lanes_of(input@)[k] && x@[k]
                >= 65536,
        decreases 4 - c,
    {
        let state: u32 = read_le(input, 4 * c, 4) as u32;
        assert(lanes_of(input@)[c as int] == state);
        if state < L {
            return Err(Error::Corrupt("rANS state out of range"));
        }
        x[c] = state;
        c = c + 1;
    }
    assert(head_check(input@) == Ok::<(), Error>(())) by {
        assert forall|k: int| 0 <= k < 4 implies #[trigger] lanes_of(input@)[k] >= 65536 by {
            assert(x@[k] as nat == lanes_of(input@)[k]);
        }
    }
    let table = build_table(f);
    let ghost goal = decoded_all(input@, freq, n as nat);
    let ghost mut states = lanes_of(input@);
    let ghost mut at: nat = 16;
    let mut pos: usize = 16;
    // Whether a word was missing.
    let mut short: bool = false;
    let mut i: usize = 0;
    proof {
        f.lemma_wf();
        assert(goal.bytes.take(0) =~= Seq::<u8>::empty());
        assert(start + Seq::<u8>::empty() + goal.bytes =~= start + goal.bytes);
    }
    while i < n
        invariant
            i <= n,
            freqs_ok(freq),
            start == old(out)@,
            input@.len() >= 16,
            input@.len() == input.len(),
            table@.len() == 4096,
            forall|k: int| 0 <= k < 4096 ==> slot_ok(#[trigger] table@[k], freq, k as nat),
            states.len() == 4,
            forall|k: int| 0 <= k < 4 ==> #[trigger] x@[k] as nat == states[k] && x@[k] >= 0,
            pos <= input@.len(),
            short <==> at > input@.len(),
            !short ==> at == pos,
            out@.len() == start.len() + i,
            goal.x == decoded_from(input@, freq, states, at, i as int, n as int).x,
            goal.pos == decoded_from(input@, freq, states, at, i as int, n as int).pos,
            start + goal.bytes == out@ + decoded_from(
                input@,
                freq,
                states,
                at,
                i as int,
                n as int,
            ).bytes,
        decreases n - i,
    {
        let lane: usize = i % 4;
        let state: u32 = x[lane];
        let e = table[(state % 4096) as usize];
        let ghost d = decoded_from(input@, freq, states, at, i as int, n as int);
        let ghost was = out@;
        proof {
            assert(x@[lane as int] as nat == states[lane as int]);
            lemma_symbol_at(freq, state as nat % 4096);
            assert(slot_ok(table@[(state % 4096) as int], freq, (state % 4096) as nat));
            assert(e.freq * (state / 4096) <= 4096 * 0xF_FFFF) by (nonlinear_arith)
                requires
                    e.freq <= 4096,
                    state / 4096 <= 0xF_FFFF,
            ;
        }
        out.push(e.symbol);
        let low: u32 = e.freq as u32 * (state / 4096) + e.bias as u32;
        assert(low as nat == taken(state as nat, freq));
        if low < L {
            // Refill 16 bits. Past the end reads as 0; the check below
            // catches it.
            let mut word: u32 = 0;
            if !short && input.len() - pos >= 2 {
                proof {
                    lemma_pow2_values();
                }
                word = read_le(input, pos, 2) as u32;
                pos = pos + 2;
            } else {
                short = true;
            }
            assert(word as nat == word_at(input@, at));
            x[lane] = low * 65536 + word;
            proof {
                at = at + 2;
            }
        } else {
            x[lane] = low;
        }
        proof {
            states = states.update(lane as int, x@[lane as int] as nat);
            let rest = decoded_from(input@, freq, states, at, i + 1, n as int);
            assert(d.bytes =~= seq![e.symbol] + rest.bytes);
            assert(was + d.bytes =~= out@ + rest.bytes);
        }
        i = i + 1;
    }
    assert(out@ + Seq::<u8>::empty() =~= out@);
    assert(states == goal.x && at == goal.pos);
    proof {
        if goal.x == idle() {
            assert(x@[0] == 65536 && x@[1] == 65536 && x@[2] == 65536 && x@[3] == 65536);
        }
    }
    // The encoder started every state at L, so a clean decode ends there.
    // This catches truncation and most damage, but it is not a checksum:
    // ANS states resynchronize, so some flipped bits decode to wrong bytes
    // and still end at L. The frame's CRC-32 is what guarantees integrity.
    if short || pos != input.len() || x[0] != L || x[1] != L || x[2] != L || x[3] != L {
        return Err(Error::Corrupt("rANS stream did not end cleanly"));
    }
    assert(states =~= idle());
    Ok(())
}

} // verus!
