//! Binary adaptive range coder, the entropy coder inside LZMA / 7-Zip.
//!
//! Huffman gives every symbol a whole number of bits, so a byte that is 99%
//! predictable still costs at least 1 bit. A range coder has no such limit:
//! it keeps an interval `[low, low + range)` and, for each bit, shrinks it
//! to the part that matches the bit's probability. Likely bits shrink it only
//! a little and cost a fraction of a bit; unlikely ones shrink it a lot. The
//! output is just enough digits of `low` to point inside the final interval.
//!
//! Everything is coded one bit at a time. Each bit has its own [`Prob`], an
//! 11-bit estimate that the bit is 0, which moves 1/32 of the way towards
//! each bit seen. A byte is coded as 8 bits walking down a binary tree
//! ([`Encoder::encode_tree`]), so each tree node learns its own probability.
//!
//! The details (32-bit range, 11-bit probabilities, the leading zero byte of
//! every stream) follow LZMA exactly, so the same coder serves the LZMA codec.
//! A carry runs back into the bytes already written.
//!
//! In contracts the encoder is an [`Interval`]: an exact lower bound with
//! unlimited digits and a width. The decoder is a [`Window`]: how far the
//! stream's digits lie above that lower bound.
pub mod fields;
pub mod layout;

use crate::error::Error;
use crate::nums::{lemma_pow2_le, lemma_pow2_values};
use vstd::arithmetic::power2::{lemma_pow2_adds, lemma_pow2_pos, lemma_pow2_unfold, pow2};
use vstd::prelude::*;

verus! {

/// Probability that the next bit is 0, scaled so 2048 means certain.
pub type Prob = u16;

/// A fresh probability: 0 and 1 equally likely.
pub const PROB_INIT: u16 = 1024;

/// Once the width drops below this, a byte is shifted out.
const TOP: u32 = 0x100_0000;

/// Neither value of the bit is impossible.
pub open spec fn prob_ok(p: u16) -> bool {
    1 <= p < 2048
}

/// Every probability of a model is usable.
pub open spec fn probs_ok(probs: Seq<u16>) -> bool {
    forall|i: int| 0 <= i < probs.len() ==> prob_ok(#[trigger] probs[i])
}

/// Every node of the tree of `n` levels at `base` is usable; its entry 0 is
/// no node.
pub open spec fn tree_probs_ok(probs: Seq<u16>, base: int, n: nat) -> bool {
    forall|i: int| base < i < base + pow2(n) ==> prob_ok(#[trigger] probs[i])
}

/// The probability after seeing `bit`: 1/32 of the way towards it.
pub open spec fn adapted(p: u16, bit: bool) -> u16 {
    if bit {
        (p - p / 32) as u16
    } else {
        (p + (2048 - p) / 32) as u16
    }
}

/// `256^n`.
pub open spec fn pow256(n: nat) -> nat
    decreases n,
{
    if n == 0 {
        1
    } else {
        256 * pow256((n - 1) as nat)
    }
}

/// A byte string read as a big-endian number.
pub open spec fn number(s: Seq<u8>) -> nat
    decreases s.len(),
{
    if s.len() == 0 {
        0
    } else {
        number(s.drop_last()) * 256 + s.last() as nat
    }
}

/// What the encoder has narrowed the stream down to: the numbers from
/// `low` up to `low + width`, written with `digits + 4` bytes.
pub ghost struct Interval {
    pub low: nat,
    pub width: nat,
    pub digits: nat,
}

/// The interval before anything is coded.
pub open spec fn whole() -> Interval {
    Interval { low: 0, width: 0xFFFF_FFFF, digits: 1 }
}

impl Interval {
    /// Wide enough to split.
    pub open spec fn ok(self) -> bool {
        0x100_0000 <= self.width < 0x1_0000_0000
    }

    /// The same numbers with one more digit.
    pub open spec fn shifted(self) -> Interval {
        Interval { low: self.low * 256, width: self.width * 256, digits: self.digits + 1 }
    }

    /// Add digits until the interval is wide enough again.
    pub open spec fn normalized(self) -> Interval
        decreases
            (if self.width < 0x100_0000 {
                0x100_0000 - self.width
            } else {
                0
            }),
    {
        if 0 < self.width < 0x100_0000 {
            self.shifted().normalized()
        } else {
            self
        }
    }

    /// The part of the interval that starts `at` above its low end.
    pub open spec fn part(self, at: nat, width: nat) -> Interval {
        Interval { low: self.low + at, width, digits: self.digits }.normalized()
    }

    /// The numbers whose first digits are those of `s`.
    pub open spec fn holds(self, s: Seq<u8>) -> bool {
        &&& s.len() >= self.digits + 4
        &&& self.low <= number(s.take(self.digits as int + 4)) < self.low + self.width
    }

    /// Everything in `self` is in `outer`.
    pub open spec fn inside(self, outer: Interval) -> bool {
        forall|s: Seq<u8>| #[trigger] self.holds(s) ==> outer.holds(s)
    }
}

/// Where a 0 bit of probability `p` ends and a 1 bit starts.
pub open spec fn bound_of(width: nat, p: u16) -> nat {
    (width / 2048) * p as nat
}

/// Coding one bit.
pub open spec fn put_bit(iv: Interval, p: u16, bit: bool) -> Interval {
    let b = bound_of(iv.width, p);
    if bit {
        iv.part(b, (iv.width - b) as nat)
    } else {
        iv.part(0, b)
    }
}

/// Coding one bit at a probability out of 65536.
pub open spec fn put_with(iv: Interval, p0: nat, bit: bool) -> Interval {
    let b = (iv.width / 65536) * p0;
    if bit {
        iv.part(b, (iv.width - b) as nat)
    } else {
        iv.part(0, b)
    }
}

/// Coding the low `n` bits of `value`, highest first, each at 1/2.
pub open spec fn put_direct(iv: Interval, value: nat, n: nat) -> Interval
    decreases n,
{
    if n == 0 {
        iv
    } else {
        let half = iv.width / 2;
        let at = if (value / pow2((n - 1) as nat)) % 2 == 1 {
            half
        } else {
            0
        };
        put_direct(iv.part(at, half), value, (n - 1) as nat)
    }
}

/// An encoder together with the probabilities of its model.
pub ghost struct Coding {
    pub iv: Interval,
    pub probs: Seq<u16>,
}

impl Coding {
    pub open spec fn ok(self) -> bool {
        self.iv.ok() && probs_ok(self.probs)
    }

    /// Code `bit` with probability number `i`, which then adapts.
    #[verifier::opaque]
    pub open spec fn bit(self, i: int, bit: bool) -> Coding {
        Coding {
            iv: put_bit(self.iv, self.probs[i], bit),
            probs: self.probs.update(i, adapted(self.probs[i], bit)),
        }
    }

    /// Code the low `n` bits of `value`, highest first, below `node` of the
    /// tree at `base`.
    pub open spec fn tree(self, base: int, node: nat, n: nat, value: nat) -> Coding
        decreases n,
    {
        if n == 0 {
            self
        } else {
            let bit = (value / pow2((n - 1) as nat)) % 2 == 1;
            self.bit(base + node, bit).tree(
                base,
                2 * node + if bit {
                    1nat
                } else {
                    0nat
                },
                (n - 1) as nat,
                value,
            )
        }
    }

    /// Code the low `n` bits of `value`, lowest first, below `node` of the
    /// tree at `base`.
    pub open spec fn reverse_tree(self, base: int, node: nat, n: nat, value: nat) -> Coding
        decreases n,
    {
        if n == 0 {
            self
        } else {
            let bit = value % 2 == 1;
            self.bit(base + node, bit).reverse_tree(
                base,
                2 * node + if bit {
                    1nat
                } else {
                    0nat
                },
                (n - 1) as nat,
                value / 2,
            )
        }
    }

    /// Code bits without a model.
    pub open spec fn direct(self, value: nat, n: nat) -> Coding {
        Coding { iv: put_direct(self.iv, value, n), probs: self.probs }
    }
}

/// What a decoder knows: its place in the input, the width of the current
/// interval and the distance of the input's digits above its low end.
pub ghost struct Window {
    pub input: Seq<u8>,
    pub pos: nat,
    pub width: nat,
    pub code: nat,
}

impl Window {
    /// The width stays within 32 bits.
    pub open spec fn ok(self) -> bool {
        &&& 0x100_0000 <= self.width < 0x1_0000_0000
        &&& self.code < 0x1_0000_0000
        &&& self.pos <= usize::MAX
        &&& self.input.len() <= usize::MAX
    }

    /// The byte at `pos`; past the end of the input it is 0.
    pub open spec fn byte(self) -> nat {
        if self.pos < self.input.len() {
            self.input[self.pos as int] as nat
        } else {
            0
        }
    }

    /// One more byte of the input.
    pub open spec fn shifted(self) -> Window {
        Window {
            input: self.input,
            pos: if self.pos < usize::MAX {
                self.pos + 1
            } else {
                self.pos
            },
            width: self.width * 256,
            code: (self.code * 256 + self.byte()) % 0x1_0000_0000,
        }
    }

    /// Read bytes until the interval is wide enough again.
    pub open spec fn normalized(self) -> Window
        decreases
            (if self.width < 0x100_0000 {
                0x100_0000 - self.width
            } else {
                0
            }),
    {
        if 0 < self.width < 0x100_0000 {
            self.shifted().normalized()
        } else {
            self
        }
    }

    /// Follow the encoder into a part of its interval.
    pub open spec fn part(self, at: nat, width: nat) -> Window {
        Window { input: self.input, pos: self.pos, width, code: (self.code - at) as nat }.normalized()
    }

    /// This window is where a decoder of `s` is when the encoder was at `iv`.
    pub open spec fn follows(self, iv: Interval, s: Seq<u8>) -> bool {
        &&& self.input == s
        &&& self.pos == iv.digits + 4
        &&& self.width == iv.width
        &&& iv.holds(s)
        &&& self.code + iv.low == number(s.take(self.pos as int))
        &&& s.len() <= usize::MAX
    }
}

/// Decoding one bit: the bit and the window after it.
pub open spec fn get_bit(w: Window, p: u16) -> (bool, Window) {
    let b = bound_of(w.width, p);
    if w.code < b {
        (false, w.part(0, b))
    } else {
        (true, w.part(b, (w.width - b) as nat))
    }
}

/// Decoding one bit at a probability out of 65536.
pub open spec fn get_with(w: Window, p0: nat) -> (bool, Window) {
    let b = (w.width / 65536) * p0;
    if w.code < b {
        (false, w.part(0, b))
    } else {
        (true, w.part(b, (w.width - b) as nat))
    }
}

/// Decoding `n` bits at 1/2 each, appended to `acc`.
pub open spec fn get_direct(w: Window, acc: nat, n: nat) -> (nat, Window)
    decreases n,
{
    if n == 0 {
        (acc, w)
    } else {
        let half = w.width / 2;
        if w.code >= half {
            get_direct(w.part(half, half), 2 * acc + 1, (n - 1) as nat)
        } else {
            get_direct(w.part(0, half), 2 * acc, (n - 1) as nat)
        }
    }
}

/// A decoder together with the probabilities of its model.
pub ghost struct Decoding {
    pub win: Window,
    pub probs: Seq<u16>,
}

impl Decoding {
    pub open spec fn ok(self) -> bool {
        self.win.ok() && probs_ok(self.probs)
    }

    /// This decoder is where the encoder was.
    pub open spec fn follows(self, c: Coding, s: Seq<u8>) -> bool {
        self.win.follows(c.iv, s) && self.probs == c.probs
    }

    /// Decode one bit with probability number `i`, which then adapts.
    #[verifier::opaque]
    pub open spec fn bit(self, i: int) -> (bool, Decoding) {
        let (bit, win) = get_bit(self.win, self.probs[i]);
        (bit, Decoding { win, probs: self.probs.update(i, adapted(self.probs[i], bit)) })
    }

    /// Decode `n` steps down the tree at `base`, from `node`.
    pub open spec fn tree(self, base: int, node: nat, n: nat) -> (nat, Decoding)
        decreases n,
    {
        if n == 0 {
            (node, self)
        } else {
            let (bit, d) = self.bit(base + node);
            d.tree(
                base,
                2 * node + if bit {
                    1nat
                } else {
                    0nat
                },
                (n - 1) as nat,
            )
        }
    }

    /// Decode an `n`-bit value from the reverse tree at `base`, from `node`.
    pub open spec fn reverse_tree(self, base: int, node: nat, n: nat) -> (nat, Decoding)
        decreases n,
    {
        if n == 0 {
            (0, self)
        } else {
            let (bit, d) = self.bit(base + node);
            let b: nat = if bit {
                1
            } else {
                0
            };
            let (rest, e) = d.reverse_tree(base, 2 * node + b, (n - 1) as nat);
            (b + 2 * rest, e)
        }
    }

    /// Decode `n` bits without a model.
    pub open spec fn direct(self, n: nat) -> (nat, Decoding) {
        let (v, win) = get_direct(self.win, 0, n);
        (v, Decoding { win, probs: self.probs })
    }
}

pub proof fn lemma_adapted(p: u16, bit: bool)
    requires
        prob_ok(p),
    ensures
        prob_ok(adapted(p, bit)),
{
}

pub proof fn lemma_number_push(s: Seq<u8>, x: u8)
    ensures
        number(s.push(x)) == number(s) * 256 + x as nat,
{
    assert(s.push(x).drop_last() =~= s);
}

/// Four more bytes at the end of a number.
proof fn lemma_number_four(s: Seq<u8>, a: u8, b: u8, c: u8, d: u8)
    ensures
        number(s.push(a).push(b).push(c).push(d)) == number(s) * 0x1_0000_0000 + a * 0x100_0000 + b
            * 0x1_0000 + c * 0x100 + d,
{
    lemma_number_push(s, a);
    lemma_number_push(s.push(a), b);
    lemma_number_push(s.push(a).push(b), c);
    lemma_number_push(s.push(a).push(b).push(c), d);
}

pub proof fn lemma_normalized(iv: Interval)
    requires
        0 < iv.width < 0x1_0000_0000,
    ensures
        iv.normalized().ok(),
        iv.normalized().inside(iv),
    decreases
        (if iv.width < 0x100_0000 {
            0x100_0000 - iv.width
        } else {
            0
        }),
{
    if iv.width < 0x100_0000 {
        lemma_normalized(iv.shifted());
        let d = iv.digits as int;
        assert forall|s: Seq<u8>| #[trigger] iv.shifted().holds(s) implies iv.holds(s) by {
            assert(s.take(d + 5).drop_last() =~= s.take(d + 4));
        }
        assert forall|s: Seq<u8>| #[trigger] iv.normalized().holds(s) implies iv.holds(s) by {
            assert(iv.shifted().holds(s));
        }
    }
}

/// A part of an interval lies inside it and can be split again.
pub proof fn lemma_part(iv: Interval, at: nat, width: nat)
    requires
        iv.ok(),
        0 < width,
        at + width <= iv.width,
    ensures
        iv.part(at, width).ok(),
        iv.part(at, width).inside(iv),
{
    let cut = Interval { low: iv.low + at, width, digits: iv.digits };
    lemma_normalized(cut);
    assert forall|s: Seq<u8>| #[trigger] iv.part(at, width).holds(s) implies iv.holds(s) by {
        assert(cut.holds(s));
    }
}

proof fn lemma_follow_normalized(w: Window, iv: Interval, s: Seq<u8>)
    requires
        w.follows(iv, s),
        0 < iv.width < 0x1_0000_0000,
        iv.normalized().holds(s),
    ensures
        w.normalized().follows(iv.normalized(), s),
    decreases
        (if iv.width < 0x100_0000 {
            0x100_0000 - iv.width
        } else {
            0
        }),
{
    if iv.width < 0x100_0000 {
        lemma_normalized(iv.shifted());
        assert(iv.shifted().holds(s));
        let d = iv.digits as int;
        assert(s.take(d + 5).drop_last() =~= s.take(d + 4));
        assert(s.take(d + 5).last() == s[d + 4]);
        lemma_follow_normalized(w.shifted(), iv.shifted(), s);
    }
}

/// A decoder finds its stream in the part that the encoder chose, and
/// follows it there.
pub proof fn lemma_follow_part(w: Window, iv: Interval, at: nat, width: nat, s: Seq<u8>)
    requires
        w.follows(iv, s),
        iv.ok(),
        0 < width,
        at + width <= iv.width,
        iv.part(at, width).holds(s),
    ensures
        at <= w.code < at + width,
        w.part(at, width).follows(iv.part(at, width), s),
{
    let cut = Interval { low: iv.low + at, width, digits: iv.digits };
    lemma_normalized(cut);
    assert(cut.holds(s));
    let v = Window { input: w.input, pos: w.pos, width, code: (w.code - at) as nat };
    lemma_follow_normalized(v, cut, s);
}

pub proof fn lemma_bound(width: nat, p: u16)
    requires
        0x100_0000 <= width < 0x1_0000_0000,
        prob_ok(p),
    ensures
        0 < bound_of(width, p) < width,
{
    let q = width / 2048;
    assert(0 < q * p < width) by (nonlinear_arith)
        requires
            q >= 8192,
            q * 2048 <= width,
            1 <= p < 2048,
    ;
}

pub proof fn lemma_bound_with(width: nat, p0: nat)
    requires
        0x100_0000 <= width < 0x1_0000_0000,
        1 <= p0 < 65536,
    ensures
        0 < (width / 65536) * p0 < width,
{
    let q = width / 65536;
    assert(0 < q * p0 < width) by (nonlinear_arith)
        requires
            q >= 256,
            q * 65536 <= width,
            1 <= p0 < 65536,
    ;
}

/// Coding a bit keeps a coder usable and narrows its interval.
pub proof fn lemma_bit_ok(c: Coding, i: int, bit: bool)
    requires
        c.iv.ok(),
        0 <= i < c.probs.len(),
        prob_ok(c.probs[i]),
    ensures
        c.bit(i, bit).iv.ok(),
        probs_ok(c.probs) ==> c.bit(i, bit).ok(),
        c.bit(i, bit).iv.inside(c.iv),
        c.bit(i, bit).probs.len() == c.probs.len(),
{
    reveal(Coding::bit);
    let p = c.probs[i];
    let b = bound_of(c.iv.width, p);
    lemma_bound(c.iv.width, p);
    lemma_adapted(p, bit);
    if bit {
        lemma_part(c.iv, b, (c.iv.width - b) as nat);
    } else {
        lemma_part(c.iv, 0, b);
    }
}

/// A decoder that follows the encoder decodes the bit that was coded and
/// still follows it.
pub proof fn bit_decodes(d: Decoding, c: Coding, i: int, bit: bool, s: Seq<u8>)
    requires
        d.follows(c, s),
        c.ok(),
        0 <= i < c.probs.len(),
        c.bit(i, bit).iv.holds(s),
    ensures
        d.bit(i).0 == bit,
        d.bit(i).1.follows(c.bit(i, bit), s),
{
    reveal(Coding::bit);
    reveal(Decoding::bit);
    let p = c.probs[i];
    let b = bound_of(c.iv.width, p);
    lemma_bound(c.iv.width, p);
    if bit {
        lemma_follow_part(d.win, c.iv, b, (c.iv.width - b) as nat, s);
    } else {
        lemma_follow_part(d.win, c.iv, 0, b, s);
    }
}

/// Coding a bit at a probability out of 65536 narrows the interval.
pub proof fn lemma_with_ok(iv: Interval, p0: nat, bit: bool)
    requires
        iv.ok(),
        1 <= p0 < 65536,
    ensures
        put_with(iv, p0, bit).ok(),
        put_with(iv, p0, bit).inside(iv),
{
    let b = (iv.width / 65536) * p0;
    lemma_bound_with(iv.width, p0);
    if bit {
        lemma_part(iv, b, (iv.width - b) as nat);
    } else {
        lemma_part(iv, 0, b);
    }
}

/// A bit coded at a probability out of 65536 is decoded again.
pub proof fn bit_at_given_odds_decodes(w: Window, iv: Interval, p0: nat, bit: bool, s: Seq<u8>)
    requires
        w.follows(iv, s),
        iv.ok(),
        1 <= p0 < 65536,
        put_with(iv, p0, bit).holds(s),
    ensures
        get_with(w, p0).0 == bit,
        get_with(w, p0).1.follows(put_with(iv, p0, bit), s),
{
    let b = (iv.width / 65536) * p0;
    lemma_bound_with(iv.width, p0);
    if bit {
        lemma_follow_part(w, iv, b, (iv.width - b) as nat, s);
    } else {
        lemma_follow_part(w, iv, 0, b, s);
    }
}

pub proof fn lemma_direct_ok(iv: Interval, value: nat, n: nat)
    requires
        iv.ok(),
    ensures
        put_direct(iv, value, n).ok(),
        put_direct(iv, value, n).inside(iv),
    decreases n,
{
    if n > 0 {
        let half = iv.width / 2;
        let at = if (value / pow2((n - 1) as nat)) % 2 == 1 {
            half
        } else {
            0
        };
        lemma_part(iv, at, half);
        let next = iv.part(at, half);
        lemma_direct_ok(next, value, (n - 1) as nat);
        assert forall|s: Seq<u8>| #[trigger] put_direct(iv, value, n).holds(s) implies iv.holds(
            s,
        ) by {
            assert(next.holds(s));
        }
    }
}

/// Splitting off the highest of `n` bits.
pub proof fn lemma_top_bit(value: nat, n: nat)
    requires
        n > 0,
    ensures
        value % pow2(n) == ((value / pow2((n - 1) as nat)) % 2) * pow2((n - 1) as nat) + value
            % pow2((n - 1) as nat),
{
    let m = (n - 1) as nat;
    lemma_pow2_pos(m);
    lemma_pow2_unfold(n);
    let p = pow2(m) as int;
    vstd::arithmetic::div_mod::lemma_mod_breakdown(value as int, p, 2);
    assert(p * 2 == pow2(n));
    assert(p * ((value as int / p) % 2) == ((value as int / p) % 2) * p) by (nonlinear_arith);
}

/// Directly coded bits are decoded again.
pub proof fn direct_bits_decode(w: Window, iv: Interval, value: nat, n: nat, acc: nat, s: Seq<u8>)
    requires
        w.follows(iv, s),
        iv.ok(),
        put_direct(iv, value, n).holds(s),
    ensures
        get_direct(w, acc, n).0 == acc * pow2(n) + value % pow2(n),
        get_direct(w, acc, n).1.follows(put_direct(iv, value, n), s),
    decreases n,
{
    lemma_pow2_values();
    if n > 0 {
        let m = (n - 1) as nat;
        let half = iv.width / 2;
        let bit = (value / pow2(m)) % 2;
        let at = if bit == 1 {
            half
        } else {
            0
        };
        lemma_part(iv, at, half);
        let next = iv.part(at, half);
        lemma_direct_ok(next, value, m);
        assert(next.holds(s));
        lemma_follow_part(w, iv, at, half, s);
        direct_bits_decode(w.part(at, half), next, value, m, 2 * acc + bit, s);
        lemma_top_bit(value, n);
        lemma_pow2_unfold(n);
        assert((2 * acc + bit) * pow2(m) == acc * pow2(n) + bit * pow2(m)) by (nonlinear_arith)
            requires
                pow2(n) == 2 * pow2(m),
        ;
    } else {
        assert(acc * pow2(n) == acc) by (nonlinear_arith)
            requires
                pow2(n) == 1,
        ;
    }
}

/// Coding with a tree keeps a coder usable and narrows its interval. The
/// walk starts at a node on level `k` of a tree with `k + n` levels.
pub proof fn lemma_tree_ok(c: Coding, base: int, node: nat, n: nat, value: nat, k: nat)
    requires
        c.ok(),
        0 <= base,
        node < pow2(k + 1),
        base + pow2(k + n) <= c.probs.len(),
    ensures
        c.tree(base, node, n, value).ok(),
        c.tree(base, node, n, value).iv.inside(c.iv),
        c.tree(base, node, n, value).probs.len() == c.probs.len(),
    decreases n,
{
    if n > 0 {
        let bit = (value / pow2((n - 1) as nat)) % 2 == 1;
        lemma_pow2_le(k + 1, k + n);
        lemma_pow2_unfold(k + 2);
        lemma_bit_ok(c, base + node, bit);
        let d = c.bit(base + node, bit);
        let next = 2 * node + if bit {
            1nat
        } else {
            0nat
        };
        assert(k + n == (k + 1) + (n - 1));
        lemma_tree_ok(d, base, next, (n - 1) as nat, value, k + 1);
        assert forall|s: Seq<u8>| #[trigger]
            c.tree(base, node, n, value).iv.holds(s) implies c.iv.holds(s) by {
            assert(d.iv.holds(s));
        }
    }
}

/// A value coded with a tree is decoded again.
pub proof fn tree_value_decodes(
    d: Decoding,
    c: Coding,
    base: int,
    node: nat,
    n: nat,
    value: nat,
    k: nat,
    s: Seq<u8>,
)
    requires
        d.follows(c, s),
        c.ok(),
        0 <= base,
        node < pow2(k + 1),
        base + pow2(k + n) <= c.probs.len(),
        c.tree(base, node, n, value).iv.holds(s),
    ensures
        d.tree(base, node, n).0 == node * pow2(n) + value % pow2(n),
        d.tree(base, node, n).1.follows(c.tree(base, node, n, value), s),
    decreases n,
{
    lemma_pow2_values();
    if n > 0 {
        let m = (n - 1) as nat;
        let b = (value / pow2(m)) % 2;
        let bit = b == 1;
        lemma_pow2_le(k + 1, k + n);
        lemma_pow2_unfold(k + 2);
        lemma_bit_ok(c, base + node, bit);
        let c1 = c.bit(base + node, bit);
        let next = 2 * node + b;
        lemma_tree_ok(c1, base, next, m, value, k + 1);
        assert(c1.iv.holds(s));
        bit_decodes(d, c, base + node, bit, s);
        tree_value_decodes(d.bit(base + node).1, c1, base, next, m, value, k + 1, s);
        lemma_top_bit(value, n);
        lemma_pow2_unfold(n);
        assert((2 * node + b) * pow2(m) == node * pow2(n) + b * pow2(m)) by (nonlinear_arith)
            requires
                pow2(n) == 2 * pow2(m),
        ;
    } else {
        assert(node * pow2(n) == node) by (nonlinear_arith)
            requires
                pow2(n) == 1,
        ;
    }
}

pub proof fn lemma_reverse_tree_ok(c: Coding, base: int, node: nat, n: nat, value: nat, k: nat)
    requires
        c.ok(),
        0 <= base,
        node < pow2(k + 1),
        base + pow2(k + n) <= c.probs.len(),
    ensures
        c.reverse_tree(base, node, n, value).ok(),
        c.reverse_tree(base, node, n, value).iv.inside(c.iv),
        c.reverse_tree(base, node, n, value).probs.len() == c.probs.len(),
    decreases n,
{
    if n > 0 {
        let bit = value % 2 == 1;
        lemma_pow2_le(k + 1, k + n);
        lemma_pow2_unfold(k + 2);
        lemma_bit_ok(c, base + node, bit);
        let d = c.bit(base + node, bit);
        let next = 2 * node + if bit {
            1nat
        } else {
            0nat
        };
        assert(k + n == (k + 1) + (n - 1));
        lemma_reverse_tree_ok(d, base, next, (n - 1) as nat, value / 2, k + 1);
        assert forall|s: Seq<u8>| #[trigger]
            c.reverse_tree(base, node, n, value).iv.holds(s) implies c.iv.holds(s) by {
            assert(d.iv.holds(s));
        }
    }
}

/// A value coded with a reverse tree is decoded again.
pub proof fn reverse_tree_value_decodes(
    d: Decoding,
    c: Coding,
    base: int,
    node: nat,
    n: nat,
    value: nat,
    k: nat,
    s: Seq<u8>,
)
    requires
        d.follows(c, s),
        c.ok(),
        0 <= base,
        node < pow2(k + 1),
        base + pow2(k + n) <= c.probs.len(),
        c.reverse_tree(base, node, n, value).iv.holds(s),
    ensures
        d.reverse_tree(base, node, n).0 == value % pow2(n),
        d.reverse_tree(base, node, n).1.follows(c.reverse_tree(base, node, n, value), s),
    decreases n,
{
    lemma_pow2_values();
    if n > 0 {
        let m = (n - 1) as nat;
        let b = value % 2;
        let bit = b == 1;
        lemma_pow2_le(k + 1, k + n);
        lemma_pow2_unfold(k + 2);
        lemma_bit_ok(c, base + node, bit);
        let c1 = c.bit(base + node, bit);
        let next = 2 * node + b;
        lemma_reverse_tree_ok(c1, base, next, m, value / 2, k + 1);
        assert(c1.iv.holds(s));
        bit_decodes(d, c, base + node, bit, s);
        reverse_tree_value_decodes(d.bit(base + node).1, c1, base, next, m, value / 2, k + 1, s);
        lemma_pow2_unfold(n);
        lemma_pow2_pos(m);
        vstd::arithmetic::div_mod::lemma_mod_breakdown(value as int, 2, pow2(m) as int);
    }
}

pub proof fn lemma_pow256(n: nat)
    ensures
        pow256(n) > 0,
    decreases n,
{
    if n > 0 {
        lemma_pow256((n - 1) as nat);
    }
}

proof fn lemma_number_bound(s: Seq<u8>)
    ensures
        number(s) < pow256(s.len()),
    decreases s.len(),
{
    if s.len() > 0 {
        lemma_number_bound(s.drop_last());
    }
}

/// Adding 1 to a number that ends in `k` bytes 0xFF carries past them.
proof fn lemma_carry(s: Seq<u8>, t: Seq<u8>, k: nat)
    requires
        s.len() == t.len(),
        k < s.len(),
        forall|i: int| s.len() - k <= i < s.len() ==> s[i] == 0xFF && t[i] == 0,
        forall|i: int| 0 <= i < s.len() - k - 1 ==> s[i] == t[i],
        t[s.len() - k - 1] == s[s.len() - k - 1] + 1,
    ensures
        number(t) == number(s) + 1,
    decreases k,
{
    if k == 0 {
        assert(s.drop_last() =~= t.drop_last());
    } else {
        lemma_carry(s.drop_last(), t.drop_last(), (k - 1) as nat);
    }
}

proof fn lemma_all_ones(s: Seq<u8>)
    requires
        forall|i: int| 0 <= i < s.len() ==> s[i] == 0xFF,
    ensures
        number(s) + 1 == pow256(s.len()),
    decreases s.len(),
{
    if s.len() > 0 {
        lemma_all_ones(s.drop_last());
    }
}

/// Writes bits into a range-coded byte stream.
pub struct Encoder {
    /// Bottom of the interval: the bytes already written...
    out: Vec<u8>,
    /// ...followed by these 32 bits.
    low: u32,
    range: u32,
}

impl View for Encoder {
    type V = Interval;

    closed spec fn view(&self) -> Interval {
        Interval {
            low: number(self.out@) * 0x1_0000_0000 + self.low as nat,
            width: self.range as nat,
            digits: self.out@.len(),
        }
    }
}

impl Default for Encoder {
    fn default() -> (r: Self)
        ensures
            r.wf(),
            r@ == whole(),
    {
        Self::new()
    }
}

impl Encoder {
    /// The interval never reaches past what the written bytes can count to.
    closed spec fn fits(&self) -> bool {
        self@.low + self@.width <= pow256(self.out@.len()) * 0x1_0000_0000
    }

    /// The interval is wide enough and a carry always finds room.
    pub closed spec fn wf(&self) -> bool {
        &&& self.fits()
        &&& self@.ok()
    }

    /// The interval of a usable encoder can be split.
    pub proof fn lemma_wf(&self)
        requires
            self.wf(),
        ensures
            self@.ok(),
    {
    }

    pub fn new() -> (r: Self)
        ensures
            r.wf(),
            r@ == whole(),
    {
        Self::with_capacity(0)
    }

    pub fn with_capacity(bytes: usize) -> (r: Self)
        ensures
            r.wf(),
            r@ == whole(),
    {
        let mut out: Vec<u8> = Vec::with_capacity(bytes);
        out.push(0);
        let r = Self { out, low: 0, range: u32::MAX };
        proof {
            reveal_with_fuel(pow256, 2);
            reveal_with_fuel(number, 2);
        }
        r
    }

    /// Add 1 to the number that the written bytes make.
    fn carry(&mut self)
        requires
            number(old(self).out@) + 1 < pow256(old(self).out@.len()),
        ensures
            number(final(self).out@) == number(old(self).out@) + 1,
            final(self).out@.len() == old(self).out@.len(),
            final(self).low == old(self).low,
            final(self).range == old(self).range,
    {
        let ghost s = self.out@;
        let mut i: usize = self.out.len();
        proof {
            reveal_with_fuel(pow256, 1);
            reveal_with_fuel(number, 1);
        }
        while i > 0 && self.out[i - 1] == 0xFF
            invariant
                i <= s.len(),
                self.out@.len() == s.len(),
                number(s) + 1 < pow256(s.len()),
                forall|j: int| i <= j < s.len() ==> s[j] == 0xFF,
                forall|j: int| i <= j < s.len() ==> self.out@[j] == 0,
                forall|j: int| 0 <= j < i ==> s[j] == self.out@[j],
                self.low == old(self).low,
                self.range == old(self).range,
            decreases i,
        {
            i = i - 1;
            self.out[i] = 0;
        }
        proof {
            if i == 0 {
                lemma_all_ones(s);
            }
        }
        let b: u8 = self.out[i - 1];
        let ghost t = self.out@;
        self.out[i - 1] = b + 1;
        proof {
            assert(self.out@ == t.update(i - 1, (b + 1) as u8));
            lemma_carry(s, self.out@, (s.len() - i) as nat);
        }
    }

    /// Move the top byte of `low` out.
    #[inline]
    fn shift_low(&mut self)
        requires
            old(self).fits(),
            old(self).range < TOP,
        ensures
            final(self).fits(),
            final(self)@ == old(self)@.shifted(),
    {
        let top: u8 = (self.low / 0x100_0000) as u8;
        proof {
            lemma_number_push(self.out@, top);
            lemma_pow256(self.out@.len());
        }
        self.out.push(top);
        self.low = (self.low % 0x100_0000) * 256;
        self.range = self.range * 256;
    }

    /// Narrow the interval to the part of `width` that starts at `at`.
    #[inline]
    fn narrow(&mut self, at: u32, width: u32)
        requires
            old(self).wf(),
            0 < width,
            at + width <= old(self)@.width,
        ensures
            final(self).wf(),
            final(self)@ == old(self)@.part(at as nat, width as nat),
    {
        let ghost target = self@.part(at as nat, width as nat);
        let ghost cut = Interval {
            low: self@.low + at as nat,
            width: width as nat,
            digits: self@.digits,
        };
        proof {
            lemma_part(self@, at as nat, width as nat);
        }
        let sum: u64 = self.low as u64 + at as u64;
        self.range = width;
        if sum >= 0x1_0000_0000 {
            self.carry();
            self.low = (sum - 0x1_0000_0000) as u32;
        } else {
            self.low = sum as u32;
        }
        assert(self@ == cut);
        while self.range < TOP
            invariant
                0 < self.range,
                self.fits(),
                self@.normalized() == target,
                target.ok(),
            decreases
                (if self.range < TOP {
                    0x100_0000 - self.range
                } else {
                    0
                }),
        {
            self.shift_low();
        }
    }

    /// Code one bit with an adaptive probability, then update it.
    #[inline]
    pub fn encode_bit(&mut self, prob: &mut Prob, bit: u32)
        requires
            old(self).wf(),
            prob_ok(*old(prob)),
        ensures
            final(self).wf(),
            final(self)@ == put_bit(old(self)@, *old(prob), bit != 0),
            *final(prob) == adapted(*old(prob), bit != 0),
    {
        proof {
            lemma_bound(self.range as nat, *prob);
            lemma_adapted(*prob, bit != 0);
        }
        let bound: u32 = (self.range / 2048) * (*prob as u32);
        if bit == 0 {
            self.narrow(0, bound);
            *prob = *prob + (2048 - *prob) / 32;
        } else {
            self.narrow(bound, self.range - bound);
            *prob = *prob - *prob / 32;
        }
    }

    /// Code one bit with a probability the caller manages: `p0` is the
    /// chance that `bit` is 0, out of 65536, and must be in `1..=65535`.
    /// This lets models richer than [`Prob`] drive the coder.
    #[inline]
    pub fn encode_with(&mut self, p0: u32, bit: u32)
        requires
            old(self).wf(),
            1 <= p0 < 65536,
        ensures
            final(self).wf(),
            final(self)@ == put_with(old(self)@, p0 as nat, bit != 0),
    {
        proof {
            lemma_bound_with(self.range as nat, p0 as nat);
        }
        let bound: u32 = (self.range / 65536) * p0;
        if bit == 0 {
            self.narrow(0, bound);
        } else {
            self.narrow(bound, self.range - bound);
        }
    }

    /// Code the low `bits` bits of `value`, most significant first, each at
    /// probability 1/2. For values that don't compress, like LZMA's high
    /// distance bits.
    pub fn encode_direct(&mut self, value: u32, bits: u32)
        requires
            old(self).wf(),
            bits <= 32,
        ensures
            final(self).wf(),
            final(self)@ == put_direct(old(self)@, value as nat, bits as nat),
    {
        let ghost target = put_direct(self@, value as nat, bits as nat);
        let mut left: u32 = bits;
        while left > 0
            invariant
                self.wf(),
                left <= 32,
                put_direct(self@, value as nat, left as nat) == target,
            decreases left,
        {
            left = left - 1;
            let half: u32 = self.range / 2;
            if bit_at(value, left) {
                self.narrow(half, half);
            } else {
                self.narrow(0, half);
            }
        }
    }

    /// Code one bit with entry `i` of a model.
    #[inline]
    pub fn encode_at(&mut self, probs: &mut [Prob], i: usize, bit: bool)
        requires
            old(self).wf(),
            i < old(probs)@.len(),
            prob_ok(old(probs)@[i as int]),
        ensures
            final(self).wf(),
            prob_ok(final(probs)@[i as int]),
            final(probs)@ == old(probs)@.update(i as int, final(probs)@[i as int]),
            probs_ok(old(probs)@) ==> probs_ok(final(probs)@),
            (Coding { iv: final(self)@, probs: final(probs)@ }) == (Coding {
                iv: old(self)@,
                probs: old(probs)@,
            }).bit(i as int, bit),
    {
        proof {
            reveal(Coding::bit);
            lemma_bit_ok(Coding { iv: self@, probs: probs@ }, i as int, bit);
        }
        let mut p: Prob = probs[i];
        self.encode_bit(
            &mut p,
            if bit {
                1
            } else {
                0
            },
        );
        probs[i] = p;
    }

    /// [`encode_tree`](Self::encode_tree) for the tree that starts at entry
    /// `base` of a larger model.
    #[inline]
    pub fn encode_tree_at(&mut self, probs: &mut [Prob], base: usize, bits: u32, value: u32)
        requires
            old(self).wf(),
            tree_probs_ok(old(probs)@, base as int, bits as nat),
            bits < 32,
            base + pow2(bits as nat) <= old(probs)@.len(),
        ensures
            final(self).wf(),
            tree_probs_ok(final(probs)@, base as int, bits as nat),
            probs_ok(old(probs)@) ==> probs_ok(final(probs)@),
            final(probs)@.len() == old(probs)@.len(),
            (Coding { iv: final(self)@, probs: final(probs)@ }) == (Coding {
                iv: old(self)@,
                probs: old(probs)@,
            }).tree(base as int, 1, bits as nat, value as nat),
    {
        let ghost target = (Coding { iv: self@, probs: probs@ }).tree(
            base as int,
            1,
            bits as nat,
            value as nat,
        );
        let mut node: usize = 1;
        let mut left: u32 = bits;
        proof {
            lemma_pow2_values();
        }
        while left > 0
            invariant
                self.wf(),
                tree_probs_ok(probs@, base as int, bits as nat),
                probs_ok(old(probs)@) ==> probs_ok(probs@),
                left <= bits < 32,
                base + pow2(bits as nat) <= probs@.len(),
                probs@.len() == old(probs)@.len(),
                1 <= node < pow2((bits - left + 1) as nat),
                (Coding { iv: self@, probs: probs@ }).tree(
                    base as int,
                    node as nat,
                    left as nat,
                    value as nat,
                ) == target,
            decreases left,
        {
            proof {
                lemma_pow2_le((bits - left + 1) as nat, bits as nat);
                lemma_pow2_unfold((bits - left + 2) as nat);
                lemma_pow2_le((bits - left + 2) as nat, 32);
                lemma_pow2_values();
            }
            left = left - 1;
            let bit: bool = bit_at(value, left);
            assert(probs@.len() == probs.len());
            self.encode_at(probs, base + node, bit);
            if bit {
                node = 2 * node + 1;
            } else {
                node = 2 * node;
            }
        }
    }

    /// Code a `bits`-bit value as a walk down a binary tree, most
    /// significant bit first. `probs` needs `1 << bits` entries (index 0 is
    /// unused); node `n`'s children are `2n` and `2n + 1`.
    #[inline]
    pub fn encode_tree(&mut self, probs: &mut [Prob], bits: u32, value: u32)
        requires
            old(self).wf(),
            tree_probs_ok(old(probs)@, 0, bits as nat),
            bits < 32,
            pow2(bits as nat) <= old(probs)@.len(),
        ensures
            final(self).wf(),
            tree_probs_ok(final(probs)@, 0, bits as nat),
            probs_ok(old(probs)@) ==> probs_ok(final(probs)@),
            final(probs)@.len() == old(probs)@.len(),
            (Coding { iv: final(self)@, probs: final(probs)@ }) == (Coding {
                iv: old(self)@,
                probs: old(probs)@,
            }).tree(0, 1, bits as nat, value as nat),
    {
        self.encode_tree_at(probs, 0, bits, value);
    }

    /// [`encode_reverse_tree`](Self::encode_reverse_tree) for the tree that
    /// starts at entry `base` of a larger model.
    #[inline]
    pub fn encode_reverse_tree_at(&mut self, probs: &mut [Prob], base: usize, bits: u32, value: u32)
        requires
            old(self).wf(),
            tree_probs_ok(old(probs)@, base as int, bits as nat),
            bits < 32,
            base + pow2(bits as nat) <= old(probs)@.len(),
        ensures
            final(self).wf(),
            tree_probs_ok(final(probs)@, base as int, bits as nat),
            probs_ok(old(probs)@) ==> probs_ok(final(probs)@),
            final(probs)@.len() == old(probs)@.len(),
            (Coding { iv: final(self)@, probs: final(probs)@ }) == (Coding {
                iv: old(self)@,
                probs: old(probs)@,
            }).reverse_tree(base as int, 1, bits as nat, value as nat),
    {
        let ghost target = (Coding { iv: self@, probs: probs@ }).reverse_tree(
            base as int,
            1,
            bits as nat,
            value as nat,
        );
        let mut node: usize = 1;
        let mut left: u32 = bits;
        let mut rest: u32 = value;
        proof {
            lemma_pow2_values();
        }
        while left > 0
            invariant
                self.wf(),
                tree_probs_ok(probs@, base as int, bits as nat),
                probs_ok(old(probs)@) ==> probs_ok(probs@),
                left <= bits < 32,
                base + pow2(bits as nat) <= probs@.len(),
                probs@.len() == old(probs)@.len(),
                1 <= node < pow2((bits - left + 1) as nat),
                (Coding { iv: self@, probs: probs@ }).reverse_tree(
                    base as int,
                    node as nat,
                    left as nat,
                    rest as nat,
                ) == target,
            decreases left,
        {
            proof {
                lemma_pow2_le((bits - left + 1) as nat, bits as nat);
                lemma_pow2_unfold((bits - left + 2) as nat);
                lemma_pow2_le((bits - left + 2) as nat, 32);
                lemma_pow2_values();
            }
            left = left - 1;
            let bit: bool = rest % 2 == 1;
            rest = rest / 2;
            assert(probs@.len() == probs.len());
            self.encode_at(probs, base + node, bit);
            if bit {
                node = 2 * node + 1;
            } else {
                node = 2 * node;
            }
        }
    }

    /// Like [`encode_tree`](Self::encode_tree) but least significant bit
    /// first. LZMA codes the low bits of distances this way.
    #[inline]
    pub fn encode_reverse_tree(&mut self, probs: &mut [Prob], bits: u32, value: u32)
        requires
            old(self).wf(),
            tree_probs_ok(old(probs)@, 0, bits as nat),
            bits < 32,
            pow2(bits as nat) <= old(probs)@.len(),
        ensures
            final(self).wf(),
            tree_probs_ok(final(probs)@, 0, bits as nat),
            probs_ok(old(probs)@) ==> probs_ok(final(probs)@),
            final(probs)@.len() == old(probs)@.len(),
            (Coding { iv: final(self)@, probs: final(probs)@ }) == (Coding {
                iv: old(self)@,
                probs: old(probs)@,
            }).reverse_tree(0, 1, bits as nat, value as nat),
    {
        self.encode_reverse_tree_at(probs, 0, bits, value);
    }

    /// Flush the interval and return the stream: the digits of its low end.
    pub fn finish(self) -> (r: Vec<u8>)
        requires
            self.wf(),
        ensures
            r@.len() == self@.digits + 4,
            number(r@) == self@.low,
            self@.holds(r@),
    {
        let mut out: Vec<u8> = self.out;
        let low: u32 = self.low;
        let ghost o = out@;
        let b3: u8 = (low / 0x100_0000) as u8;
        let b2: u8 = ((low / 0x1_0000) % 256) as u8;
        let b1: u8 = ((low / 0x100) % 256) as u8;
        let b0: u8 = (low % 256) as u8;
        assert(b3 * 0x100_0000 + b2 * 0x1_0000 + b1 * 0x100 + b0 == low);
        proof {
            lemma_number_four(o, b3, b2, b1, b0);
        }
        out.push(b3);
        out.push(b2);
        out.push(b1);
        out.push(b0);
        proof {
            assert(out@.take(out@.len() as int) =~= out@);
        }
        out
    }
}

/// Bit `i` of `value`.
#[inline]
pub fn bit_at(value: u32, i: u32) -> (r: bool)
    requires
        i < 32,
    ensures
        r == ((value as nat / pow2(i as nat)) % 2 == 1),
{
    crate::nums::shr64(value as u64, i) % 2 == 1
}

/// Reads bits back from a range-coded stream.
///
/// Reading past the end of the input yields zero bytes instead of an error,
/// which keeps the per-bit path branch-free. Callers bound their loops by the
/// expected output size and then call [`Decoder::finish`], which reports the
/// overrun.
pub struct Decoder<'a> {
    input: &'a [u8],
    pos: usize,
    range: u32,
    code: u32,
}

impl View for Decoder<'_> {
    type V = Window;

    closed spec fn view(&self) -> Window {
        Window {
            input: self.input@,
            pos: self.pos as nat,
            width: self.range as nat,
            code: self.code as nat,
        }
    }
}

/// Starting to decode `input`: the first byte must be 0, the next four
/// fill the window.
pub open spec fn open_window(input: Seq<u8>) -> Result<Window, Error> {
    if input.len() == 0 {
        Err(Error::UnexpectedEof)
    } else if input[0] != 0 {
        Err(Error::Corrupt("range coder stream must start with 0"))
    } else {
        let w = Window { input, pos: 1, width: 0, code: 0 }.shifted().shifted().shifted().shifted();
        Ok(Window { input, pos: w.pos, width: 0xFFFF_FFFF, code: w.code })
    }
}

/// A finished stream is read to its last byte and not beyond.
pub open spec fn close_window(w: Window) -> Result<(), Error> {
    if w.pos == w.input.len() {
        Ok(())
    } else if w.pos > w.input.len() {
        Err(Error::UnexpectedEof)
    } else {
        Err(Error::Corrupt("data after end of range coder stream"))
    }
}

/// A decoder of a finished stream starts where the encoder started.
pub proof fn lemma_open(s: Seq<u8>)
    requires
        whole().holds(s),
        s.len() <= usize::MAX,
    ensures
        open_window(s) matches Ok(w) && w.follows(whole(), s) && w.ok(),
{
    reveal_with_fuel(number, 6);
    let t = s.take(5);
    let t4 = t.drop_last();
    let t3 = t4.drop_last();
    let t2 = t3.drop_last();
    let t1 = t2.drop_last();
    assert(t1.drop_last() =~= Seq::<u8>::empty());
    assert(t4 =~= s.take(4) && t3 =~= s.take(3) && t2 =~= s.take(2) && t1 =~= s.take(1));
    assert(number(t1) == s[0]);
    assert(number(t2) == number(t1) * 256 + s[1]);
    assert(number(t3) == number(t2) * 256 + s[2]);
    assert(number(t4) == number(t3) * 256 + s[3]);
    assert(number(t) == number(t4) * 256 + s[4]);
    assert(s[0] == 0);
}

/// A decoder that followed the encoder to the end has used the stream
/// exactly.
pub proof fn lemma_close(w: Window, iv: Interval, s: Seq<u8>)
    requires
        w.follows(iv, s),
        s.len() == iv.digits + 4,
    ensures
        close_window(w) == Ok::<(), Error>(()),
{
}

impl<'a> Decoder<'a> {
    pub closed spec fn wf(&self) -> bool {
        self@.ok()
    }

    pub proof fn lemma_wf(&self)
        requires
            self.wf(),
        ensures
            self@.ok(),
    {
    }

    pub fn new(input: &'a [u8]) -> (r: Result<Self, Error>)
        ensures
            match open_window(input@) {
                Ok(w) => r matches Ok(d) && d.wf() && d@ == w,
                Err(e) => r matches Err(f) && e == f,
            },
    {
        if input.len() == 0 {
            return Err(Error::UnexpectedEof);
        }
        if input[0] != 0 {
            return Err(Error::Corrupt("range coder stream must start with 0"));
        }
        let mut d = Self { input, pos: 1, range: 0, code: 0 };
        d.next_byte();
        d.next_byte();
        d.next_byte();
        d.next_byte();
        d.range = u32::MAX;
        Ok(d)
    }

    /// Append the next byte of the input to `code`.
    #[inline]
    fn next_byte(&mut self)
        ensures
            final(self)@.code == old(self)@.shifted().code,
            final(self)@.pos == old(self)@.shifted().pos,
            final(self)@.input == old(self)@.input,
            final(self)@.width == old(self)@.width,
    {
        let b: u8 = if self.pos < self.input.len() {
            self.input[self.pos]
        } else {
            0
        };
        if self.pos < usize::MAX {
            self.pos = self.pos + 1;
        }
        self.code = ((self.code as u64 * 256 + b as u64) % 0x1_0000_0000) as u32;
    }

    /// Follow the encoder into a part of its interval.
    #[inline]
    fn narrow(&mut self, at: u32, width: u32)
        requires
            old(self).wf(),
            0 < width,
            at <= old(self)@.code,
            width < 0x1_0000_0000,
        ensures
            final(self).wf(),
            final(self)@ == old(self)@.part(at as nat, width as nat),
    {
        let ghost target = self@.part(at as nat, width as nat);
        self.code = self.code - at;
        self.range = width;
        while self.range < TOP
            invariant
                0 < self.range,
                self@.normalized() == target,
            decreases
                (if self.range < TOP {
                    0x100_0000 - self.range
                } else {
                    0
                }),
        {
            self.next_byte();
            self.range = self.range * 256;
        }
        assert(self.input@.len() == self.input.len());
    }

    /// Decode one bit coded with [`Encoder::encode_bit`], updating `prob`
    /// the same way the encoder did.
    #[inline]
    pub fn decode_bit(&mut self, prob: &mut Prob) -> (r: u32)
        requires
            old(self).wf(),
            prob_ok(*old(prob)),
        ensures
            final(self).wf(),
            r <= 1,
            ((r == 1), final(self)@) == get_bit(old(self)@, *old(prob)),
            *final(prob) == adapted(*old(prob), r == 1),
    {
        proof {
            lemma_bound(self.range as nat, *prob);
            lemma_adapted(*prob, true);
            lemma_adapted(*prob, false);
        }
        let bound: u32 = (self.range / 2048) * (*prob as u32);
        if self.code < bound {
            self.narrow(0, bound);
            *prob = *prob + (2048 - *prob) / 32;
            0
        } else {
            self.narrow(bound, self.range - bound);
            *prob = *prob - *prob / 32;
            1
        }
    }

    /// Inverse of [`Encoder::encode_with`].
    #[inline]
    pub fn decode_with(&mut self, p0: u32) -> (r: u32)
        requires
            old(self).wf(),
            1 <= p0 < 65536,
        ensures
            final(self).wf(),
            r <= 1,
            ((r == 1), final(self)@) == get_with(old(self)@, p0 as nat),
    {
        proof {
            lemma_bound_with(self.range as nat, p0 as nat);
        }
        let bound: u32 = (self.range / 65536) * p0;
        if self.code < bound {
            self.narrow(0, bound);
            0
        } else {
            self.narrow(bound, self.range - bound);
            1
        }
    }

    /// Inverse of [`Encoder::encode_direct`].
    pub fn decode_direct(&mut self, bits: u32) -> (r: u32)
        requires
            old(self).wf(),
            bits <= 32,
        ensures
            final(self).wf(),
            (r as nat, final(self)@) == get_direct(old(self)@, 0, bits as nat),
            r < pow2(bits as nat),
    {
        let ghost target = get_direct(self@, 0, bits as nat);
        let mut value: u32 = 0;
        let mut left: u32 = bits;
        proof {
            lemma_pow2_values();
        }
        while left > 0
            invariant
                self.wf(),
                left <= bits <= 32,
                value < pow2((bits - left) as nat),
                get_direct(self@, value as nat, left as nat) == target,
            decreases left,
        {
            proof {
                lemma_pow2_unfold((bits - left + 1) as nat);
                lemma_pow2_le((bits - left + 1) as nat, 32);
                lemma_pow2_values();
            }
            left = left - 1;
            let half: u32 = self.range / 2;
            if self.code >= half {
                self.narrow(half, half);
                value = 2 * value + 1;
            } else {
                self.narrow(0, half);
                value = 2 * value;
            }
        }
        value
    }

    /// Decode one bit with entry `i` of a model.
    #[inline]
    pub fn decode_at(&mut self, probs: &mut [Prob], i: usize) -> (r: bool)
        requires
            old(self).wf(),
            i < old(probs)@.len(),
            prob_ok(old(probs)@[i as int]),
        ensures
            final(self).wf(),
            prob_ok(final(probs)@[i as int]),
            final(probs)@ == old(probs)@.update(i as int, final(probs)@[i as int]),
            probs_ok(old(probs)@) ==> probs_ok(final(probs)@),
            (r, Decoding { win: final(self)@, probs: final(probs)@ }) == (Decoding {
                win: old(self)@,
                probs: old(probs)@,
            }).bit(i as int),
    {
        let mut p: Prob = probs[i];
        proof {
            reveal(Decoding::bit);
            lemma_adapted(p, true);
            lemma_adapted(p, false);
        }
        let bit: u32 = self.decode_bit(&mut p);
        probs[i] = p;
        bit == 1
    }

    /// [`decode_tree`](Self::decode_tree) for the tree that starts at entry
    /// `base` of a larger model.
    #[inline]
    pub fn decode_tree_at(&mut self, probs: &mut [Prob], base: usize, bits: u32) -> (r: u32)
        requires
            old(self).wf(),
            tree_probs_ok(old(probs)@, base as int, bits as nat),
            bits < 32,
            base + pow2(bits as nat) <= old(probs)@.len(),
        ensures
            final(self).wf(),
            tree_probs_ok(final(probs)@, base as int, bits as nat),
            probs_ok(old(probs)@) ==> probs_ok(final(probs)@),
            final(probs)@.len() == old(probs)@.len(),
            r < pow2(bits as nat),
            ((r + pow2(bits as nat)) as nat, Decoding { win: final(self)@, probs: final(probs)@ })
                == (Decoding { win: old(self)@, probs: old(probs)@ }).tree(
                base as int,
                1,
                bits as nat,
            ),
    {
        let ghost target = (Decoding { win: self@, probs: probs@ }).tree(
            base as int,
            1,
            bits as nat,
        );
        let mut node: usize = 1;
        let mut left: u32 = bits;
        proof {
            lemma_pow2_values();
        }
        while left > 0
            invariant
                self.wf(),
                tree_probs_ok(probs@, base as int, bits as nat),
                probs_ok(old(probs)@) ==> probs_ok(probs@),
                left <= bits < 32,
                probs@.len() == old(probs)@.len(),
                base + pow2(bits as nat) <= probs@.len(),
                pow2((bits - left) as nat) <= node < pow2((bits - left + 1) as nat),
                (Decoding { win: self@, probs: probs@ }).tree(
                    base as int,
                    node as nat,
                    left as nat,
                ) == target,
            decreases left,
        {
            proof {
                lemma_pow2_le((bits - left + 1) as nat, bits as nat);
                lemma_pow2_unfold((bits - left + 1) as nat);
                lemma_pow2_unfold((bits - left + 2) as nat);
                lemma_pow2_le((bits - left + 2) as nat, 32);
                lemma_pow2_values();
            }
            left = left - 1;
            assert(probs@.len() == probs.len());
            let bit: bool = self.decode_at(probs, base + node);
            if bit {
                node = 2 * node + 1;
            } else {
                node = 2 * node;
            }
        }
        proof {
            lemma_pow2_le(bits as nat, 31);
            lemma_pow2_unfold(bits as nat + 1);
            lemma_pow2_le(bits as nat + 1, 32);
            lemma_pow2_values();
        }
        (node as u64 - crate::nums::two_to(bits)) as u32
    }

    /// Inverse of [`Encoder::encode_tree`].
    #[inline]
    pub fn decode_tree(&mut self, probs: &mut [Prob], bits: u32) -> (r: u32)
        requires
            old(self).wf(),
            tree_probs_ok(old(probs)@, 0, bits as nat),
            bits < 32,
            pow2(bits as nat) <= old(probs)@.len(),
        ensures
            final(self).wf(),
            tree_probs_ok(final(probs)@, 0, bits as nat),
            probs_ok(old(probs)@) ==> probs_ok(final(probs)@),
            final(probs)@.len() == old(probs)@.len(),
            r < pow2(bits as nat),
            ((r + pow2(bits as nat)) as nat, Decoding { win: final(self)@, probs: final(probs)@ })
                == (Decoding { win: old(self)@, probs: old(probs)@ }).tree(0, 1, bits as nat),
    {
        self.decode_tree_at(probs, 0, bits)
    }

    /// [`decode_reverse_tree`](Self::decode_reverse_tree) for the tree that
    /// starts at entry `base` of a larger model.
    #[inline]
    pub fn decode_reverse_tree_at(&mut self, probs: &mut [Prob], base: usize, bits: u32) -> (r: u32)
        requires
            old(self).wf(),
            tree_probs_ok(old(probs)@, base as int, bits as nat),
            bits < 32,
            base + pow2(bits as nat) <= old(probs)@.len(),
        ensures
            final(self).wf(),
            tree_probs_ok(final(probs)@, base as int, bits as nat),
            probs_ok(old(probs)@) ==> probs_ok(final(probs)@),
            final(probs)@.len() == old(probs)@.len(),
            r < pow2(bits as nat),
            (r as nat, Decoding { win: final(self)@, probs: final(probs)@ }) == (Decoding {
                win: old(self)@,
                probs: old(probs)@,
            }).reverse_tree(base as int, 1, bits as nat),
    {
        let ghost target = (Decoding { win: self@, probs: probs@ }).reverse_tree(
            base as int,
            1,
            bits as nat,
        );
        let mut node: usize = 1;
        let mut i: u32 = 0;
        let mut value: u32 = 0;
        proof {
            lemma_pow2_values();
        }
        while i < bits
            invariant
                self.wf(),
                tree_probs_ok(probs@, base as int, bits as nat),
                probs_ok(old(probs)@) ==> probs_ok(probs@),
                i <= bits < 32,
                probs@.len() == old(probs)@.len(),
                base + pow2(bits as nat) <= probs@.len(),
                1 <= node < pow2((i + 1) as nat),
                value < pow2(i as nat),
                ({
                    let (v, d) = (Decoding { win: self@, probs: probs@ }).reverse_tree(
                        base as int,
                        node as nat,
                        (bits - i) as nat,
                    );
                    (value as nat + v * pow2(i as nat), d) == target
                }),
            decreases bits - i,
        {
            let ghost before = Decoding { win: self@, probs: probs@ };
            let ghost node0 = node as nat;
            proof {
                lemma_pow2_le((i + 1) as nat, bits as nat);
                lemma_pow2_unfold((i + 1) as nat);
                lemma_pow2_unfold((i + 2) as nat);
                lemma_pow2_le((i + 2) as nat, 32);
                lemma_pow2_values();
            }
            assert(probs@.len() == probs.len());
            let bit: bool = self.decode_at(probs, base + node);
            proof {
                let b: nat = if bit {
                    1
                } else {
                    0
                };
                let (rest, e) = (Decoding { win: self@, probs: probs@ }).reverse_tree(
                    base as int,
                    2 * node0 + b,
                    (bits - i - 1) as nat,
                );
                assert(before.reverse_tree(base as int, node0, (bits - i) as nat) == (
                    b + 2 * rest,
                    e,
                ));
                assert((b + 2 * rest) * pow2(i as nat) == b * pow2(i as nat) + rest * pow2(
                    (i + 1) as nat,
                )) by (nonlinear_arith)
                    requires
                        pow2((i + 1) as nat) == 2 * pow2(i as nat),
                ;
                assert(1 * pow2(i as nat) == pow2(i as nat));
                assert(0 * pow2(i as nat) == 0);
            }
            if bit {
                node = 2 * node + 1;
                value = value + crate::nums::two_to(i) as u32;
            } else {
                node = 2 * node;
            }
            i = i + 1;
        }
        proof {
            assert(0 * pow2(i as nat) == 0);
        }
        value
    }

    /// Inverse of [`Encoder::encode_reverse_tree`].
    #[inline]
    pub fn decode_reverse_tree(&mut self, probs: &mut [Prob], bits: u32) -> (r: u32)
        requires
            old(self).wf(),
            tree_probs_ok(old(probs)@, 0, bits as nat),
            bits < 32,
            pow2(bits as nat) <= old(probs)@.len(),
        ensures
            final(self).wf(),
            tree_probs_ok(final(probs)@, 0, bits as nat),
            probs_ok(old(probs)@) ==> probs_ok(final(probs)@),
            final(probs)@.len() == old(probs)@.len(),
            r < pow2(bits as nat),
            (r as nat, Decoding { win: final(self)@, probs: final(probs)@ }) == (Decoding {
                win: old(self)@,
                probs: old(probs)@,
            }).reverse_tree(0, 1, bits as nat),
    {
        self.decode_reverse_tree_at(probs, 0, bits)
    }

    /// Bytes of input consumed so far.
    pub fn position(&self) -> (r: usize)
        ensures
            r == self@.pos,
    {
        self.pos
    }

    /// True once the decoder has read the whole input.
    pub fn exhausted(&self) -> (r: bool)
        ensures
            r == (self@.pos >= self@.input.len()),
    {
        self.pos >= self.input.len()
    }

    /// True once the decoder has read past the end of the input, which a
    /// valid stream never does. Lets callers that can't bound their output
    /// in advance stop on garbage.
    pub fn overrun(&self) -> (r: bool)
        ensures
            r == (self@.pos > self@.input.len()),
    {
        self.pos > self.input.len()
    }

    /// Check the stream was used exactly: a valid stream is read to its
    /// last byte and not beyond.
    pub fn finish(self) -> (r: Result<(), Error>)
        ensures
            r == close_window(self@),
    {
        if self.pos == self.input.len() {
            Ok(())
        } else if self.pos > self.input.len() {
            Err(Error::UnexpectedEof)
        } else {
            Err(Error::Corrupt("data after end of range coder stream"))
        }
    }
}

/// Price (cost in bits) of coding a bit, in units of 1/16 bit.
pub const PRICE_ONE_BIT: u32 = 16;

/// `-16 log2` of the middle of each of 128 probability buckets; the lowest
/// bucket is clamped to the lowest probability that adapting can reach.
pub const PRICES: [u32; 128] = [
    97, 97, 91, 83, 77, 73, 69, 65, 63, 60, 58, 56, 54, 52, 50, 49,
    47, 46, 45, 43, 42, 41, 40, 39, 38, 37, 36, 35, 35, 34, 33, 32,
    32, 31, 30, 30, 29, 28, 28, 27, 27, 26, 25, 25, 24, 24, 23, 23,
    22, 22, 21, 21, 21, 20, 20, 19, 19, 18, 18, 18, 17, 17, 17, 16,
    16, 15, 15, 15, 14, 14, 14, 13, 13, 13, 12, 12, 12, 12, 11, 11,
    11, 10, 10, 10, 10, 9, 9, 9, 9, 8, 8, 8, 7, 7, 7, 7,
    7, 6, 6, 6, 6, 5, 5, 5, 5, 4, 4, 4, 4, 4, 3, 3,
    3, 3, 3, 2, 2, 2, 2, 2, 1, 1, 1, 1, 1, 0, 0, 0,
];

/// The price of coding `bit` with probability `p`.
#[verifier::opaque]
pub open spec fn bit_price(p: u16, bit: bool) -> nat {
    let q = if bit {
        2048 - p
    } else {
        p as int
    };
    PRICES@[q / 16] as nat
}

/// The price of coding the low `n` bits of `value` below `node` of the tree
/// at `base`.
pub open spec fn tree_price(probs: Seq<u16>, base: int, node: nat, n: nat, value: nat) -> nat
    decreases n,
{
    if n == 0 {
        0
    } else {
        let bit = (value / pow2((n - 1) as nat)) % 2 == 1;
        bit_price(probs[base + node], bit) + tree_price(
            probs,
            base,
            2 * node + if bit {
                1nat
            } else {
                0nat
            },
            (n - 1) as nat,
            value,
        )
    }
}

/// The price of coding the low `n` bits of `value` with the reverse tree at
/// `base`.
pub open spec fn reverse_tree_price(
    probs: Seq<u16>,
    base: int,
    node: nat,
    n: nat,
    value: nat,
) -> nat
    decreases n,
{
    if n == 0 {
        0
    } else {
        let bit = value % 2 == 1;
        bit_price(probs[base + node], bit) + reverse_tree_price(
            probs,
            base,
            2 * node + if bit {
                1nat
            } else {
                0nat
            },
            (n - 1) as nat,
            value / 2,
        )
    }
}

/// Estimated cost of coding `bit` with probability `prob`, in 1/16 bits:
/// `-log2(P(bit))`. Encoders use it to choose between ways of coding the
/// same data. Precision is kept low (128 buckets) so a table lookup does.
#[inline]
pub fn price_bit(prob: Prob, bit: u32) -> (r: u32)
    requires
        bit == 0 ==> prob < 2048,
        bit != 0 ==> 0 < prob <= 2048,
    ensures
        r == bit_price(prob, bit != 0),
        r <= 97,
{
    let p: u16 = if bit == 0 {
        prob
    } else {
        2048 - prob
    };
    proof {
        reveal(bit_price);
    }
    PRICES[(p / 16) as usize]
}

/// [`price_tree`] for the tree that starts at entry `base` of a larger
/// model.
pub fn price_tree_at(probs: &[Prob], base: usize, bits: u32, value: u32) -> (r: u32)
    requires
        tree_probs_ok(probs@, base as int, bits as nat),
        bits < 32,
        base + pow2(bits as nat) <= probs@.len(),
    ensures
        r == tree_price(probs@, base as int, 1, bits as nat, value as nat),
        r <= 97 * bits,
{
    let ghost target = tree_price(probs@, base as int, 1, bits as nat, value as nat);
    let mut node: usize = 1;
    let mut price: u32 = 0;
    let mut left: u32 = bits;
    proof {
        lemma_pow2_values();
    }
    while left > 0
        invariant
            tree_probs_ok(probs@, base as int, bits as nat),
            left <= bits < 32,
            base + pow2(bits as nat) <= probs@.len(),
            1 <= node < pow2((bits - left + 1) as nat),
            price <= 97 * (bits - left),
            price + tree_price(probs@, base as int, node as nat, left as nat, value as nat)
                == target,
        decreases left,
    {
        proof {
            lemma_pow2_le((bits - left + 1) as nat, bits as nat);
            lemma_pow2_unfold((bits - left + 2) as nat);
            lemma_pow2_le((bits - left + 2) as nat, 32);
            lemma_pow2_values();
        }
        left = left - 1;
        let bit: bool = bit_at(value, left);
        assert(probs@.len() == probs.len());
        let p: Prob = probs[base + node];
        assert(prob_ok(p));
        if bit {
            price = price + price_bit(p, 1);
            node = 2 * node + 1;
        } else {
            price = price + price_bit(p, 0);
            node = 2 * node;
        }
    }
    price
}

/// Price of coding `value` with [`Encoder::encode_tree`].
pub fn price_tree(probs: &[Prob], bits: u32, value: u32) -> (r: u32)
    requires
        tree_probs_ok(probs@, 0, bits as nat),
        bits < 32,
        pow2(bits as nat) <= probs@.len(),
    ensures
        r == tree_price(probs@, 0, 1, bits as nat, value as nat),
        r <= 97 * bits,
{
    price_tree_at(probs, 0, bits, value)
}

/// [`price_reverse_tree`] for the tree that starts at entry `base` of a
/// larger model.
pub fn price_reverse_tree_at(probs: &[Prob], base: usize, bits: u32, value: u32) -> (r: u32)
    requires
        tree_probs_ok(probs@, base as int, bits as nat),
        bits < 32,
        base + pow2(bits as nat) <= probs@.len(),
    ensures
        r == reverse_tree_price(probs@, base as int, 1, bits as nat, value as nat),
        r <= 97 * bits,
{
    let ghost target = reverse_tree_price(probs@, base as int, 1, bits as nat, value as nat);
    let mut node: usize = 1;
    let mut price: u32 = 0;
    let mut left: u32 = bits;
    let mut rest: u32 = value;
    proof {
        lemma_pow2_values();
    }
    while left > 0
        invariant
            tree_probs_ok(probs@, base as int, bits as nat),
            left <= bits < 32,
            base + pow2(bits as nat) <= probs@.len(),
            1 <= node < pow2((bits - left + 1) as nat),
            price <= 97 * (bits - left),
            price + reverse_tree_price(
                probs@,
                base as int,
                node as nat,
                left as nat,
                rest as nat,
            ) == target,
        decreases left,
    {
        proof {
            lemma_pow2_le((bits - left + 1) as nat, bits as nat);
            lemma_pow2_unfold((bits - left + 2) as nat);
            lemma_pow2_le((bits - left + 2) as nat, 32);
            lemma_pow2_values();
        }
        left = left - 1;
        let bit: bool = rest % 2 == 1;
        rest = rest / 2;
        assert(probs@.len() == probs.len());
        let p: Prob = probs[base + node];
        assert(prob_ok(p));
        if bit {
            price = price + price_bit(p, 1);
            node = 2 * node + 1;
        } else {
            price = price + price_bit(p, 0);
            node = 2 * node;
        }
    }
    price
}

/// Price of coding `value` with [`Encoder::encode_reverse_tree`].
pub fn price_reverse_tree(probs: &[Prob], bits: u32, value: u32) -> (r: u32)
    requires
        tree_probs_ok(probs@, 0, bits as nat),
        bits < 32,
        pow2(bits as nat) <= probs@.len(),
    ensures
        r == reverse_tree_price(probs@, 0, 1, bits as nat, value as nat),
        r <= 97 * bits,
{
    price_reverse_tree_at(probs, 0, bits, value)
}

} // verus!
