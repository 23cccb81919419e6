//! How bits stand in a stream: in which order the bits of a number are
//! coded, with which probabilities, and what each does to the interval.
use crate::error::Error;
use crate::nums::lemma_pow2_values;
use crate::range::adapted;
use crate::range::bit_price;
use crate::range::close_window;
use crate::range::lemma_bound;
use crate::range::lemma_bound_with;
use crate::range::number;
use crate::range::open_window;
use crate::range::pow256;
use crate::range::prob_ok;
use crate::range::put_bit;
use crate::range::put_direct;
use crate::range::put_with;
use crate::range::reverse_tree_price;
use crate::range::tree_price;
use crate::range::Coding;
use crate::range::Interval;
use crate::range::Window;
use vstd::arithmetic::power2::lemma_pow2_pos;
use vstd::arithmetic::power2::lemma_pow2_unfold;
use vstd::arithmetic::power2::pow2;
use crate::range::PRICES;
use vstd::prelude::*;

verus! {

/// Bits of a number that has one more bit below.
proof fn lemma_more_bits(v: nat, b: nat, n: nat)
    requires
        b < 2,
    ensures
        (2 * v + b) / pow2(n + 1) == v / pow2(n),
        (2 * v + b) % 2 == b,
        (2 * v + b) / 2 == v,
{
    lemma_pow2_unfold(n + 1);
    lemma_pow2_pos(n);
    assert(2 * pow2(n) == pow2(n + 1));
    vstd::arithmetic::div_mod::lemma_div_denominator((2 * v + b) as int, 2, pow2(n) as int);
}

proof fn lemma_low_bits(v: nat, n: nat)
    ensures
        v % pow2(n + 1) == (v / pow2(n) % 2) * pow2(n) + v % pow2(n),
{
    crate::range::lemma_top_bit(v, n + 1);
}

/// Which node of a tree a walk has come to after `n` bits of `v`.
proof fn lemma_tree_grows(c: Coding, base: int, node: nat, n: nat, v: nat, b: nat)
    requires
        b < 2,
    ensures
        c.tree(base, node, n + 1, 2 * v + b) == c.tree(base, node, n, v).bit(
            (base + node * pow2(n) + v % pow2(n)) as int,
            b == 1,
        ),
    decreases n,
{
    lemma_pow2_values();
    let w = 2 * v + b;
    if n == 0 {
        reveal_with_fuel(Coding::tree, 2);
        lemma_more_bits(v, b, 0);
        assert(node * pow2(0) == node) by (nonlinear_arith)
            requires
                pow2(0) == 1,
        ;
        assert(w / pow2(0) == w);
        assert(v % pow2(0) == 0);
    } else {
        let m = (n - 1) as nat;
        lemma_more_bits(v, b, m);
        let bit = v / pow2(m) % 2;
        let next = 2 * node + bit;
        assert(w / pow2(n) == v / pow2(m));
        lemma_tree_grows(c.bit(base + node, bit == 1), base, next, m, v, b);
        lemma_low_bits(v, m);
        lemma_pow2_unfold(n);
        assert((2 * node + bit) * pow2(m) == node * pow2(n) + bit * pow2(m)) by (nonlinear_arith)
            requires
                pow2(n) == 2 * pow2(m),
        ;
        assert(c.tree(base, node, n + 1, w) == c.bit(base + node, bit == 1).tree(
            base,
            next,
            n,
            w,
        ));
        assert(c.tree(base, node, n, v) == c.bit(base + node, bit == 1).tree(base, next, m, v));
    }
}

/// A tree codes a number from its highest bit down: one more bit at the end
/// comes last, with the probability that belongs to all bits before it.
pub proof fn trees_go_down(c: Coding, base: int, n: nat, v: nat, b: nat)
    requires
        v < pow2(n),
        b < 2,
    ensures
        c.tree(base, 1, 0, v) == c,
        c.tree(base, 1, n + 1, 2 * v + b) == c.tree(base, 1, n, v).bit(
            (base + pow2(n) + v) as int,
            b == 1,
        ),
{
    lemma_tree_grows(c, base, 1, n, v, b);
    vstd::arithmetic::div_mod::lemma_small_mod(v, pow2(n));
}

/// A reverse tree codes a number from its lowest bit up, each bit with the
/// probability that belongs to all bits before it.
pub proof fn reverse_trees_go_up(c: Coding, base: int, node: nat, n: nat, v: nat, b: nat)
    requires
        b < 2,
    ensures
        c.reverse_tree(base, node, 0, v) == c,
        c.reverse_tree(base, node, n + 1, 2 * v + b) == c.bit(base + node, b == 1).reverse_tree(
            base,
            2 * node + b,
            n,
            v,
        ),
{
    assert((2 * v + b) % 2 == b);
    assert((2 * v + b) / 2 == v);
}

/// Bits without a model are coded from the highest down, each taking half of
/// the interval, whatever is coded and however far the stream has come.
pub proof fn direct_bits_go_down(iv: Interval, n: nat, v: nat, b: nat)
    requires
        b < 2,
    ensures
        put_direct(iv, v, 0) == iv,
        put_direct(iv, b, 1) == iv.part(
            if b == 1 {
                iv.width / 2
            } else {
                0
            },
            iv.width / 2,
        ),
        put_direct(iv, 2 * v + b, n + 1) == put_direct(put_direct(iv, v, n), b, 1),
    decreases n,
{
    lemma_pow2_values();
    reveal_with_fuel(put_direct, 2);
    assert(b / pow2(0) == b);
    let w = 2 * v + b;
    if n == 0 {
        assert(w / pow2(0) == w);
    } else {
        let m = (n - 1) as nat;
        lemma_more_bits(v, b, m);
        let half = iv.width / 2;
        let at = if v / pow2(m) % 2 == 1 {
            half
        } else {
            0
        };
        assert(w / pow2(n) == v / pow2(m));
        direct_bits_go_down(iv.part(at, half), m, v, b);
        assert(put_direct(iv, w, n + 1) == put_direct(iv.part(at, half), w, n));
        assert(put_direct(iv, v, n) == put_direct(iv.part(at, half), v, m));
    }
}

/// A part of an interval is where it says, with as many digits more as it
/// takes to be at least `2^24` wide again, and no more.
pub proof fn parts_are_exact(iv: Interval, at: nat, width: nat)
    requires
        0 < width < 0x1_0000_0000,
    ensures
        exists|k: nat|
            iv.part(at, width) == (Interval {
                low: (iv.low + at) * #[trigger] pow256(k),
                width: width * pow256(k),
                digits: iv.digits + k,
            }) && 0x100_0000 <= width * pow256(k) < 0x1_0000_0000,
{
    let cut = Interval { low: iv.low + at, width, digits: iv.digits };
    lemma_normalized_is(cut);
}

proof fn lemma_normalized_is(iv: Interval)
    requires
        0 < iv.width < 0x1_0000_0000,
    ensures
        exists|k: nat|
            iv.normalized() == (Interval {
                low: iv.low * #[trigger] pow256(k),
                width: iv.width * pow256(k),
                digits: iv.digits + k,
            }) && 0x100_0000 <= iv.width * pow256(k) < 0x1_0000_0000,
    decreases
        (if iv.width < 0x100_0000 {
            0x100_0000 - iv.width
        } else {
            0
        }),
{
    if iv.width < 0x100_0000 {
        let next = iv.shifted();
        lemma_normalized_is(next);
        let j = choose|j: nat|
            next.normalized() == (Interval {
                low: next.low * #[trigger] pow256(j),
                width: next.width * pow256(j),
                digits: next.digits + j,
            }) && 0x100_0000 <= next.width * pow256(j) < 0x1_0000_0000;
        let k = j + 1;
        let p = pow256(j);
        assert(pow256(k) == 256 * p);
        let (low, width) = (iv.low, iv.width);
        assert((low * 256) * p == low * (256 * p)) by (nonlinear_arith);
        assert((width * 256) * p == width * (256 * p)) by (nonlinear_arith);
        assert(iv.normalized() == (Interval {
            low: low * pow256(k),
            width: width * pow256(k),
            digits: iv.digits + k,
        }));
    } else {
        assert(pow256(0) == 1);
        let (low, width) = (iv.low, iv.width);
        assert(low * pow256(0) == low && width * pow256(0) == width) by (nonlinear_arith)
            requires
                pow256(0) == 1,
        ;
        assert(iv.normalized() == (Interval {
            low: low * pow256(0),
            width: width * pow256(0),
            digits: iv.digits + 0,
        }));
    }
}

/// A bit takes the share of the interval that its probability says: a 0 the
/// lower `p` of 2048 parts, a 1 all above them. The two shares are the whole,
/// and the same number of digits before or a higher low end changes nothing
/// about them.
pub proof fn bits_share_the_interval(iv: Interval, p: u16, p0: nat)
    requires
        iv.ok(),
        prob_ok(p),
        1 <= p0 < 65536,
    ensures
        ({
            let b = (iv.width / 2048) * p as nat;
            &&& 0 < b < iv.width
            &&& put_bit(iv, p, false) == iv.part(0, b)
            &&& put_bit(iv, p, true) == iv.part(b, (iv.width - b) as nat)
        }),
        ({
            let b = (iv.width / 65536) * p0;
            &&& 0 < b < iv.width
            &&& put_with(iv, p0, false) == iv.part(0, b)
            &&& put_with(iv, p0, true) == iv.part(b, (iv.width - b) as nat)
        }),
{
    lemma_bound(iv.width, p);
    lemma_bound_with(iv.width, p0);
}

/// A probability moves towards each bit seen, by a 32nd of the way and the
/// same way for 0 and 1.
pub proof fn probabilities_adapt(p: u16, bit: bool)
    requires
        prob_ok(p),
    ensures
        adapted((2048 - p) as u16, !bit) == 2048 - adapted(p, bit),
        32 * (p - adapted(p, true)) <= p < 32 * (p - adapted(p, true)) + 32,
        prob_ok(adapted(p, bit)),
{
}

/// A stream is a number, highest byte first.
pub proof fn streams_are_numbers(s: Seq<u8>, t: Seq<u8>)
    ensures
        number(Seq::empty()) == 0,
        number(s + t) == number(s) * pow256(t.len()) + number(t),
        t.len() == 1 ==> number(t) == t[0],
    decreases t.len(),
{
    reveal_with_fuel(number, 2);
    if t.len() == 0 {
        assert(s + t =~= s);
        assert(number(s) * pow256(0) == number(s)) by (nonlinear_arith)
            requires
                pow256(0) == 1,
        ;
    } else {
        let m = (t.len() - 1) as nat;
        streams_are_numbers(s, t.drop_last());
        assert((s + t).drop_last() =~= s + t.drop_last());
        assert((s + t).last() == t.last());
        let (x, p) = (number(s), pow256(m));
        assert((x * p) * 256 == x * (256 * p)) by (nonlinear_arith);
        assert(number(t) == number(t.drop_last()) * 256 + t.last() as nat);
        assert(number(s + t) == number(s + t.drop_last()) * 256 + t.last() as nat);
        if m == 0 {
            assert(t.drop_last() =~= Seq::<u8>::empty());
        }
    }
}

/// A stream starts with a zero byte; the next four are where the decoder
/// starts, and bytes that are missing count as zero. It ends with its last
/// byte.
pub proof fn streams_start_and_end(s: Seq<u8>, w: Window)
    requires
        s.len() <= usize::MAX,
    ensures
        s.len() == 0 ==> open_window(s) == Err::<Window, Error>(Error::UnexpectedEof),
        s.len() > 0 && s[0] != 0 ==> open_window(s) == Err::<Window, Error>(
            Error::Corrupt("range coder stream must start with 0"),
        ),
        s.len() >= 5 && s[0] == 0 ==> open_window(s) == Ok::<Window, Error>(
            Window {
                input: s,
                pos: 5,
                width: 0xFFFF_FFFF,
                code: s[1] as nat * 0x100_0000 + s[2] as nat * 0x1_0000 + s[3] as nat * 0x100
                    + s[4] as nat,
            },
        ),
        0 < s.len() < 5 && s[0] == 0 ==> (open_window(s) matches Ok(v) && v.pos == 5 && v.code == (
        if s.len() > 1 {
            s[1] as nat * 0x100_0000
        } else {
            0
        }) + (if s.len() > 2 {
            s[2] as nat * 0x1_0000
        } else {
            0
        }) + (if s.len() > 3 {
            s[3] as nat * 0x100
        } else {
            0
        })),
        w.pos == w.input.len() <==> close_window(w) == Ok::<(), Error>(()),
        w.pos > w.input.len() <==> close_window(w) == Err::<(), Error>(Error::UnexpectedEof),
        w.pos < w.input.len() <==> close_window(w) == Err::<(), Error>(
            Error::Corrupt("data after end of range coder stream"),
        ),
{
    if s.len() > 0 && s[0] == 0 {
        let a = Window { input: s, pos: 1, width: 0, code: 0 };
        let b = a.shifted();
        let c = b.shifted();
        let d = c.shifted();
        let e = d.shifted();
        assert(b.code == a.byte() && b.pos == 2);
        assert(c.code == b.code * 256 + b.byte() && c.pos == 3);
        assert(d.code == c.code * 256 + c.byte() && d.pos == 4);
        assert(e.code == d.code * 256 + d.byte() && e.pos == 5);
    }
}

/// The price of a tree is that of its bits: one more bit at the end costs
/// what it costs with its own probability.
pub proof fn tree_prices_add_up(probs: Seq<u16>, base: int, n: nat, v: nat, b: nat)
    requires
        v < pow2(n),
        b < 2,
    ensures
        tree_price(probs, base, 1, 0, v) == 0,
        tree_price(probs, base, 1, n + 1, 2 * v + b) == tree_price(probs, base, 1, n, v)
            + bit_price(probs[base + pow2(n) + v], b == 1),
{
    lemma_price_grows(probs, base, 1, n, v, b);
    vstd::arithmetic::div_mod::lemma_small_mod(v, pow2(n));
}

proof fn lemma_price_grows(probs: Seq<u16>, base: int, node: nat, n: nat, v: nat, b: nat)
    requires
        b < 2,
    ensures
        tree_price(probs, base, node, n + 1, 2 * v + b) == tree_price(probs, base, node, n, v)
            + bit_price(probs[base + node * pow2(n) + v % pow2(n)], b == 1),
    decreases n,
{
    lemma_pow2_values();
    let w = 2 * v + b;
    if n == 0 {
        reveal_with_fuel(tree_price, 2);
        lemma_more_bits(v, b, 0);
        assert(node * pow2(0) == node) by (nonlinear_arith)
            requires
                pow2(0) == 1,
        ;
        assert(w / pow2(0) == w);
        assert(v % pow2(0) == 0);
    } else {
        let m = (n - 1) as nat;
        lemma_more_bits(v, b, m);
        let bit = v / pow2(m) % 2;
        let next = 2 * node + bit;
        assert(w / pow2(n) == v / pow2(m));
        lemma_price_grows(probs, base, next, m, v, b);
        lemma_low_bits(v, m);
        lemma_pow2_unfold(n);
        assert((2 * node + bit) * pow2(m) == node * pow2(n) + bit * pow2(m)) by (nonlinear_arith)
            requires
                pow2(n) == 2 * pow2(m),
        ;
        assert(tree_price(probs, base, node, n + 1, w) == bit_price(probs[base + node], bit == 1)
            + tree_price(probs, base, next, n, w));
        assert(tree_price(probs, base, node, n, v) == bit_price(probs[base + node], bit == 1)
            + tree_price(probs, base, next, m, v));
    }
}

/// So is that of a reverse tree.
pub proof fn reverse_tree_prices_add_up(
    probs: Seq<u16>,
    base: int,
    node: nat,
    n: nat,
    v: nat,
    b: nat,
)
    requires
        b < 2,
    ensures
        reverse_tree_price(probs, base, node, 0, v) == 0,
        reverse_tree_price(probs, base, node, n + 1, 2 * v + b) == bit_price(
            probs[base + node],
            b == 1,
        ) + reverse_tree_price(probs, base, 2 * node + b, n, v),
{
    assert((2 * v + b) % 2 == b);
    assert((2 * v + b) / 2 == v);
}

/// The likelier a bit is, the cheaper, and a 1 costs what a 0 of the same
/// likelihood costs; a bit that is as likely as not costs sixteen units.
pub proof fn likely_bits_are_cheap(p: u16, q: u16)
    requires
        0 < p <= q < 2048,
    ensures
        bit_price(q, false) <= bit_price(p, false) <= 97,
        bit_price(p, true) == bit_price((2048 - p) as u16, false),
        bit_price(1024, false) == 16,
{
    reveal(bit_price);
    lemma_prices_fall(p as int / 16, q as int / 16);
    lemma_prices_fall(0, p as int / 16);
}

proof fn lemma_prices_fall(a: int, b: int)
    requires
        0 <= a <= b < 128,
    ensures
        PRICES@[b] <= PRICES@[a],
        PRICES@[0] == 97,
        PRICES@[64] == 16,
    decreases b - a,
{
    if a < b {
        lemma_prices_fall(a, b - 1);
    }
}

} // verus!
