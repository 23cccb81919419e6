//! Code lengths from symbol counts: Huffman's algorithm and a length limit.
use crate::huffman::slot_share;
use crate::huffman::slots;
use crate::nums::lemma_pow2_le;
use crate::nums::lemma_pow2_values;
use crate::nums::two_to;
use vstd::arithmetic::power2::lemma_pow2_adds;
use vstd::arithmetic::power2::lemma_pow2_pos;
use vstd::arithmetic::power2::lemma_pow2_unfold;
use vstd::arithmetic::power2::pow2;
use vstd::prelude::*;

verus! {

/// The symbols below `n` that occur, in order.
pub open spec fn used_symbols(counts: Seq<u64>, n: nat) -> Seq<usize>
    decreases n,
{
    if n == 0 {
        Seq::empty()
    } else if counts[n - 1] > 0 {
        used_symbols(counts, (n - 1) as nat).push((n - 1) as usize)
    } else {
        used_symbols(counts, (n - 1) as nat)
    }
}

/// All symbols that occur, in order.
pub open spec fn used(counts: Seq<u64>) -> Seq<usize> {
    used_symbols(counts, counts.len())
}

/// How often all symbols occur together.
pub open spec fn total(counts: Seq<u64>) -> nat
    decreases counts.len(),
{
    if counts.len() == 0 {
        0
    } else {
        total(counts.drop_last()) + counts.last() as nat
    }
}

// Classic Huffman: repeatedly merge the two lightest nodes into a new node.
// Leaves are nodes 0..n, merged nodes are appended after them, so every
// parent has a larger index than its children.

/// The lightest node below `n` that has no parent yet (`none`); of equals,
/// the first.
pub open spec fn lightest(w: Seq<u64>, p: Seq<usize>, none: usize, n: nat) -> Option<usize>
    decreases n,
{
    if n == 0 {
        None
    } else {
        let u = (n - 1) as usize;
        match lightest(w, p, none, (n - 1) as nat) {
            None => if p[u as int] == none {
                Some(u)
            } else {
                None
            },
            Some(v) => if p[u as int] == none && w[u as int] < w[v as int] {
                Some(u)
            } else {
                Some(v)
            },
        }
    }
}

/// The parents after merging until there are `none` nodes.
pub open spec fn grown(w: Seq<u64>, p: Seq<usize>, none: usize) -> Seq<usize>
    decreases none - w.len(),
{
    let m = w.len();
    if m >= none {
        p
    } else {
        let a = lightest(w, p, none, m)->0;
        let p1 = p.update(a as int, m as usize);
        let b = lightest(w, p1, none, m)->0;
        let p2 = p1.update(b as int, m as usize).push(none);
        grown(w.push((w[a as int] + w[b as int]) as u64), p2, none)
    }
}

/// The parents of the Huffman tree over leaves of these weights.
pub open spec fn tree(w: Seq<u64>) -> Seq<usize> {
    let none = (2 * w.len() - 1) as usize;
    grown(w, Seq::new(w.len(), |i: int| none), none)
}

/// A node's depth: its parent's plus one.
pub open spec fn depth_of(p: Seq<usize>, none: usize, u: nat) -> nat
    decreases none - u,
{
    if u >= none || p[u as int] >= none || p[u as int] <= u {
        0
    } else {
        1 + depth_of(p, none, p[u as int] as nat)
    }
}

/// A leaf's depth, cut off at `max`.
pub open spec fn cut_depth(p: Seq<usize>, none: usize, max: nat, u: nat) -> nat {
    if depth_of(p, none, u) < max {
        depth_of(p, none, u)
    } else {
        max
    }
}

/// How many of the first `n` leaves have each depth.
pub open spec fn per_depth(p: Seq<usize>, none: usize, max: nat, n: nat) -> Seq<u32>
    decreases n,
{
    if n == 0 {
        Seq::new(max + 1, |i: int| 0u32)
    } else {
        let h = per_depth(p, none, max, (n - 1) as nat);
        let c = cut_depth(p, none, max, (n - 1) as nat) as int;
        h.update(c, (h[c] + 1) as u32)
    }
}

/// The code space that codes of up to `n` bits take up, in units of
/// `max`-bit codes.
pub open spec fn space(h: Seq<u32>, max: nat, n: nat) -> nat
    decreases n,
{
    if n == 0 {
        0
    } else {
        space(h, max, (n - 1) as nat) + h[n as int] as nat * pow2((max - n) as nat)
    }
}

/// The longest length below `n` that has a code.
pub open spec fn longest_below(h: Seq<u32>, n: nat) -> nat
    decreases n,
{
    if n <= 1 {
        0
    } else if h[n - 1] > 0 {
        (n - 1) as nat
    } else {
        longest_below(h, (n - 1) as nat)
    }
}

/// One code of `max` bits removed, and a shorter leaf split into two: that
/// frees exactly one slot.
pub open spec fn squash_step(h: Seq<u32>, max: nat) -> Seq<u32> {
    let h1 = h.update(max as int, (h[max as int] - 1) as u32);
    let l = longest_below(h1, max) as int;
    if l == 0 {
        h1
    } else {
        let h2 = h1.update(l, (h1[l] - 1) as u32);
        h2.update(l + 1, (h2[l + 1] + 2) as u32)
    }
}

/// So many slots freed.
pub open spec fn squashed(h: Seq<u32>, max: nat, excess: nat) -> Seq<u32>
    decreases excess,
{
    if excess == 0 {
        h
    } else {
        squashed(squash_step(h, max), max, (excess - 1) as nat)
    }
}

/// Codes cut off at `max` bits over-fill the slots; free as many as are too
/// many.
pub open spec fn limited(h: Seq<u32>, max: nat) -> Seq<u32> {
    let s = space(h, max, max);
    squashed(
        h,
        max,
        if s > pow2(max) {
            (s - pow2(max)) as nat
        } else {
            0
        },
    )
}

/// Where a symbol of count `c` goes among the first `n` of `order`: behind
/// those that occur as often or more.
pub open spec fn place(order: Seq<usize>, counts: Seq<u64>, c: u64, n: nat) -> nat
    decreases n,
{
    if n == 0 || counts[order[n - 1] as int] >= c {
        n
    } else {
        place(order, counts, c, (n - 1) as nat)
    }
}

/// Symbols by falling count; of equals, the first in front.
pub open spec fn by_count(counts: Seq<u64>, symbols: Seq<usize>) -> Seq<usize>
    decreases symbols.len(),
{
    if symbols.len() == 0 {
        Seq::empty()
    } else {
        let order = by_count(counts, symbols.drop_last());
        let s = symbols.last();
        order.insert(place(order, counts, counts[s as int], order.len()) as int, s)
    }
}

/// The length of code number `i`, counting from the codes of `l` bits on,
/// shortest first.
pub open spec fn nth_len(h: Seq<u32>, i: nat, l: nat) -> nat
    decreases h.len() - l,
{
    if l >= h.len() {
        0
    } else if i < h[l as int] {
        l
    } else {
        nth_len(h, (i - h[l as int]) as nat, l + 1)
    }
}

/// The first `i` symbols of `order` have been given their lengths: the most
/// frequent symbols get the shortest codes.
pub open spec fn assigned(n: nat, order: Seq<usize>, h: Seq<u32>, i: nat) -> Seq<u8>
    decreases i,
{
    if i == 0 {
        Seq::new(n, |k: int| 0u8)
    } else {
        assigned(n, order, h, (i - 1) as nat).update(
            order[i - 1] as int,
            nth_len(h, (i - 1) as nat, 0) as u8,
        )
    }
}

/// How many codes there are of each length.
pub open spec fn codes_per_len(counts: Seq<u64>, max_len: nat) -> Seq<u32> {
    let u = used(counts);
    let w = Seq::new(u.len(), |i: int| counts[u[i] as int]);
    let none = (2 * u.len() - 1) as usize;
    limited(per_depth(tree(w), none, max_len, u.len()), max_len)
}

/// What [`code_lengths`] returns.
pub open spec fn lengths_for(counts: Seq<u64>, max_len: nat) -> Seq<u8> {
    let u = used(counts);
    let zero = Seq::new(counts.len(), |k: int| 0u8);
    if u.len() == 0 {
        zero
    } else if u.len() == 1 {
        zero.update(u[0] as int, 1)
    } else {
        assigned(counts.len(), by_count(counts, u), codes_per_len(counts, max_len), u.len())
    }
}

// The tree.

/// How many nodes below `n` have the parent `v`.
pub open spec fn kids(p: Seq<usize>, v: usize, n: nat) -> nat
    decreases n,
{
    if n == 0 {
        0
    } else {
        kids(p, v, (n - 1) as nat) + if p[n - 1] == v {
            1nat
        } else {
            0nat
        }
    }
}

proof fn lemma_kids_update(p: Seq<usize>, v: usize, n: nat, a: int, x: usize)
    requires
        0 <= a < p.len(),
        n <= p.len(),
    ensures
        kids(p.update(a, x), v, n) == kids(p, v, n) - (if a < n && p[a] == v {
            1int
        } else {
            0int
        }) + (if a < n && x == v {
            1int
        } else {
            0int
        }),
    decreases n,
{
    if n > 0 {
        lemma_kids_update(p, v, (n - 1) as nat, a, x);
    }
}

proof fn lemma_kids_same(p: Seq<usize>, q: Seq<usize>, v: usize, n: nat)
    requires
        n <= p.len(),
        n <= q.len(),
        forall|i: int| 0 <= i < n ==> p[i] == q[i],
    ensures
        kids(p, v, n) == kids(q, v, n),
    decreases n,
{
    if n > 0 {
        lemma_kids_same(p, q, v, (n - 1) as nat);
    }
}

pub proof fn lemma_kids_none(p: Seq<usize>, v: usize, n: nat)
    requires
        n <= p.len(),
        forall|i: int| 0 <= i < n ==> p[i] != v,
    ensures
        kids(p, v, n) == 0,
    decreases n,
{
    if n > 0 {
        lemma_kids_none(p, v, (n - 1) as nat);
    }
}

proof fn lemma_kids_all(p: Seq<usize>, v: usize, n: nat)
    requires
        n <= p.len(),
        forall|i: int| 0 <= i < n ==> p[i] == v,
    ensures
        kids(p, v, n) == n,
    decreases n,
{
    if n > 0 {
        lemma_kids_all(p, v, (n - 1) as nat);
    }
}

pub proof fn lemma_lightest(w: Seq<u64>, p: Seq<usize>, none: usize, n: nat)
    requires
        n <= p.len(),
        n <= w.len() <= usize::MAX,
    ensures
        match lightest(w, p, none, n) {
            None => kids(p, none, n) == 0,
            Some(v) => {
                &&& v < n
                &&& p[v as int] == none
                &&& kids(p, none, n) > 0
                &&& forall|u: int|
                    0 <= u < n && #[trigger] p[u] == none ==> w[v as int] <= w[u]
            },
        },
    decreases n,
{
    if n > 0 {
        lemma_lightest(w, p, none, (n - 1) as nat);
        if lightest(w, p, none, (n - 1) as nat) is None && p[n - 1] == none {
            assert forall|u: int| 0 <= u < n && #[trigger] p[u] == none implies w[n - 1]
                <= w[u] by {
                if u < n - 1 {
                    lemma_kids_some(p, none, (n - 1) as nat, u);
                }
            }
        }
    }
}

pub proof fn lemma_kids_some(p: Seq<usize>, v: usize, n: nat, u: int)
    requires
        n <= p.len(),
        0 <= u < n,
        p[u] == v,
    ensures
        kids(p, v, n) > 0,
    decreases n,
{
    if u < n - 1 {
        lemma_kids_some(p, v, (n - 1) as nat, u);
    }
}

/// A forest in the making: nodes without a parent have `none`, the others
/// one behind them; every inner node has two children.
pub open spec fn forest_ok(p: Seq<usize>, none: usize, n: nat) -> bool {
    &&& 1 <= n <= p.len() <= none
    &&& none == 2 * n - 1
    &&& forall|u: int|
        0 <= u < p.len() && #[trigger] p[u] != none ==> u < p[u] < p.len() && n <= p[u]
    &&& forall|v: usize| n <= v < p.len() ==> #[trigger] kids(p, v, p.len()) == 2
    &&& kids(p, none, p.len()) == 2 * n - p.len()
}

/// The two lightest nodes get a common parent.
pub proof fn lemma_merge(w: Seq<u64>, p: Seq<usize>, none: usize, n: nat)
    requires
        forest_ok(p, none, n),
        w.len() == p.len(),
        p.len() < none,
    ensures
        ({
            let m = p.len();
            let a = lightest(w, p, none, m);
            let p1 = p.update(a->0 as int, m as usize);
            let b = lightest(w, p1, none, m);
            let p2 = p1.update(b->0 as int, m as usize).push(none);
            &&& a is Some && a->0 < m && p[a->0 as int] == none
            &&& b is Some && b->0 < m && p[b->0 as int] == none && a->0 != b->0
            &&& forest_ok(p2, none, n)
        }),
{
    let m = p.len();
    lemma_lightest(w, p, none, m);
    let a = lightest(w, p, none, m)->0;
    let p1 = p.update(a as int, m as usize);
    lemma_kids_update(p, none, m, a as int, m as usize);
    lemma_lightest(w, p1, none, m);
    let b = lightest(w, p1, none, m)->0;
    assert(p1[b as int] == none);
    assert(a != b);
    let q = p1.update(b as int, m as usize);
    lemma_kids_update(p1, none, m, b as int, m as usize);
    let p2 = q.push(none);
    lemma_kids_same(p2, q, none, m);
    assert forall|v: usize| n <= v < p2.len() implies #[trigger] kids(p2, v, p2.len()) == 2 by {
        lemma_kids_same(p2, q, v, m);
        lemma_kids_update(p, v, m, a as int, m as usize);
        lemma_kids_update(p1, v, m, b as int, m as usize);
        if v < m {
            assert(kids(p, v, p.len()) == 2);
        } else {
            assert forall|i: int| 0 <= i < m implies p[i] != v by {
                if p[i] != none {
                    assert(p[i] < p.len());
                }
            }
            lemma_kids_none(p, v, m);
        }
    }
    assert forall|u: int| 0 <= u < p2.len() && #[trigger] p2[u] != none implies u < p2[u]
        < p2.len() && n <= p2[u] by {
        if u != a && u != b {
            assert(p[u] != none);
        }
    }
}

/// A finished tree.
pub proof fn lemma_grown(w: Seq<u64>, p: Seq<usize>, none: usize, n: nat)
    requires
        forest_ok(p, none, n),
        w.len() == p.len(),
    ensures
        grown(w, p, none).len() == none,
        forest_ok(grown(w, p, none), none, n),
    decreases none - w.len(),
{
    let m = w.len();
    if m < none {
        lemma_merge(w, p, none, n);
        let a = lightest(w, p, none, m)->0;
        let p1 = p.update(a as int, m as usize);
        let b = lightest(w, p1, none, m)->0;
        let p2 = p1.update(b as int, m as usize).push(none);
        lemma_grown(w.push((w[a as int] + w[b as int]) as u64), p2, none, n);
    }
}

pub proof fn lemma_leaves(w: Seq<u64>)
    requires
        1 <= w.len(),
        2 * w.len() - 1 <= usize::MAX,
    ensures
        forest_ok(
            Seq::new(w.len(), |i: int| (2 * w.len() - 1) as usize),
            (2 * w.len() - 1) as usize,
            w.len(),
        ),
{
    let none = (2 * w.len() - 1) as usize;
    let p = Seq::new(w.len(), |i: int| none);
    lemma_kids_all(p, none, w.len());
}

pub proof fn lemma_tree(w: Seq<u64>)
    requires
        1 <= w.len(),
        2 * w.len() - 1 <= usize::MAX,
    ensures
        tree(w).len() == 2 * w.len() - 1,
        forest_ok(tree(w), (2 * w.len() - 1) as usize, w.len()),
{
    let none = (2 * w.len() - 1) as usize;
    lemma_leaves(w);
    lemma_grown(w, Seq::new(w.len(), |i: int| none), none, w.len());
}

// The tree fills the code space.

/// A node's share of the code space, in units of `1 / 2^d`.
spec fn share(p: Seq<usize>, none: usize, d: nat, u: nat) -> nat {
    pow2((d - depth_of(p, none, u)) as nat)
}

pub proof fn lemma_depth_bound(p: Seq<usize>, none: usize, u: nat)
    ensures
        depth_of(p, none, u) <= none,
        u < none ==> depth_of(p, none, u) <= none - u,
    decreases none - u,
{
    if u >= none || p[u as int] >= none || p[u as int] <= u {
    } else {
        lemma_depth_bound(p, none, p[u as int] as nat);
    }
}

/// The share of node `u` if it stands between the nodes before `m` and
/// their parents from `m` on.
spec fn cut_share(p: Seq<usize>, none: usize, d: nat, m: nat, u: nat) -> nat {
    if u < m && p[u as int] >= m {
        share(p, none, d, u)
    } else {
        0
    }
}

spec fn cut_sum(p: Seq<usize>, none: usize, d: nat, m: nat, n: nat) -> nat
    decreases n,
{
    if n == 0 {
        0
    } else {
        cut_sum(p, none, d, m, (n - 1) as nat) + cut_share(p, none, d, m, (n - 1) as nat)
    }
}

spec fn kid_sum(p: Seq<usize>, none: usize, d: nat, m: nat, n: nat) -> nat
    decreases n,
{
    if n == 0 {
        0
    } else {
        kid_sum(p, none, d, m, (n - 1) as nat) + if p[n - 1] == m {
            share(p, none, d, (n - 1) as nat)
        } else {
            0
        }
    }
}

/// Moving the cut up by one node takes the node in and its children out.
proof fn lemma_cut_step(p: Seq<usize>, none: usize, leaves: nat, d: nat, m: nat, n: nat)
    requires
        forest_ok(p, none, leaves),
        p.len() == none,
        m < none,
        n <= none,
    ensures
        cut_sum(p, none, d, m + 1, n) + kid_sum(p, none, d, m, n) == cut_sum(p, none, d, m, n) + (
        if m < n {
            share(p, none, d, m)
        } else {
            0
        }),
    decreases n,
{
    if n > 0 {
        lemma_cut_step(p, none, leaves, d, m, (n - 1) as nat);
        let u = n - 1;
        if p[u] != none {
            assert(u < p[u]);
        }
    }
}

/// Children share their parent's code space equally.
proof fn lemma_kid_sum(p: Seq<usize>, none: usize, leaves: nat, d: nat, m: nat, n: nat)
    requires
        forest_ok(p, none, leaves),
        p.len() == none,
        m < none,
        n <= none,
        d > none,
    ensures
        2 * kid_sum(p, none, d, m, n) == kids(p, m as usize, n) * share(p, none, d, m),
    decreases n,
{
    let k = kids(p, m as usize, n);
    let s = share(p, none, d, m);
    if n > 0 {
        let u = (n - 1) as nat;
        lemma_kid_sum(p, none, leaves, d, m, u);
        if p[u as int] == m {
            assert(u < p[u as int]);
            lemma_depth_bound(p, none, m);
            lemma_pow2_unfold((d - depth_of(p, none, m)) as nat);
            assert(share(p, none, d, u) * 2 == s);
            let k1 = kids(p, m as usize, u);
            assert((k1 + 1) * s == k1 * s + s) by (nonlinear_arith);
        }
    } else {
        assert(0 * s == 0);
    }
}

proof fn lemma_cut_sum(p: Seq<usize>, none: usize, leaves: nat, d: nat, m: nat)
    requires
        forest_ok(p, none, leaves),
        p.len() == none,
        leaves <= m <= none,
        d > none,
    ensures
        cut_sum(p, none, d, m, none as nat) == pow2(d),
    decreases none - m,
{
    if m == none {
        lemma_root_only(p, none, leaves, d, none as nat);
    } else {
        lemma_cut_sum(p, none, leaves, d, m + 1);
        lemma_cut_step(p, none, leaves, d, m, none as nat);
        lemma_kid_sum(p, none, leaves, d, m, none as nat);
        let k = kids(p, m as usize, p.len());
        let s = share(p, none, d, m);
        assert(k == 2);
        assert(k * s == 2 * s) by (nonlinear_arith)
            requires
                k == 2,
        ;
    }
}

/// Only the root has no parent.
proof fn lemma_root_only(p: Seq<usize>, none: usize, leaves: nat, d: nat, n: nat)
    requires
        forest_ok(p, none, leaves),
        p.len() == none,
        n <= none,
    ensures
        cut_sum(p, none, d, none as nat, n) == kids(p, none, n) * pow2(d),
        n == none ==> cut_sum(p, none, d, none as nat, n) == pow2(d),
    decreases n,
{
    if n > 0 {
        let u = (n - 1) as nat;
        lemma_root_only(p, none, leaves, d, u);
        if p[u as int] == none {
            let k = kids(p, none, u);
            assert((k + 1) * pow2(d) == k * pow2(d) + pow2(d)) by (nonlinear_arith);
        } else {
            assert(p[u as int] < p.len());
        }
    } else {
        assert(0 * pow2(d) == 0);
    }
    if n == none {
        assert(kids(p, none, p.len()) == 1);
        assert(1 * pow2(d) == pow2(d));
    }
}

/// The code space of the leaves.
spec fn leaf_sum(p: Seq<usize>, none: usize, d: nat, n: nat) -> nat
    decreases n,
{
    if n == 0 {
        0
    } else {
        leaf_sum(p, none, d, (n - 1) as nat) + share(p, none, d, (n - 1) as nat)
    }
}

proof fn lemma_leaf_sum(p: Seq<usize>, none: usize, leaves: nat, d: nat, n: nat)
    requires
        forest_ok(p, none, leaves),
        p.len() == none,
        n <= none,
    ensures
        n <= leaves ==> cut_sum(p, none, d, leaves, n) == leaf_sum(p, none, d, n),
        n > leaves ==> cut_sum(p, none, d, leaves, n) == leaf_sum(p, none, d, leaves),
    decreases n,
{
    if n > 0 {
        lemma_leaf_sum(p, none, leaves, d, (n - 1) as nat);
        let u = n - 1;
        if u < leaves {
            if p[u] != none {
                assert(leaves <= p[u]);
            }
        }
    }
}

/// Together the leaves fill the code space exactly.
proof fn lemma_leaves_fill(p: Seq<usize>, none: usize, leaves: nat, d: nat)
    requires
        forest_ok(p, none, leaves),
        p.len() == none,
        d > none,
    ensures
        leaf_sum(p, none, d, leaves) == pow2(d),
{
    lemma_cut_sum(p, none, leaves, d, leaves);
    lemma_leaf_sum(p, none, leaves, d, none as nat);
}

// Cutting off depths, and freeing slots again.

/// How many codes of fewer than `n` bits there are.
pub open spec fn codes(h: Seq<u32>, n: nat) -> nat
    decreases n,
{
    if n == 0 {
        0
    } else {
        codes(h, (n - 1) as nat) + h[n - 1] as nat
    }
}

proof fn lemma_codes_set(h: Seq<u32>, n: nat, c: int, x: u32)
    requires
        n <= h.len(),
        0 <= c < h.len(),
    ensures
        codes(h.update(c, x), n) == codes(h, n) + (if c < n {
            x - h[c]
        } else {
            0
        }),
    decreases n,
{
    if n > 0 {
        lemma_codes_set(h, (n - 1) as nat, c, x);
    }
}

proof fn lemma_codes_at(h: Seq<u32>, n: nat, c: int)
    requires
        0 <= c < n <= h.len(),
    ensures
        h[c] <= codes(h, n),
    decreases n,
{
    if c < n - 1 {
        lemma_codes_at(h, (n - 1) as nat, c);
    }
}

proof fn lemma_space_set(h: Seq<u32>, max: nat, n: nat, c: int, x: u32)
    requires
        n < h.len(),
        0 <= c < h.len(),
    ensures
        space(h.update(c, x), max, n) == space(h, max, n) + (if 1 <= c <= n {
            (x - h[c]) * pow2((max - c) as nat)
        } else {
            0
        }),
    decreases n,
{
    if n > 0 {
        lemma_space_set(h, max, (n - 1) as nat, c, x);
        if c == n {
            let p = pow2((max - n) as nat) as int;
            assert(x as int * p == h[c] as int * p + (x - h[c]) * p) by (nonlinear_arith);
        }
    }
}

proof fn lemma_no_codes(h: Seq<u32>, n: nat)
    requires
        n <= h.len(),
        forall|i: int| 0 <= i < n ==> h[i] == 0,
    ensures
        codes(h, n) == 0,
    decreases n,
{
    if n > 0 {
        lemma_no_codes(h, (n - 1) as nat);
    }
}

proof fn lemma_no_space(h: Seq<u32>, max: nat, n: nat)
    requires
        n < h.len(),
        forall|i: int| 1 <= i <= n ==> h[i] == 0,
    ensures
        space(h, max, n) == 0,
    decreases n,
{
    if n > 0 {
        lemma_no_space(h, max, (n - 1) as nat);
        assert(0 * pow2((max - n) as nat) == 0) by (nonlinear_arith);
    }
}

/// No leaf of a tree with two leaves or more is its root.
pub proof fn lemma_leaf_depth(p: Seq<usize>, none: usize, leaves: nat, u: nat)
    requires
        forest_ok(p, none, leaves),
        p.len() == none,
        leaves >= 2,
        u < leaves,
    ensures
        depth_of(p, none, u) >= 1,
{
    let root = none - 1;
    if p[root] != none {
        assert(root < p[root] < p.len());
    }
    if p[u as int] == none {
        assert(u < root);
        lemma_kids_some(p, none, root as nat, u as int);
        assert(kids(p, none, p.len()) == 1);
    } else {
        assert(u < p[u as int] < p.len());
    }
}

/// The histogram of cut-off depths counts every leaf, fills the code space
/// at least, and its codes below the limit at most.
proof fn lemma_per_depth(p: Seq<usize>, none: usize, leaves: nat, max: nat, d: nat, n: nat)
    requires
        forest_ok(p, none, leaves),
        p.len() == none,
        2 <= leaves <= u32::MAX,
        n <= leaves,
        1 <= max <= d,
        none < d,
    ensures
        ({
            let h = per_depth(p, none, max, n);
            &&& h.len() == max + 1
            &&& h[0] == 0
            &&& codes(h, max + 1) == n
            &&& pow2((d - max) as nat) * space(h, max, max) >= leaf_sum(p, none, d, n)
            &&& pow2((d - max) as nat) * space(h, max, (max - 1) as nat) <= leaf_sum(
                p,
                none,
                d,
                n,
            )
        }),
    decreases n,
{
    let h = per_depth(p, none, max, n);
    let q = pow2((d - max) as nat);
    if n == 0 {
        lemma_no_codes(h, max + 1);
        lemma_no_space(h, max, max);
        lemma_no_space(h, max, (max - 1) as nat);
        assert(q * 0 == 0);
    } else {
        let u = (n - 1) as nat;
        lemma_per_depth(p, none, leaves, max, d, u);
        lemma_leaf_depth(p, none, leaves, u);
        lemma_depth_bound(p, none, u);
        let g = per_depth(p, none, max, u);
        let c = cut_depth(p, none, max, u) as int;
        lemma_codes_at(g, max + 1, c);
        let x = (g[c] + 1) as u32;
        lemma_codes_set(g, max + 1, c, x);
        lemma_space_set(g, max, max, c, x);
        lemma_space_set(g, max, (max - 1) as nat, c, x);
        let gain = pow2((max - c) as nat);
        assert((x - g[c]) * gain == gain) by (nonlinear_arith)
            requires
                x - g[c] == 1,
        ;
        let s0 = space(g, max, max);
        let s1 = space(g, max, (max - 1) as nat);
        assert(q * (s0 + gain) == q * s0 + q * gain) by (nonlinear_arith);
        assert(q * (s1 + gain) == q * s1 + q * gain) by (nonlinear_arith);
        lemma_pow2_adds((d - max) as nat, (max - c) as nat);
        let depth = depth_of(p, none, u);
        if depth >= max {
            lemma_pow2_values();
            lemma_pow2_le((d - depth) as nat, (d - max) as nat);
            assert(q * 1 == q);
        } else {
            assert((d - max) as nat + (max - c) as nat == (d - depth) as nat);
        }
    }
}

/// Where no depth is cut off, the histogram fills the code space as the tree
/// does.
proof fn lemma_exact(p: Seq<usize>, none: usize, leaves: nat, max: nat, d: nat, n: nat)
    requires
        forest_ok(p, none, leaves),
        p.len() == none,
        2 <= leaves <= u32::MAX,
        n <= leaves,
        1 <= max <= d,
        none < d,
        forall|u: nat| u < n ==> #[trigger] depth_of(p, none, u) <= max,
    ensures
        pow2((d - max) as nat) * space(per_depth(p, none, max, n), max, max) == leaf_sum(
            p,
            none,
            d,
            n,
        ),
    decreases n,
{
    let h = per_depth(p, none, max, n);
    let q = pow2((d - max) as nat);
    if n == 0 {
        lemma_no_space(h, max, max);
        assert(q * 0 == 0);
    } else {
        let u = (n - 1) as nat;
        lemma_exact(p, none, leaves, max, d, u);
        lemma_per_depth(p, none, leaves, max, d, u);
        lemma_leaf_depth(p, none, leaves, u);
        let g = per_depth(p, none, max, u);
        let c = depth_of(p, none, u);
        assert(cut_depth(p, none, max, u) == c);
        lemma_codes_at(g, max + 1, c as int);
        let x = (g[c as int] + 1) as u32;
        lemma_space_set(g, max, max, c as int, x);
        let gain = pow2((max - c) as nat);
        assert((x - g[c as int]) * gain == gain) by (nonlinear_arith)
            requires
                x - g[c as int] == 1,
        ;
        let s0 = space(g, max, max);
        assert(q * (s0 + gain) == q * s0 + q * gain) by (nonlinear_arith);
        lemma_pow2_adds((d - max) as nat, (max - c) as nat);
        assert((d - max) as nat + (max - c) as nat == (d - c) as nat);
    }
}

/// A tree within the limit keeps its depths.
pub proof fn lemma_unlimited(w: Seq<u64>, max: nat)
    requires
        2 <= w.len() <= pow2(max),
        1 <= max <= 15,
        forall|u: nat|
            u < w.len() ==> #[trigger] depth_of(tree(w), (2 * w.len() - 1) as usize, u) <= max,
    ensures
        ({
            let h = per_depth(tree(w), (2 * w.len() - 1) as usize, max, w.len());
            limited(h, max) == h && h.len() == max + 1 && h[0] == 0 && codes(h, max + 1) == w.len()
        }),
{
    lemma_pow2_values();
    lemma_pow2_le(max, 15);
    lemma_tree(w);
    let none = (2 * w.len() - 1) as usize;
    let p = tree(w);
    let n = w.len();
    let d = (none + 16) as nat;
    lemma_per_depth(p, none, n, max, d, n);
    lemma_exact(p, none, n, max, d, n);
    lemma_leaves_fill(p, none, n, d);
    let h = per_depth(p, none, max, n);
    let q = pow2((d - max) as nat);
    lemma_pow2_adds((d - max) as nat, max);
    lemma_pow2_pos((d - max) as nat);
    let s = space(h, max, max);
    assert(s == pow2(max)) by (nonlinear_arith)
        requires
            q * s == q * pow2(max),
            q > 0,
    ;
}

/// A histogram whose codes are too many by what is still to be freed.
spec fn can_squash(h: Seq<u32>, max: nat, n: nat) -> bool {
    &&& h.len() == max + 1
    &&& 1 <= max <= 15
    &&& h[0] == 0
    &&& codes(h, max + 1) == n
    &&& n <= pow2(max)
    &&& space(h, max, (max - 1) as nat) <= pow2(max)
    &&& space(h, max, max) >= pow2(max)
}

proof fn lemma_longest_below(h: Seq<u32>, n: nat)
    requires
        1 <= n <= h.len(),
    ensures
        longest_below(h, n) < n,
        longest_below(h, n) > 0 ==> h[longest_below(h, n) as int] > 0,
        longest_below(h, n) == 0 ==> forall|i: int| 1 <= i < n ==> h[i] == 0,
    decreases n,
{
    if n > 1 && h[n - 1] == 0 {
        lemma_longest_below(h, (n - 1) as nat);
    }
}

/// Freeing one slot.
proof fn lemma_squash_step(h: Seq<u32>, max: nat, n: nat)
    requires
        can_squash(h, max, n),
        space(h, max, max) > pow2(max),
    ensures
        can_squash(squash_step(h, max), max, n),
        space(squash_step(h, max), max, max) == space(h, max, max) - 1,
        h[max as int] > 0,
        ({
            let h1 = h.update(max as int, (h[max as int] - 1) as u32);
            let l = longest_below(h1, max) as int;
            &&& 1 <= l < max
            &&& h1[l] > 0
            &&& h1[l + 1] + 2 <= u32::MAX
        }),
{
    lemma_pow2_values();
    lemma_pow2_le(max, 15);
    let short = (max - 1) as nat;
    let m = max as int;
    assert(h[m] as nat * pow2(0) == h[m] as nat) by (nonlinear_arith)
        requires
            pow2(0) == 1,
    ;
    assert(space(h, max, max) == space(h, max, short) + h[m] as nat);
    let h1 = h.update(m, (h[m] - 1) as u32);
    lemma_codes_set(h, max + 1, m, (h[m] - 1) as u32);
    lemma_space_set(h, max, max, m, (h[m] - 1) as u32);
    lemma_space_set(h, max, short, m, (h[m] - 1) as u32);
    assert((h1[m] - h[m]) * pow2(0) == -1) by (nonlinear_arith)
        requires
            h1[m] - h[m] == -1,
            pow2(0) == 1,
    ;
    let l = longest_below(h1, max) as int;
    lemma_longest_below(h1, max);
    if l == 0 {
        lemma_no_space(h1, max, short);
        lemma_codes_at(h, max + 1, m);
    }
    lemma_codes_at(h1, max + 1, l);
    lemma_codes_at(h1, max + 1, l + 1);
    let h2 = h1.update(l, (h1[l] - 1) as u32);
    lemma_codes_set(h1, max + 1, l, (h1[l] - 1) as u32);
    lemma_space_set(h1, max, max, l, (h1[l] - 1) as u32);
    lemma_space_set(h1, max, short, l, (h1[l] - 1) as u32);
    let h3 = h2.update(l + 1, (h2[l + 1] + 2) as u32);
    lemma_codes_set(h2, max + 1, l + 1, (h2[l + 1] + 2) as u32);
    lemma_space_set(h2, max, max, l + 1, (h2[l + 1] + 2) as u32);
    lemma_space_set(h2, max, short, l + 1, (h2[l + 1] + 2) as u32);
    let a = pow2((max - l) as nat);
    let b = pow2((max - l - 1) as nat);
    lemma_pow2_unfold((max - l) as nat);
    assert((h2[l] - h1[l]) * a == -a) by (nonlinear_arith)
        requires
            h2[l] - h1[l] == -1,
    ;
    assert((h3[l + 1] - h2[l + 1]) * b == 2 * b) by (nonlinear_arith)
        requires
            h3[l + 1] - h2[l + 1] == 2,
    ;
    assert(squash_step(h, max) == h3);
}

proof fn lemma_squashed(h: Seq<u32>, max: nat, n: nat, excess: nat)
    requires
        can_squash(h, max, n),
        space(h, max, max) == pow2(max) + excess,
    ensures
        can_squash(squashed(h, max, excess), max, n),
        space(squashed(h, max, excess), max, max) == pow2(max),
    decreases excess,
{
    if excess > 0 {
        lemma_squash_step(h, max, n);
        lemma_squashed(squash_step(h, max), max, n, (excess - 1) as nat);
    }
}

/// The histogram of the tree's depths can be squashed.
proof fn lemma_can_squash(w: Seq<u64>, max: nat)
    requires
        2 <= w.len() <= pow2(max),
        1 <= max <= 15,
    ensures
        can_squash(
            per_depth(tree(w), (2 * w.len() - 1) as usize, max, w.len()),
            max,
            w.len(),
        ),
{
    lemma_pow2_values();
    lemma_pow2_le(max, 15);
    lemma_tree(w);
    let none = (2 * w.len() - 1) as usize;
    let p = tree(w);
    let n = w.len();
    let d = (none + 16) as nat;
    lemma_per_depth(p, none, n, max, d, n);
    lemma_leaves_fill(p, none, n, d);
    let h = per_depth(p, none, max, n);
    let q = pow2((d - max) as nat);
    lemma_pow2_adds((d - max) as nat, max);
    lemma_pow2_pos((d - max) as nat);
    let s = space(h, max, max);
    let t = space(h, max, (max - 1) as nat);
    assert(s >= pow2(max)) by (nonlinear_arith)
        requires
            q * s >= q * pow2(max),
            q > 0,
    ;
    assert(t <= pow2(max)) by (nonlinear_arith)
        requires
            q * t <= q * pow2(max),
            q > 0,
    ;
}

/// The limited histogram fills the code space exactly.
proof fn lemma_limited(w: Seq<u64>, max: nat)
    requires
        2 <= w.len() <= pow2(max),
        1 <= max <= 15,
    ensures
        ({
            let h = limited(
                per_depth(tree(w), (2 * w.len() - 1) as usize, max, w.len()),
                max,
            );
            &&& can_squash(h, max, w.len())
            &&& space(h, max, max) == pow2(max)
        }),
{
    lemma_can_squash(w, max);
    let h = per_depth(tree(w), (2 * w.len() - 1) as usize, max, w.len());
    lemma_squashed(h, max, w.len(), (space(h, max, max) - pow2(max)) as nat);
}

/// There are as many codes as symbols that occur.
pub proof fn lemma_codes_per_len(counts: Seq<u64>, max_len: nat)
    requires
        2 <= used(counts).len() <= pow2(max_len),
        1 <= max_len <= 15,
    ensures
        ({
            let h = codes_per_len(counts, max_len);
            &&& h.len() == max_len + 1
            &&& h[0] == 0
            &&& codes(h, max_len + 1) == used(counts).len()
        }),
{
    let u = used(counts);
    lemma_limited(Seq::new(u.len(), |i: int| counts[u[i] as int]), max_len);
}

// Handing out lengths.

pub proof fn lemma_place(order: Seq<usize>, counts: Seq<u64>, c: u64, n: nat)
    ensures
        place(order, counts, c, n) <= n,
    decreases n,
{
    if n > 0 && counts[order[n - 1] as int] < c {
        lemma_place(order, counts, c, (n - 1) as nat);
    }
}

/// Sorting keeps the symbols, each once.
pub proof fn lemma_by_count(counts: Seq<u64>, symbols: Seq<usize>)
    requires
        symbols.no_duplicates(),
    ensures
        by_count(counts, symbols).len() == symbols.len(),
        by_count(counts, symbols).no_duplicates(),
        forall|x: usize| #[trigger]
            by_count(counts, symbols).contains(x) <==> symbols.contains(x),
    decreases symbols.len(),
{
    let all = by_count(counts, symbols);
    if symbols.len() > 0 {
        let rest = symbols.drop_last();
        let s = symbols.last();
        assert(rest.no_duplicates());
        lemma_by_count(counts, rest);
        let order = by_count(counts, rest);
        lemma_place(order, counts, counts[s as int], order.len());
        let at = place(order, counts, counts[s as int], order.len()) as int;
        assert(all == order.insert(at, s));
        assert(!rest.contains(s)) by {
            if rest.contains(s) {
                let i = choose|i: int| 0 <= i < rest.len() && rest[i] == s;
                assert(symbols[i] == symbols[symbols.len() - 1]);
            }
        }
        assert(!order.contains(s));
        assert forall|x: usize| #[trigger] all.contains(x) <==> symbols.contains(x) by {
            if all.contains(x) {
                let i = choose|i: int| 0 <= i < all.len() && all[i] == x;
                if i < at {
                    assert(order[i] == x);
                    assert(order.contains(x));
                } else if i > at {
                    assert(order[i - 1] == x);
                    assert(order.contains(x));
                }
                if x != s {
                    assert(rest.contains(x));
                    let k = choose|k: int| 0 <= k < rest.len() && rest[k] == x;
                    assert(symbols[k] == x);
                } else {
                    assert(symbols[symbols.len() - 1] == x);
                }
            }
            if symbols.contains(x) {
                let k = choose|k: int| 0 <= k < symbols.len() && symbols[k] == x;
                if k < rest.len() {
                    assert(rest[k] == x);
                    assert(order.contains(x));
                    let i = choose|i: int| 0 <= i < order.len() && order[i] == x;
                    if i < at {
                        assert(all[i] == x);
                    } else {
                        assert(all[i + 1] == x);
                    }
                } else {
                    assert(all[at] == x);
                }
            }
        }
        assert forall|i: int, j: int| 0 <= i < all.len() && 0 <= j < all.len() && i != j implies all[i]
            != all[j] by {
            let i0 = if i < at {
                i
            } else {
                i - 1
            };
            let j0 = if j < at {
                j
            } else {
                j - 1
            };
            if i == at {
                assert(order[j0] == all[j]);
                assert(order.contains(all[j]));
            } else if j == at {
                assert(order[i0] == all[i]);
                assert(order.contains(all[i]));
            } else {
                assert(order[i0] == all[i] && order[j0] == all[j]);
            }
        }
    }
}

/// The used symbols are those that occur, each once.
pub proof fn lemma_used(counts: Seq<u64>, n: nat)
    requires
        n <= counts.len() <= usize::MAX,
    ensures
        used_symbols(counts, n).no_duplicates(),
        used_symbols(counts, n).len() <= n,
        forall|x: usize| #[trigger]
            used_symbols(counts, n).contains(x) <==> x < n && counts[x as int] > 0,
    decreases n,
{
    let u = used_symbols(counts, n);
    if n > 0 {
        lemma_used(counts, (n - 1) as nat);
        let v = used_symbols(counts, (n - 1) as nat);
        if counts[n - 1] > 0 {
            let s = (n - 1) as usize;
            assert(!v.contains(s));
            assert forall|x: usize| #[trigger] u.contains(x) <==> x < n && counts[x as int]
                > 0 by {
                if u.contains(x) {
                    let i = choose|i: int| 0 <= i < u.len() && u[i] == x;
                    if i < v.len() {
                        assert(v[i] == x);
                        assert(v.contains(x));
                    }
                }
                if x < n && counts[x as int] > 0 {
                    if x < n - 1 {
                        assert(v.contains(x));
                        let i = choose|i: int| 0 <= i < v.len() && v[i] == x;
                        assert(u[i] == x);
                    } else {
                        assert(u[u.len() - 1] == x);
                    }
                }
            }
            assert forall|i: int, j: int| 0 <= i < u.len() && 0 <= j < u.len() && i
                != j implies u[i] != u[j] by {
                if i == v.len() {
                    assert(v[j] == u[j]);
                    assert(v.contains(u[j]));
                } else if j == v.len() {
                    assert(v[i] == u[i]);
                    assert(v.contains(u[i]));
                } else {
                    assert(v[i] != v[j]);
                }
            }
        }
    } else {
        assert forall|x: usize| #[trigger] u.contains(x) implies false by {}
    }
}

/// The share of the code space of the first `c` codes, counting from the
/// codes of `l` bits on.
pub open spec fn rank_space(h: Seq<u32>, l: nat, c: nat) -> nat
    decreases c,
{
    if c == 0 {
        0
    } else {
        rank_space(h, l, (c - 1) as nat) + pow2((15 - nth_len(h, (c - 1) as nat, l)) as nat)
    }
}

/// How many codes of `l` bits or more there are.
pub open spec fn codes_from(h: Seq<u32>, l: nat) -> nat
    decreases h.len() - l,
{
    if l >= h.len() {
        0
    } else {
        h[l as int] as nat + codes_from(h, l + 1)
    }
}

spec fn space_from(h: Seq<u32>, l: nat) -> nat
    decreases h.len() - l,
{
    if l >= h.len() {
        0
    } else {
        h[l as int] as nat * pow2((15 - l) as nat) + space_from(h, l + 1)
    }
}

proof fn lemma_rank_head(h: Seq<u32>, l: nat, c: nat)
    requires
        l < h.len(),
        c <= h[l as int],
    ensures
        rank_space(h, l, c) == c * pow2((15 - l) as nat),
    decreases c,
{
    let p = pow2((15 - l) as nat);
    if c > 0 {
        lemma_rank_head(h, l, (c - 1) as nat);
        assert((c - 1) * p + p == c * p) by (nonlinear_arith);
    } else {
        assert(0 * p == 0);
    }
}

proof fn lemma_rank_split(h: Seq<u32>, l: nat, c: nat)
    requires
        l < h.len(),
    ensures
        rank_space(h, l, h[l as int] as nat + c) == h[l as int] as nat * pow2((15 - l) as nat)
            + rank_space(h, l + 1, c),
    decreases c,
{
    if c > 0 {
        lemma_rank_split(h, l, (c - 1) as nat);
    } else {
        lemma_rank_head(h, l, h[l as int] as nat);
    }
}

proof fn lemma_rank_all(h: Seq<u32>, l: nat)
    requires
        l <= h.len(),
    ensures
        rank_space(h, l, codes_from(h, l)) == space_from(h, l),
    decreases h.len() - l,
{
    if l < h.len() {
        lemma_rank_all(h, l + 1);
        lemma_rank_split(h, l, codes_from(h, l + 1));
    }
}

pub proof fn lemma_codes_join(h: Seq<u32>, l: nat)
    requires
        l <= h.len(),
    ensures
        codes(h, l) + codes_from(h, l) == codes(h, h.len()),
    decreases h.len() - l,
{
    if l < h.len() {
        lemma_codes_join(h, l + 1);
    }
}

proof fn lemma_space_join(h: Seq<u32>, l: nat)
    requires
        1 <= l <= h.len(),
    ensures
        space(h, 15, (l - 1) as nat) + space_from(h, l) == space(h, 15, (h.len() - 1) as nat),
    decreases h.len() - l,
{
    if l < h.len() {
        lemma_space_join(h, l + 1);
    }
}

proof fn lemma_space_scale(h: Seq<u32>, max: nat, n: nat)
    requires
        n <= max <= 15,
    ensures
        space(h, 15, n) == space(h, max, n) * pow2((15 - max) as nat),
    decreases n,
{
    let q = pow2((15 - max) as nat);
    if n > 0 {
        lemma_space_scale(h, max, (n - 1) as nat);
        lemma_pow2_adds((max - n) as nat, (15 - max) as nat);
        let x = h[n as int] as nat;
        let p = pow2((max - n) as nat);
        let s = space(h, max, (n - 1) as nat);
        assert((max - n) as nat + (15 - max) as nat == (15 - n) as nat);
        assert(s * q + x * (p * q) == (s + x * p) * q) by (nonlinear_arith);
    } else {
        assert(0 * q == 0);
    }
}

/// A rank that exists has a length that has codes.
proof fn lemma_nth_len(h: Seq<u32>, i: nat, l: nat)
    requires
        i < codes_from(h, l),
        l <= h.len(),
    ensures
        l <= nth_len(h, i, l) < h.len(),
        h[nth_len(h, i, l) as int] > 0,
    decreases h.len() - l,
{
    if l < h.len() && i >= h[l as int] {
        lemma_nth_len(h, (i - h[l as int]) as nat, l + 1);
    }
}

proof fn lemma_slots_update(lengths: Seq<u8>, i: int, x: u8)
    requires
        0 <= i < lengths.len(),
    ensures
        slots(lengths.update(i, x)) == slots(lengths) - slot_share(lengths[i]) + slot_share(x),
    decreases lengths.len(),
{
    let next = lengths.update(i, x);
    if i == lengths.len() - 1 {
        assert(next.drop_last() =~= lengths.drop_last());
    } else {
        lemma_slots_update(lengths.drop_last(), i, x);
        assert(next.drop_last() =~= lengths.drop_last().update(i, x));
    }
}

pub proof fn lemma_slots_zero(n: nat)
    ensures
        slots(Seq::new(n, |k: int| 0u8)) == 0,
    decreases n,
{
    let z = Seq::new(n, |k: int| 0u8);
    if n > 0 {
        lemma_slots_zero((n - 1) as nat);
        assert(z.drop_last() =~= Seq::new((n - 1) as nat, |k: int| 0u8));
    }
}

/// The lengths handed out so far.
pub proof fn lemma_assigned(n: nat, order: Seq<usize>, h: Seq<u32>, max: nat, i: nat)
    requires
        order.no_duplicates(),
        forall|j: int| 0 <= j < order.len() ==> #[trigger] order[j] < n,
        h.len() == max + 1,
        max <= 15,
        h[0] == 0,
        codes_from(h, 0) == order.len(),
        i <= order.len(),
    ensures
        ({
            let a = assigned(n, order, h, i);
            &&& a.len() == n
            &&& forall|s: int| 0 <= s < n ==> #[trigger] a[s] <= max
            &&& forall|j: int| 0 <= j < i ==> a[(#[trigger] order[j]) as int] > 0
            &&& forall|s: int|
                0 <= s < n && (forall|j: int| 0 <= j < i ==> order[j] != s) ==> #[trigger] a[s]
                    == 0
            &&& slots(a) == rank_space(h, 0, i)
        }),
    decreases i,
{
    let a = assigned(n, order, h, i);
    if i == 0 {
        lemma_slots_zero(n);
    } else {
        let k = (i - 1) as nat;
        lemma_assigned(n, order, h, max, k);
        let b = assigned(n, order, h, k);
        let s = order[k as int] as int;
        lemma_nth_len(h, k, 0);
        let l = nth_len(h, k, 0);
        assert(b[s] == 0) by {
            assert forall|j: int| 0 <= j < k implies order[j] != s by {
                assert(order[j] != order[k as int]);
            }
        }
        lemma_slots_update(b, s, l as u8);
        assert forall|j: int| 0 <= j < i implies a[(#[trigger] order[j]) as int] > 0 by {
            if j < k {
                assert(order[j] != order[k as int]);
                assert(b[order[j] as int] > 0);
            }
        }
        assert forall|t: int|
            0 <= t < n && (forall|j: int| 0 <= j < i ==> order[j] != t) implies #[trigger] a[t]
            == 0 by {
            assert(order[k as int] != t);
            assert(b[t] == 0);
        }
    }
}

/// What the lengths for given counts are worth: a symbol has a code if it
/// occurs; no code is longer than the limit; and with two symbols or more,
/// the codes fill the code space exactly.
pub proof fn lengths_are_complete(counts: Seq<u64>, max_len: nat)
    requires
        counts.len() <= usize::MAX,
        max_len <= 15,
        used(counts).len() <= pow2(max_len),
    ensures
        ({
            let lengths = lengths_for(counts, max_len);
            &&& lengths.len() == counts.len()
            &&& forall|s: int|
                0 <= s < counts.len() ==> (counts[s] > 0 <==> #[trigger] lengths[s] > 0)
            &&& forall|s: int|
                0 <= s < counts.len() ==> #[trigger] lengths[s] <= if max_len > 0 {
                    max_len
                } else {
                    1
                }
            &&& used(counts).len() >= 2 ==> slots(lengths) == 32768
            &&& used(counts).len() == 1 ==> slots(lengths) == 16384
            &&& used(counts).len() == 0 ==> slots(lengths) == 0
        }),
{
    let n = counts.len();
    let u = used(counts);
    let lengths = lengths_for(counts, max_len);
    lemma_used(counts, n);
    lemma_pow2_values();
    lemma_slots_zero(n);
    let zero = Seq::new(n, |k: int| 0u8);
    if u.len() == 0 {
        assert forall|s: int| 0 <= s < n implies (counts[s] > 0 <==> #[trigger] lengths[s] > 0) by {
            assert(!u.contains(s as usize));
        }
    } else if u.len() == 1 {
        assert(u.contains(u[0]));
        lemma_slots_update(zero, u[0] as int, 1);
        assert forall|s: int| 0 <= s < n implies (counts[s] > 0 <==> #[trigger] lengths[s] > 0) by {
            assert(u.contains(s as usize) <==> counts[s] > 0);
            if u.contains(s as usize) {
                let i = choose|i: int| 0 <= i < u.len() && u[i] == s as usize;
                assert(i == 0);
            }
        }
    } else {
        if max_len == 0 {
            assert(false);
        }
        let w = Seq::new(u.len(), |i: int| counts[u[i] as int]);
        lemma_limited(w, max_len);
        let h = codes_per_len(counts, max_len);
        let order = by_count(counts, u);
        lemma_by_count(counts, u);
        lemma_codes_join(h, 0);
        assert forall|j: int| 0 <= j < order.len() implies #[trigger] order[j] < n by {
            assert(order.contains(order[j]));
            assert(u.contains(order[j]));
        }
        lemma_assigned(n, order, h, max_len, u.len());
        lemma_rank_all(h, 0);
        lemma_space_join(h, 1);
        lemma_space_scale(h, max_len, max_len);
        lemma_pow2_adds(max_len, (15 - max_len) as nat);
        assert(h[0] as nat * pow2(15) == 0) by (nonlinear_arith)
            requires
                h[0] == 0,
        ;
        assert forall|s: int| 0 <= s < n implies (counts[s] > 0 <==> #[trigger] lengths[s] > 0) by {
            assert(u.contains(s as usize) <==> counts[s] > 0);
            assert(order.contains(s as usize) <==> u.contains(s as usize));
            if order.contains(s as usize) {
                let i = choose|i: int| 0 <= i < order.len() && order[i] == s as usize;
                assert(lengths[order[i] as int] > 0);
            } else {
                assert forall|j: int| 0 <= j < u.len() implies order[j] != s by {
                    assert(order.contains(order[j]));
                }
            }
        }
    }
}

/// The weight of the nodes below `n` without a parent.
pub open spec fn loose_weight(w: Seq<u64>, p: Seq<usize>, none: usize, n: nat) -> nat
    decreases n,
{
    if n == 0 {
        0
    } else {
        loose_weight(w, p, none, (n - 1) as nat) + if p[n - 1] == none {
            w[n - 1] as nat
        } else {
            0
        }
    }
}

pub proof fn lemma_loose_at(w: Seq<u64>, p: Seq<usize>, none: usize, n: nat, a: int)
    requires
        0 <= a < n <= p.len(),
        n <= w.len(),
        p[a] == none,
    ensures
        w[a] <= loose_weight(w, p, none, n),
    decreases n,
{
    if a < n - 1 {
        lemma_loose_at(w, p, none, (n - 1) as nat, a);
    }
}

pub proof fn lemma_loose_update(w: Seq<u64>, p: Seq<usize>, none: usize, n: nat, a: int, x: usize)
    requires
        0 <= a < p.len(),
        n <= p.len(),
        n <= w.len(),
        x != none,
        p[a] == none,
    ensures
        loose_weight(w, p.update(a, x), none, n) == loose_weight(w, p, none, n) - if a < n {
            w[a] as int
        } else {
            0
        },
    decreases n,
{
    if n > 0 {
        lemma_loose_update(w, p, none, (n - 1) as nat, a, x);
    }
}

pub proof fn lemma_loose_same(
    w: Seq<u64>,
    p: Seq<usize>,
    w2: Seq<u64>,
    p2: Seq<usize>,
    none: usize,
    n: nat,
)
    requires
        n <= p.len(),
        n <= w.len(),
        n <= p2.len(),
        n <= w2.len(),
        forall|i: int| 0 <= i < n ==> p[i] == p2[i] && w[i] == w2[i],
    ensures
        loose_weight(w, p, none, n) == loose_weight(w2, p2, none, n),
    decreases n,
{
    if n > 0 {
        lemma_loose_same(w, p, w2, p2, none, (n - 1) as nat);
    }
}

/// The weights of the used symbols add up to all counts.
pub proof fn lemma_leaf_weight(counts: Seq<u64>, n: nat, p: Seq<usize>, none: usize)
    requires
        n <= counts.len() <= usize::MAX,
        used_symbols(counts, n).len() <= p.len(),
        forall|i: int| 0 <= i < p.len() ==> p[i] == none,
    ensures
        ({
            let u = used_symbols(counts, n);
            loose_weight(Seq::new(u.len(), |i: int| counts[u[i] as int]), p, none, u.len())
                == total(counts.take(n as int))
        }),
    decreases n,
{
    let u = used_symbols(counts, n);
    let w = Seq::new(u.len(), |i: int| counts[u[i] as int]);
    if n > 0 {
        assert(counts.take(n as int).drop_last() =~= counts.take(n - 1));
        let v = used_symbols(counts, (n - 1) as nat);
        let x = Seq::new(v.len(), |i: int| counts[v[i] as int]);
        lemma_leaf_weight(counts, (n - 1) as nat, p, none);
        lemma_loose_same(w, p, x, p, none, v.len());
    }
}

/// The lightest node without a parent.
fn find_lightest(w: &Vec<u64>, p: &Vec<usize>, none: usize) -> (r: usize)
    requires
        w@.len() == p@.len(),
        kids(p@, none, p@.len()) > 0,
    ensures
        lightest(w@, p@, none, w@.len()) == Some(r),
        r < p@.len(),
        p@[r as int] == none,
{
    let mut best: Option<usize> = None;
    let mut i: usize = 0;
    while i < w.len()
        invariant
            i <= w@.len(),
            w@.len() == p@.len(),
            best == lightest(w@, p@, none, i as nat),
            best matches Some(v) ==> v < i,
        decreases w@.len() - i,
    {
        if p[i] == none {
            match best {
                None => {
                    best = Some(i);
                },
                Some(v) => {
                    if w[i] < w[v] {
                        best = Some(i);
                    }
                },
            }
        }
        i = i + 1;
    }
    proof {
        lemma_lightest(w@, p@, none, w@.len());
    }
    match best {
        Some(v) => v,
        None => 0,
    }
}

/// The parents of the Huffman tree over the leaves with weights `w`.
fn grow_tree(w: Vec<u64>, Ghost(counted): Ghost<nat>) -> (r: Vec<usize>)
    requires
        2 <= w@.len(),
        2 * w@.len() - 1 <= usize::MAX,
        counted <= u64::MAX,
        loose_weight(
            w@,
            Seq::new(w@.len(), |i: int| (2 * w@.len() - 1) as usize),
            (2 * w@.len() - 1) as usize,
            w@.len(),
        ) == counted,
    ensures
        r@ == tree(w@),
{
    let n: usize = w.len();
    let none: usize = n - 1 + n;
    let ghost target = tree(w@);
    let mut w: Vec<u64> = w;
    let mut parent: Vec<usize> = vec![none;n];
    proof {
        lemma_leaves(w@);
        assert(parent@ =~= Seq::new(w@.len(), |i: int| none));
    }
    while w.len() < none
        invariant
            none == 2 * n - 1,
            w@.len() == parent@.len(),
            forest_ok(parent@, none, n as nat),
            grown(w@, parent@, none) == target,
            loose_weight(w@, parent@, none, w@.len()) == counted,
            counted <= u64::MAX,
        decreases none - w@.len(),
    {
        let next: usize = w.len();
        let ghost w0 = w@;
        let ghost p0 = parent@;
        proof {
            lemma_merge(w0, p0, none, n as nat);
            assert(kids(p0, none, p0.len()) == 2 * n - p0.len());
        }
        let a: usize = find_lightest(&w, &parent, none);
        proof {
            lemma_kids_update(p0, none, p0.len(), a as int, next);
            lemma_loose_at(w0, p0, none, p0.len(), a as int);
            lemma_loose_update(w0, p0, none, p0.len(), a as int, next);
        }
        parent[a] = next;
        let ghost p1 = parent@;
        let b: usize = find_lightest(&w, &parent, none);
        proof {
            lemma_loose_at(w0, p1, none, p0.len(), b as int);
            lemma_loose_update(w0, p1, none, p0.len(), b as int, next);
        }
        parent[b] = next;
        let ghost p2 = parent@;
        let both: u64 = w[a] + w[b];
        w.push(both);
        parent.push(none);
        proof {
            lemma_loose_same(w0, p2, w@, parent@, none, p0.len());
        }
    }
    parent
}

/// How many leaves have each depth, cut off at `max`.
fn count_depths(parent: &Vec<usize>, n: usize, max: usize) -> (r: Vec<u32>)
    requires
        parent@.len() == 2 * n - 1,
        forest_ok(parent@, parent@.len() as usize, n as nat),
        2 <= n <= u32::MAX,
        1 <= max,
        max + 1 <= usize::MAX,
    ensures
        r@ == per_depth(parent@, parent@.len() as usize, max as nat, n as nat),
{
    // A leaf's depth in the tree is its code length. Walk from the root
    // (the last node) down: every node's depth is its parent's plus one.
    let none: usize = parent.len();
    let ghost p = parent@;
    let mut depth: Vec<usize> = vec![0;none];
    let mut u: usize = none;
    while u > 0
        invariant
            p == parent@,
            none == p.len(),
            forest_ok(p, none, n as nat),
            depth@.len() == none,
            u <= none,
            forall|v: int|
                u <= v < none ==> #[trigger] depth@[v] == depth_of(p, none, v as nat),
        decreases u,
    {
        u = u - 1;
        let q: usize = parent[u];
        if q != none {
            assert(u < p[u as int] < p.len());
            proof {
                lemma_depth_bound(p, none, u as nat);
            }
            depth[u] = depth[q] + 1;
        } else {
            depth[u] = 0;
        }
    }
    let mut per_len: Vec<u32> = vec![0;max + 1];
    let mut leaf: usize = 0;
    assert(per_len@ =~= per_depth(p, none, max as nat, 0));
    while leaf < n
        invariant
            p == parent@,
            none == p.len(),
            forest_ok(p, none, n as nat),
            2 <= n <= u32::MAX,
            none == 2 * n - 1,
            1 <= max,
            depth@.len() == none,
            forall|v: int|
                0 <= v < none ==> #[trigger] depth@[v] == depth_of(p, none, v as nat),
            leaf <= n,
            per_len@ == per_depth(p, none, max as nat, leaf as nat),
        decreases n - leaf,
    {
        proof {
            let d = (none + max + 1) as nat;
            lemma_per_depth(p, none, n as nat, max as nat, d, leaf as nat);
        }
        let c: usize = if depth[leaf] < max {
            depth[leaf]
        } else {
            max
        };
        proof {
            lemma_codes_at(per_len@, (max + 1) as nat, c as int);
        }
        per_len[c] = per_len[c] + 1;
        leaf = leaf + 1;
    }
    per_len
}

/// Squash codes longer than the limit while keeping the code valid.
///
/// Every code of length `l` uses up `2^(max_len - l)` of the available
/// `2^max_len` "slots" (the Kraft inequality). Codes cut off at `max_len`
/// over-fill the slots, so we repeatedly remove one max-length code and
/// split a shorter leaf into two, which frees exactly one slot, until the
/// slots are exactly full again.
fn limit_lengths(per_len: &mut Vec<u32>, max: usize, Ghost(n): Ghost<nat>)
    requires
        can_squash(old(per_len)@, max as nat, n),
    ensures
        final(per_len)@ == limited(old(per_len)@, max as nat),
{
    let ghost start = per_len@;
    proof {
        lemma_pow2_values();
        lemma_pow2_le(max as nat, 15);
    }
    let full: u64 = two_to(max as u32);
    let mut taken: u64 = 0;
    let mut l: usize = 1;
    while l <= max
        invariant
            start == per_len@,
            can_squash(start, max as nat, n),
            1 <= l <= max + 1,
            max <= 15,
            n <= 32768,
            taken == space(start, max as nat, (l - 1) as nat),
            taken <= 0x4000_0000 * (l - 1),
        decreases max + 1 - l,
    {
        proof {
            lemma_codes_at(start, (max + 1) as nat, l as int);
            lemma_pow2_values();
            lemma_pow2_le((max - l) as nat, 15);
        }
        let unit: u64 = two_to((max - l) as u32);
        let here: u64 = per_len[l] as u64;
        assert(here * unit <= 0x4000_0000) by (nonlinear_arith)
            requires
                here <= 32768,
                unit <= 32768,
        ;
        taken = taken + here * unit;
        l = l + 1;
    }
    let ghost target = limited(start, max as nat);
    while taken > full
        invariant
            1 <= max <= 15,
            full == pow2(max as nat),
            can_squash(per_len@, max as nat, n),
            taken == space(per_len@, max as nat, max as nat),
            taken >= full,
            squashed(per_len@, max as nat, (taken - full) as nat) == target,
        decreases taken - full,
    {
        proof {
            lemma_squash_step(per_len@, max as nat, n);
        }
        let ghost h = per_len@;
        per_len[max] = per_len[max] - 1;
        let ghost h1 = per_len@;
        let mut k: usize = max - 1;
        while k > 0 && per_len[k] == 0
            invariant
                k < max,
                max < per_len@.len(),
                longest_below(per_len@, max as nat) == longest_below(per_len@, (k + 1) as nat),
                1 <= longest_below(per_len@, max as nat),
            decreases k,
        {
            k = k - 1;
        }
        assert(k == longest_below(h1, max as nat));
        per_len[k] = per_len[k] - 1;
        per_len[k + 1] = per_len[k + 1] + 2;
        taken = taken - 1;
    }
}

/// Symbols by falling count; of equals, the first in front.
fn sort_by_count(counts: &[u64], symbols: &Vec<usize>) -> (r: Vec<usize>)
    requires
        forall|i: int| 0 <= i < symbols@.len() ==> #[trigger] symbols@[i] < counts@.len(),
    ensures
        r@ == by_count(counts@, symbols@),
{
    let mut order: Vec<usize> = Vec::with_capacity(symbols.len());
    let mut i: usize = 0;
    assert(symbols@.take(0) =~= Seq::<usize>::empty());
    assert(order@ =~= by_count(counts@, symbols@.take(0)));
    while i < symbols.len()
        invariant
            i <= symbols@.len(),
            forall|j: int| 0 <= j < symbols@.len() ==> #[trigger] symbols@[j] < counts@.len(),
            forall|j: int| 0 <= j < order@.len() ==> #[trigger] order@[j] < counts@.len(),
            order@ == by_count(counts@, symbols@.take(i as int)),
        decreases symbols@.len() - i,
    {
        let s: usize = symbols[i];
        assert(symbols@[i as int] < counts@.len());
        let c: u64 = counts[s];
        let mut at: usize = order.len();
        let ghost before = order@;
        while at > 0 && counts[order[at - 1]] < c
            invariant
                at <= order@.len(),
                order@ == before,
                forall|j: int| 0 <= j < order@.len() ==> #[trigger] order@[j] < counts@.len(),
                place(order@, counts@, c, order@.len()) == place(order@, counts@, c, at as nat),
            decreases at,
        {
            at = at - 1;
            if at > 0 {
                assert(order@[at - 1] < counts@.len());
            }
        }
        order.insert(at, s);
        proof {
            let t = symbols@.take(i + 1);
            assert(t.drop_last() =~= symbols@.take(i as int));
            assert forall|j: int| 0 <= j < order@.len() implies #[trigger] order@[j]
                < counts@.len() by {
                if j < at {
                    assert(order@[j] == before[j]);
                } else if j > at {
                    assert(order@[j] == before[j - 1]);
                }
            }
        }
        i = i + 1;
    }
    assert(symbols@.take(i as int) =~= symbols@);
    order
}

/// Compute a code length for every symbol from how often it occurs.
///
/// Symbols with count 0 get length 0 (no code). No length exceeds
/// `max_len`. Among codes obeying that limit, the total encoded size (the
/// sum of count times length) is close to minimal: optimal when the limit
/// does not bite, and a well-known good approximation (the one miniz and
/// zlib-like encoders use) when it does.
pub fn code_lengths(counts: &[u64], max_len: u32) -> (r: Vec<u8>)
    requires
        max_len <= 15,
        used(counts@).len() <= pow2(max_len as nat),
        total(counts@) <= u64::MAX,
    ensures
        r@ == lengths_for(counts@, max_len as nat),
        r@.len() == counts@.len(),
        forall|s: int| 0 <= s < counts@.len() ==> (counts@[s] > 0 <==> #[trigger] r@[s] > 0),
        forall|s: int|
            0 <= s < counts@.len() ==> #[trigger] r@[s] <= if max_len > 0 {
                max_len
            } else {
                1
            },
        used(counts@).len() >= 2 ==> slots(r@) == 32768,
        slots(r@) <= 32768,
{
    let ghost all = counts@;
    assert(all.len() == counts.len());
    let mut lengths: Vec<u8> = vec![0;counts.len()];
    let mut symbols: Vec<usize> = Vec::new();
    let mut weights: Vec<u64> = Vec::new();
    let mut i: usize = 0;
    while i < counts.len()
        invariant
            all == counts@,
            i <= all.len(),
            symbols@ == used_symbols(all, i as nat),
            weights@ == Seq::new(symbols@.len(), |k: int| all[symbols@[k] as int]),
            forall|j: int| 0 <= j < symbols@.len() ==> #[trigger] symbols@[j] < all.len(),
        decreases all.len() - i,
    {
        if counts[i] > 0 {
            symbols.push(i);
            weights.push(counts[i]);
            assert(weights@ =~= Seq::new(symbols@.len(), |k: int| all[symbols@[k] as int]));
        }
        i = i + 1;
    }
    proof {
        lengths_are_complete(all, max_len as nat);
        lemma_pow2_values();
        lemma_pow2_le(max_len as nat, 15);
    }
    let zero = Ghost(lengths@);
    assert(zero@ =~= Seq::new(all.len(), |k: int| 0u8));
    let n: usize = symbols.len();
    if n == 0 {
        return lengths;
    }
    if n == 1 {
        // A single symbol still needs one bit per occurrence so the decoder
        // can count them.
        assert(symbols@[0] < all.len());
        lengths[symbols[0]] = 1;
        return lengths;
    }
    let max: usize = max_len as usize;
    proof {
        if max_len == 0 {
            assert(pow2(0) == 1);
        }
        let none = (2 * n - 1) as usize;
        let p = Seq::new(weights@.len(), |k: int| none);
        lemma_leaf_weight(all, all.len(), p, none);
        assert(all.take(all.len() as int) =~= all);
        lemma_tree(weights@);
        lemma_can_squash(weights@, max as nat);
        lemma_limited(weights@, max as nat);
    }
    let ghost w = weights@;
    let parent = grow_tree(weights, Ghost(total(all)));
    // How many codes of each length the tree produced.
    let mut per_len: Vec<u32> = count_depths(&parent, n, max);
    limit_lengths(&mut per_len, max, Ghost(n as nat));
    assert(per_len@ == codes_per_len(all, max as nat));
    // Hand out lengths: most frequent symbols get the shortest codes.
    let order = sort_by_count(counts, &symbols);
    let ghost h = per_len@;
    proof {
        lemma_used(all, all.len());
        lemma_by_count(all, symbols@);
        lemma_codes_join(h, 0);
        assert forall|j: int| 0 <= j < order@.len() implies #[trigger] order@[j] < all.len() by {
            assert(order@.contains(order@[j]));
            assert(symbols@.contains(order@[j]));
        }
    }
    let mut len: usize = 0;
    let mut left: u32 = per_len[0];
    let mut i: usize = 0;
    while i < n
        invariant
            i <= n,
            n == order@.len(),
            h == per_len@,
            h.len() == max + 1,
            max <= 15,
            len <= max,
            left <= h[len as int],
            codes_from(h, 0) == n,
            lengths@.len() == all.len(),
            forall|j: int| 0 <= j < order@.len() ==> #[trigger] order@[j] < all.len(),
            lengths@ == assigned(all.len(), order@, h, i as nat),
            i == codes(h, len as nat) + (h[len as int] - left),
            codes(h, len as nat) + codes_from(h, len as nat) == n,
            forall|j: nat|
                #![trigger nth_len(h, j, 0)]
                j >= codes(h, len as nat) ==> nth_len(h, j, 0) == nth_len(
                    h,
                    (j - codes(h, len as nat)) as nat,
                    len as nat,
                ),
        decreases n - i,
    {
        while left == 0
            invariant
                i < n,
                h == per_len@,
                h.len() == max + 1,
                len <= max,
                left <= h[len as int],
                i == codes(h, len as nat) + (h[len as int] - left),
                codes(h, len as nat) + codes_from(h, len as nat) == n,
                forall|j: nat|
                    #![trigger nth_len(h, j, 0)]
                    j >= codes(h, len as nat) ==> nth_len(h, j, 0) == nth_len(
                        h,
                        (j - codes(h, len as nat)) as nat,
                        len as nat,
                    ),
            decreases max - len + (if left == 0 {
                1int
            } else {
                0int
            }),
        {
            proof {
                if len == max {
                    assert(codes_from(h, (max + 1) as nat) == 0);
                    assert(false);
                }
            }
            len = len + 1;
            left = per_len[len];
        }
        assert(nth_len(h, i as nat, 0) == len);
        let sym: usize = order[i];
        assert(order@[i as int] < all.len());
        lengths[sym] = len as u8;
        left = left - 1;
        i = i + 1;
    }
    lengths
}

} // verus!
