//! Huffman's algorithm gives the cheapest code there is.
use crate::huffman::lengths::assigned;
use crate::huffman::lengths::by_count;
use crate::huffman::lengths::codes;
use crate::huffman::lengths::codes_per_len;
use crate::huffman::lengths::cut_depth;
use crate::huffman::lengths::depth_of;
use crate::huffman::lengths::forest_ok;
use crate::huffman::lengths::grown;
use crate::huffman::lengths::kids;
use crate::huffman::lengths::lemma_assigned;
use crate::huffman::lengths::lemma_by_count;
use crate::huffman::lengths::lemma_codes_join;
use crate::huffman::lengths::lemma_codes_per_len;
use crate::huffman::lengths::lemma_grown;
use crate::huffman::lengths::lemma_kids_some;
use crate::huffman::lengths::lemma_leaf_weight;
use crate::huffman::lengths::lemma_leaves;
use crate::huffman::lengths::lemma_lightest;
use crate::huffman::lengths::lemma_loose_at;
use crate::huffman::lengths::lemma_loose_same;
use crate::huffman::lengths::lemma_loose_update;
use crate::huffman::lengths::lemma_merge;
use crate::huffman::lengths::lemma_unlimited;
use crate::huffman::lengths::lemma_used;
use crate::huffman::lengths::lengths_for;
use crate::huffman::lengths::lightest;
use crate::huffman::lengths::loose_weight;
use crate::huffman::lengths::nth_len;
use crate::huffman::lengths::per_depth;
use crate::huffman::lengths::place;
use crate::huffman::lengths::total;
use crate::huffman::lengths::tree;
use crate::huffman::lengths::used;
use crate::huffman::lengths::used_symbols;
use crate::huffman::slots;
use crate::nums::lemma_pow2_le;
use crate::nums::lemma_pow2_values;
use vstd::arithmetic::power2::lemma_pow2_adds;
use vstd::arithmetic::power2::lemma_pow2_pos;
use vstd::arithmetic::power2::lemma_pow2_unfold;
use vstd::arithmetic::power2::pow2;
use vstd::prelude::*;

verus! {

// The tree. Any depths for the nodes that have no parent yet, as long as
// they leave room for a code, cost at least as much as the depths that the
// finished tree gives them.

/// What the nodes below `n` without a parent cost at the depths `l`.
pub open spec fn root_cost(
    w: Seq<u64>,
    p: Seq<usize>,
    none: usize,
    l: Seq<nat>,
    n: nat,
) -> nat
    decreases n,
{
    if n == 0 {
        0
    } else {
        root_cost(w, p, none, l, (n - 1) as nat) + if p[n - 1] == none {
            w[n - 1] as nat * l[n - 1]
        } else {
            0
        }
    }
}

/// The code space that they take up, in units of `1 / 2^d`.
pub open spec fn root_space(p: Seq<usize>, none: usize, l: Seq<nat>, d: nat, n: nat) -> nat
    decreases n,
{
    if n == 0 {
        0
    } else {
        root_space(p, none, l, d, (n - 1) as nat) + if p[n - 1] == none {
            pow2((d - l[n - 1]) as nat)
        } else {
            0
        }
    }
}

proof fn lemma_set_depth(
    w: Seq<u64>,
    p: Seq<usize>,
    none: usize,
    l: Seq<nat>,
    d: nat,
    n: nat,
    i: int,
    x: nat,
)
    requires
        n <= l.len(),
        0 <= i < l.len(),
    ensures
        root_cost(w, p, none, l.update(i, x), n) == root_cost(w, p, none, l, n) + if i < n && p[i]
            == none {
            w[i] * (x - l[i])
        } else {
            0
        },
        root_space(p, none, l.update(i, x), d, n) == root_space(p, none, l, d, n) + if i < n && p[i]
            == none {
            pow2((d - x) as nat) - pow2((d - l[i]) as nat)
        } else {
            0
        },
    decreases n,
{
    if n > 0 {
        lemma_set_depth(w, p, none, l, d, (n - 1) as nat, i, x);
        if i == n - 1 {
            assert(w[i] as int * x == w[i] as int * l[i] + w[i] * (x - l[i])) by (nonlinear_arith);
        }
    }
}

/// A node that gets a parent no longer counts.
proof fn lemma_adopt(
    w: Seq<u64>,
    p: Seq<usize>,
    none: usize,
    l: Seq<nat>,
    d: nat,
    n: nat,
    a: int,
    x: usize,
)
    requires
        n <= p.len(),
        0 <= a < p.len(),
        p[a] == none,
        x != none,
    ensures
        root_cost(w, p.update(a, x), none, l, n) == root_cost(w, p, none, l, n) - if a < n {
            w[a] as nat * l[a]
        } else {
            0
        },
        root_space(p.update(a, x), none, l, d, n) == root_space(p, none, l, d, n) - if a < n {
            pow2((d - l[a]) as nat) as int
        } else {
            0
        },
    decreases n,
{
    if n > 0 {
        lemma_adopt(w, p, none, l, d, (n - 1) as nat, a, x);
    }
}

proof fn lemma_same_roots(
    w: Seq<u64>,
    p: Seq<usize>,
    l: Seq<nat>,
    w2: Seq<u64>,
    p2: Seq<usize>,
    l2: Seq<nat>,
    none: usize,
    d: nat,
    n: nat,
)
    requires
        forall|i: int| 0 <= i < n ==> w[i] == w2[i] && p[i] == p2[i] && l[i] == l2[i],
    ensures
        root_cost(w, p, none, l, n) == root_cost(w2, p2, none, l2, n),
        root_space(p, none, l, d, n) == root_space(p2, none, l2, d, n),
    decreases n,
{
    if n > 0 {
        lemma_same_roots(w, p, l, w2, p2, l2, none, d, (n - 1) as nat);
    }
}

proof fn lemma_space_at(p: Seq<usize>, none: usize, l: Seq<nat>, d: nat, n: nat, i: int)
    requires
        0 <= i < n,
        p[i] == none,
    ensures
        pow2((d - l[i]) as nat) <= root_space(p, none, l, d, n),
    decreases n,
{
    if i < n - 1 {
        lemma_space_at(p, none, l, d, (n - 1) as nat, i);
    }
}

/// The deepest node without a parent.
proof fn lemma_deepest(p: Seq<usize>, none: usize, l: Seq<nat>, n: nat) -> (i: int)
    requires
        n <= p.len(),
        kids(p, none, n) > 0,
    ensures
        0 <= i < n,
        p[i] == none,
        forall|j: int| 0 <= j < n && #[trigger] p[j] == none ==> l[j] <= l[i],
    decreases n,
{
    let u = n - 1;
    if kids(p, none, u as nat) == 0 {
        assert forall|j: int| 0 <= j < n && #[trigger] p[j] == none implies l[j] <= l[u] by {
            if j < u {
                lemma_kids_some(p, none, u as nat, j);
            }
        }
        u
    } else {
        let i = lemma_deepest(p, none, l, u as nat);
        if p[u] == none && l[u] > l[i] {
            u
        } else {
            i
        }
    }
}

/// Nodes at depths up to `k` take up whole units of `1 / 2^k`.
proof fn lemma_whole_units(p: Seq<usize>, none: usize, l: Seq<nat>, d: nat, k: nat, n: nat) -> (q:
    nat)
    requires
        k <= d,
        forall|i: int| 0 <= i < n && #[trigger] p[i] == none ==> l[i] <= k,
    ensures
        root_space(p, none, l, d, n) == q * pow2((d - k) as nat),
    decreases n,
{
    let g = pow2((d - k) as nat);
    if n == 0 {
        assert(0 * g == 0) by (nonlinear_arith);
        0
    } else {
        let q = lemma_whole_units(p, none, l, d, k, (n - 1) as nat);
        if p[n - 1] == none {
            let e = (k - l[n - 1]) as nat;
            lemma_pow2_adds(e, (d - k) as nat);
            assert(e + (d - k) as nat == (d - l[n - 1]) as nat);
            assert(q * g + pow2(e) * g == (q + pow2(e)) * g) by (nonlinear_arith);
            q + pow2(e)
        } else {
            q
        }
    }
}

/// Giving the lighter of two nodes the greater depth costs no more.
proof fn lemma_swap(
    w: Seq<u64>,
    p: Seq<usize>,
    none: usize,
    l: Seq<nat>,
    d: nat,
    a: int,
    i: int,
)
    requires
        w.len() == p.len(),
        l.len() == p.len(),
        0 <= a < p.len(),
        0 <= i < p.len(),
        p[a] == none,
        p[i] == none,
        w[a] <= w[i],
        l[a] <= l[i],
    ensures
        ({
            let s = l.update(a, l[i]).update(i, l[a]);
            &&& root_cost(w, p, none, s, p.len()) <= root_cost(w, p, none, l, p.len())
            &&& root_space(p, none, s, d, p.len()) == root_space(p, none, l, d, p.len())
        }),
{
    let n = p.len();
    let half = l.update(a, l[i]);
    lemma_set_depth(w, p, none, l, d, n, a, l[i]);
    lemma_set_depth(w, p, none, half, d, n, i, l[a]);
    if a == i {
        assert(w[a] * (l[i] - l[a]) == 0) by (nonlinear_arith)
            requires
                l[i] == l[a],
        ;
        assert(w[i] * (l[a] - half[i]) == 0) by (nonlinear_arith)
            requires
                l[a] == half[i],
        ;
    } else {
        assert(w[a] * (l[i] - l[a]) + w[i] * (l[a] - l[i]) <= 0) by (nonlinear_arith)
            requires
                w[a] <= w[i],
                l[a] <= l[i],
        ;
    }
}

/// Two nodes at the same depth cost what their parent costs one level up,
/// and their own weight.
proof fn lemma_join(
    w: Seq<u64>,
    p: Seq<usize>,
    none: usize,
    l: Seq<nat>,
    d: nat,
    a: int,
    b: int,
    k: nat,
)
    requires
        w.len() == p.len(),
        l.len() == p.len(),
        p.len() < none,
        0 <= a < p.len(),
        0 <= b < p.len(),
        a != b,
        p[a] == none,
        p[b] == none,
        l[a] == k + 1,
        l[b] == k + 1,
        w[a] + w[b] <= u64::MAX,
    ensures
        ({
            let m = p.len();
            let p2 = p.update(a, m as usize).update(b, m as usize).push(none);
            let w2 = w.push((w[a] + w[b]) as u64);
            &&& root_cost(w2, p2, none, l.push(k), m + 1) + w[a] + w[b] == root_cost(
                w,
                p,
                none,
                l,
                m,
            )
            &&& k + 1 <= d ==> root_space(p2, none, l.push(k), d, m + 1) == root_space(
                p,
                none,
                l,
                d,
                m,
            )
        }),
{
    let m = p.len();
    let p1 = p.update(a, m as usize);
    let p2 = p1.update(b, m as usize);
    lemma_adopt(w, p, none, l, d, m, a, m as usize);
    lemma_adopt(w, p1, none, l, d, m, b, m as usize);
    let both = (w[a] + w[b]) as u64;
    lemma_same_roots(w, p2, l, w.push(both), p2.push(none), l.push(k), none, d, m);
    assert(both as nat * k + both == w[a] as nat * (k + 1) + w[b] as nat * (k + 1))
        by (nonlinear_arith)
        requires
            both == w[a] + w[b],
    ;
    if k + 1 <= d {
        lemma_pow2_unfold((d - k) as nat);
        assert((d - k) as nat - 1 == (d - (k + 1)) as nat);
    }
}

/// Nodes that have a parent keep it.
proof fn lemma_grown_keeps(w: Seq<u64>, p: Seq<usize>, none: usize, n: nat)
    requires
        forest_ok(p, none, n),
        w.len() == p.len(),
    ensures
        forall|i: int| 0 <= i < p.len() && #[trigger] p[i] != none ==> grown(w, p, none)[i] == p[i],
    decreases none - w.len(),
{
    let m = w.len();
    if m < none {
        lemma_merge(w, p, none, n);
        let a = lightest(w, p, none, m)->0;
        let p1 = p.update(a as int, m as usize);
        let b = lightest(w, p1, none, m)->0;
        let p2 = p1.update(b as int, m as usize).push(none);
        lemma_grown_keeps(w.push((w[a as int] + w[b as int]) as u64), p2, none, n);
        assert forall|i: int| 0 <= i < p.len() && #[trigger] p[i] != none implies grown(
            w,
            p,
            none,
        )[i] == p[i] by {
            assert(p2[i] == p[i]);
        }
    }
}

/// The depths of the first `m` nodes in a tree.
pub open spec fn depths(p: Seq<usize>, none: usize, m: nat) -> Seq<nat> {
    Seq::new(m, |i: int| depth_of(p, none, i as nat))
}

proof fn lemma_free_roots(
    w: Seq<u64>,
    p: Seq<usize>,
    none: usize,
    n: nat,
)
    requires
        n <= p.len(),
        forall|i: int|
            0 <= i < n && #[trigger] p[i] == none ==> depth_of(p, none, i as nat) == 0,
    ensures
        root_cost(w, p, none, depths(p, none, p.len()), n) == 0,
    decreases n,
{
    if n > 0 {
        lemma_free_roots(w, p, none, (n - 1) as nat);
        assert(w[n - 1] as nat * 0 == 0) by (nonlinear_arith);
    }
}

/// Depths in which the two lightest nodes are deepest, at no more cost.
proof fn lemma_lightest_deepest(
    w: Seq<u64>,
    p: Seq<usize>,
    none: usize,
    n: nat,
    l: Seq<nat>,
    d: nat,
    a: int,
    b: int,
) -> (s: Seq<nat>)
    requires
        forest_ok(p, none, n),
        w.len() == p.len(),
        l.len() == p.len(),
        p.len() < none,
        lightest(w, p, none, p.len()) == Some(a as usize),
        lightest(w, p.update(a, p.len() as usize), none, p.len()) == Some(b as usize),
        0 <= a < p.len(),
        0 <= b < p.len(),
        a != b,
        p[a] == none,
        p[b] == none,
        forall|i: int| 0 <= i < p.len() && #[trigger] p[i] == none ==> l[i] <= d,
    ensures
        s.len() == l.len(),
        root_cost(w, p, none, s, p.len()) <= root_cost(w, p, none, l, p.len()),
        root_space(p, none, s, d, p.len()) == root_space(p, none, l, d, p.len()),
        s[b] <= s[a] <= d,
        forall|i: int| 0 <= i < p.len() && i != a && #[trigger] p[i] == none ==> s[i] <= s[b],
{
    let m = p.len();
    lemma_kids_some(p, none, m, a);
    let i = lemma_deepest(p, none, l, m);
    lemma_lightest(w, p, none, m);
    lemma_swap(w, p, none, l, d, a, i);
    let s1 = l.update(a, l[i]).update(i, l[a]);
    assert forall|j: int| 0 <= j < m && #[trigger] p[j] == none implies s1[j] <= s1[a] by {
        assert(l[j] <= l[i]);
    }
    let p1 = p.update(a, m as usize);
    assert(p1[b] == none);
    lemma_kids_some(p1, none, m, b);
    let j = lemma_deepest(p1, none, s1, m);
    lemma_lightest(w, p1, none, m);
    assert(j != a && p[j] == none);
    lemma_swap(w, p, none, s1, d, b, j);
    let s2 = s1.update(b, s1[j]).update(j, s1[b]);
    assert(s2[a] == s1[a]);
    assert forall|k: int| 0 <= k < m && k != a && #[trigger] p[k] == none implies s2[k]
        <= s2[b] by {
        assert(p1[k] == none);
        assert(s1[k] <= s1[j]);
    }
    s2
}

/// Depths in which the two lightest nodes are equally deep, at no more cost.
proof fn lemma_equally_deep(
    w: Seq<u64>,
    p: Seq<usize>,
    none: usize,
    s: Seq<nat>,
    d: nat,
    a: int,
    b: int,
)
    requires
        w.len() == p.len(),
        s.len() == p.len(),
        p.len() < none,
        0 <= a < p.len(),
        0 <= b < p.len(),
        a != b,
        p[a] == none,
        p[b] == none,
        s[b] <= s[a] <= d,
        forall|i: int| 0 <= i < p.len() && i != a && #[trigger] p[i] == none ==> s[i] <= s[b],
        root_space(p, none, s, d, p.len()) <= pow2(d),
    ensures
        s[b] >= 1,
        root_cost(w, p, none, s.update(a, s[b]), p.len()) <= root_cost(w, p, none, s, p.len()),
        root_space(p, none, s.update(a, s[b]), d, p.len()) <= pow2(d),
{
    let m = p.len();
    let k = s[b];
    let t = s.update(a, k);
    lemma_set_depth(w, p, none, s, d, m, a, k);
    assert(w[a] * (k - s[a]) <= 0) by (nonlinear_arith)
        requires
            k <= s[a],
    ;
    let p1 = p.update(a, m as usize);
    lemma_adopt(w, p, none, s, d, m, a, m as usize);
    assert forall|i: int| 0 <= i < m && #[trigger] p1[i] == none implies s[i] <= k by {
        assert(i != a && p[i] == none);
    }
    let q = lemma_whole_units(p1, none, s, d, k, m);
    let g = pow2((d - k) as nat);
    let all = pow2(k);
    lemma_pow2_adds(k, (d - k) as nat);
    assert(k + (d - k) as nat == d);
    lemma_pow2_pos((d - s[a]) as nat);
    lemma_pow2_pos((d - k) as nat);
    assert(q * g < all * g);
    assert(q < all && (q + 1) * g <= all * g && (q + 1) * g == q * g + g) by (nonlinear_arith)
        requires
            q * g < all * g,
            g > 0,
    ;
    if k == 0 {
        assert(p1[b] == none);
        lemma_space_at(p1, none, s, d, m, b);
    }
}

/// The depths of the finished tree cost no more than any others that leave
/// room for a code.
proof fn lemma_tree_optimal(
    w: Seq<u64>,
    p: Seq<usize>,
    none: usize,
    n: nat,
    l: Seq<nat>,
    d: nat,
)
    requires
        forest_ok(p, none, n),
        w.len() == p.len(),
        l.len() == p.len(),
        loose_weight(w, p, none, p.len()) <= u64::MAX,
        forall|i: int| 0 <= i < p.len() && #[trigger] p[i] == none ==> l[i] <= d,
        root_space(p, none, l, d, p.len()) <= pow2(d),
    ensures
        root_cost(w, p, none, depths(grown(w, p, none), none, p.len()), p.len()) <= root_cost(
            w,
            p,
            none,
            l,
            p.len(),
        ),
    decreases none - w.len(),
{
    let m = p.len();
    let g = grown(w, p, none);
    if m >= none {
        lemma_free_roots(w, p, none, m);
    } else {
        lemma_merge(w, p, none, n);
        let a = lightest(w, p, none, m)->0 as int;
        let p1 = p.update(a, m as usize);
        let b = lightest(w, p1, none, m)->0 as int;
        let p2 = p1.update(b, m as usize).push(none);
        let w2 = w.push((w[a] + w[b]) as u64);
        // The weights still fit.
        lemma_loose_update(w, p, none, m, a, m as usize);
        assert(p1[b] == none);
        lemma_loose_at(w, p1, none, m, b);
        lemma_loose_update(w, p1, none, m, b, m as usize);
        lemma_loose_same(w, p1.update(b, m as usize), w2, p2, none, m);
        assert(loose_weight(w2, p2, none, m + 1) == loose_weight(w, p, none, m));
        // The other depths, with the two nodes deepest.
        let s = lemma_lightest_deepest(w, p, none, n, l, d, a, b);
        lemma_equally_deep(w, p, none, s, d, a, b);
        let k = (s[b] - 1) as nat;
        let t = s.update(a, s[b]);
        lemma_join(w, p, none, t, d, a, b, k);
        assert forall|i: int| 0 <= i < p2.len() && #[trigger] p2[i] == none implies t.push(k)[i]
            <= d by {
            if i < m {
                assert(p[i] == none);
            }
        }
        lemma_tree_optimal(w2, p2, none, n, t.push(k), d);
        // The depths of the tree.
        lemma_grown_keeps(w2, p2, none, n);
        lemma_grown(w2, p2, none, n);
        assert(p2[a] == m && p2[b] == m);
        assert(g[a] == m && g[b] == m);
        let dm = depths(g, none, m);
        let up = depth_of(g, none, m);
        assert(dm[a] == 1 + up && dm[b] == 1 + up);
        lemma_join(w, p, none, dm, d, a, b, up);
        assert(dm.push(up) =~= depths(g, none, m + 1));
    }
}

// The lengths that are handed out. They are the depths of the tree, dealt
// again by falling count.

/// The sum of the products of `v` and `x`.
pub open spec fn dot(v: Seq<u64>, x: Seq<nat>) -> nat
    decreases v.len(),
{
    if v.len() == 0 {
        0
    } else {
        dot(v.drop_last(), x.drop_last()) + v.last() as nat * x.last()
    }
}

/// How often `c` occurs in `x`.
pub open spec fn occurs(x: Seq<nat>, c: nat) -> nat
    decreases x.len(),
{
    if x.len() == 0 {
        0
    } else {
        occurs(x.drop_last(), c) + if x.last() == c {
            1nat
        } else {
            0nat
        }
    }
}

proof fn lemma_dot_set(v: Seq<u64>, x: Seq<nat>, i: int, y: nat)
    requires
        v.len() == x.len(),
        0 <= i < x.len(),
    ensures
        dot(v, x.update(i, y)) == dot(v, x) + v[i] * (y - x[i]),
    decreases v.len(),
{
    if i == x.len() - 1 {
        assert(x.update(i, y).drop_last() =~= x.drop_last());
        assert(v[i] as int * y == v[i] as int * x[i] + v[i] * (y - x[i])) by (nonlinear_arith);
    } else {
        lemma_dot_set(v.drop_last(), x.drop_last(), i, y);
        assert(x.update(i, y).drop_last() =~= x.drop_last().update(i, y));
    }
}

proof fn lemma_occurs_set(x: Seq<nat>, i: int, y: nat, c: nat)
    requires
        0 <= i < x.len(),
    ensures
        occurs(x.update(i, y), c) == occurs(x, c) - (if x[i] == c {
            1int
        } else {
            0int
        }) + (if y == c {
            1int
        } else {
            0int
        }),
    decreases x.len(),
{
    if i == x.len() - 1 {
        assert(x.update(i, y).drop_last() =~= x.drop_last());
    } else {
        lemma_occurs_set(x.drop_last(), i, y, c);
        assert(x.update(i, y).drop_last() =~= x.drop_last().update(i, y));
    }
}

proof fn lemma_occurs_at(x: Seq<nat>, i: int)
    requires
        0 <= i < x.len(),
    ensures
        occurs(x, x[i]) > 0,
    decreases x.len(),
{
    if i < x.len() - 1 {
        lemma_occurs_at(x.drop_last(), i);
    }
}

/// Where a value that occurs stands.
proof fn lemma_find(x: Seq<nat>, c: nat) -> (i: int)
    requires
        occurs(x, c) > 0,
    ensures
        0 <= i < x.len(),
        x[i] == c,
    decreases x.len(),
{
    if x.last() == c {
        x.len() - 1
    } else {
        lemma_find(x.drop_last(), c)
    }
}

/// Falling factors and rising ones give the smallest sum of products.
proof fn lemma_rearranged(v: Seq<u64>, x: Seq<nat>, y: Seq<nat>)
    requires
        v.len() == x.len(),
        v.len() == y.len(),
        forall|i: int, j: int| 0 <= i <= j < v.len() ==> v[i] >= v[j],
        forall|i: int, j: int| 0 <= i <= j < y.len() ==> y[i] <= y[j],
        forall|c: nat| #[trigger] occurs(x, c) == occurs(y, c),
    ensures
        dot(v, y) <= dot(v, x),
    decreases v.len(),
{
    let n = v.len();
    if n > 0 {
        let top = y.last();
        lemma_occurs_at(y, n - 1);
        assert(occurs(x, top) == occurs(y, top));
        let j = lemma_find(x, top);
        let low = x.last();
        lemma_occurs_at(x, n - 1);
        assert(occurs(x, low) == occurs(y, low));
        let k = lemma_find(y, low);
        assert(low <= top);
        let half = x.update(j, low);
        let z = half.update(n - 1, top);
        lemma_dot_set(v, x, j, low);
        lemma_dot_set(v, half, n - 1, top);
        if j == n - 1 {
            assert(v[j] * (low - x[j]) == 0) by (nonlinear_arith)
                requires
                    low == x[j],
            ;
            assert(v[n - 1] * (top - half[n - 1]) == 0) by (nonlinear_arith)
                requires
                    top == half[n - 1],
            ;
        } else {
            assert(v[j] >= v[n - 1]);
            assert(v[j] * (low - top) + v[n - 1] * (top - low) <= 0) by (nonlinear_arith)
                requires
                    v[j] >= v[n - 1],
                    low <= top,
            ;
        }
        let z1 = z.drop_last();
        let y1 = y.drop_last();
        assert forall|c: nat| #[trigger] occurs(z1, c) == occurs(y1, c) by {
            lemma_occurs_set(x, j, low, c);
            lemma_occurs_set(half, n - 1, top, c);
            assert(occurs(x, c) == occurs(y, c));
        }
        let v1 = v.drop_last();
        assert forall|i: int, k: int| 0 <= i <= k < v1.len() implies v1[i] >= v1[k] by {
            assert(v[i] >= v[k]);
        }
        assert forall|i: int, k: int| 0 <= i <= k < y1.len() implies y1[i] <= y1[k] by {
            assert(y[i] <= y[k]);
        }
        lemma_rearranged(v1, z1, y1);
    }
}

proof fn lemma_dot_insert(v: Seq<u64>, x: Seq<nat>, i: int, a: u64, b: nat)
    requires
        v.len() == x.len(),
        0 <= i <= v.len(),
    ensures
        dot(v.insert(i, a), x.insert(i, b)) == dot(v, x) + a as nat * b,
    decreases v.len(),
{
    let v2 = v.insert(i, a);
    let x2 = x.insert(i, b);
    if i == v.len() {
        assert(v2.drop_last() =~= v);
        assert(x2.drop_last() =~= x);
    } else {
        lemma_dot_insert(v.drop_last(), x.drop_last(), i, a, b);
        assert(v2.drop_last() =~= v.drop_last().insert(i, a));
        assert(x2.drop_last() =~= x.drop_last().insert(i, b));
    }
}

proof fn lemma_occurs_insert(x: Seq<nat>, i: int, b: nat, c: nat)
    requires
        0 <= i <= x.len(),
    ensures
        occurs(x.insert(i, b), c) == occurs(x, c) + if b == c {
            1nat
        } else {
            0nat
        },
    decreases x.len(),
{
    let x2 = x.insert(i, b);
    if i == x.len() {
        assert(x2.drop_last() =~= x);
    } else {
        lemma_occurs_insert(x.drop_last(), i, b, c);
        assert(x2.drop_last() =~= x.drop_last().insert(i, b));
    }
}

/// The counts of some symbols.
pub open spec fn counts_of(counts: Seq<u64>, symbols: Seq<usize>) -> Seq<u64> {
    Seq::new(symbols.len(), |i: int| counts[symbols[i] as int])
}

/// What belongs to the symbols, in the order in which they are sorted.
spec fn along(counts: Seq<u64>, symbols: Seq<usize>, t: Seq<nat>) -> Seq<nat>
    decreases symbols.len(),
{
    if symbols.len() == 0 {
        Seq::empty()
    } else {
        let order = by_count(counts, symbols.drop_last());
        let at = place(order, counts, counts[symbols.last() as int], order.len());
        along(counts, symbols.drop_last(), t.drop_last()).insert(at as int, t.last())
    }
}

/// The symbols before a place occur as often or more.
proof fn lemma_place_splits(order: Seq<usize>, counts: Seq<u64>, c: u64, n: nat)
    requires
        n <= order.len(),
    ensures
        ({
            let at = place(order, counts, c, n);
            &&& at <= n
            &&& at > 0 ==> counts[order[at - 1] as int] >= c
            &&& forall|i: int| at <= i < n ==> counts[(#[trigger] order[i]) as int] < c
        }),
    decreases n,
{
    if n > 0 && counts[order[n - 1] as int] < c {
        lemma_place_splits(order, counts, c, (n - 1) as nat);
    }
}

/// Sorting symbols by count makes their counts fall, and leaves the sum of
/// products as it is.
proof fn lemma_along(counts: Seq<u64>, symbols: Seq<usize>, t: Seq<nat>)
    requires
        symbols.len() == t.len(),
    ensures
        ({
            let order = by_count(counts, symbols);
            let v = counts_of(counts, order);
            let x = along(counts, symbols, t);
            &&& order.len() == symbols.len()
            &&& x.len() == symbols.len()
            &&& dot(v, x) == dot(counts_of(counts, symbols), t)
            &&& forall|c: nat| #[trigger] occurs(x, c) == occurs(t, c)
            &&& forall|i: int, j: int| 0 <= i <= j < v.len() ==> v[i] >= v[j]
        }),
    decreases symbols.len(),
{
    let order = by_count(counts, symbols);
    let x = along(counts, symbols, t);
    let v = counts_of(counts, order);
    if symbols.len() == 0 {
        assert(x =~= t);
        assert(v =~= counts_of(counts, symbols));
    } else {
        let rest = symbols.drop_last();
        let t1 = t.drop_last();
        let s = symbols.last();
        lemma_along(counts, rest, t1);
        let o1 = by_count(counts, rest);
        let v1 = counts_of(counts, o1);
        let x1 = along(counts, rest, t1);
        let c = counts[s as int];
        let at = place(o1, counts, c, o1.len()) as int;
        lemma_place_splits(o1, counts, c, o1.len());
        lemma_dot_insert(v1, x1, at, c, t.last());
        assert(v =~= v1.insert(at, c));
        assert(counts_of(counts, symbols).drop_last() =~= counts_of(counts, rest));
        assert forall|k: nat| #[trigger] occurs(x, k) == occurs(t, k) by {
            lemma_occurs_insert(x1, at, t.last(), k);
            assert(occurs(x1, k) == occurs(t1, k));
        }
        assert forall|i: int, j: int| 0 <= i <= j < v.len() implies v[i] >= v[j] by {
            let i1 = if i > at {
                i - 1
            } else {
                i
            };
            let j1 = if j > at {
                j - 1
            } else {
                j
            };
            if i < at && j == at {
                assert(v1[i] >= v1[at - 1]);
                assert(v1[at - 1] == counts[o1[at - 1] as int]);
            } else if i == at && j > at {
                assert(v1[j1] == counts[o1[j1] as int]);
            } else if i != at && j != at {
                assert(v1[i1] >= v1[j1]);
            }
        }
    }
}

// How often each length is handed out.

proof fn lemma_codes_rise(h: Seq<u32>, a: nat, b: nat)
    requires
        a <= b,
    ensures
        codes(h, a) <= codes(h, b),
    decreases b,
{
    if a < b {
        lemma_codes_rise(h, a, (b - 1) as nat);
    }
}

/// Code number `i` has the length whose codes it is among.
proof fn lemma_nth_range(h: Seq<u32>, i: nat, l: nat)
    requires
        l <= h.len(),
        i + codes(h, l) < codes(h, h.len()),
    ensures
        ({
            let c = nth_len(h, i, l);
            &&& l <= c < h.len()
            &&& codes(h, c) <= i + codes(h, l) < codes(h, c + 1)
        }),
    decreases h.len() - l,
{
    if l < h.len() {
        if i >= h[l as int] {
            lemma_nth_range(h, (i - h[l as int]) as nat, l + 1);
        }
    }
}

/// The lengths of codes `0..n`, shortest first.
spec fn dealt(h: Seq<u32>, n: nat) -> Seq<nat> {
    Seq::new(n, |k: int| nth_len(h, k as nat, 0))
}

proof fn lemma_dealt(h: Seq<u32>, n: nat, c: nat)
    requires
        n <= codes(h, h.len()),
    ensures
        occurs(dealt(h, n), c) == if c >= h.len() || n <= codes(h, c) {
            0
        } else if n <= codes(h, c + 1) {
            n - codes(h, c)
        } else {
            h[c as int] as int
        },
    decreases n,
{
    if n > 0 {
        let k = (n - 1) as nat;
        lemma_dealt(h, k, c);
        assert(dealt(h, n).drop_last() =~= dealt(h, k));
        lemma_nth_range(h, k, 0);
        let e = nth_len(h, k, 0);
        if c < e {
            lemma_codes_rise(h, c + 1, e);
        } else if c > e {
            lemma_codes_rise(h, e + 1, c);
        }
    }
}

proof fn lemma_dealt_rises(h: Seq<u32>, n: nat)
    requires
        n <= codes(h, h.len()),
    ensures
        forall|i: int, j: int| 0 <= i <= j < n ==> dealt(h, n)[i] <= dealt(h, n)[j],
{
    assert forall|i: int, j: int| 0 <= i <= j < n implies dealt(h, n)[i] <= dealt(h, n)[j] by {
        lemma_nth_range(h, i as nat, 0);
        lemma_nth_range(h, j as nat, 0);
        let a = nth_len(h, i as nat, 0);
        let b = nth_len(h, j as nat, 0);
        if a > b {
            lemma_codes_rise(h, b + 1, a);
        }
    }
}

/// The histogram of the depths counts each of them.
proof fn lemma_depth_histogram(p: Seq<usize>, none: usize, max: nat, n: nat, c: nat)
    requires
        n <= u32::MAX,
        forall|u: nat| u < n ==> #[trigger] depth_of(p, none, u) <= max,
    ensures
        per_depth(p, none, max, n).len() == max + 1,
        occurs(depths(p, none, n), c) == if c <= max {
            per_depth(p, none, max, n)[c as int] as nat
        } else {
            0
        },
        occurs(depths(p, none, n), c) <= n,
    decreases n,
{
    if n > 0 {
        let u = (n - 1) as nat;
        let e = depth_of(p, none, u);
        lemma_depth_histogram(p, none, max, u, c);
        assert(depths(p, none, n).drop_last() =~= depths(p, none, u));
        assert(cut_depth(p, none, max, u) == e);
    }
}

// What the symbols cost.

/// How many bits the symbols take up with codes of these lengths.
pub open spec fn coded_size(counts: Seq<u64>, lengths: Seq<u8>) -> nat
    decreases counts.len(),
{
    if counts.len() == 0 {
        0
    } else {
        coded_size(counts.drop_last(), lengths.drop_last()) + counts.last() as nat
            * lengths.last() as nat
    }
}

proof fn lemma_size_set(counts: Seq<u64>, lengths: Seq<u8>, i: int, y: u8)
    requires
        counts.len() == lengths.len(),
        0 <= i < counts.len(),
    ensures
        coded_size(counts, lengths.update(i, y)) == coded_size(counts, lengths) + counts[i] * (y
            - lengths[i]),
    decreases counts.len(),
{
    let next = lengths.update(i, y);
    if i == lengths.len() - 1 {
        assert(next.drop_last() =~= lengths.drop_last());
        assert(counts[i] as int * y as int == counts[i] as int * lengths[i] as int + counts[i] * (y
            - lengths[i])) by (nonlinear_arith);
    } else {
        lemma_size_set(counts.drop_last(), lengths.drop_last(), i, y);
        assert(next.drop_last() =~= lengths.drop_last().update(i, y));
    }
}

proof fn lemma_size_zero(counts: Seq<u64>, lengths: Seq<u8>)
    requires
        counts.len() == lengths.len(),
        forall|i: int| 0 <= i < counts.len() ==> #[trigger] lengths[i] == 0,
    ensures
        coded_size(counts, lengths) == 0,
    decreases counts.len(),
{
    if counts.len() > 0 {
        let rest = lengths.drop_last();
        assert forall|i: int| 0 <= i < rest.len() implies #[trigger] rest[i] == 0 by {
            assert(lengths[i] == 0);
        }
        lemma_size_zero(counts.drop_last(), rest);
        assert(lengths[lengths.len() - 1] == 0);
        assert(counts.last() as nat * 0 == 0) by (nonlinear_arith);
    }
}

/// The lengths handed out so far cost the products of counts and lengths.
proof fn lemma_assigned_size(counts: Seq<u64>, order: Seq<usize>, h: Seq<u32>, max: nat, i: nat)
    requires
        order.no_duplicates(),
        forall|j: int| 0 <= j < order.len() ==> #[trigger] order[j] < counts.len(),
        h.len() == max + 1,
        max <= 15,
        h[0] == 0,
        codes(h, h.len()) == order.len(),
        i <= order.len(),
    ensures
        coded_size(counts, assigned(counts.len(), order, h, i)) == dot(
            counts_of(counts, order.take(i as int)),
            dealt(h, i),
        ),
    decreases i,
{
    let n = counts.len();
    if i == 0 {
        lemma_size_zero(counts, assigned(n, order, h, 0));
    } else {
        let k = (i - 1) as nat;
        lemma_assigned_size(counts, order, h, max, k);
        lemma_codes_join(h, 0);
        lemma_assigned(n, order, h, max, k);
        let b = assigned(n, order, h, k);
        let s = order[k as int] as int;
        assert(b[s] == 0) by {
            assert forall|j: int| 0 <= j < k implies order[j] != s by {
                assert(order[j] != order[k as int]);
            }
        }
        lemma_nth_range(h, k, 0);
        let y = nth_len(h, k, 0);
        lemma_size_set(counts, b, s, y as u8);
        assert(counts_of(counts, order.take(i as int)).drop_last() =~= counts_of(
            counts,
            order.take(k as int),
        ));
        assert(dealt(h, i).drop_last() =~= dealt(h, k));
    }
}

/// Lengths that every symbol that occurs can be written with.
pub open spec fn is_code_for(counts: Seq<u64>, lengths: Seq<u8>, max_len: nat) -> bool {
    &&& lengths.len() == counts.len()
    &&& forall|s: int| 0 <= s < counts.len() && counts[s] > 0 ==> #[trigger] lengths[s] > 0
    &&& forall|s: int| 0 <= s < counts.len() ==> #[trigger] lengths[s] <= max_len
    &&& slots(lengths) <= 32768
}

/// The limit does not bite: no leaf of the Huffman tree is deeper.
pub open spec fn tree_fits(counts: Seq<u64>, max_len: nat) -> bool {
    let w = counts_of(counts, used(counts));
    w.len() >= 2 ==> forall|u: nat|
        u < w.len() ==> #[trigger] depth_of(tree(w), (2 * w.len() - 1) as usize, u) <= max_len
}

/// The lengths of the symbols that occur.
spec fn lengths_of(lengths: Seq<u8>, symbols: Seq<usize>) -> Seq<nat> {
    Seq::new(symbols.len(), |i: int| lengths[symbols[i] as int] as nat)
}

/// Symbols that do not occur cost nothing.
proof fn lemma_used_size(
    counts: Seq<u64>,
    lengths: Seq<u8>,
    max_len: nat,
    p: Seq<usize>,
    none: usize,
    n: nat,
)
    requires
        n <= counts.len() <= usize::MAX,
        is_code_for(counts, lengths, max_len),
        max_len <= 15,
        used_symbols(counts, n).len() <= p.len(),
        forall|i: int| 0 <= i < p.len() ==> #[trigger] p[i] == none,
    ensures
        ({
            let u = used_symbols(counts, n);
            let w = counts_of(counts, u);
            let l = lengths_of(lengths, u);
            &&& root_cost(w, p, none, l, u.len()) == coded_size(
                counts.take(n as int),
                lengths.take(n as int),
            )
            &&& root_space(p, none, l, 15, u.len()) <= slots(lengths.take(n as int))
        }),
    decreases n,
{
    let u = used_symbols(counts, n);
    if n > 0 {
        let k = (n - 1) as nat;
        let v = used_symbols(counts, k);
        lemma_used_size(counts, lengths, max_len, p, none, k);
        assert(counts.take(n as int).drop_last() =~= counts.take(k as int));
        assert(lengths.take(n as int).drop_last() =~= lengths.take(k as int));
        if counts[k as int] > 0 {
            assert(lengths[k as int] > 0);
            assert(lengths[k as int] <= max_len);
            assert(u[v.len() as int] == k);
            assert(p[v.len() as int] == none);
            lemma_same_roots(
                counts_of(counts, v),
                p,
                lengths_of(lengths, v),
                counts_of(counts, u),
                p,
                lengths_of(lengths, u),
                none,
                15,
                v.len(),
            );
        } else {
            assert(0 * lengths[k as int] as nat == 0) by (nonlinear_arith);
        }
    }
}

/// Nodes that all have no parent cost the products of weights and depths.
proof fn lemma_all_roots(w: Seq<u64>, p: Seq<usize>, none: usize, l: Seq<nat>, n: nat)
    requires
        n <= w.len(),
        w.len() == l.len(),
        n <= p.len(),
        forall|i: int| 0 <= i < p.len() ==> #[trigger] p[i] == none,
    ensures
        root_cost(w, p, none, l, n) == dot(w.take(n as int), l.take(n as int)),
    decreases n,
{
    if n > 0 {
        lemma_all_roots(w, p, none, l, (n - 1) as nat);
        assert(p[n - 1] == none);
        assert(w.take(n as int).drop_last() =~= w.take(n - 1));
        assert(l.take(n as int).drop_last() =~= l.take(n - 1));
    }
}

/// The lengths that are handed out cost no more than the depths of the tree.
proof fn lemma_lengths_cost(counts: Seq<u64>, max_len: nat)
    requires
        counts.len() <= usize::MAX,
        1 <= max_len <= 15,
        2 <= used(counts).len() <= pow2(max_len),
        tree_fits(counts, max_len),
    ensures
        ({
            let w = counts_of(counts, used(counts));
            let none = (2 * w.len() - 1) as usize;
            coded_size(counts, lengths_for(counts, max_len)) <= dot(
                w,
                depths(tree(w), none, w.len()),
            )
        }),
{
    let u = used(counts);
    let w = counts_of(counts, u);
    let n = u.len();
    let none = (2 * n - 1) as usize;
    let t = depths(tree(w), none, n);
    lemma_pow2_values();
    lemma_pow2_le(max_len, 15);
    lemma_used(counts, counts.len());
    lemma_unlimited(w, max_len);
    let h = per_depth(tree(w), none, max_len, n);
    assert(codes_per_len(counts, max_len) == h);
    let order = by_count(counts, u);
    lemma_by_count(counts, u);
    assert forall|j: int| 0 <= j < order.len() implies #[trigger] order[j] < counts.len() by {
        assert(order.contains(order[j]));
        assert(u.contains(order[j]));
    }
    lemma_assigned_size(counts, order, h, max_len, n);
    assert(order.take(n as int) =~= order);
    lemma_along(counts, u, t);
    lemma_dealt_rises(h, n);
    let x = along(counts, u, t);
    assert forall|c: nat| #[trigger] occurs(x, c) == occurs(dealt(h, n), c) by {
        assert(occurs(x, c) == occurs(t, c));
        lemma_depth_histogram(tree(w), none, max_len, n, c);
        lemma_dealt(h, n, c);
        if c < h.len() {
            lemma_codes_rise(h, c + 1, h.len());
        }
    }
    lemma_rearranged(counts_of(counts, order), x, dealt(h, n));
}

/// Where the limit does not bite, no code within it makes the symbols
/// shorter in all.
pub proof fn lengths_are_optimal(counts: Seq<u64>, max_len: nat, other: Seq<u8>)
    requires
        counts.len() <= usize::MAX,
        max_len <= 15,
        used(counts).len() <= pow2(max_len),
        total(counts) <= u64::MAX,
        tree_fits(counts, max_len),
        is_code_for(counts, other, max_len),
    ensures
        coded_size(counts, lengths_for(counts, max_len)) <= coded_size(counts, other),
{
    let u = used(counts);
    let w = counts_of(counts, u);
    let l = lengths_of(other, u);
    let n = u.len();
    let size = counts.len() as int;
    lemma_pow2_values();
    lemma_pow2_le(max_len, 15);
    lemma_used(counts, counts.len());
    assert(counts.take(size) =~= counts);
    assert(other.take(size) =~= other);
    let zero = Seq::new(counts.len(), |k: int| 0u8);
    if n == 0 {
        lemma_size_zero(counts, zero);
    } else if n == 1 {
        let s = u[0] as int;
        assert(u.contains(u[0]));
        lemma_size_zero(counts, zero);
        lemma_size_set(counts, zero, s, 1);
        let none = 1usize;
        let p = Seq::new(1, |i: int| none);
        lemma_used_size(counts, other, max_len, p, none, counts.len());
        reveal_with_fuel(root_cost, 2);
        assert(other[s] > 0);
        assert(counts[s] as nat * other[s] as nat >= counts[s] as nat * 1) by (nonlinear_arith)
            requires
                other[s] > 0,
        ;
    } else {
        let none = (2 * n - 1) as usize;
        let p = Seq::new(n, |i: int| none);
        if max_len == 0 {
            assert(false);
        }
        lemma_leaves(w);
        lemma_leaf_weight(counts, counts.len(), p, none);
        assert(w =~= Seq::new(u.len(), |i: int| counts[u[i] as int]));
        lemma_used_size(counts, other, max_len, p, none, counts.len());
        assert forall|i: int| 0 <= i < p.len() && #[trigger] p[i] == none implies l[i] <= 15 by {
            assert(u.contains(u[i]));
            assert(other[u[i] as int] <= max_len);
        }
        lemma_tree_optimal(w, p, none, n, l, 15);
        let t = depths(tree(w), none, n);
        lemma_all_roots(w, p, none, t, n);
        assert(w.take(n as int) =~= w);
        assert(t.take(n as int) =~= t);
        lemma_lengths_cost(counts, max_len);
    }
}

/// The length that a place in the order is given.
proof fn lemma_assigned_at(n: nat, order: Seq<usize>, h: Seq<u32>, i: nat, k: int)
    requires
        order.no_duplicates(),
        forall|j: int| 0 <= j < order.len() ==> #[trigger] order[j] < n,
        i <= order.len(),
        0 <= k < i,
    ensures
        assigned(n, order, h, i).len() == n,
        assigned(n, order, h, i)[order[k] as int] == nth_len(h, k as nat, 0) as u8,
    decreases i,
{
    let j = (i - 1) as nat;
    lemma_assigned_len(n, order, h, j);
    assert(order[j as int] < n);
    if k < j {
        lemma_assigned_at(n, order, h, j, k);
        assert(order[k] != order[j as int]);
        assert(order[k] < n);
    }
}

proof fn lemma_assigned_len(n: nat, order: Seq<usize>, h: Seq<u32>, i: nat)
    requires
        forall|j: int| 0 <= j < order.len() ==> #[trigger] order[j] < n,
        i <= order.len(),
    ensures
        assigned(n, order, h, i).len() == n,
    decreases i,
{
    if i > 0 {
        assert(order[i - 1] < n);
        lemma_assigned_len(n, order, h, (i - 1) as nat);
    }
}

/// Of two symbols that occur, the more frequent has no longer a code.
pub proof fn frequent_is_short(counts: Seq<u64>, max_len: nat, a: int, b: int)
    requires
        counts.len() <= usize::MAX,
        max_len <= 15,
        used(counts).len() <= pow2(max_len),
        0 <= a < counts.len(),
        0 <= b < counts.len(),
        counts[a] > counts[b] > 0,
    ensures
        lengths_for(counts, max_len)[a] <= lengths_for(counts, max_len)[b],
{
    let u = used(counts);
    let order = by_count(counts, u);
    let n = u.len();
    lemma_pow2_values();
    lemma_used(counts, counts.len());
    lemma_by_count(counts, u);
    assert(u.contains(a as usize) && u.contains(b as usize));
    assert(order.contains(a as usize) && order.contains(b as usize));
    let i = choose|i: int| 0 <= i < order.len() && order[i] == a as usize;
    let j = choose|j: int| 0 <= j < order.len() && order[j] == b as usize;
    assert(i != j);
    assert(n >= 2);
    if max_len == 0 {
        assert(false);
    }
    assert forall|k: int| 0 <= k < order.len() implies #[trigger] order[k] < counts.len() by {
        assert(order.contains(order[k]));
        assert(u.contains(order[k]));
    }
    lemma_along(counts, u, Seq::new(n, |k: int| 0nat));
    let v = counts_of(counts, order);
    if j <= i {
        assert(v[j] >= v[i]);
    }
    lemma_codes_per_len(counts, max_len);
    let h = codes_per_len(counts, max_len);
    lemma_dealt_rises(h, n);
    assert(dealt(h, n)[i] <= dealt(h, n)[j]);
    lemma_nth_range(h, i as nat, 0);
    lemma_nth_range(h, j as nat, 0);
    lemma_assigned_at(counts.len(), order, h, n, i);
    lemma_assigned_at(counts.len(), order, h, n, j);
}

} // verus!
