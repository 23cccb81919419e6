//! The rotations of a block and their sorted order.
use crate::bwt::sort::counting_sort;
use crate::bwt::sort::is_sorted_by;
use crate::bwt::sort::keys_of;
use crate::bwt::sort::lemma_onto;
use crate::bwt::sort::lemma_place_onto;
use crate::bwt::sort::lemma_place_order;
use crate::bwt::sort::place;
use vstd::arithmetic::div_mod::lemma_add_mod_noop;
use vstd::arithmetic::div_mod::lemma_mod_add_multiples_vanish;
use vstd::arithmetic::div_mod::lemma_mod_twice;
use vstd::arithmetic::div_mod::lemma_small_mod;
use vstd::prelude::*;
use vstd::set_lib::lemma_int_range;
use vstd::set_lib::lemma_len_subset;
use vstd::set_lib::lemma_map_size;
use vstd::set_lib::set_int_range;

verus! {

/// The byte at position `p` of the block, taken as a circle.
pub open spec fn at(data: Seq<u8>, p: int) -> u8 {
    data[p % data.len() as int]
}

/// The first `k` bytes of the rotations at `i` and `j` against each other:
/// negative if `i`'s are smaller, positive if they are greater, 0 if they
/// are the same.
pub open spec fn sign(data: Seq<u8>, i: int, j: int, k: nat) -> int
    decreases k,
{
    if k == 0 {
        0
    } else if at(data, i) < at(data, j) {
        -1
    } else if at(data, i) > at(data, j) {
        1
    } else {
        sign(data, i + 1, j + 1, (k - 1) as nat)
    }
}

/// Whether the rotation at `i` sorts before the one at `j` when `k` bytes
/// are compared. Ties go to the lower position.
pub open spec fn before(data: Seq<u8>, i: int, j: int, k: nat) -> bool {
    sign(data, i, j, k) < 0 || (sign(data, i, j, k) == 0 && i < j)
}

/// `order` holds the positions of all rotations, sorted by their first `k`
/// bytes.
pub open spec fn sorted_rows(data: Seq<u8>, order: Seq<u32>, k: nat) -> bool {
    &&& order.len() == data.len()
    &&& forall|a: int| 0 <= a < order.len() ==> #[trigger] order[a] < data.len()
    &&& forall|a: int, b: int|
        0 <= a < b < order.len() ==> before(
            data,
            #[trigger] order[a] as int,
            #[trigger] order[b] as int,
            k,
        )
}

// The order of rotations.

proof fn lemma_sign_flip(data: Seq<u8>, i: int, j: int, k: nat)
    ensures
        sign(data, i, j, k) == -sign(data, j, i, k),
        -1 <= sign(data, i, j, k) <= 1,
    decreases k,
{
    if k > 0 {
        lemma_sign_flip(data, i + 1, j + 1, (k - 1) as nat);
    }
}

proof fn lemma_sign_trans(data: Seq<u8>, i: int, j: int, l: int, k: nat)
    requires
        sign(data, i, j, k) <= 0,
        sign(data, j, l, k) <= 0,
    ensures
        sign(data, i, l, k) <= 0,
        sign(data, i, l, k) == 0 <==> sign(data, i, j, k) == 0 && sign(data, j, l, k) == 0,
    decreases k,
{
    if k > 0 && at(data, i) == at(data, j) && at(data, j) == at(data, l) {
        lemma_sign_trans(data, i + 1, j + 1, l + 1, (k - 1) as nat);
    }
}

/// Comparing `k + m` bytes is comparing `k` bytes, then the next `m`.
proof fn lemma_sign_concat(data: Seq<u8>, i: int, j: int, k: nat, m: nat)
    ensures
        sign(data, i, j, k + m) == if sign(data, i, j, k) != 0 {
            sign(data, i, j, k)
        } else {
            sign(data, i + k, j + k, m)
        },
    decreases k,
{
    if k > 0 {
        lemma_sign_concat(data, i + 1, j + 1, (k - 1) as nat, m);
        assert((k - 1) as nat + m == (k + m - 1) as nat);
        assert(i + 1 + (k - 1) as nat == i + k);
        assert(j + 1 + (k - 1) as nat == j + k);
    }
}

proof fn lemma_at_mod(data: Seq<u8>, i: int)
    requires
        data.len() > 0,
    ensures
        at(data, i) == at(data, i % data.len() as int),
        at(data, i + data.len()) == at(data, i),
{
    let n = data.len() as int;
    lemma_mod_twice(i, n);
    lemma_mod_add_multiples_vanish(i, n);
}

proof fn lemma_sign_mod(data: Seq<u8>, i: int, j: int, k: nat)
    requires
        data.len() > 0,
    ensures
        sign(data, i % data.len() as int, j % data.len() as int, k) == sign(data, i, j, k),
    decreases k,
{
    let n = data.len() as int;
    lemma_mod_twice(i, n);
    lemma_mod_twice(j, n);
    lemma_sign_same(data, i, j, i % n, j % n, k);
}

/// Positions that are the same on the circle compare the same.
proof fn lemma_sign_same(data: Seq<u8>, i: int, j: int, i2: int, j2: int, k: nat)
    requires
        data.len() > 0,
        i % data.len() as int == i2 % data.len() as int,
        j % data.len() as int == j2 % data.len() as int,
    ensures
        sign(data, i2, j2, k) == sign(data, i, j, k),
    decreases k,
{
    if k > 0 {
        let n = data.len() as int;
        lemma_add_mod_noop(i, 1, n);
        lemma_add_mod_noop(i2, 1, n);
        lemma_add_mod_noop(j, 1, n);
        lemma_add_mod_noop(j2, 1, n);
        lemma_sign_same(data, i + 1, j + 1, i2 + 1, j2 + 1, (k - 1) as nat);
    }
}

/// Rotations that agree on a full turn agree for ever.
proof fn lemma_sign_zero(data: Seq<u8>, i: int, j: int, k: nat)
    requires
        data.len() > 0,
        sign(data, i, j, data.len()) == 0,
    ensures
        sign(data, i, j, k) == 0,
    decreases k,
{
    let n = data.len();
    if k <= n {
        lemma_sign_concat(data, i, j, k, (n - k) as nat);
        assert(k + (n - k) as nat == n);
    } else {
        lemma_sign_zero(data, i, j, (k - n) as nat);
        lemma_sign_concat(data, i, j, n, (k - n) as nat);
        assert(n + (k - n) as nat == k);
        lemma_sign_mod(data, i, j, (k - n) as nat);
        lemma_sign_mod(data, i + n, j + n, (k - n) as nat);
        lemma_mod_add_multiples_vanish(i, n as int);
        lemma_mod_add_multiples_vanish(j, n as int);
    }
}

/// What `k` bytes tell apart, a full turn tells apart the same way; and
/// more than a full turn tells no more.
proof fn lemma_sign_full(data: Seq<u8>, i: int, j: int, k: nat)
    requires
        data.len() > 0,
    ensures
        sign(data, i, j, k) != 0 ==> sign(data, i, j, data.len()) == sign(data, i, j, k),
        k >= data.len() ==> sign(data, i, j, data.len()) == sign(data, i, j, k),
{
    let n = data.len();
    if sign(data, i, j, n) == 0 {
        lemma_sign_zero(data, i, j, k);
    } else if k >= n {
        lemma_sign_concat(data, i, j, n, (k - n) as nat);
        assert(n + (k - n) as nat == k);
    } else {
        lemma_sign_concat(data, i, j, k, (n - k) as nat);
        assert(k + (n - k) as nat == n);
    }
}

/// Turning both rotations back by one byte puts that byte in front.
pub proof fn lemma_sign_turn(data: Seq<u8>, i: int, j: int)
    requires
        data.len() > 0,
    ensures
        sign(data, i, j, data.len()) == if at(data, i) < at(data, j) {
            -1
        } else if at(data, i) > at(data, j) {
            1
        } else {
            sign(data, i + 1, j + 1, data.len())
        },
{
    let n = data.len();
    if at(data, i) == at(data, j) {
        let m = (n - 1) as nat;
        lemma_sign_concat(data, i + 1, j + 1, m, 1);
        assert(m + 1 == n);
        lemma_at_mod(data, i);
        lemma_at_mod(data, j);
        assert(i + 1 + m == i + n && j + 1 + m == j + n);
        assert(at(data, i + 1 + m) == at(data, j + 1 + m));
        reveal_with_fuel(sign, 2);
    }
}

/// The order of rows is a strict total order.
pub proof fn lemma_before(data: Seq<u8>, i: int, j: int, l: int, k: nat)
    ensures
        !(before(data, i, j, k) && before(data, j, i, k)),
        i != j ==> before(data, i, j, k) || before(data, j, i, k),
        before(data, i, j, k) && before(data, j, l, k) ==> before(data, i, l, k),
        !before(data, i, i, k),
{
    lemma_sign_flip(data, i, j, k);
    lemma_sign_flip(data, i, i, k);
    if before(data, i, j, k) && before(data, j, l, k) {
        lemma_sign_trans(data, i, j, l, k);
    }
}

/// Facts on two and three rotations compared as whole turns.
pub proof fn lemma_sign_facts(data: Seq<u8>, i: int, j: int, l: int)
    ensures
        sign(data, i, j, data.len()) == -sign(data, j, i, data.len()),
        sign(data, i, i, data.len()) == 0,
        sign(data, i, j, data.len()) <= 0 && sign(data, j, l, data.len()) <= 0 ==> sign(
            data,
            i,
            l,
            data.len(),
        ) <= 0 && (sign(data, i, l, data.len()) == 0 <==> sign(data, i, j, data.len()) == 0
            && sign(data, j, l, data.len()) == 0),
{
    lemma_sign_flip(data, i, j, data.len());
    lemma_sign_flip(data, i, i, data.len());
    if sign(data, i, j, data.len()) <= 0 && sign(data, j, l, data.len()) <= 0 {
        lemma_sign_trans(data, i, j, l, data.len());
    }
}

/// Rotations that are the same on the circle.
pub proof fn lemma_sign_circle(data: Seq<u8>, i: int, j: int, i2: int, j2: int)
    requires
        data.len() > 0,
        i % data.len() as int == i2 % data.len() as int,
        j % data.len() as int == j2 % data.len() as int,
    ensures
        sign(data, i2, j2, data.len()) == sign(data, i, j, data.len()),
{
    lemma_sign_same(data, i, j, i2, j2, data.len());
}

/// Every rotation has a row.
pub proof fn lemma_row_of(data: Seq<u8>, order: Seq<u32>, k: nat, q: int) -> (m: int)
    requires
        sorted_rows(data, order, k),
        0 <= q < data.len(),
    ensures
        0 <= m < order.len(),
        order[m] == q,
{
    let f = |a: int| order[a] as int;
    assert forall|a: int| 0 <= a < data.len() implies 0 <= #[trigger] f(a) < data.len() by {
        assert(order[a] < data.len());
    }
    assert forall|a: int, b: int| 0 <= a < b < data.len() implies #[trigger] f(a) != #[trigger] f(
        b,
    ) by {
        lemma_before(data, order[a] as int, order[b] as int, 0, k);
        assert(before(data, order[a] as int, order[b] as int, k));
    }
    lemma_onto(f, data.len(), q)
}

/// Rows are in order exactly if their rotations are.
pub proof fn lemma_rows_order(data: Seq<u8>, order: Seq<u32>, k: nat, a: int, b: int)
    requires
        sorted_rows(data, order, k),
        0 <= a < order.len(),
        0 <= b < order.len(),
    ensures
        a < b <==> before(data, order[a] as int, order[b] as int, k),
        order[a] == order[b] ==> a == b,
{
    let x = order[a] as int;
    let y = order[b] as int;
    lemma_before(data, x, y, 0, k);
    lemma_before(data, y, x, 0, k);
    if a < b {
        assert(before(data, order[a] as int, order[b] as int, k));
    } else if b < a {
        assert(before(data, order[b] as int, order[a] as int, k));
    }
}

/// The rotations that sort before the one at `q`.
pub open spec fn earlier(data: Seq<u8>, q: int) -> Set<int> {
    Set::new(|p: int| 0 <= p < data.len() && before(data, p, q, data.len()))
}

/// The row of a rotation is the number of rotations that sort before it.
pub proof fn lemma_row_counts(data: Seq<u8>, order: Seq<u32>, m: int)
    requires
        sorted_rows(data, order, data.len()),
        0 <= m < order.len(),
    ensures
        earlier(data, order[m] as int).finite(),
        earlier(data, order[m] as int).len() == m,
{
    let n = data.len();
    let f = |a: int| order[a] as int;
    let x = set_int_range(0, m);
    let y = earlier(data, order[m] as int);
    lemma_int_range(0, m);
    assert(vstd::relations::injective_on(f, x)) by {
        assert forall|a: int, b: int|
            x.contains(a) && x.contains(b) && #[trigger] f(a) == #[trigger] f(b) implies a == b by {
            lemma_rows_order(data, order, n, a, b);
        }
    }
    assert(x.map(f) =~= y) by {
        assert forall|p: int| x.map(f).contains(p) implies y.contains(p) by {
            let a = choose|a: int| x.contains(a) && p == f(a);
            lemma_rows_order(data, order, n, a, m);
            assert(order[a] < data.len());
        }
        assert forall|p: int| y.contains(p) implies x.map(f).contains(p) by {
            let a = lemma_row_of(data, order, n, p);
            lemma_rows_order(data, order, n, a, m);
            assert(x.contains(a) && f(a) == p);
        }
    }
    lemma_map_size(x, y, f);
}

proof fn lemma_earlier(data: Seq<u8>, p: int, q: int)
    requires
        0 <= p < data.len(),
        before(data, p, q, data.len()),
    ensures
        earlier(data, p).len() < earlier(data, q).len(),
{
    let n = data.len();
    let x = earlier(data, p);
    let y = earlier(data, q);
    lemma_int_range(0, n as int);
    lemma_len_subset(x, set_int_range(0, n as int));
    lemma_len_subset(y, set_int_range(0, n as int));
    assert(x.insert(p).subset_of(y)) by {
        assert forall|r: int| x.insert(p).contains(r) implies y.contains(r) by {
            lemma_before(data, r, p, q, n);
        }
    }
    lemma_before(data, p, p, p, n);
    lemma_len_subset(x.insert(p), y);
}

/// A block's rotations can be sorted.
pub proof fn rows_exist(data: Seq<u8>)
    requires
        data.len() <= u32::MAX,
    ensures
        exists|order: Seq<u32>| sorted_rows(data, order, data.len()),
{
    let n = data.len();
    let f = |q: int| earlier(data, q).len() as int;
    lemma_int_range(0, n as int);
    assert forall|q: int| 0 <= q < n implies 0 <= #[trigger] f(q) < n by {
        let all = set_int_range(0, n as int);
        assert(earlier(data, q).subset_of(all.remove(q))) by {
            lemma_before(data, q, q, q, n);
        }
        lemma_len_subset(earlier(data, q), all.remove(q));
    }
    assert forall|p: int, q: int| 0 <= p < q < n implies #[trigger] f(p) != #[trigger] f(q) by {
        lemma_before(data, p, q, q, n);
        if before(data, p, q, n) {
            lemma_earlier(data, p, q);
        } else {
            lemma_earlier(data, q, p);
        }
    }
    let order = Seq::new(n, |m: int| (choose|q: int| 0 <= q < n && #[trigger] f(q) == m) as u32);
    assert forall|m: int| 0 <= m < n implies #[trigger] order[m] < n && f(order[m] as int) == m by {
        let q = lemma_onto(f, n, m);
        assert(0 <= q < n && f(q) == m);
    }
    assert forall|a: int, b: int| 0 <= a < b < n implies before(
        data,
        #[trigger] order[a] as int,
        #[trigger] order[b] as int,
        n,
    ) by {
        let p = order[a] as int;
        let q = order[b] as int;
        lemma_before(data, p, q, q, n);
        assert(f(p) == a && f(q) == b);
        if !before(data, p, q, n) {
            lemma_earlier(data, q, p);
        }
    }
    assert(sorted_rows(data, order, n));
}

/// A block's rotations have only one sorted order.
pub proof fn rows_are_unique(data: Seq<u8>, a: Seq<u32>, b: Seq<u32>)
    requires
        sorted_rows(data, a, data.len()),
        sorted_rows(data, b, data.len()),
    ensures
        a == b,
{
    assert forall|m: int| 0 <= m < a.len() implies a[m] == b[m] by {
        assert(a[m] < data.len());
        let k = lemma_row_of(data, b, data.len(), a[m] as int);
        lemma_row_counts(data, a, m);
        lemma_row_counts(data, b, k);
    }
    assert(a =~= b);
}

// Sorting by doubling.

/// `rank` numbers the rotations by their first `k` bytes, the same number
/// for the same bytes.
spec fn ranked(data: Seq<u8>, rank: Seq<u32>, k: nat) -> bool {
    &&& rank.len() == data.len()
    &&& forall|i: int| 0 <= i < rank.len() ==> #[trigger] rank[i] < data.len()
    &&& forall|i: int, j: int|
        0 <= i < data.len() && 0 <= j < data.len() ==> (#[trigger] rank[i] < #[trigger] rank[j]
            <==> sign(data, i, j, k) < 0)
}

proof fn lemma_ranked(data: Seq<u8>, rank: Seq<u32>, k: nat, i: int, j: int)
    requires
        ranked(data, rank, k),
        0 <= i < data.len(),
        0 <= j < data.len(),
    ensures
        rank[i] < rank[j] <==> sign(data, i, j, k) < 0,
        rank[i] == rank[j] <==> sign(data, i, j, k) == 0,
{
    lemma_sign_flip(data, i, j, k);
    assert(rank[i] < rank[j] <==> sign(data, i, j, k) < 0);
    assert(rank[j] < rank[i] <==> sign(data, j, i, k) < 0);
}

/// The ranks `k` bytes on.
spec fn turned(rank: Seq<u32>, k: nat) -> Seq<u32> {
    Seq::new(rank.len(), |i: int| rank[(i + k) % rank.len() as int])
}

/// Ranks of `k` bytes and of the next `k` tell about `2k` bytes.
proof fn lemma_pair(data: Seq<u8>, rank: Seq<u32>, k: nat, i: int, j: int)
    requires
        data.len() > 0,
        ranked(data, rank, k),
        0 <= i < data.len(),
        0 <= j < data.len(),
    ensures
        sign(data, i, j, 2 * k) < 0 <==> rank[i] < rank[j] || (rank[i] == rank[j] && turned(
            rank,
            k,
        )[i] < turned(rank, k)[j]),
        sign(data, i, j, 2 * k) == 0 <==> rank[i] == rank[j] && turned(rank, k)[i] == turned(
            rank,
            k,
        )[j],
{
    let n = data.len() as int;
    assert(0 <= (i + k) % n < n && 0 <= (j + k) % n < n);
    lemma_ranked(data, rank, k, i, j);
    lemma_ranked(data, rank, k, (i + k) % n, (j + k) % n);
    lemma_sign_mod(data, i + k, j + k, k);
    lemma_sign_concat(data, i, j, k, k);
    assert(k + k == 2 * k);
}

/// One round of doubling: sorting by the second half, then by the first.
proof fn lemma_doubled(
    data: Seq<u8>,
    rank: Seq<u32>,
    k: nat,
    order: Seq<u32>,
    halfway: Seq<u32>,
    out: Seq<u32>,
)
    requires
        data.len() > 0,
        ranked(data, rank, k),
        sorted_rows(data, order, k),
        is_sorted_by(halfway, order, keys_of(order, turned(rank, k))),
        is_sorted_by(out, halfway, keys_of(halfway, rank)),
    ensures
        sorted_rows(data, out, 2 * k),
{
    let k1 = keys_of(order, turned(rank, k));
    let k2 = keys_of(halfway, rank);
    assert forall|a: int| 0 <= a < out.len() implies #[trigger] out[a] < data.len() by {
        let j = lemma_place_onto(k2, a);
        let i = lemma_place_onto(k1, j);
        assert(out[place(k2, j) as int] == halfway[j]);
        assert(halfway[place(k1, i) as int] == order[i]);
        assert(order[i] < data.len());
    }
    assert forall|a: int, b: int| 0 <= a < b < out.len() implies before(
        data,
        #[trigger] out[a] as int,
        #[trigger] out[b] as int,
        2 * k,
    ) by {
        let ja = lemma_place_onto(k2, a);
        let jb = lemma_place_onto(k2, b);
        let ia = lemma_place_onto(k1, ja);
        let ib = lemma_place_onto(k1, jb);
        let x = out[a] as int;
        let y = out[b] as int;
        assert(out[place(k2, ja) as int] == halfway[ja]);
        assert(out[place(k2, jb) as int] == halfway[jb]);
        assert(halfway[place(k1, ia) as int] == order[ia]);
        assert(halfway[place(k1, ib) as int] == order[ib]);
        lemma_place_order(k2, ja, jb);
        lemma_place_order(k1, ia, ib);
        assert(order[ia] < data.len() && order[ib] < data.len());
        lemma_pair(data, rank, k, x, y);
        lemma_ranked(data, rank, k, x, y);
        if ia < ib {
            assert(before(data, order[ia] as int, order[ib] as int, k));
        }
    }
}

/// The sort of all positions by their byte.
proof fn lemma_first_round(data: Seq<u8>, all: Seq<u32>, bytes: Seq<u32>, out: Seq<u32>)
    requires
        data.len() > 0,
        all.len() == data.len(),
        bytes.len() == data.len(),
        forall|i: int| 0 <= i < all.len() ==> #[trigger] all[i] == i,
        forall|i: int| 0 <= i < bytes.len() ==> #[trigger] bytes[i] == data[i],
        is_sorted_by(out, all, keys_of(all, bytes)),
    ensures
        sorted_rows(data, out, 1),
{
    let ks = keys_of(all, bytes);
    reveal_with_fuel(sign, 2);
    assert forall|a: int| 0 <= a < out.len() implies #[trigger] out[a] < data.len() by {
        let j = lemma_place_onto(ks, a);
        assert(out[place(ks, j) as int] == all[j]);
    }
    assert forall|a: int, b: int| 0 <= a < b < out.len() implies before(
        data,
        #[trigger] out[a] as int,
        #[trigger] out[b] as int,
        1,
    ) by {
        let ja = lemma_place_onto(ks, a);
        let jb = lemma_place_onto(ks, b);
        assert(out[place(ks, ja) as int] == all[ja]);
        assert(out[place(ks, jb) as int] == all[jb]);
        lemma_place_order(ks, ja, jb);
        lemma_small_mod(ja as nat, data.len());
        lemma_small_mod(jb as nat, data.len());
    }
}

/// Number the sorted rows, the same number for rows whose two keys are the
/// same.
fn rank_rows(
    order: &[u32],
    first: &[u32],
    second: &[u32],
    Ghost(data): Ghost<Seq<u8>>,
    Ghost(k): Ghost<nat>,
) -> (rank: Vec<u32>)
    requires
        0 < data.len() <= u32::MAX,
        sorted_rows(data, order@, k),
        first@.len() == data.len(),
        second@.len() == data.len(),
        forall|i: int, j: int|
            0 <= i < data.len() && 0 <= j < data.len() ==> (#[trigger] first@[i]
                == #[trigger] first@[j] && second@[i] == second@[j] <==> sign(data, i, j, k) == 0),
    ensures
        ranked(data, rank@, k),
        rank@[order@[data.len() - 1] as int] == data.len() - 1 ==> forall|i: int, j: int|
            0 <= i < data.len() && 0 <= j < data.len() && i != j ==> #[trigger] sign(data, i, j, k)
                != 0,
{
    let n: usize = order.len();
    let ghost ord = order@;
    let mut rank: Vec<u32> = vec![0;n];
    let mut m: usize = 1;
    proof {
        lemma_sign_flip(data, ord[0] as int, ord[0] as int, k);
    }
    while m < n
        invariant
            n == data.len(),
            0 < n <= u32::MAX,
            ord == order@,
            sorted_rows(data, ord, k),
            first@.len() == n,
            second@.len() == n,
            rank@.len() == n,
            1 <= m <= n,
            forall|i: int, j: int|
                0 <= i < n && 0 <= j < n ==> (#[trigger] first@[i] == #[trigger] first@[j]
                    && second@[i] == second@[j] <==> sign(data, i, j, k) == 0),
            forall|a: int|
                0 <= a < m ==> #[trigger] rank@[ord[a] as int] <= a,
            forall|a: int, b: int|
                0 <= a <= b < m ==> #[trigger] rank@[ord[a] as int]
                    <= #[trigger] rank@[ord[b] as int] <= rank@[ord[a] as int] + (b - a),
            forall|a: int, b: int|
                0 <= a <= b < m ==> (#[trigger] rank@[ord[a] as int]
                    == #[trigger] rank@[ord[b] as int] <==> sign(
                    data,
                    ord[a] as int,
                    ord[b] as int,
                    k,
                ) == 0),
        decreases n - m,
    {
        let prev: usize = order[m - 1] as usize;
        let cur: usize = order[m] as usize;
        let same: bool = first[prev] == first[cur] && second[prev] == second[cur];
        let ghost was = rank@;
        proof {
            assert(rank@[ord[m - 1] as int] <= m - 1);
            assert(first@[prev as int] == first@[cur as int] && second@[prev as int]
                == second@[cur as int] <==> sign(data, prev as int, cur as int, k) == 0);
        }
        rank[cur] = if same {
            rank[prev]
        } else {
            rank[prev] + 1
        };
        proof {
            assert forall|a: int| 0 <= a < m implies ord[a] != cur by {
                lemma_rows_order(data, ord, k, a, m as int);
            }
            lemma_sign_flip(data, cur as int, cur as int, k);
            assert forall|a: int| 0 <= a < m implies (was[ord[a] as int] == rank@[cur as int]
                <==> sign(data, #[trigger] ord[a] as int, cur as int, k) == 0) by {
                lemma_rows_order(data, ord, k, a, m - 1);
                lemma_rows_order(data, ord, k, m - 1, m as int);
                lemma_sign_flip(data, ord[a] as int, ord[a] as int, k);
                assert(was[ord[a] as int] <= was[ord[m - 1] as int]);
                assert(was[ord[a] as int] == was[ord[m - 1] as int] <==> sign(
                    data,
                    ord[a] as int,
                    ord[m - 1] as int,
                    k,
                ) == 0);
                lemma_sign_trans(data, ord[a] as int, prev as int, cur as int, k);
            }
        }
        m = m + 1;
    }
    proof {
        assert forall|i: int| 0 <= i < n implies #[trigger] rank@[i] < data.len() by {
            let a = lemma_row_of(data, ord, k, i);
            assert(rank@[ord[a] as int] <= a);
        }
        assert forall|i: int, j: int| 0 <= i < n && 0 <= j < n implies (#[trigger] rank@[i]
            < #[trigger] rank@[j] <==> sign(data, i, j, k) < 0) by {
            let a = lemma_row_of(data, ord, k, i);
            let b = lemma_row_of(data, ord, k, j);
            lemma_rows_order(data, ord, k, a, b);
            lemma_sign_flip(data, i, j, k);
            if a <= b {
                assert(rank@[ord[a] as int] <= rank@[ord[b] as int]);
                lemma_sign_flip(data, i, i, k);
            } else {
                assert(rank@[ord[b] as int] <= rank@[ord[a] as int]);
                lemma_rows_order(data, ord, k, b, a);
            }
        }
        if rank@[ord[n - 1] as int] == n - 1 {
            assert forall|i: int, j: int|
                0 <= i < n && 0 <= j < n && i != j implies #[trigger] sign(data, i, j, k) != 0 by {
                let a = lemma_row_of(data, ord, k, i);
                let b = lemma_row_of(data, ord, k, j);
                lemma_sign_flip(data, i, j, k);
                let lo = if a < b {
                    a
                } else {
                    b
                };
                let hi = if a < b {
                    b
                } else {
                    a
                };
                assert(rank@[ord[lo] as int] <= lo);
                assert(rank@[ord[hi] as int] <= rank@[ord[n - 1] as int] <= rank@[ord[hi] as int] + (
                n - 1 - hi));
                assert(rank@[ord[lo] as int] <= rank@[ord[hi] as int]);
            }
        }
    }
    rank
}

/// The ranks `k` bytes on.
fn turn(rank: &[u32], k: u64) -> (r: Vec<u32>)
    requires
        0 < rank@.len() <= u32::MAX,
        k < rank@.len(),
    ensures
        r@ == turned(rank@, k as nat),
{
    let n: usize = rank.len();
    let mut r: Vec<u32> = Vec::with_capacity(n);
    let mut i: usize = 0;
    while i < n
        invariant
            n == rank@.len(),
            0 < n <= u32::MAX,
            k < n,
            i <= n,
            r@.len() == i,
            forall|a: int| 0 <= a < i ==> #[trigger] r@[a] == turned(rank@, k as nat)[a],
        decreases n - i,
    {
        r.push(rank[((i as u64 + k) % n as u64) as usize]);
        i = i + 1;
    }
    assert(r@ =~= turned(rank@, k as nat));
    r
}

/// Order the rotations of `data` (given by their starting position) sort
/// before each other, cyclically. Ties (identical rotations) come out in
/// ascending order of starting position.
pub fn sorted_rotations(data: &[u8]) -> (r: Vec<u32>)
    requires
        0 < data@.len() <= u32::MAX,
    ensures
        sorted_rows(data@, r@, data@.len()),
{
    let n: usize = data.len();
    let mut all: Vec<u32> = Vec::with_capacity(n);
    let mut bytes: Vec<u32> = Vec::with_capacity(n);
    let mut i: usize = 0;
    while i < n
        invariant
            n == data@.len(),
            n <= u32::MAX,
            i <= n,
            all@.len() == i,
            bytes@.len() == i,
            forall|a: int| 0 <= a < i ==> #[trigger] all@[a] == a,
            forall|a: int| 0 <= a < i ==> #[trigger] bytes@[a] == data@[a],
        decreases n - i,
    {
        all.push(i as u32);
        bytes.push(data[i] as u32);
        i = i + 1;
    }
    let mut order = counting_sort(&all, 256, &bytes);
    proof {
        lemma_first_round(data@, all@, bytes@, order@);
        reveal_with_fuel(sign, 2);
        assert forall|i: int, j: int| 0 <= i < n && 0 <= j < n implies (#[trigger] bytes@[i]
            == #[trigger] bytes@[j] && bytes@[i] == bytes@[j] <==> sign(data@, i, j, 1) == 0) by {
            lemma_small_mod(i as nat, n as nat);
            lemma_small_mod(j as nat, n as nat);
        }
    }
    // `rank[i]`: 0-based position of the 1-byte string starting at `i`
    // among all of them, with ties (equal bytes) sharing a rank.
    let mut rank = rank_rows(&order, &bytes, &bytes, Ghost(data@), Ghost(1));

    // Double the compared length each round: `rank` describes the first
    // `k` bytes of each rotation, so `(rank[i], rank[i+k])` describes the
    // first `2k`.
    let mut k: u64 = 1;
    proof {
        if n == 1 {
            lemma_full_rows(data@, order@, 1);
        }
    }
    while k < n as u64
        invariant_except_break
            ranked(data@, rank@, k as nat),
            sorted_rows(data@, order@, k as nat),
            k >= n ==> sorted_rows(data@, order@, n as nat),
        invariant
            n == data@.len(),
            0 < n <= u32::MAX,
            1 <= k <= 2 * n,
        ensures
            sorted_rows(data@, order@, n as nat),
        decreases 2 * n - k,
    {
        let second = turn(&rank, k);
        // Stable sort by the second half, then (stably) by the first: the
        // standard two-pass trick for sorting by a pair of keys.
        proof {
            assert forall|x: int| 0 <= x < second@.len() implies #[trigger] second@[x] < n by {
                assert(0 <= (x + k) % (n as int) < n);
                assert(rank@[(x + k) % n as int] < data@.len());
            }
        }
        let halfway = counting_sort(&order, n, &second);
        proof {
            let k1 = keys_of(order@, second@);
            assert forall|j: int| 0 <= j < halfway@.len() implies #[trigger] halfway@[j] < n by {
                let i = lemma_place_onto(k1, j);
                assert(halfway@[place(k1, i) as int] == order@[i]);
            }
        }
        let sorted = counting_sort(&halfway, n, &rank);
        proof {
            lemma_doubled(data@, rank@, k as nat, order@, halfway@, sorted@);
            assert forall|i: int, j: int| 0 <= i < n && 0 <= j < n implies (#[trigger] rank@[i]
                == #[trigger] rank@[j] && second@[i] == second@[j] <==> sign(
                data@,
                i,
                j,
                2 * k as nat,
            ) == 0) by {
                lemma_pair(data@, rank@, k as nat, i, j);
            }
        }
        let next = rank_rows(&sorted, &rank, &second, Ghost(data@), Ghost(2 * k as nat));
        order = sorted;
        rank = next;
        if rank[order[n - 1] as usize] as usize == n - 1 {
            // Every rotation now has a distinct rank.
            proof {
                lemma_full_rows(data@, order@, 2 * k as nat);
            }
            break ;
        }
        k = k * 2;
        proof {
            if k >= n {
                lemma_full_rows(data@, order@, k as nat);
            }
        }
    }
    order
}

/// Once all rotations are told apart, or a full turn is compared, the rows
/// are in their final order.
proof fn lemma_full_rows(data: Seq<u8>, order: Seq<u32>, k: nat)
    requires
        data.len() > 0,
        sorted_rows(data, order, k),
        k >= data.len() || forall|i: int, j: int|
            0 <= i < data.len() && 0 <= j < data.len() && i != j ==> #[trigger] sign(data, i, j, k)
                != 0,
    ensures
        sorted_rows(data, order, data.len()),
{
    assert forall|a: int, b: int| 0 <= a < b < order.len() implies before(
        data,
        #[trigger] order[a] as int,
        #[trigger] order[b] as int,
        data.len(),
    ) by {
        let x = order[a] as int;
        let y = order[b] as int;
        lemma_rows_order(data, order, k, a, b);
        lemma_sign_full(data, x, y, k);
        assert(x < data.len() && y < data.len());
        if k < data.len() {
            assert(sign(data, x, y, k) != 0);
        }
    }
}

} // verus!
