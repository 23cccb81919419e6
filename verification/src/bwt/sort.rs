//! Stable counting sort, and where it puts each item.
use vstd::prelude::*;
use vstd::set_lib::lemma_int_range;
use vstd::set_lib::lemma_len_subset;
use vstd::set_lib::lemma_map_size;
use vstd::set_lib::lemma_subset_equality;
use vstd::set_lib::set_int_range;

verus! {

/// How many keys are below `b`.
pub open spec fn count_less(keys: Seq<u32>, b: int) -> nat
    decreases keys.len(),
{
    if keys.len() == 0 {
        0
    } else {
        count_less(keys.drop_last(), b) + if keys.last() < b {
            1nat
        } else {
            0nat
        }
    }
}

/// How many keys are `b`.
pub open spec fn count_eq(keys: Seq<u32>, b: int) -> nat
    decreases keys.len(),
{
    if keys.len() == 0 {
        0
    } else {
        count_eq(keys.drop_last(), b) + if keys.last() == b {
            1nat
        } else {
            0nat
        }
    }
}

/// Where a stable sort by key puts item `j`: behind all items with smaller
/// keys and behind the earlier ones with the same key.
pub open spec fn place(keys: Seq<u32>, j: int) -> nat {
    count_less(keys, keys[j] as int) + count_eq(keys.take(j), keys[j] as int)
}

/// `out` is `source`, sorted stably by keys: `keys[j]` is the key of
/// `source[j]`.
pub open spec fn is_sorted_by(out: Seq<u32>, source: Seq<u32>, keys: Seq<u32>) -> bool {
    &&& out.len() == source.len() == keys.len()
    &&& forall|j: int|
        0 <= j < source.len() ==> 0 <= #[trigger] place(keys, j) < out.len() && out[place(
            keys,
            j,
        ) as int] == source[j]
}

pub proof fn lemma_count_step(keys: Seq<u32>, b: int)
    ensures
        count_less(keys, b) + count_eq(keys, b) == count_less(keys, b + 1),
        count_less(keys, b) <= keys.len(),
    decreases keys.len(),
{
    if keys.len() > 0 {
        lemma_count_step(keys.drop_last(), b);
    }
}

pub proof fn lemma_less_mono(keys: Seq<u32>, a: int, b: int)
    requires
        a <= b,
    ensures
        count_less(keys, a) <= count_less(keys, b),
    decreases keys.len(),
{
    if keys.len() > 0 {
        lemma_less_mono(keys.drop_last(), a, b);
    }
}

pub proof fn lemma_less_none(keys: Seq<u32>)
    ensures
        count_less(keys, 0) == 0,
    decreases keys.len(),
{
    if keys.len() > 0 {
        lemma_less_none(keys.drop_last());
    }
}

pub proof fn lemma_eq_take(keys: Seq<u32>, i: int, b: int)
    requires
        0 <= i < keys.len(),
    ensures
        count_eq(keys.take(i + 1), b) == count_eq(keys.take(i), b) + if keys[i] == b {
            1nat
        } else {
            0nat
        },
{
    assert(keys.take(i + 1).drop_last() =~= keys.take(i));
}

pub proof fn lemma_eq_mono(keys: Seq<u32>, i: int, j: int, b: int)
    requires
        0 <= i <= j <= keys.len(),
    ensures
        count_eq(keys.take(i), b) <= count_eq(keys.take(j), b),
    decreases j - i,
{
    if i < j {
        lemma_eq_take(keys, j - 1, b);
        lemma_eq_mono(keys, i, j - 1, b);
    }
}

proof fn lemma_eq_last(keys: Seq<u32>, i: int)
    requires
        0 <= i < keys.len(),
    ensures
        place(keys, i) < count_less(keys, keys[i] as int + 1),
{
    lemma_eq_take(keys, i, keys[i] as int);
    lemma_eq_mono(keys, i + 1, keys.len() as int, keys[i] as int);
    assert(keys.take(keys.len() as int) =~= keys);
    lemma_count_step(keys, keys[i] as int);
}

/// Smaller keys come first, and equal keys in their order.
pub proof fn lemma_place_order(keys: Seq<u32>, i: int, j: int)
    requires
        0 <= i < keys.len(),
        0 <= j < keys.len(),
    ensures
        place(keys, i) < place(keys, j) <==> (keys[i] < keys[j] || (keys[i] == keys[j] && i < j)),
        place(keys, i) == place(keys, j) ==> i == j,
        place(keys, i) < keys.len(),
{
    lemma_place_before(keys, i, j);
    lemma_place_before(keys, j, i);
    lemma_eq_last(keys, i);
    lemma_count_step(keys, keys[i] as int + 1);
}

proof fn lemma_place_before(keys: Seq<u32>, i: int, j: int)
    requires
        0 <= i < keys.len(),
        0 <= j < keys.len(),
    ensures
        keys[i] < keys[j] || (keys[i] == keys[j] && i < j) ==> place(keys, i) < place(keys, j),
{
    if keys[i] < keys[j] {
        lemma_eq_last(keys, i);
        lemma_less_mono(keys, keys[i] as int + 1, keys[j] as int);
    } else if keys[i] == keys[j] && i < j {
        lemma_eq_take(keys, i, keys[i] as int);
        lemma_eq_mono(keys, i + 1, j, keys[i] as int);
    }
}

/// `n` different numbers below `n` are all of them.
pub proof fn lemma_onto(f: spec_fn(int) -> int, n: nat, p: int) -> (j: int)
    requires
        forall|i: int| 0 <= i < n ==> 0 <= #[trigger] f(i) < n,
        forall|i: int, j: int| 0 <= i < j < n ==> #[trigger] f(i) != #[trigger] f(j),
        0 <= p < n,
    ensures
        0 <= j < n,
        f(j) == p,
{
    let dom = set_int_range(0, n as int);
    lemma_int_range(0, n as int);
    let img = dom.map(f);
    assert(vstd::relations::injective_on(f, dom)) by {
        assert forall|x: int, y: int|
            dom.contains(x) && dom.contains(y) && #[trigger] f(x) == #[trigger] f(y) implies x
            == y by {
            if x < y {
                assert(f(x) != f(y));
            } else if y < x {
                assert(f(y) != f(x));
            }
        }
    }
    lemma_map_size(dom, img, f);
    assert(img.subset_of(dom)) by {
        assert forall|q: int| img.contains(q) implies dom.contains(q) by {
            let i = choose|i: int| dom.contains(i) && q == f(i);
            assert(0 <= f(i) < n);
        }
    }
    lemma_subset_equality(img, dom);
    assert(img.contains(p));
    choose|i: int| dom.contains(i) && p == f(i)
}

/// Every place is taken.
pub proof fn lemma_place_onto(keys: Seq<u32>, p: int) -> (j: int)
    requires
        0 <= p < keys.len(),
    ensures
        0 <= j < keys.len(),
        place(keys, j) == p,
{
    let f = |j: int| place(keys, j) as int;
    assert forall|i: int| 0 <= i < keys.len() implies 0 <= #[trigger] f(i) < keys.len() by {
        lemma_place_order(keys, i, i);
    }
    assert forall|i: int, j: int| 0 <= i < j < keys.len() implies #[trigger] f(i) != #[trigger] f(
        j,
    ) by {
        lemma_place_order(keys, i, j);
    }
    lemma_onto(f, keys.len(), p)
}

/// The items that come before item `k`.
pub open spec fn ahead(keys: Seq<u32>, k: int) -> Set<int> {
    Set::new(
        |j: int| 0 <= j < keys.len() && (keys[j] < keys[k] || (keys[j] == keys[k] && j < k)),
    )
}

/// The place of an item is the number of items that come before it.
pub proof fn lemma_place_counts(keys: Seq<u32>, k: int)
    requires
        0 <= k < keys.len(),
    ensures
        ahead(keys, k).finite(),
        ahead(keys, k).len() == place(keys, k),
{
    let f = |j: int| place(keys, j) as int;
    let x = ahead(keys, k);
    let y = set_int_range(0, place(keys, k) as int);
    lemma_int_range(0, keys.len() as int);
    lemma_int_range(0, place(keys, k) as int);
    lemma_len_subset(x, set_int_range(0, keys.len() as int));
    assert(vstd::relations::injective_on(f, x)) by {
        assert forall|i: int, j: int|
            x.contains(i) && x.contains(j) && #[trigger] f(i) == #[trigger] f(j) implies i == j by {
            lemma_place_order(keys, i, j);
        }
    }
    lemma_place_order(keys, k, k);
    assert(x.map(f) =~= y) by {
        assert forall|p: int| x.map(f).contains(p) implies y.contains(p) by {
            let j = choose|j: int| x.contains(j) && p == f(j);
            lemma_place_order(keys, j, k);
        }
        assert forall|p: int| y.contains(p) implies x.map(f).contains(p) by {
            let j = lemma_place_onto(keys, p);
            lemma_place_order(keys, j, k);
            assert(x.contains(j) && f(j) == p);
        }
    }
    lemma_map_size(x, y, f);
}

/// The keys of the items, in the items' order.
pub open spec fn keys_of(source: Seq<u32>, keys: Seq<u32>) -> Seq<u32> {
    Seq::new(source.len(), |j: int| keys[source[j] as int])
}

/// Where each key's items start.
fn starts(source: &[u32], buckets: usize, keys: &[u32]) -> (start: Vec<u32>)
    requires
        source@.len() <= u32::MAX,
        forall|j: int| 0 <= j < source@.len() ==> #[trigger] source@[j] < keys@.len(),
        forall|x: int| 0 <= x < keys@.len() ==> #[trigger] keys@[x] < buckets,
    ensures
        start@.len() == buckets,
        forall|b: int|
            0 <= b < buckets ==> #[trigger] start@[b] == count_less(keys_of(source@, keys@), b),
{
    let ghost ks = keys_of(source@, keys@);
    let mut start: Vec<u32> = vec![0;buckets];
    let mut j: usize = 0;
    while j < source.len()
        invariant
            j <= source@.len() <= u32::MAX,
            ks == keys_of(source@, keys@),
            forall|j: int| 0 <= j < source@.len() ==> #[trigger] source@[j] < keys@.len(),
            forall|x: int| 0 <= x < keys@.len() ==> #[trigger] keys@[x] < buckets,
            start@.len() == buckets,
            forall|b: int|
                0 <= b < buckets ==> #[trigger] start@[b] == count_eq(ks.take(j as int), b)
                    && start@[b] <= j,
        decreases source@.len() - j,
    {
        let k: usize = keys[source[j] as usize] as usize;
        proof {
            assert forall|b: int| 0 <= b < buckets implies count_eq(ks.take(j + 1), b)
                == #[trigger] start@[b] + if ks[j as int] == b {
                1int
            } else {
                0int
            } by {
                lemma_eq_take(ks, j as int, b);
            }
        }
        start[k] = start[k] + 1;
        j = j + 1;
    }
    assert(ks.take(j as int) =~= ks);
    let mut total: u32 = 0;
    let mut i: usize = 0;
    proof {
        lemma_less_none(ks);
    }
    while i < buckets
        invariant
            i <= buckets,
            ks.len() <= u32::MAX,
            start@.len() == buckets,
            total == count_less(ks, i as int),
            forall|b: int| 0 <= b < i ==> #[trigger] start@[b] == count_less(ks, b),
            forall|b: int| i <= b < buckets ==> #[trigger] start@[b] == count_eq(ks, b),
        decreases buckets - i,
    {
        proof {
            lemma_count_step(ks, i as int);
            lemma_count_step(ks, i + 1);
        }
        let n: u32 = start[i];
        start[i] = total;
        total = total + n;
        i = i + 1;
    }
    start
}

/// Stable counting sort of `source` by `keys[x]` of each item `x` (which
/// must be in `0..buckets`).
pub fn counting_sort(source: &[u32], buckets: usize, keys: &[u32]) -> (out: Vec<u32>)
    requires
        source@.len() <= u32::MAX,
        forall|j: int| 0 <= j < source@.len() ==> #[trigger] source@[j] < keys@.len(),
        forall|x: int| 0 <= x < keys@.len() ==> #[trigger] keys@[x] < buckets,
    ensures
        is_sorted_by(out@, source@, keys_of(source@, keys@)),
{
    let ghost ks = keys_of(source@, keys@);
    let mut start = starts(source, buckets, keys);
    let mut out: Vec<u32> = vec![0;source.len()];
    let mut j: usize = 0;
    proof {
        assert(ks.take(0) =~= Seq::<u32>::empty());
    }
    while j < source.len()
        invariant
            j <= source@.len() <= u32::MAX,
            ks == keys_of(source@, keys@),
            out@.len() == source@.len(),
            forall|j: int| 0 <= j < source@.len() ==> #[trigger] source@[j] < keys@.len(),
            forall|x: int| 0 <= x < keys@.len() ==> #[trigger] keys@[x] < buckets,
            start@.len() == buckets,
            forall|b: int|
                0 <= b < buckets ==> #[trigger] start@[b] == count_less(ks, b) + count_eq(
                    ks.take(j as int),
                    b,
                ),
            forall|i: int|
                0 <= i < j ==> 0 <= #[trigger] place(ks, i) < out@.len() && out@[place(
                    ks,
                    i,
                ) as int] == source@[i],
        decreases source@.len() - j,
    {
        let x: u32 = source[j];
        let k: usize = keys[x as usize] as usize;
        proof {
            lemma_place_order(ks, j as int, j as int);
            assert(start@[k as int] == place(ks, j as int));
            assert forall|i: int| 0 <= i < j implies place(ks, i) != #[trigger] place(
                ks,
                j as int,
            ) by {
                lemma_place_order(ks, i, j as int);
            }
            assert forall|b: int| 0 <= b < buckets implies count_eq(ks.take(j + 1), b)
                == #[trigger] start@[b] - count_less(ks, b) + if b == k {
                1int
            } else {
                0int
            } by {
                lemma_eq_take(ks, j as int, b);
            }
        }
        let ghost before = out@;
        let slot: u32 = start[k];
        out[slot as usize] = x;
        start[k] = slot + 1;
        j = j + 1;
        assert forall|i: int| 0 <= i < j implies 0 <= #[trigger] place(ks, i) < out@.len()
            && out@[place(ks, i) as int] == source@[i] by {
            lemma_place_order(ks, i, (j - 1) as int);
        }
    }
    out
}

} // verus!
