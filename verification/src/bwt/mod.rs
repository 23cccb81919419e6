//! Burrows-Wheeler transform: sort every rotation of a block and keep only
//! the last column.
//!
//! Take every rotation of `"banana"`:
//!
//! ```text
//! banana   ananab   nanaba   anaban   nabana   abanan
//! ```
//!
//! Sort them:
//!
//! ```text
//! abanan
//! anaban
//! ananab
//! banana   <- row 3: where the original string starts
//! nabana
//! nanaba
//! ```
//!
//! The transform's output is just the **last column**, `"nnbaaa"`, plus
//! **which row the original string ended up in** (3). Sorting brings rows
//! with the same few bytes before some position next to each other, and
//! since English (or any structured data) is full of repeated short
//! contexts ("th" is almost always followed by the same few letters), the
//! last column ends up with long runs of the same byte far more often than
//! the input did. That doesn't compress anything by itself: [`mtf`] and the
//! [`pipeline`] built on top turn those runs into something an
//! entropy coder can exploit.
//!
//! This is the transform bzip2 is built on, but nothing here matches the
//! `.bz2` file format -- see [`pipeline`] for that
//! trade-off.
//!
//! ## Sorting without a sentinel
//!
//! Textbook descriptions add a byte smaller than everything else to the end
//! of the string, so every rotation becomes a distinct, cleanly-ordered
//! suffix. We skip it (it would cost one byte, and finding a value not
//! already in the input isn't always possible): rotations are sorted
//! directly by treating the string as cyclic, and two rotations that are
//! genuinely identical (only possible in strings like `"aaaa"`) are broken
//! by whichever started at the lower position. [`rotations::sorted_rotations`] finds
//! this order in O(n log n): first sort by 1 byte, then by the first 2
//! (reusing the 1-byte sort as each half), then 4, doubling until every
//! rotation is distinguished from the rest.
//!
//! ## Undoing it: LF-mapping
//!
//! The last column alone determines the first column too (it's the same
//! bytes, sorted), and that's enough to walk backwards through the whole
//! matrix. For each row, `LF-mapping` finds the row whose first column
//! holds the byte that comes right before this row's: the row for the
//! matrix's `c`-th occurrence of byte `L[i]` sits at `count[bytes < L[i]] +
//! c`. Starting from the row the original string was in and repeatedly
//! following that mapping reads the input back one byte at a time,
//! backwards, in O(n).

pub mod meaning;
pub mod mtf;
pub mod pipeline;
pub mod rotations;
pub mod sort;

pub use crate::bwt::pipeline::compress;
pub use crate::bwt::pipeline::decompress;
pub use crate::bwt::pipeline::BLOCK_SIZE;

use crate::bwt::rotations::at;
use crate::bwt::rotations::before;
use crate::bwt::rotations::earlier;
use crate::bwt::rotations::lemma_before;
use crate::bwt::rotations::lemma_row_counts;
use crate::bwt::rotations::lemma_row_of;
use crate::bwt::rotations::lemma_rows_order;
use crate::bwt::rotations::lemma_sign_circle;
use crate::bwt::rotations::lemma_sign_facts;
use crate::bwt::rotations::lemma_sign_turn;
use crate::bwt::rotations::rows_are_unique;
use crate::bwt::rotations::rows_exist;
use crate::bwt::rotations::sign;
use crate::bwt::rotations::sorted_rotations;
use crate::bwt::rotations::sorted_rows;
use crate::bwt::sort::ahead;
use crate::bwt::sort::count_eq;
use crate::bwt::sort::count_less;
use crate::bwt::sort::lemma_count_step;
use crate::bwt::sort::lemma_eq_take;
use crate::bwt::sort::lemma_less_none;
use crate::bwt::sort::lemma_place_counts;
use crate::bwt::sort::lemma_place_order;
use crate::bwt::sort::place;
use crate::error::same_bytes;
use crate::error::Error;
use vstd::arithmetic::div_mod::lemma_mod_add_multiples_vanish;
use vstd::arithmetic::div_mod::lemma_small_mod;
use vstd::prelude::*;
use vstd::set_lib::lemma_int_range;
use vstd::set_lib::lemma_len_subset;
use vstd::set_lib::lemma_map_size;
use vstd::set_lib::set_int_range;

verus! {

/// The rotations of `data` in sorted order, by their positions.
pub open spec fn rows(data: Seq<u8>) -> Seq<u32> {
    choose|order: Seq<u32>| sorted_rows(data, order, data.len())
}

/// The byte before each row's first: its last.
pub open spec fn last_column(data: Seq<u8>, order: Seq<u32>) -> Seq<u8> {
    Seq::new(order.len(), |k: int| at(data, order[k] + data.len() - 1))
}

/// The last column of the sorted rotations.
pub open spec fn column(data: Seq<u8>) -> Seq<u8> {
    if data.len() <= 1 {
        data
    } else {
        last_column(data, rows(data))
    }
}

/// The row that holds the original data.
pub open spec fn primary(data: Seq<u8>) -> nat {
    if data.len() <= 1 {
        0
    } else {
        choose|k: nat| k < data.len() && #[trigger] rows(data)[k as int] == 0
    }
}

/// The bytes as sort keys.
pub open spec fn byte_keys(l: Seq<u8>) -> Seq<u32> {
    Seq::new(l.len(), |i: int| l[i] as u32)
}

/// The row that a row's last byte comes first in: `l`'s `c`-th occurrence of
/// a byte is the first column's `c`-th.
pub open spec fn lf(l: Seq<u8>, row: int) -> nat {
    place(byte_keys(l), row)
}

/// The `k` bytes up to the end of a row, read backwards by going from row
/// to row.
pub open spec fn walked(l: Seq<u8>, row: int, k: nat) -> Seq<u8>
    decreases k,
{
    if k == 0 {
        Seq::empty()
    } else {
        walked(l, lf(l, row) as int, (k - 1) as nat).push(l[row])
    }
}

/// What a last column and a row number stand for. Without data the row is 0.
pub open spec fn restored(l: Seq<u8>, primary: nat) -> Result<Seq<u8>, Error> {
    if l.len() == 0 && primary == 0 {
        Ok(l)
    } else if primary >= l.len() {
        Err(Error::Corrupt("BWT primary index out of range"))
    } else {
        Ok(walked(l, primary as int, l.len()))
    }
}

proof fn lemma_turn_back(n: int, i: int)
    requires
        0 < n,
        0 <= i < n,
    ensures
        (i + n - 1) % n == if i == 0 {
            n - 1
        } else {
            i - 1
        },
        (i + 1) % n == if i == n - 1 {
            0
        } else {
            i + 1
        },
{
    if i == 0 {
        lemma_small_mod((n - 1) as nat, n as nat);
    } else {
        lemma_small_mod((i - 1) as nat, n as nat);
        lemma_mod_add_multiples_vanish(i - 1, n);
    }
    if i == n - 1 {
        vstd::arithmetic::div_mod::lemma_mod_self_0(n);
    } else {
        lemma_small_mod((i + 1) as nat, n as nat);
    }
}

/// The rotation before position `i`'s.
spec fn back(n: int, i: int) -> int {
    if i == 0 {
        n - 1
    } else {
        i - 1
    }
}

/// Turned back by one: compare the byte before, then the rotation.
proof fn lemma_back_sign(data: Seq<u8>, p: int, q: int)
    requires
        data.len() > 0,
        0 <= p < data.len(),
        0 <= q < data.len(),
    ensures
        sign(data, back(data.len() as int, p), back(data.len() as int, q), data.len()) == if at(
            data,
            p + data.len() - 1,
        ) < at(data, q + data.len() - 1) {
            -1
        } else if at(data, p + data.len() - 1) > at(data, q + data.len() - 1) {
            1
        } else {
            sign(data, p, q, data.len())
        },
        at(data, p + data.len() - 1) == data[back(data.len() as int, p)],
{
    let n = data.len() as int;
    lemma_turn_back(n, p);
    lemma_turn_back(n, q);
    let bp = back(n, p);
    let bq = back(n, q);
    lemma_turn_back(n, bp);
    lemma_turn_back(n, bq);
    lemma_small_mod(bp as nat, n as nat);
    lemma_small_mod(bq as nat, n as nat);
    lemma_small_mod(p as nat, n as nat);
    lemma_small_mod(q as nat, n as nat);
    lemma_sign_turn(data, bp, bq);
    lemma_sign_circle(data, bp + 1, bq + 1, p, q);
}

/// The rotations that do not sort behind the one at `q`, or with `strict`
/// those that sort before it, as bytes.
spec fn not_behind(data: Seq<u8>, q: int, strict: bool) -> Set<int> {
    Set::new(
        |p: int|
            0 <= p < data.len() && (sign(data, p, q, data.len()) < 0 || (!strict && sign(
                data,
                p,
                q,
                data.len(),
            ) == 0)),
    )
}

proof fn lemma_not_behind_finite(data: Seq<u8>, q: int, strict: bool)
    ensures
        not_behind(data, q, strict).finite(),
{
    lemma_int_range(0, data.len() as int);
    lemma_len_subset(not_behind(data, q, strict), set_int_range(0, data.len() as int));
}

/// The place that a row's last byte leads to, between the rotations that
/// are smaller than the one before it and those that are greater.
proof fn lemma_lf_bounds(data: Seq<u8>, order: Seq<u32>, k: int)
    requires
        data.len() > 0,
        sorted_rows(data, order, data.len()),
        0 <= k < order.len(),
    ensures
        ({
            let prev = back(data.len() as int, order[k] as int);
            let m = lf(last_column(data, order), k);
            not_behind(data, prev, true).len() <= m < not_behind(data, prev, false).len()
        }),
{
    let n = data.len() as int;
    let l = last_column(data, order);
    let keys = byte_keys(l);
    let i = order[k] as int;
    assert(order[k] < n);
    let prev = back(n, i);
    let below = not_behind(data, prev, true);
    let upto = not_behind(data, prev, false);
    lemma_not_behind_finite(data, prev, true);
    lemma_not_behind_finite(data, prev, false);
    lemma_place_counts(keys, k);
    let x = ahead(keys, k);
    let f = |j: int| back(n, order[j] as int);
    let y = x.map(f);
    assert(vstd::relations::injective_on(f, x)) by {
        assert forall|a: int, b: int|
            x.contains(a) && x.contains(b) && #[trigger] f(a) == #[trigger] f(b) implies a == b by {
            assert(order[a] < n && order[b] < n);
            lemma_rows_order(data, order, data.len(), a, b);
        }
    }
    lemma_map_size(x, y, f);
    assert(below.subset_of(y)) by {
        assert forall|p: int| below.contains(p) implies y.contains(p) by {
            let q = if p == n - 1 {
                0
            } else {
                p + 1
            };
            let j = lemma_row_of(data, order, data.len(), q);
            lemma_back_sign(data, q, i);
            lemma_back_sign(data, i, q);
            lemma_rows_order(data, order, data.len(), j, k);
            assert(x.contains(j) && f(j) == p);
        }
    }
    lemma_len_subset(below, y);
    assert(y.subset_of(upto.remove(prev))) by {
        assert forall|p: int| y.contains(p) implies upto.remove(prev).contains(p) by {
            let j = choose|j: int| x.contains(j) && p == f(j);
            let q = order[j] as int;
            assert(order[j] < n);
            lemma_back_sign(data, q, i);
            lemma_back_sign(data, i, q);
            lemma_rows_order(data, order, data.len(), j, k);
        }
    }
    lemma_len_subset(y, upto.remove(prev));
    lemma_sign_facts(data, prev, prev, prev);
    assert(upto.contains(prev));
}

/// Going by the last byte leads to a row that starts with that byte and
/// goes on as this one.
proof fn lemma_lf(data: Seq<u8>, order: Seq<u32>, k: int)
    requires
        data.len() > 0,
        sorted_rows(data, order, data.len()),
        0 <= k < order.len(),
    ensures
        lf(last_column(data, order), k) < data.len(),
        sign(
            data,
            order[lf(last_column(data, order), k) as int] as int,
            back(data.len() as int, order[k] as int),
            data.len(),
        ) == 0,
{
    let n = data.len();
    let l = last_column(data, order);
    let prev = back(n as int, order[k] as int);
    let m = lf(l, k) as int;
    lemma_place_order(byte_keys(l), k, k);
    lemma_lf_bounds(data, order, k);
    lemma_row_counts(data, order, m);
    let q = order[m] as int;
    assert(order[m] < n);
    let first = earlier(data, q);
    let below = not_behind(data, prev, true);
    let upto = not_behind(data, prev, false);
    lemma_not_behind_finite(data, prev, true);
    lemma_not_behind_finite(data, prev, false);
    if sign(data, q, prev, n) < 0 {
        assert(first.insert(q).subset_of(below)) by {
            assert forall|p: int| first.insert(q).contains(p) implies below.contains(p) by {
                lemma_sign_facts(data, p, q, prev);
            }
        }
        lemma_before(data, q, q, q, n);
        lemma_len_subset(first.insert(q), below);
    } else if sign(data, q, prev, n) > 0 {
        assert(upto.subset_of(first)) by {
            assert forall|p: int| upto.contains(p) implies first.contains(p) by {
                lemma_sign_facts(data, q, prev, prev);
                lemma_sign_facts(data, p, prev, q);
            }
        }
        lemma_len_subset(upto, first);
    }
}

/// Walking from a row that reads as the rotation at `p` gives the bytes
/// before `p`.
proof fn lemma_walk(data: Seq<u8>, order: Seq<u32>, row: int, p: int, k: nat)
    requires
        data.len() > 0,
        sorted_rows(data, order, data.len()),
        0 <= row < order.len(),
        k <= p <= data.len(),
        sign(data, order[row] as int, p, data.len()) == 0,
    ensures
        walked(last_column(data, order), row, k) == data.subrange(p - k, p),
    decreases k,
{
    let n = data.len() as int;
    let l = last_column(data, order);
    if k == 0 {
        assert(data.subrange(p, p) =~= Seq::<u8>::empty());
    } else {
        let q = order[row] as int;
        assert(order[row] < n);
        let here = if p == n {
            0
        } else {
            p
        };
        if p == n {
            vstd::arithmetic::div_mod::lemma_mod_self_0(n);
        }
        lemma_small_mod(q as nat, n as nat);
        lemma_small_mod(here as nat, n as nat);
        lemma_sign_circle(data, q, p, q, here);
        lemma_sign_facts(data, q, here, q);
        lemma_back_sign(data, q, here);
        lemma_back_sign(data, here, q);
        lemma_same_last(data, q, here);
        assert(back(n, here) == p - 1);
        assert(l[row] == data[p - 1]);
        lemma_lf(data, order, row);
        let next = lf(l, row) as int;
        lemma_sign_facts(data, order[next] as int, back(n, q), p - 1);
        lemma_walk(data, order, next, p - 1, (k - 1) as nat);
        assert(data.subrange(p - k, p) =~= data.subrange(p - 1 - (k - 1), p - 1).push(data[p - 1]));
    }
}

/// Rotations that are the same have the same last byte.
proof fn lemma_same_last(data: Seq<u8>, p: int, q: int)
    requires
        data.len() > 0,
        sign(data, p, q, data.len()) == 0,
    ensures
        at(data, p + data.len() - 1) == at(data, q + data.len() - 1),
{
    lemma_same_byte(data, p, q, data.len(), (data.len() - 1) as nat);
}

proof fn lemma_same_byte(data: Seq<u8>, p: int, q: int, k: nat, t: nat)
    requires
        sign(data, p, q, k) == 0,
        t < k,
    ensures
        at(data, p + t) == at(data, q + t),
    decreases k,
{
    if t > 0 {
        lemma_same_byte(data, p + 1, q + 1, (k - 1) as nat, (t - 1) as nat);
    }
}

/// The last column and the original's row give back the data.
pub proof fn transform_is_lossless(data: Seq<u8>)
    requires
        data.len() <= u32::MAX,
    ensures
        column(data).len() == data.len(),
        data.len() > 0 ==> primary(data) < data.len(),
        restored(column(data), primary(data)) == Ok::<Seq<u8>, Error>(data),
{
    if data.len() > 1 {
        let n = data.len();
        rows_exist(data);
        let order = rows(data);
        let m = lemma_row_of(data, order, n, 0);
        assert(rows(data)[m as nat as int] == 0);
        let p = primary(data) as int;
        lemma_small_mod(0, n);
        vstd::arithmetic::div_mod::lemma_mod_self_0(n as int);
        lemma_sign_facts(data, 0, 0, 0);
        lemma_sign_circle(data, 0, 0, 0, n as int);
        lemma_walk(data, order, p, n as int, n);
        assert(data.subrange(0, n as int) =~= data);
    } else if data.len() == 1 {
        reveal_with_fuel(walked, 2);
        assert(walked(data, 0, 1) =~= data);
    }
}

/// Where `b` stands among the keys.
spec fn places_of(keys: Seq<u32>, b: int) -> Set<int> {
    Set::new(|i: int| 0 <= i < keys.len() && keys[i] == b)
}

proof fn lemma_places(keys: Seq<u32>, b: int)
    ensures
        places_of(keys, b).finite(),
        places_of(keys, b).len() == count_eq(keys, b),
    decreases keys.len(),
{
    if keys.len() == 0 {
        assert(places_of(keys, b) =~= Set::<int>::empty());
    } else {
        let rest = keys.drop_last();
        lemma_places(rest, b);
        if keys.last() == b {
            assert(places_of(keys, b) =~= places_of(rest, b).insert(keys.len() - 1));
        } else {
            assert(places_of(keys, b) =~= places_of(rest, b));
        }
    }
}

/// The last column holds the bytes of the data, each as often.
pub proof fn column_keeps_bytes(data: Seq<u8>, b: u8)
    requires
        data.len() <= u32::MAX,
    ensures
        count_eq(byte_keys(column(data)), b as int) == count_eq(byte_keys(data), b as int),
{
    if data.len() > 1 {
        let n = data.len() as int;
        rows_exist(data);
        let order = rows(data);
        let from = byte_keys(column(data));
        let to = byte_keys(data);
        let x = places_of(from, b as int);
        let y = places_of(to, b as int);
        lemma_places(from, b as int);
        lemma_places(to, b as int);
        let f = |k: int| (order[k] + n - 1) % n;
        assert forall|k: int, m: int| #[trigger] x.contains(k) && #[trigger] x.contains(m) && f(k)
            == f(m) implies k == m by {
            lemma_turn_back(n, order[k] as int);
            lemma_turn_back(n, order[m] as int);
            assert(order[k] == order[m]);
            lemma_before(data, order[k] as int, order[m] as int, 0, data.len());
            if k < m {
                assert(before(data, order[k] as int, order[m] as int, data.len()));
            } else if m < k {
                assert(before(data, order[m] as int, order[k] as int, data.len()));
            }
        }
        assert(x.map(f) =~= y) by {
            assert forall|p: int| #[trigger] y.contains(p) implies x.map(f).contains(p) by {
                let q = if p + 1 == n {
                    0
                } else {
                    p + 1
                };
                let k = lemma_row_of(data, order, n as nat, q);
                lemma_turn_back(n, q);
                assert(x.contains(k) && f(k) == p);
            }
            assert forall|p: int| #[trigger] x.map(f).contains(p) implies y.contains(p) by {
                let k = choose|k: int| x.contains(k) && f(k) == p;
                lemma_turn_back(n, order[k] as int);
            }
        }
        lemma_map_size(x, y, f);
    }
}

/// Transform `data`, returning the last column and the row the original
/// data ended up in after sorting (`< data.len()`, or 0 for empty input).
pub fn forward(data: &[u8]) -> (r: (Vec<u8>, u32))
    requires
        data@.len() <= u32::MAX,
    ensures
        r.0@ == column(data@),
        r.1 == primary(data@),
        r.0@.len() == data@.len(),
        r.1 < data@.len() || r.1 == 0,
        restored(r.0@, r.1 as nat) == Ok::<Seq<u8>, Error>(data@),
{
    let n: usize = data.len();
    if n <= 1 {
        let mut l: Vec<u8> = Vec::new();
        l.extend_from_slice(data);
        assert(l@ =~= data@);
        proof {
            transform_is_lossless(data@);
        }
        return (l, 0);
    }
    let order = sorted_rotations(data);
    proof {
        rows_are_unique(data@, order@, rows(data@));
        let m = lemma_row_of(data@, order@, data@.len(), 0);
        assert(order@[m] == 0);
        transform_is_lossless(data@);
    }
    let mut row: usize = 0;
    while order[row] != 0
        invariant
            row < n,
            n == data@.len(),
            order@.len() == n,
            sorted_rows(data@, order@, n as nat),
            exists|m: int| row <= m < n && #[trigger] order@[m] == 0,
        decreases n - row,
    {
        row = row + 1;
    }
    proof {
        assert(rows(data@)[row as nat as int] == 0);
        lemma_rows_order(data@, order@, data@.len(), row as int, primary(data@) as int);
    }
    let mut l: Vec<u8> = Vec::with_capacity(n);
    let mut k: usize = 0;
    while k < n
        invariant
            n == data@.len(),
            2 <= n,
            order@.len() == n,
            forall|a: int| 0 <= a < order@.len() ==> #[trigger] order@[a] < n,
            k <= n,
            l@.len() == k,
            forall|a: int| 0 <= a < k ==> #[trigger] l@[a] == last_column(data@, order@)[a],
        decreases n - k,
    {
        let i: usize = order[k] as usize;
        proof {
            lemma_turn_back(n as int, i as int);
        }
        l.push(
            data[if i == 0 {
                n - 1
            } else {
                i - 1
            }],
        );
        k = k + 1;
    }
    assert(l@ =~= last_column(data@, order@));
    (l, row as u32)
}

/// Where each byte's block starts in the sorted first column.
fn byte_starts(l: &[u8]) -> (base: Vec<u32>)
    requires
        l@.len() <= u32::MAX,
    ensures
        base@.len() == 256,
        forall|b: int| 0 <= b < 256 ==> #[trigger] base@[b] == count_less(byte_keys(l@), b),
{
    let ghost ks = byte_keys(l@);
    let mut base: Vec<u32> = vec![0;256];
    let mut i: usize = 0;
    while i < l.len()
        invariant
            i <= l@.len() <= u32::MAX,
            ks == byte_keys(l@),
            base@.len() == 256,
            forall|b: int|
                0 <= b < 256 ==> #[trigger] base@[b] == count_eq(ks.take(i as int), b) && base@[b]
                    <= i,
        decreases l@.len() - i,
    {
        let c: usize = l[i] as usize;
        proof {
            assert forall|b: int| 0 <= b < 256 implies count_eq(ks.take(i + 1), b)
                == #[trigger] base@[b] + if b == c {
                1int
            } else {
                0int
            } by {
                lemma_eq_take(ks, i as int, b);
            }
        }
        base[c] = base[c] + 1;
        i = i + 1;
    }
    assert(ks.take(i as int) =~= ks);
    let mut total: u32 = 0;
    let mut b: usize = 0;
    proof {
        lemma_less_none(ks);
    }
    while b < 256
        invariant
            b <= 256,
            ks.len() <= u32::MAX,
            base@.len() == 256,
            total == count_less(ks, b as int),
            forall|a: int| 0 <= a < b ==> #[trigger] base@[a] == count_less(ks, a),
            forall|a: int| b <= a < 256 ==> #[trigger] base@[a] == count_eq(ks, a),
        decreases 256 - b,
    {
        proof {
            lemma_count_step(ks, b as int);
            lemma_count_step(ks, b + 1);
        }
        let n: u32 = base[b];
        base[b] = total;
        total = total + n;
        b = b + 1;
    }
    base
}

/// LF-mapping: row `i`'s predecessor is the row where `l[i]` occurs, in the
/// same relative order it occurs in `l`.
fn lf_mapping(l: &[u8]) -> (next: Vec<u32>)
    requires
        l@.len() <= u32::MAX,
    ensures
        next@.len() == l@.len(),
        forall|i: int| 0 <= i < l@.len() ==> #[trigger] next@[i] == lf(l@, i) && next@[i] < l@.len(),
{
    let ghost ks = byte_keys(l@);
    let mut base = byte_starts(l);
    let mut next: Vec<u32> = Vec::with_capacity(l.len());
    let mut i: usize = 0;
    assert(ks.take(0) =~= Seq::<u32>::empty());
    while i < l.len()
        invariant
            i <= l@.len() <= u32::MAX,
            ks == byte_keys(l@),
            base@.len() == 256,
            next@.len() == i,
            forall|b: int|
                0 <= b < 256 ==> #[trigger] base@[b] == count_less(ks, b) + count_eq(
                    ks.take(i as int),
                    b,
                ),
            forall|a: int| 0 <= a < i ==> #[trigger] next@[a] == lf(l@, a) && next@[a] < l@.len(),
        decreases l@.len() - i,
    {
        let c: usize = l[i] as usize;
        proof {
            lemma_place_order(ks, i as int, i as int);
            assert(base@[c as int] == place(ks, i as int));
            assert forall|b: int| 0 <= b < 256 implies count_eq(ks.take(i + 1), b)
                == #[trigger] base@[b] - count_less(ks, b) + if b == c {
                1int
            } else {
                0int
            } by {
                lemma_eq_take(ks, i as int, b);
            }
        }
        let to: u32 = base[c];
        next.push(to);
        base[c] = to + 1;
        i = i + 1;
    }
    next
}

/// Undo [`forward`]. Fails if `primary_index` is out of range for `l`.
pub fn inverse(l: &[u8], primary_index: u32) -> (r: Result<Vec<u8>, Error>)
    requires
        l@.len() <= u32::MAX,
    ensures
        same_bytes(r, restored(l@, primary_index as nat)),
        r matches Ok(out) ==> out@.len() == l@.len(),
{
    let n: usize = l.len();
    if n == 0 && primary_index == 0 {
        let out: Vec<u8> = Vec::new();
        assert(out@ =~= l@);
        return Ok(out);
    }
    if primary_index as usize >= n {
        return Err(Error::Corrupt("BWT primary index out of range"));
    }
    let next = lf_mapping(l);
    let mut out: Vec<u8> = vec![0;n];
    let mut row: usize = primary_index as usize;
    let mut left: usize = n;
    let ghost target = walked(l@, row as int, n as nat);
    assert(out@.skip(n as int) =~= Seq::<u8>::empty());
    assert(target + out@.skip(n as int) =~= target);
    while left > 0
        invariant
            n == l@.len(),
            left <= n,
            row < n,
            out@.len() == n,
            next@.len() == n,
            forall|i: int| 0 <= i < l@.len() ==> #[trigger] next@[i] == lf(l@, i) && next@[i]
                < l@.len(),
            walked(l@, row as int, left as nat) + out@.skip(left as int) == target,
        decreases left,
    {
        let ghost was = out@;
        left = left - 1;
        out[left] = l[row];
        proof {
            assert(out@.skip(left as int) =~= seq![l@[row as int]] + was.skip(left + 1));
            assert(walked(l@, lf(l@, row as int) as int, left as nat) + out@.skip(left as int)
                =~= walked(l@, row as int, (left + 1) as nat) + was.skip(left + 1));
        }
        row = next[row] as usize;
    }
    assert(out@.skip(0) =~= out@);
    assert(Seq::<u8>::empty() + out@ =~= out@);
    Ok(out)
}

} // verus!
