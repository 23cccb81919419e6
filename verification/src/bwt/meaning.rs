//! What the transform, the ranks and the runs are, stated of the data itself.
use crate::bits::gamma_bits;
use crate::bwt::column;
use crate::bwt::mtf;
use crate::bwt::pipeline::block_bytes;
use crate::bwt::pipeline::blocks_bytes;
use crate::bwt::pipeline::lemma_zero_run;
use crate::bwt::pipeline::runs_bits;
use crate::bwt::pipeline::tokens_of;
use crate::bwt::pipeline::zero_run;
use crate::bwt::primary;
use crate::bwt::rotations::at;
use crate::bwt::rotations::before;
use crate::bwt::rotations::lemma_row_of;
use crate::bwt::rotations::lemma_rows_order;
use crate::bwt::rotations::rows_exist;
use crate::bwt::rotations::sign;
use crate::bwt::rotations::sorted_rows;
use crate::bwt::rows;
use crate::bits::gamma_roundtrip;
use crate::bwt::pipeline::joined;
use crate::bwt::pipeline::take_head;
use crate::bwt::pipeline::Head;
use crate::bwt::restored;
use crate::codecs::packbits::repeated;
use crate::error::Error;
use vstd::prelude::*;

verus! {

/// The data turned so that it starts at `i`.
pub open spec fn turned(data: Seq<u8>, i: int) -> Seq<u8> {
    data.skip(i) + data.take(i)
}

/// `a` comes before `b` in the order of byte strings: they are the same up to
/// some place, and there `a` has the smaller byte.
pub open spec fn sorts_before(a: Seq<u8>, b: Seq<u8>) -> bool {
    exists|k: int| 0 <= k < a.len() && k < b.len() && a.take(k) == b.take(k) && #[trigger] a[k] < b[k]
}

/// `order` sorts the rotations of `data`; equal ones stay in order.
pub open spec fn sorts_rotations(data: Seq<u8>, order: Seq<u32>) -> bool {
    &&& order.len() == data.len()
    &&& order.no_duplicates()
    &&& forall|a: int| 0 <= a < order.len() ==> #[trigger] order[a] < data.len()
    &&& forall|a: int, b: int|
        0 <= a < b < order.len() ==> {
            let x = turned(data, #[trigger] order[a] as int);
            let y = turned(data, #[trigger] order[b] as int);
            sorts_before(x, y) || (x == y && order[a] < order[b])
        }
}

proof fn lemma_turned(data: Seq<u8>, i: int, t: int)
    requires
        0 <= i < data.len(),
        0 <= t < data.len(),
    ensures
        turned(data, i)[t] == at(data, i + t),
        turned(data, i).len() == data.len(),
{
    let n = data.len() as int;
    if i + t < n {
        vstd::arithmetic::div_mod::lemma_small_mod((i + t) as nat, n as nat);
    } else {
        vstd::arithmetic::div_mod::lemma_mod_add_multiples_vanish(i + t - n, n);
        vstd::arithmetic::div_mod::lemma_small_mod((i + t - n) as nat, n as nat);
    }
}

/// Where two rotations first differ, if they do.
proof fn lemma_sign_is(data: Seq<u8>, i: int, j: int, k: nat) -> (m: int)
    ensures
        0 <= m <= k,
        forall|t: int| 0 <= t < m ==> #[trigger] at(data, i + t) == at(data, j + t),
        m < k ==> at(data, i + m) != at(data, j + m),
        m < k ==> (sign(data, i, j, k) < 0 <==> at(data, i + m) < at(data, j + m)),
        m == k ==> sign(data, i, j, k) == 0,
        m < k ==> sign(data, i, j, k) != 0,
    decreases k,
{
    if k == 0 || at(data, i) != at(data, j) {
        0
    } else {
        let m = lemma_sign_is(data, i + 1, j + 1, (k - 1) as nat);
        assert forall|t: int| 0 <= t < m + 1 implies #[trigger] at(data, i + t) == at(
            data,
            j + t,
        ) by {
            if t > 0 {
                assert(at(data, (i + 1) + (t - 1)) == at(data, (j + 1) + (t - 1)));
            }
        }
        m + 1
    }
}

proof fn lemma_before_is(data: Seq<u8>, i: int, j: int)
    requires
        0 <= i < data.len(),
        0 <= j < data.len(),
        before(data, i, j, data.len()),
    ensures
        ({
            let x = turned(data, i);
            let y = turned(data, j);
            sorts_before(x, y) || (x == y && i < j)
        }),
{
    let n = data.len();
    let x = turned(data, i);
    let y = turned(data, j);
    let m = lemma_sign_is(data, i, j, n);
    assert forall|t: int| 0 <= t < m && t < n implies x[t] == y[t] by {
        lemma_turned(data, i, t);
        lemma_turned(data, j, t);
        assert(at(data, i + t) == at(data, j + t));
    }
    if m < n {
        lemma_turned(data, i, m);
        lemma_turned(data, j, m);
        assert(x.take(m) =~= y.take(m));
        assert(x[m] < y[m]);
    } else {
        assert(x =~= y);
    }
}

/// The transform: the last bytes of all rotations in sorted order, and the
/// row in which the data itself stands.
pub proof fn columns_are_sorted(data: Seq<u8>)
    requires
        0 < data.len() <= u32::MAX,
    ensures
        exists|order: Seq<u32>| #[trigger]
            sorts_rotations(data, order) && column(data).len() == data.len() && (forall|k: int|
                0 <= k < data.len() ==> #[trigger] column(data)[k] == turned(
                    data,
                    order[k] as int,
                ).last()) && primary(data) < data.len() && order[primary(data) as int] == 0,
{
    let n = data.len() as int;
    if n == 1 {
        let order = seq![0u32];
        assert(turned(data, 0) =~= data);
        assert(sorts_rotations(data, order));
    } else {
        rows_exist(data);
        let order = rows(data);
        assert(sorted_rows(data, order, data.len()));
        assert forall|a: int, b: int| 0 <= a < b < order.len() implies {
            let x = turned(data, #[trigger] order[a] as int);
            let y = turned(data, #[trigger] order[b] as int);
            sorts_before(x, y) || (x == y && order[a] < order[b])
        } by {
            lemma_before_is(data, order[a] as int, order[b] as int);
        }
        assert forall|a: int, b: int| 0 <= a < order.len() && 0 <= b < order.len() && a != b implies
            order[a] != order[b] by {
            lemma_rows_order(data, order, data.len(), a, b);
        }
        assert(sorts_rotations(data, order));
        assert forall|k: int| 0 <= k < n implies #[trigger] column(data)[k] == turned(
            data,
            order[k] as int,
        ).last() by {
            let i = order[k] as int;
            lemma_turned(data, i, n - 1);
        }
        let m = lemma_row_of(data, order, data.len(), 0);
        assert(rows(data)[m as nat as int] == 0);
    }
}

/// The rank of a byte is its place in the table, from which it then moves to
/// the front; the bytes that stood before it move back by one, and all others
/// stay. So it is for every byte, however many came before.
pub proof fn ranks_go_by_the_table(table: Seq<u8>, moved: Seq<u8>, data: Seq<u8>, r: int)
    requires
        table.len() == 256,
        moved.len() == 256,
        data.len() > 0,
        0 <= r < 256,
        table[r] == data[0],
        forall|i: int| 0 <= i < r ==> #[trigger] table[i] != data[0],
        moved[0] == data[0],
        forall|i: int| 0 < i <= r ==> #[trigger] moved[i] == table[i - 1],
        forall|i: int| r < i < 256 ==> #[trigger] moved[i] == table[i],
    ensures
        mtf::ranks(table, data) == seq![r as u8] + mtf::ranks(moved, data.skip(1)),
        mtf::bytes(table, seq![r as u8] + mtf::ranks(moved, data.skip(1))) == seq![data[0]]
            + mtf::bytes(moved, mtf::ranks(moved, data.skip(1))),
        forall|i: int| 0 <= i < 256 ==> #[trigger] mtf::fresh_table()[i] == i,
{
    lemma_rank_is(table, data[0], r);
    assert(mtf::to_front(table, r) =~= moved);
    let codes = seq![r as u8] + mtf::ranks(moved, data.skip(1));
    assert(codes.skip(1) =~= mtf::ranks(moved, data.skip(1)));
}

proof fn lemma_rank_is(table: Seq<u8>, b: u8, r: int)
    requires
        0 <= r < table.len(),
        table[r] == b,
        forall|i: int| 0 <= i < r ==> #[trigger] table[i] != b,
    ensures
        mtf::rank_of(table, b) == r,
    decreases r,
{
    if r > 0 {
        assert(table[0] != b);
        let more = table.skip(1);
        assert forall|i: int| 0 <= i < r - 1 implies #[trigger] more[i] != b by {
            assert(more[i] == table[i + 1]);
        }
        lemma_rank_is(more, b, r - 1);
    }
}

/// Runs of zero ranks are taken whole: `n` zeros before another rank, or at
/// the end, are one token and one length; any other rank is its own token.
pub proof fn runs_are_whole(n: nat, rest: Seq<u8>)
    requires
        rest.len() > 0 ==> rest[0] != 0,
    ensures
        ({
            let ranks = Seq::new(n, |i: int| 0u8) + rest;
            &&& n > 0 ==> tokens_of(ranks) == seq![0u8] + tokens_of(rest)
            &&& n > 0 ==> runs_bits(ranks) == gamma_bits(n) + runs_bits(rest)
        }),
        rest.len() > 0 ==> tokens_of(rest) == seq![rest[0]] + tokens_of(rest.skip(1)),
        rest.len() > 0 ==> runs_bits(rest) == runs_bits(rest.skip(1)),
        rest.len() == 0 ==> tokens_of(rest).len() == 0 && runs_bits(rest).len() == 0,
{
    let ranks = Seq::new(n, |i: int| 0u8) + rest;
    lemma_run_is(n, rest);
    if n > 0 {
        lemma_zero_run(ranks);
        assert(ranks.skip(n as int) =~= rest);
    }
}

proof fn lemma_run_is(n: nat, rest: Seq<u8>)
    requires
        rest.len() > 0 ==> rest[0] != 0,
    ensures
        zero_run(Seq::new(n, |i: int| 0u8) + rest) == n,
    decreases n,
{
    let ranks = Seq::new(n, |i: int| 0u8) + rest;
    if n > 0 {
        let m = (n - 1) as nat;
        lemma_run_is(m, rest);
        assert(ranks.skip(1) =~= Seq::new(m, |i: int| 0u8) + rest);
    } else if rest.len() > 0 {
        assert(ranks[0] == rest[0]);
    }
}

/// Data is cut into blocks of 900000 bytes, each coded on its own.
pub proof fn blocks_are_whole(block: Seq<u8>, rest: Seq<u8>)
    requires
        0 < block.len() <= 900_000,
        rest.len() > 0 ==> block.len() == 900_000,
    ensures
        blocks_bytes(block + rest) == block_bytes(block) + blocks_bytes(rest),
        blocks_bytes(Seq::empty()) == Seq::<u8>::empty(),
{
    let all = block + rest;
    let n = block.len() as int;
    assert(all.take(n) =~= block);
    assert(all.skip(n) =~= rest);
}

/// A token other than 0 is one rank and the token 0 a run of ranks 0, of the
/// length that stands next; neither may reach beyond the block, and all of
/// them must fill it.
pub proof fn runs_are_checked(
    b: u8,
    run: nat,
    more: Seq<u8>,
    rest: Seq<bool>,
    out: Seq<u8>,
    n: nat,
)
    requires
        b != 0,
        1 <= run <= u64::MAX,
    ensures
        joined(seq![0u8] + more, gamma_bits(run) + rest, out, n) == if out.len() + run > n {
            Err::<Seq<u8>, Error>(Error::Corrupt("BWT run length invalid or overruns the block"))
        } else {
            joined(more, rest, out + Seq::new(run, |i: int| 0u8), n)
        },
        joined(seq![b] + more, rest, out, n) == if out.len() >= n {
            Err::<Seq<u8>, Error>(Error::Corrupt("BWT token stream overruns the block"))
        } else {
            joined(more, rest, out + seq![b], n)
        },
        joined(Seq::empty(), rest, out, n) == if out.len() == n {
            Ok::<Seq<u8>, Error>(out)
        } else {
            Err(Error::Corrupt("BWT block decoded to the wrong length"))
        },
{
    gamma_roundtrip(run, rest);
    assert((seq![0u8] + more).skip(1) =~= more);
    assert((seq![b] + more).skip(1) =~= more);
    assert(repeated(0, run) =~= Seq::new(run, |i: int| 0u8));
    assert(out.push(b) =~= out + seq![b]);
}

/// A row that the column does not have is refused, as is a block without
/// bytes or with more than are left.
pub proof fn bad_sizes_are_refused(
    l: Seq<u8>,
    row: nat,
    n: nat,
    remaining: nat,
    rest: Seq<bool>,
)
    requires
        row < u64::MAX,
        n < usize::MAX,
    ensures
        l.len() > 0 && row >= l.len() ==> restored(l, row) == Err::<Seq<u8>, Error>(
            Error::Corrupt("BWT primary index out of range"),
        ),
        n == 0 || n > remaining ==> take_head(
            gamma_bits(row + 1) + (gamma_bits(n + 1) + rest),
            remaining,
        ) == Err::<(Head, Seq<bool>), Error>(
            Error::Corrupt("BWT block length invalid or larger than allowed"),
        ),
{
    gamma_roundtrip(row + 1, gamma_bits(n + 1) + rest);
    gamma_roundtrip(n + 1, rest);
    reveal(take_head);
}

} // verus!
