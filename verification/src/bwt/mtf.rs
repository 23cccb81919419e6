//! Move-to-front: turn "which byte" into "how long ago did we last see a
//! byte this rare".
//!
//! Keep a list of all 256 byte values, most recently used first. To encode
//! a byte, output its position in the list, then move it to the front. A
//! byte seen very recently (including "the same byte as last time", which
//! [`super`]'s sorted rotations produce long runs of) always encodes as a
//! small number; a byte that hasn't appeared in a while encodes as a large
//! one. The output says nothing about *which* bytes are common overall,
//! only about local repetition, which is exactly what an entropy coder
//! downstream can't see on its own.
//!
//! Finding a byte's position and shifting everything before it is O(256)
//! per byte here; a smarter structure (e.g. a small balanced tree) would
//! make it O(log 256), a possible later optimisation.
use vstd::prelude::*;

verus! {

/// All byte values in order.
pub open spec fn fresh_table() -> Seq<u8> {
    Seq::new(256, |i: int| i as u8)
}

/// The table with the byte at `rank` moved to the front.
pub open spec fn to_front(table: Seq<u8>, rank: int) -> Seq<u8> {
    seq![table[rank]] + table.take(rank) + table.skip(rank + 1)
}

/// The first position of `b` in the table.
pub open spec fn rank_of(table: Seq<u8>, b: u8) -> nat
    decreases table.len(),
{
    if table.len() == 0 || table[0] == b {
        0
    } else {
        1 + rank_of(table.skip(1), b)
    }
}

/// The ranks of `data`, with `table` to start with.
pub open spec fn ranks(table: Seq<u8>, data: Seq<u8>) -> Seq<u8>
    decreases data.len(),
{
    if data.len() == 0 {
        Seq::empty()
    } else {
        let r = rank_of(table, data[0]);
        seq![r as u8] + ranks(to_front(table, r as int), data.skip(1))
    }
}

/// The bytes that `ranks` stand for, with `table` to start with.
pub open spec fn bytes(table: Seq<u8>, ranks: Seq<u8>) -> Seq<u8>
    decreases ranks.len(),
{
    if ranks.len() == 0 {
        Seq::empty()
    } else {
        let r = ranks[0] as int;
        seq![table[r]] + bytes(to_front(table, r), ranks.skip(1))
    }
}

/// A table that holds every byte value.
pub open spec fn complete(table: Seq<u8>) -> bool {
    &&& table.len() == 256
    &&& forall|b: u8| #[trigger] table.contains(b)
}

/// The first table holds every byte value.
pub proof fn lemma_fresh()
    ensures
        complete(fresh_table()),
        fresh_table().no_duplicates(),
{
    assert forall|b: u8| #[trigger] fresh_table().contains(b) by {
        assert(fresh_table()[b as int] == b);
    }
}

proof fn lemma_rank(table: Seq<u8>, b: u8)
    requires
        table.contains(b),
    ensures
        rank_of(table, b) < table.len(),
        table[rank_of(table, b) as int] == b,
        forall|i: int| 0 <= i < rank_of(table, b) ==> table[i] != b,
    decreases table.len(),
{
    let i = choose|i: int| 0 <= i < table.len() && table[i] == b;
    if table[0] != b {
        assert(table.skip(1)[i - 1] == b);
        lemma_rank(table.skip(1), b);
        assert forall|i: int| 0 <= i < rank_of(table, b) implies table[i] != b by {
            if i > 0 {
                assert(table[i] == table.skip(1)[i - 1]);
            }
        }
    }
}

proof fn lemma_to_front(table: Seq<u8>, rank: int)
    requires
        complete(table),
        0 <= rank < 256,
    ensures
        complete(to_front(table, rank)),
{
    let t = to_front(table, rank);
    assert forall|b: u8| #[trigger] t.contains(b) by {
        assert(table.contains(b));
        let i = choose|i: int| 0 <= i < table.len() && table[i] == b;
        if i == rank {
            assert(t[0] == b);
        } else if i < rank {
            assert(t[i + 1] == b);
        } else {
            assert(t[i] == b);
        }
    }
}

/// Decoding the ranks gives back the data.
pub proof fn ranks_roundtrip(table: Seq<u8>, data: Seq<u8>)
    requires
        complete(table),
    ensures
        bytes(table, ranks(table, data)) == data,
        ranks(table, data).len() == data.len(),
    decreases data.len(),
{
    if data.len() > 0 {
        assert(table.contains(data[0]));
        lemma_rank(table, data[0]);
        let r = rank_of(table, data[0]) as int;
        lemma_to_front(table, r);
        ranks_roundtrip(to_front(table, r), data.skip(1));
        let all = ranks(table, data);
        assert(all.skip(1) =~= ranks(to_front(table, r), data.skip(1)));
        assert(data =~= seq![data[0]] + data.skip(1));
    }
}

proof fn lemma_rank_at(table: Seq<u8>, r: int)
    requires
        table.no_duplicates(),
        0 <= r < table.len(),
    ensures
        rank_of(table, table[r]) == r,
{
    assert(table.contains(table[r]));
    lemma_rank(table, table[r]);
}

proof fn lemma_front_distinct(table: Seq<u8>, rank: int)
    requires
        table.no_duplicates(),
        0 <= rank < table.len(),
    ensures
        to_front(table, rank).no_duplicates(),
{
    let t = to_front(table, rank);
    assert forall|i: int, j: int| 0 <= i < t.len() && 0 <= j < t.len() && i != j implies t[i]
        != t[j] by {
        let a = if i == 0 {
            rank
        } else if i <= rank {
            i - 1
        } else {
            i
        };
        let b = if j == 0 {
            rank
        } else if j <= rank {
            j - 1
        } else {
            j
        };
        assert(t[i] == table[a] && t[j] == table[b] && a != b);
    }
}

/// The data that ranks stand for has those ranks.
pub proof fn bytes_roundtrip(table: Seq<u8>, codes: Seq<u8>)
    requires
        table.len() == 256,
        table.no_duplicates(),
    ensures
        ranks(table, bytes(table, codes)) == codes,
        bytes(table, codes).len() == codes.len(),
    decreases codes.len(),
{
    if codes.len() > 0 {
        let r = codes[0] as int;
        let next = to_front(table, r);
        lemma_rank_at(table, r);
        lemma_front_distinct(table, r);
        bytes_roundtrip(next, codes.skip(1));
        let all = bytes(table, codes);
        assert(all.skip(1) =~= bytes(next, codes.skip(1)));
        assert(codes =~= seq![codes[0]] + codes.skip(1));
    }
}

/// The same byte again always has rank 0.
pub proof fn repeats_have_rank_zero(table: Seq<u8>, data: Seq<u8>, i: int)
    requires
        complete(table),
        0 < i < data.len(),
        data[i] == data[i - 1],
    ensures
        ranks(table, data).len() == data.len(),
        ranks(table, data)[i] == 0,
    decreases data.len(),
{
    assert(table.contains(data[0]));
    lemma_rank(table, data[0]);
    let r = rank_of(table, data[0]) as int;
    let next = to_front(table, r);
    lemma_to_front(table, r);
    ranks_roundtrip(table, data);
    ranks_roundtrip(next, data.skip(1));
    let rest = data.skip(1);
    assert(ranks(table, data)[i] == ranks(next, rest)[i - 1]);
    if i == 1 {
        assert(next[0] == rest[0]);
    } else {
        repeats_have_rank_zero(next, rest, i - 1);
    }
}

fn start_table() -> (r: Vec<u8>)
    ensures
        r@ == fresh_table(),
{
    let mut table: Vec<u8> = Vec::with_capacity(256);
    let mut i: usize = 0;
    while i < 256
        invariant
            i <= 256,
            table@ == fresh_table().take(i as int),
        decreases 256 - i,
    {
        table.push(i as u8);
        i = i + 1;
        assert(table@ =~= fresh_table().take(i as int));
    }
    assert(fresh_table().take(256) =~= fresh_table());
    table
}

/// Move the byte at `rank` to the front.
fn move_to_front(table: &mut Vec<u8>, rank: usize)
    requires
        rank < old(table)@.len(),
    ensures
        final(table)@ == to_front(old(table)@, rank as int),
{
    let ghost start = table@;
    let b: u8 = table[rank];
    let mut i: usize = rank;
    while i > 0
        invariant
            i <= rank < start.len(),
            table@.len() == start.len(),
            forall|k: int| 0 <= k < i ==> #[trigger] table@[k] == start[k],
            forall|k: int| i < k <= rank ==> #[trigger] table@[k] == start[k - 1],
            forall|k: int| rank < k < start.len() ==> #[trigger] table@[k] == start[k],
        decreases i,
    {
        let x: u8 = table[i - 1];
        table[i] = x;
        i = i - 1;
    }
    table[0] = b;
    assert(table@ =~= to_front(start, rank as int));
}

/// Find a byte in the table.
fn position(table: &Vec<u8>, b: u8) -> (r: usize)
    requires
        table@.contains(b),
    ensures
        r == rank_of(table@, b),
        r < table@.len(),
{
    proof {
        lemma_rank(table@, b);
    }
    let mut i: usize = 0;
    while table[i] != b
        invariant
            i <= rank_of(table@, b) < table@.len(),
            table@.len() == table.len(),
            table@[rank_of(table@, b) as int] == b,
            forall|k: int| 0 <= k < rank_of(table@, b) ==> table@[k] != b,
        decreases table@.len() - i,
    {
        i = i + 1;
    }
    i
}

/// `data` with each byte replaced by its move-to-front rank.
pub fn encode(data: &[u8]) -> (r: Vec<u8>)
    ensures
        r@ == ranks(fresh_table(), data@),
        r@.len() == data@.len(),
        bytes(fresh_table(), r@) == data@,
{
    let mut table = start_table();
    let mut out: Vec<u8> = Vec::with_capacity(data.len());
    let mut i: usize = 0;
    let ghost target = ranks(fresh_table(), data@);
    proof {
        lemma_fresh();
        ranks_roundtrip(fresh_table(), data@);
        assert(data@.skip(0) =~= data@);
        assert(out@ + target =~= target);
    }
    while i < data.len()
        invariant
            i <= data@.len(),
            complete(table@),
            out@ + ranks(table@, data@.skip(i as int)) == target,
        decreases data@.len() - i,
    {
        let b: u8 = data[i];
        let ghost left = data@.skip(i as int);
        let ghost was = table@;
        let ghost before = out@;
        assert(table@.contains(b));
        let rank: usize = position(&table, b);
        out.push(rank as u8);
        move_to_front(&mut table, rank);
        i = i + 1;
        proof {
            lemma_to_front(was, rank as int);
            assert(left.skip(1) =~= data@.skip(i as int));
            assert(out@ + ranks(table@, data@.skip(i as int)) =~= before + ranks(was, left));
        }
    }
    assert(out@ =~= target);
    out
}

/// Inverse of [`encode`].
pub fn decode(ranks: &[u8]) -> (r: Vec<u8>)
    ensures
        r@ == bytes(fresh_table(), ranks@),
        r@.len() == ranks@.len(),
{
    let mut table = start_table();
    let mut out: Vec<u8> = Vec::with_capacity(ranks.len());
    let mut i: usize = 0;
    let ghost target = bytes(fresh_table(), ranks@);
    proof {
        assert(ranks@.skip(0) =~= ranks@);
        assert(out@ + target =~= target);
    }
    while i < ranks.len()
        invariant
            i <= ranks@.len(),
            table@.len() == 256,
            out@.len() == i,
            out@ + bytes(table@, ranks@.skip(i as int)) == target,
        decreases ranks@.len() - i,
    {
        let rank: usize = ranks[i] as usize;
        let ghost left = ranks@.skip(i as int);
        let ghost was = table@;
        let ghost before = out@;
        out.push(table[rank]);
        move_to_front(&mut table, rank);
        i = i + 1;
        proof {
            assert(left.skip(1) =~= ranks@.skip(i as int));
            assert(out@ + bytes(table@, ranks@.skip(i as int)) =~= before + bytes(was, left));
        }
    }
    assert(out@ =~= target);
    out
}

} // verus!
