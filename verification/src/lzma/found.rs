//! What the match finder finds.
use crate::lz77::common;
use crate::lz77::lemma_common;
use crate::lz77::repeats;
use crate::lzma::matchfinder::best_of;
use crate::lzma::matchfinder::considered;
use crate::lzma::matchfinder::found_at;
use crate::lzma::matchfinder::key;
use crate::lzma::matchfinder::latest;
use crate::lzma::matchfinder::longest;
use crate::lzma::matchfinder::short_found;
use crate::lzma::matchfinder::walked;
use crate::lzma::matchfinder::Match;
use vstd::prelude::*;

verus! {

/// The index of some bytes goes by those bytes alone, wherever they stand in
/// data of the same size; that of two bytes tells them from all others.
pub proof fn equal_bytes_share_an_index(
    data: Seq<u8>,
    a: int,
    other: Seq<u8>,
    b: int,
    width: nat,
)
    requires
        2 <= width <= 4,
        data.len() == other.len(),
    ensures
        (forall|i: int| 0 <= i < width ==> data[a + i] == #[trigger] other[b + i]) ==> key(
            data,
            width,
            a,
        ) == key(other, width, b),
        key(data, 2, a) == key(other, 2, b) <==> data[a] == other[b] && data[a + 1] == other[b + 1],
{
    reveal(key);
    if forall|i: int| 0 <= i < width ==> data[a + i] == #[trigger] other[b + i] {
        assert(data[a + 0] == other[b + 0]);
        assert(data[a + 1] == other[b + 1]);
        if width >= 3 {
            assert(data[a + 2] == other[b + 2]);
        }
        if width >= 4 {
            assert(data[a + 3] == other[b + 3]);
        }
    }
}

/// How many of the positions from `from` up to `to` share the index `k`.
pub open spec fn sharing(data: Seq<u8>, width: nat, k: nat, from: int, to: int) -> nat
    decreases to - from,
{
    if from >= to {
        0
    } else {
        sharing(data, width, k, from, to - 1) + if key(data, width, to - 1) == k {
            1nat
        } else {
            0nat
        }
    }
}

/// `len` bytes at `pos` repeat those at `c`, within the window and what the
/// format can express.
pub open spec fn repeat_at(data: Seq<u8>, window: nat, pos: int, c: int, len: int) -> bool {
    &&& 0 <= c < pos
    &&& pos - c <= window
    &&& 2 <= len <= 273
    &&& repeats(data, pos, pos - c, len)
}

proof fn lemma_latest_sharing(data: Seq<u8>, width: nat, k: nat, c: nat, end: nat)
    requires
        c < end,
        key(data, width, c as int) == k,
    ensures
        c < latest(data, width, k, end) <= end,
        key(data, width, latest(data, width, k, end) - 1) == k,
        sharing(data, width, k, c as int + 1, end as int) == sharing(
            data,
            width,
            k,
            c as int + 1,
            latest(data, width, k, end) as int,
        ),
    decreases end,
{
    if key(data, width, end - 1) != k {
        lemma_latest_sharing(data, width, k, c, (end - 1) as nat);
    }
}

proof fn lemma_none_sharing(data: Seq<u8>, width: nat, k: nat, c: nat, end: nat)
    requires
        c < end,
        key(data, width, c as int) == k,
        sharing(data, width, k, c as int + 1, end as int) == 0,
    ensures
        latest(data, width, k, end) == c + 1,
    decreases end,
{
    if c + 1 < end {
        if key(data, width, end - 1) == k {
            assert(sharing(data, width, k, c as int + 1, end as int) >= 1);
        }
        lemma_none_sharing(data, width, k, c, (end - 1) as nat);
    }
}

proof fn lemma_same_key(data: Seq<u8>, pos: int, c: int, len: int, width: nat)
    requires
        repeats(data, pos, pos - c, len),
        2 <= width <= 4,
        width <= len,
    ensures
        key(data, width, pos) == key(data, width, c),
{
    let d = pos - c;
    assert forall|i: int| 0 <= i < width implies data[pos + i] == #[trigger] data[c + i] by {
        assert(data[pos + i] == data[pos + i - d]);
    }
    equal_bytes_share_an_index(data, pos, data, c, width);
}

proof fn lemma_common_least(data: Seq<u8>, c: int, pos: int, limit: nat, len: int)
    requires
        repeats(data, pos, pos - c, len),
        len <= limit,
    ensures
        common(data, c, pos, limit) >= len,
{
    lemma_common(data, c, pos, limit);
    let k = common(data, c, pos, limit);
    if k < len {
        assert(data[pos + k] == data[pos + k - (pos - c)]);
    }
}

proof fn lemma_considered_grows(
    data: Seq<u8>,
    window: nat,
    pos: nat,
    candidate: nat,
    found: Seq<Match>,
)
    ensures
        best_of(considered(data, window, pos, candidate, found)) >= best_of(found),
        ({
            let l = common(data, candidate - 1, pos as int, longest(data, pos));
            pos - (candidate - 1) <= window ==> best_of(
                considered(data, window, pos, candidate, found),
            ) >= l
        }),
{
    lemma_common(data, candidate - 1, pos as int, longest(data, pos));
}

proof fn lemma_walked_grows(
    data: Seq<u8>,
    window: nat,
    nice_len: nat,
    pos: nat,
    candidate: nat,
    depth: nat,
    found: Seq<Match>,
)
    ensures
        best_of(walked(data, window, nice_len, pos, candidate, depth, found)) >= best_of(found),
    decreases depth,
{
    if depth == 0 || candidate == 0 || best_of(found) >= nice_len || best_of(found) == longest(
        data,
        pos,
    ) || pos + 1 > candidate + window {
    } else {
        lemma_considered_grows(data, window, pos, candidate, found);
        lemma_walked_grows(
            data,
            window,
            nice_len,
            pos,
            latest(data, 4, key(data, 4, candidate - 1), (candidate - 1) as nat),
            (depth - 1) as nat,
            considered(data, window, pos, candidate, found),
        );
    }
}

proof fn lemma_walk_finds(
    data: Seq<u8>,
    window: nat,
    nice_len: nat,
    pos: nat,
    candidate: nat,
    depth: nat,
    found: Seq<Match>,
    c: nat,
    len: nat,
)
    requires
        c < candidate <= pos,
        repeat_at(data, window, pos as int, c as int, len as int),
        key(data, 4, candidate - 1) == key(data, 4, c as int),
        sharing(data, 4, key(data, 4, c as int), c as int + 1, candidate as int) < depth,
    ensures
        ({
            let best = best_of(walked(data, window, nice_len, pos, candidate, depth, found));
            best >= len || best >= nice_len
        }),
    decreases depth,
{
    if best_of(found) >= nice_len || best_of(found) == longest(data, pos) {
    } else {
        let q = (candidate - 1) as nat;
        let k = key(data, 4, c as int);
        let next = considered(data, window, pos, candidate, found);
        lemma_considered_grows(data, window, pos, candidate, found);
        if q == c {
            lemma_common_least(data, c as int, pos as int, longest(data, pos), len as int);
            lemma_walked_grows(
                data,
                window,
                nice_len,
                pos,
                latest(data, 4, k, q),
                (depth - 1) as nat,
                next,
            );
        } else {
            lemma_latest_sharing(data, 4, k, c, q);
            lemma_walk_finds(
                data,
                window,
                nice_len,
                pos,
                latest(data, 4, k, q),
                (depth - 1) as nat,
                next,
                c,
                len,
            );
        }
    }
}

/// A repeat of four or more bytes in the window is found if fewer than
/// `depth` positions in between share its index: the longest match reported
/// is at least as long, or at least `nice_len`.
pub proof fn repeats_are_found(
    data: Seq<u8>,
    window: nat,
    depth: nat,
    nice_len: nat,
    pos: nat,
    c: nat,
    len: nat,
)
    requires
        repeat_at(data, window, pos as int, c as int, len as int),
        len >= 4,
        sharing(data, 4, key(data, 4, pos as int), c as int + 1, pos as int) < depth,
    ensures
        ({
            let best = best_of(found_at(data, window, depth, nice_len, pos));
            best >= len || best >= nice_len
        }),
{
    reveal(found_at);
    lemma_same_key(data, pos as int, c as int, len as int, 4);
    let k = key(data, 4, pos as int);
    lemma_latest_sharing(data, 4, k, c, pos);
    let found = short_found(data, window, pos);
    if best_of(found) < nice_len {
        lemma_walk_finds(
            data,
            window,
            nice_len,
            pos,
            latest(data, 4, k, pos),
            depth,
            found,
            c,
            len,
        );
    }
}

/// A repeat at the last position with the same two bytes, or at the last
/// with the same index of three, is always found.
pub proof fn last_repeats_are_found(
    data: Seq<u8>,
    window: nat,
    depth: nat,
    nice_len: nat,
    pos: nat,
    c: nat,
    len: nat,
    width: nat,
)
    requires
        repeat_at(data, window, pos as int, c as int, len as int),
        width == 2 || width == 3,
        len >= width,
        sharing(data, width, key(data, width, pos as int), c as int + 1, pos as int) == 0,
    ensures
        best_of(found_at(data, window, depth, nice_len, pos)) >= len,
{
    reveal(found_at);
    lemma_same_key(data, pos as int, c as int, len as int, width);
    let k = key(data, width, pos as int);
    lemma_none_sharing(data, width, k, c, pos);
    lemma_common_least(data, c as int, pos as int, longest(data, pos), len as int);
    let none = Seq::<Match>::empty();
    let c2 = latest(data, 2, key(data, 2, pos as int), pos);
    let f2 = if c2 != 0 {
        considered(data, window, pos, c2, none)
    } else {
        none
    };
    let c3 = latest(data, 3, key(data, 3, pos as int), pos);
    lemma_considered_grows(data, window, pos, c2, none);
    lemma_considered_grows(data, window, pos, c3, f2);
    assert(best_of(short_found(data, window, pos)) >= len);
    lemma_walked_grows(
        data,
        window,
        nice_len,
        pos,
        latest(data, 4, key(data, 4, pos as int), pos),
        depth,
        short_found(data, window, pos),
    );
}

} // verus!
