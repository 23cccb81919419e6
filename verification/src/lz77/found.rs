//! What the search finds: repeats in reach, the longest of them, the nearest
//! of those, and that the parse puts them to use.
use crate::lz77::best_match;
use crate::lz77::common;
use crate::lz77::copied;
use crate::lz77::expanded;
use crate::lz77::hash3;
use crate::lz77::latest;
use crate::lz77::lazy_chain;
use crate::lz77::lemma_best_match;
use crate::lz77::lemma_common;
use crate::lz77::lemma_copied_len;
use crate::lz77::lemma_latest;
use crate::lz77::level_params;
use crate::lz77::parse_from;
use crate::lz77::parsed;
use crate::lz77::pending_ok;
use crate::lz77::repeats;
use crate::lz77::search;
use crate::lz77::Params;
use crate::lz77::Token;
use vstd::prelude::*;

verus! {

/// The hash is one of 32768 and goes by the next three bytes alone, wherever
/// they stand.
pub proof fn equal_bytes_hash_alike(data: Seq<u8>, a: int, other: Seq<u8>, b: int)
    requires
        data[a] == other[b],
        data[a + 1] == other[b + 1],
        data[a + 2] == other[b + 2],
    ensures
        hash3(data, a) == hash3(other, b),
        hash3(data, a) < 32768,
{
    reveal(hash3);
}

/// The hash spreads values evenly: that of a sum is the sum of the hashes,
/// but for a carry and what is beyond 15 bits. One step changes it by 20251.
pub proof fn hashes_spread(a: Seq<u8>, b: Seq<u8>, sum: Seq<u8>)
    requires
        sum[0] * 65536 + sum[1] * 256 + sum[2] == (a[0] * 65536 + a[1] * 256 + a[2]) + (b[0] * 65536
            + b[1] * 256 + b[2]),
    ensures
        hash3(sum, 0) == (hash3(a, 0) + hash3(b, 0)) % 32768 || hash3(sum, 0) == (hash3(a, 0)
            + hash3(b, 0) + 1) % 32768,
        a[0] == 0 && a[1] == 0 && a[2] == 1 ==> hash3(a, 0) == 20251,
{
    reveal(hash3);
    let v = a[0] * 65536 + a[1] * 256 + a[2];
    let w = b[0] * 65536 + b[1] * 256 + b[2];
    let x = (v * 0x9E37_79B1) % 0x1_0000_0000;
    let y = (w * 0x9E37_79B1) % 0x1_0000_0000;
    let z = ((v + w) * 0x9E37_79B1) % 0x1_0000_0000;
    assert((v + w) * 0x9E37_79B1 == v * 0x9E37_79B1 + w * 0x9E37_79B1);
    assert(z == x + y || z == x + y - 0x1_0000_0000);
    lemma_tops(x, y, z);
}

proof fn lemma_tops(x: int, y: int, z: int)
    requires
        0 <= x < 0x1_0000_0000,
        0 <= y < 0x1_0000_0000,
        0 <= z < 0x1_0000_0000,
        z == x + y || z == x + y - 0x1_0000_0000,
    ensures
        z / 0x2_0000 == (x / 0x2_0000 + y / 0x2_0000) % 32768 || z / 0x2_0000 == (x / 0x2_0000 + y
            / 0x2_0000 + 1) % 32768,
{
}

/// How many of the positions from `from` up to `to` have the hash `h`.
pub open spec fn sharing(data: Seq<u8>, h: nat, from: int, to: int) -> nat
    decreases to - from,
{
    if from >= to {
        0
    } else {
        sharing(data, h, from, to - 1) + if hash3(data, to - 1) == h {
            1nat
        } else {
            0nat
        }
    }
}

/// `len` bytes at `pos` repeat those at `c`, at most 32768 back, and fewer
/// than `chain` positions in between share the hash.
pub open spec fn in_reach(data: Seq<u8>, pos: int, c: int, len: int, chain: int) -> bool {
    &&& 0 <= c < pos
    &&& pos - c <= 32768
    &&& 3 <= len <= 258
    &&& repeats(data, pos, pos - c, len)
    &&& sharing(data, hash3(data, pos), c + 1, pos) < chain
}

/// No position shares the hash between the latest one and the end.
proof fn lemma_latest_sharing(data: Seq<u8>, h: nat, c: nat, end: nat)
    requires
        c < end,
        hash3(data, c as int) == h,
    ensures
        c < latest(data, h, end) <= end,
        hash3(data, latest(data, h, end) - 1) == h,
        sharing(data, h, c as int + 1, end as int) == sharing(
            data,
            h,
            c as int + 1,
            latest(data, h, end) as int,
        ),
        forall|p: int| latest(data, h, end) <= p < end ==> #[trigger] hash3(data, p) != h,
    decreases end,
{
    if hash3(data, end - 1) != h {
        lemma_latest_sharing(data, h, c, (end - 1) as nat);
    }
}

/// As far as the bytes agree, so far `common` goes.
proof fn lemma_common_least(data: Seq<u8>, c: int, pos: int, limit: nat, len: int)
    requires
        repeats(data, pos, pos - c, len),
        len <= limit,
    ensures
        common(data, c, pos, limit) >= len,
{
    lemma_common(data, c, pos, limit);
    let k = common(data, c, pos, limit);
    if k < len {
        assert(data[pos + k] == data[pos + k - (pos - c)]);
    }
}

proof fn lemma_search_grows(
    data: Seq<u8>,
    pos: nat,
    candidate: nat,
    chain: nat,
    nice_len: nat,
    max_len: nat,
    best: (nat, nat),
)
    ensures
        search(data, pos, candidate, chain, nice_len, max_len, best).0 >= best.0,
        search(data, pos, candidate, chain, nice_len, max_len, best).0 > best.0 ==> candidate
            <= pos ==> search(data, pos, candidate, chain, nice_len, max_len, best).1 > 0,
        search(data, pos, candidate, chain, nice_len, max_len, best).0 == best.0 ==> search(
            data,
            pos,
            candidate,
            chain,
            nice_len,
            max_len,
            best,
        ) == best,
    decreases chain,
{
    if candidate == 0 || chain == 0 || pos + 1 > candidate + 32768 {
    } else {
        let c = (candidate - 1) as nat;
        let len = common(data, c as int, pos as int, max_len);
        lemma_latest(data, hash3(data, c as int), c);
        if !(len > best.0 && (len >= nice_len || len == max_len)) {
            lemma_search_grows(
                data,
                pos,
                latest(data, hash3(data, c as int), c),
                (chain - 1) as nat,
                nice_len,
                max_len,
                if len > best.0 {
                    (len, (pos - c) as nat)
                } else {
                    best
                },
            );
        }
    }
}

proof fn lemma_search_finds(
    data: Seq<u8>,
    pos: nat,
    candidate: nat,
    chain: nat,
    nice_len: nat,
    max_len: nat,
    best: (nat, nat),
    c: nat,
    len: nat,
)
    requires
        c < candidate <= pos,
        pos - c <= 32768,
        hash3(data, c as int) == hash3(data, candidate - 1),
        repeats(data, pos as int, pos - c, len as int),
        len <= max_len,
        sharing(data, hash3(data, c as int), c as int + 1, candidate as int) < chain,
    ensures
        ({
            let r = search(data, pos, candidate, chain, nice_len, max_len, best);
            r.0 >= len || (r.0 >= nice_len && r.1 > 0 && r.0 > best.0)
        }),
    decreases chain,
{
    let q = (candidate - 1) as nat;
    let h = hash3(data, c as int);
    let l = common(data, q as int, pos as int, max_len);
    lemma_common(data, q as int, pos as int, max_len);
    let stop = l > best.0 && (l >= nice_len || l == max_len);
    let next = if l > best.0 {
        (l, (pos - q) as nat)
    } else {
        best
    };
    if q == c {
        lemma_common_least(data, c as int, pos as int, max_len, len as int);
    }
    if !stop {
        if q == c {
            lemma_search_grows(
                data,
                pos,
                latest(data, h, q),
                (chain - 1) as nat,
                nice_len,
                max_len,
                next,
            );
        } else {
            lemma_latest_sharing(data, h, c, q);
            lemma_search_finds(
                data,
                pos,
                latest(data, h, q),
                (chain - 1) as nat,
                nice_len,
                max_len,
                next,
                c,
                len,
            );
        }
    }
}

/// A repeat in reach is found: the search returns a match that is at least
/// as long, or one of at least `nice_len`.
pub proof fn repeats_are_found(
    data: Seq<u8>,
    pos: nat,
    c: nat,
    len: nat,
    max_chain: nat,
    nice_len: nat,
    beat: nat,
)
    requires
        in_reach(data, pos as int, c as int, len as int, max_chain as int),
    ensures
        ({
            let r = best_match(data, pos, max_chain, nice_len, beat);
            r.0 >= len || (r.0 >= nice_len && r.1 > 0 && r.0 > beat)
        }),
{
    let h = hash3(data, pos as int);
    let max_len = if data.len() - pos < 258 {
        (data.len() - pos) as nat
    } else {
        258
    };
    let d = pos - c;
    assert(data[pos as int + 0] == data[pos as int + 0 - d]);
    assert(data[pos as int + 1] == data[pos as int + 1 - d]);
    assert(data[pos as int + 2] == data[pos as int + 2 - d]);
    equal_bytes_hash_alike(data, pos as int, data, c as int);
    if beat < max_len {
        lemma_latest_sharing(data, h, c, pos);
        lemma_search_finds(
            data,
            pos,
            latest(data, h, pos),
            max_chain,
            nice_len,
            max_len,
            (beat, 0),
            c,
            len,
        );
    }
}

/// A repeat within `max_chain` bytes is always found.
pub proof fn close_repeats_are_found(
    data: Seq<u8>,
    pos: nat,
    c: nat,
    len: nat,
    max_chain: nat,
    nice_len: nat,
    beat: nat,
)
    requires
        c < pos,
        pos - c <= 32768,
        pos - c <= max_chain,
        3 <= len <= 258,
        repeats(data, pos as int, pos - c, len as int),
    ensures
        ({
            let r = best_match(data, pos, max_chain, nice_len, beat);
            r.0 >= len || (r.0 >= nice_len && r.1 > 0 && r.0 > beat)
        }),
{
    lemma_sharing_most(data, hash3(data, pos as int), c as int + 1, pos as int);
    repeats_are_found(data, pos, c, len, max_chain, nice_len, beat);
}

proof fn lemma_sharing_most(data: Seq<u8>, h: nat, from: int, to: int)
    requires
        from <= to,
    ensures
        sharing(data, h, from, to) <= to - from,
    decreases to - from,
{
    if from < to {
        lemma_sharing_most(data, h, from, to - 1);
    }
}

/// Every position that shares the hash, from `from` on and nearer than the
/// match found so far, agrees in fewer bytes; all others in no more.
spec fn best_yet(data: Seq<u8>, pos: nat, max_len: nat, from: int, best: (nat, nat)) -> bool {
    forall|p: int|
        from <= p < pos && #[trigger] hash3(data, p) == hash3(data, pos as int) ==> common(
            data,
            p,
            pos as int,
            max_len,
        ) <= best.0 && (best.1 > 0 && p > pos - best.1 ==> common(data, p, pos as int, max_len)
            < best.0)
}

proof fn lemma_search_nearest(
    data: Seq<u8>,
    pos: nat,
    candidate: nat,
    chain: nat,
    nice_len: nat,
    max_len: nat,
    best: (nat, nat),
)
    requires
        candidate <= pos,
        candidate > 0 ==> hash3(data, candidate - 1) == hash3(data, pos as int),
        best_yet(data, pos, max_len, candidate as int, best),
        best.1 > 0 ==> candidate <= pos - best.1,
    ensures
        ({
            let r = search(data, pos, candidate, chain, nice_len, max_len, best);
            r.1 > 0 ==> best_yet(data, pos, max_len, pos - r.1, r)
        }),
    decreases chain,
{
    if candidate == 0 || chain == 0 || pos + 1 > candidate + 32768 {
        if best.1 > 0 {
            assert(best_yet(data, pos, max_len, pos - best.1, best));
        }
    } else {
        let h = hash3(data, pos as int);
        let c = (candidate - 1) as nat;
        let len = common(data, c as int, pos as int, max_len);
        let next = if len > best.0 {
            (len, (pos - c) as nat)
        } else {
            best
        };
        assert(best_yet(data, pos, max_len, c as int, next));
        let more = latest(data, h, c);
        lemma_latest(data, h, c);
        lemma_latest_none(data, h, c);
        assert(best_yet(data, pos, max_len, more as int, next)) by {
            assert forall|p: int|
                more <= p < pos && #[trigger] hash3(data, p) == h implies common(
                data,
                p,
                pos as int,
                max_len,
            ) <= next.0 && (next.1 > 0 && p > pos - next.1 ==> common(
                data,
                p,
                pos as int,
                max_len,
            ) < next.0) by {}
        }
        if !(len > best.0 && (len >= nice_len || len == max_len)) {
            lemma_search_nearest(
                data,
                pos,
                more,
                (chain - 1) as nat,
                nice_len,
                max_len,
                next,
            );
        }
    }
}

proof fn lemma_latest_none(data: Seq<u8>, h: nat, end: nat)
    ensures
        forall|p: int| latest(data, h, end) <= p < end ==> #[trigger] hash3(data, p) != h,
    decreases end,
{
    if end > 0 && hash3(data, end - 1) != h {
        lemma_latest_none(data, h, (end - 1) as nat);
    }
}

/// Of equally long matches the nearest is taken: no smaller distance repeats
/// as many bytes.
pub proof fn matches_are_nearest(
    data: Seq<u8>,
    pos: nat,
    max_chain: nat,
    nice_len: nat,
    beat: nat,
    d: nat,
)
    requires
        pos <= data.len(),
        beat >= 2,
        best_match(data, pos, max_chain, nice_len, beat).1 > 0,
        1 <= d < best_match(data, pos, max_chain, nice_len, beat).1,
    ensures
        !repeats(
            data,
            pos as int,
            d as int,
            best_match(data, pos, max_chain, nice_len, beat).0 as int,
        ),
{
    let r = best_match(data, pos, max_chain, nice_len, beat);
    let max_len = if data.len() - pos < 258 {
        (data.len() - pos) as nat
    } else {
        258
    };
    let h = hash3(data, pos as int);
    lemma_best_match(data, pos, max_chain, nice_len, beat);
    lemma_latest(data, h, pos);
    lemma_latest_none(data, h, pos);
    lemma_search_nearest(
        data,
        pos,
        latest(data, h, pos),
        max_chain,
        nice_len,
        max_len,
        (beat, 0),
    );
    if repeats(data, pos as int, d as int, r.0 as int) {
        let p = pos - d;
        assert(data[pos as int + 0] == data[pos as int + 0 - d]);
        assert(data[pos as int + 1] == data[pos as int + 1 - d]);
        assert(data[pos as int + 2] == data[pos as int + 2 - d]);
        equal_bytes_hash_alike(data, pos as int, data, p);
        lemma_common_least(data, p, pos as int, max_len, r.0 as int);
    }
}

/// Where token `i` stands.
pub open spec fn place(tokens: Seq<Token>, i: int) -> nat
    decreases i,
{
    if i <= 0 {
        0
    } else {
        place(tokens, i - 1) + tokens[i - 1].span()
    }
}

/// The effort of every search that a parse makes, at the least.
pub open spec fn least_chain(params: Params) -> nat {
    if params.max_chain / 4 < 1 {
        1
    } else {
        (params.max_chain / 4) as nat
    }
}

/// From token `i` on there is a match of at least `len` bytes, or one of at
/// least one more byte for every literal before it.
pub open spec fn match_follows(tokens: Seq<Token>, i: int, len: int) -> bool {
    exists|j: int|
        i <= j < tokens.len() && (forall|k: int| i <= k < j ==> tokens[k] is Literal) && (
        #[trigger] tokens[j]) is Match && tokens[j].span() >= len + (j - i)
}

/// A pending match was found by a search of enough effort.
spec fn pending_found(data: Seq<u8>, params: Params, pos: nat, pending: Option<(nat, nat)>) -> bool {
    &&& pending_ok(data, pos, pending)
    &&& pending matches Some(m) ==> exists|chain: nat, beat: nat|
        chain >= least_chain(params) && m == #[trigger] best_match(
            data,
            pos,
            chain,
            params.nice_len as nat,
            beat,
        )
}

/// The match that the parser looks at.
spec fn at_hand(data: Seq<u8>, params: Params, pos: nat, pending: Option<(nat, nat)>) -> (
    nat,
    nat,
) {
    match pending {
        Some(m) => m,
        None => best_match(data, pos, params.max_chain as nat, params.nice_len as nat, 2),
    }
}

proof fn lemma_match_follows(
    data: Seq<u8>,
    params: Params,
    pos: nat,
    pending: Option<(nat, nat)>,
    len: nat,
)
    requires
        pos < data.len(),
        pending_ok(data, pos, pending),
        at_hand(data, params, pos, pending).0 >= len,
        at_hand(data, params, pos, pending).0 >= 3,
    ensures
        match_follows(parse_from(data, params, pos, pending), 0, len as int),
    decreases data.len() - pos,
{
    let tokens = parse_from(data, params, pos, pending);
    let (n, dist) = at_hand(data, params, pos, pending);
    lemma_best_match(data, pos, params.max_chain as nat, params.nice_len as nat, 2);
    let chain = lazy_chain(params, n);
    let next = best_match(data, pos + 1, chain, params.nice_len as nat, n);
    lemma_best_match(data, pos + 1, chain, params.nice_len as nat, n);
    if n < params.lazy_len && pos + 1 < data.len() && next.0 > n {
        let more = parse_from(data, params, pos + 1, Some(next));
        lemma_match_follows(data, params, pos + 1, Some(next), len + 1);
        let j = choose|j: int|
            0 <= j < more.len() && (forall|k: int| 0 <= k < j ==> more[k] is Literal) && (
            #[trigger] more[j]) is Match && more[j].span() >= len + 1 + j;
        assert(tokens =~= seq![Token::Literal(data[pos as int])] + more);
        assert(tokens[j + 1] == more[j]);
        assert forall|k: int| 0 <= k < j + 1 implies tokens[k] is Literal by {
            if k > 0 {
                assert(tokens[k] == more[k - 1]);
            }
        }
    } else {
        assert(n <= 258);
        assert(tokens[0] == (Token::Match { len: n as u16, dist: dist as u16 }));
    }
}

/// Where a parse has come to at token `i`.
proof fn lemma_at(data: Seq<u8>, params: Params, i: int) -> (pending: Option<(nat, nat)>)
    requires
        0 <= i <= parsed(data, params).len(),
    ensures
        parsed(data, params).skip(i) == parse_from(
            data,
            params,
            place(parsed(data, params), i),
            pending,
        ),
        pending_found(data, params, place(parsed(data, params), i), pending),
        place(parsed(data, params), i) <= data.len(),
    decreases i,
{
    let all = parsed(data, params);
    if i == 0 {
        assert(all.skip(0) =~= all);
        None
    } else {
        let was = lemma_at(data, params, i - 1);
        let pos = place(all, i - 1);
        let here = parse_from(data, params, pos, was);
        assert(all.skip(i) =~= all.skip(i - 1).skip(1));
        assert(all[i - 1] == all.skip(i - 1)[0]);
        assert(pos < data.len());
        let (n, dist) = at_hand(data, params, pos, was);
        lemma_best_match(data, pos, params.max_chain as nat, params.nice_len as nat, 2);
        let chain = lazy_chain(params, n);
        let next = best_match(data, pos + 1, chain, params.nice_len as nat, n);
        lemma_best_match(data, pos + 1, chain, params.nice_len as nat, n);
        if n < 3 {
            assert(here.skip(1) =~= parse_from(data, params, pos + 1, None));
            None
        } else if n < params.lazy_len && pos + 1 < data.len() && next.0 > n {
            assert(here.skip(1) =~= parse_from(data, params, pos + 1, Some(next)));
            assert(chain >= least_chain(params));
            assert(pending_found(data, params, pos + 1, Some(next)));
            Some(next)
        } else {
            assert(here.skip(1) =~= parse_from(data, params, pos + n, None));
            None
        }
    }
}

/// Repeats are put to use: where a token of the parse starts and a repeat is
/// in reach, there is a match of at least its length or `nice_len`, or there
/// are literals first and the match behind them is longer by more than their
/// number.
pub proof fn repeats_are_used(data: Seq<u8>, params: Params, i: int, c: nat, len: nat)
    requires
        params.max_chain >= 1,
        0 <= i < parsed(data, params).len(),
        in_reach(
            data,
            place(parsed(data, params), i) as int,
            c as int,
            len as int,
            least_chain(params) as int,
        ),
    ensures
        match_follows(
            parsed(data, params),
            i,
            if len < params.nice_len {
                len as int
            } else {
                params.nice_len as int
            },
        ),
{
    let all = parsed(data, params);
    let pos = place(all, i);
    let pending = lemma_at(data, params, i);
    let here = all.skip(i);
    let least = if len < params.nice_len {
        len
    } else {
        params.nice_len as nat
    };
    let nice = params.nice_len as nat;
    match pending {
        None => {
            repeats_are_found(data, pos, c, len, params.max_chain as nat, nice, 2);
            lemma_best_match(data, pos, params.max_chain as nat, nice, 2);
        },
        Some(m) => {
            let (chain, beat) = choose|chain: nat, beat: nat|
                chain >= least_chain(params) && m == #[trigger] best_match(
                    data,
                    pos,
                    chain,
                    nice,
                    beat,
                );
            repeats_are_found(data, pos, c, len, chain, nice, beat);
        },
    }
    lemma_match_follows(data, params, pos, pending, least);
    let j = choose|j: int|
        0 <= j < here.len() && (forall|k: int| 0 <= k < j ==> here[k] is Literal) && (
        #[trigger] here[j]) is Match && here[j].span() >= least + j;
    assert(all[i + j] == here[j]);
    assert forall|k: int| i <= k < i + j implies all[k] is Literal by {
        assert(all[k] == here[k - i]);
    }
}

/// A copy leaves what is there and goes on with the byte `dist` back of each,
/// also where that has only just been copied.
pub proof fn copies_repeat(out: Seq<u8>, dist: nat, len: nat, i: int)
    requires
        0 < dist <= out.len(),
        0 <= i < out.len() + len,
    ensures
        copied(out, dist, len).len() == out.len() + len,
        i < out.len() ==> copied(out, dist, len)[i] == out[i],
        i >= out.len() ==> copied(out, dist, len)[i] == copied(out, dist, len)[i - dist],
    decreases len,
{
    lemma_copied_len(out, dist, len);
    if len > 0 {
        let next = out.push(out[out.len() - dist]);
        copies_repeat(next, dist, (len - 1) as nat, i);
        if i == out.len() {
            copies_repeat(next, dist, (len - 1) as nat, i - dist);
        }
    }
}

/// Tokens are applied one after the other: a literal adds its byte, a match
/// its copy.
pub proof fn tokens_apply_in_order(out: Seq<u8>, tokens: Seq<Token>, b: u8, len: u16, dist: u16)
    ensures
        expanded(out, Seq::empty()) == out,
        expanded(out, seq![Token::Literal(b)] + tokens) == expanded(out.push(b), tokens),
        expanded(out, seq![Token::Match { len, dist }] + tokens) == expanded(
            copied(out, dist as nat, len as nat),
            tokens,
        ),
{
    assert((seq![Token::Literal(b)] + tokens).skip(1) =~= tokens);
    assert((seq![Token::Match { len, dist }] + tokens).skip(1) =~= tokens);
}

/// Levels: the first three are greedy, the others look ahead; within each
/// group a higher level never tries less, and all levels search.
pub proof fn levels_try_harder(a: u8, b: u8)
    requires
        1 <= a <= b <= 9,
        b <= 3 || a >= 4,
    ensures
        level_params(a).max_chain <= level_params(b).max_chain,
        level_params(a).nice_len <= level_params(b).nice_len,
        level_params(a).lazy_len <= level_params(b).lazy_len,
        level_params(a).good_len <= level_params(b).good_len,
        a < b ==> level_params(a).max_chain < level_params(b).max_chain,
        level_params(a).max_chain >= 4,
        8 <= level_params(a).nice_len <= 258,
        b <= 3 <==> level_params(b).lazy_len == 0,
        level_params(0) == level_params(1),
        b == 9 ==> level_params(b).max_chain == 4096 && level_params(b).nice_len == 258
            && level_params(b).lazy_len == 258,
{
}

} // verus!
