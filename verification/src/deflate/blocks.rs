//! What the Deflate encoder writes, and that it is read again.
use crate::bits::aligned;
use crate::bits::bits_of;
use crate::bits::bytes_bits;
use crate::bits::lemma_bits_of_len;
use crate::bits::lemma_before_bytes;
use crate::bits::lemma_first_bytes;
use crate::bits::lemma_packed_bytes;
use crate::bits::bits_roundtrip;
use crate::bits::padded;
use crate::bits::take_bits;
use crate::bits::zeros;
use crate::deflate::format::inflated;
use crate::deflate::format::run_of;
use crate::deflate::format::take_blocks;
use crate::deflate::format::take_body;
use crate::deflate::format::take_cl_lengths;
use crate::deflate::format::take_codes;
use crate::deflate::format::take_header;
use crate::deflate::format::take_lengths;
use crate::deflate::format::take_match;
use crate::deflate::format::take_stored;
use crate::deflate::tables::cl_order;
use crate::deflate::tables::coded_dist;
use crate::deflate::tables::coded_length;
use crate::deflate::tables::dists_roundtrip;
use crate::deflate::tables::fixed_dist;
use crate::deflate::tables::fixed_litlen;
use crate::deflate::tables::lemma_cl_order;
use crate::deflate::tables::lemma_fixed_ok;
use crate::deflate::tables::lengths_roundtrip;
use crate::error::Error;
use crate::huffman::code_bits;
use crate::huffman::code_of;
use crate::huffman::codes_end;
use crate::huffman::count_len;
use crate::huffman::lemma_take_symbol;
use crate::huffman::lengths::lengths_are_complete;
use crate::huffman::lengths::lengths_for;
use crate::huffman::lengths::total;
use crate::huffman::lengths_ok;
use crate::huffman::lengths_small;
use crate::huffman::slot_share;
use crate::huffman::slots;
use crate::huffman::symbols_roundtrip;
use crate::lz77::lemma_applied;
use crate::lz77::level_params;
use crate::lz77::parse_is_lossless;
use crate::lz77::parsed;
use crate::lz77::token_ok;
use crate::lz77::tokens_ok;
use crate::lz77::Token;
use crate::nums::lemma_pow2_le;
use crate::nums::lemma_pow2_values;
use vstd::arithmetic::power2::pow2;
use vstd::prelude::*;

verus! {

// Tokens.

/// A token with the codes of the given lengths.
pub open spec fn token_bits(t: Token, lit: Seq<u8>, dist: Seq<u8>) -> Seq<bool> {
    match t {
        Token::Literal(b) => code_bits(lit, b as int),
        Token::Match { len, dist: d } => {
            let l = coded_length(len as nat);
            let d = coded_dist(d as nat);
            code_bits(lit, 257 + l.index) + bits_of(l.extra as nat, l.extra_bits as nat)
                + code_bits(dist, d.index as int) + bits_of(d.extra as nat, d.extra_bits as nat)
        },
    }
}

/// Tokens, one behind the other.
pub open spec fn tokens_bits(tokens: Seq<Token>, lit: Seq<u8>, dist: Seq<u8>) -> Seq<bool>
    decreases tokens.len(),
{
    if tokens.len() == 0 {
        Seq::empty()
    } else {
        token_bits(tokens[0], lit, dist) + tokens_bits(tokens.skip(1), lit, dist)
    }
}

/// Tokens and the end of the block.
pub open spec fn body_bits(tokens: Seq<Token>, lit: Seq<u8>, dist: Seq<u8>) -> Seq<bool> {
    tokens_bits(tokens, lit, dist) + code_bits(lit, 256)
}

/// The token can be written with the codes.
pub open spec fn has_code(t: Token, lit: Seq<u8>, dist: Seq<u8>) -> bool {
    match t {
        Token::Literal(b) => b < lit.len() && lit[b as int] > 0,
        Token::Match { len, dist: d } => {
            let l = 257 + coded_length(len as nat).index;
            let d = coded_dist(d as nat).index as int;
            &&& l < lit.len() && lit[l] > 0
            &&& d < dist.len() && dist[d] > 0
        },
    }
}

/// The block can be written with the codes.
pub open spec fn has_codes(tokens: Seq<Token>, lit: Seq<u8>, dist: Seq<u8>) -> bool {
    &&& 256 < lit.len() && lit[256] > 0
    &&& forall|i: int| 0 <= i < tokens.len() ==> has_code(#[trigger] tokens[i], lit, dist)
}

/// How many bytes tokens stand for.
pub open spec fn span(tokens: Seq<Token>) -> nat
    decreases tokens.len(),
{
    if tokens.len() == 0 {
        0
    } else {
        tokens[0].span() + span(tokens.skip(1))
    }
}

/// Tokens describe the bytes of `data` from `pos` on.
pub open spec fn tokens_at(data: Seq<u8>, pos: nat, tokens: Seq<Token>) -> bool
    decreases tokens.len(),
{
    tokens.len() > 0 ==> token_ok(data, pos as int, tokens[0]) && tokens_at(
        data,
        pos + tokens[0].span(),
        tokens.skip(1),
    )
}

/// The first tokens of a parse, and the others.
pub proof fn lemma_tokens_split(data: Seq<u8>, pos: nat, tokens: Seq<Token>, k: int)
    requires
        tokens_ok(data, pos as int, tokens),
        0 <= k <= tokens.len(),
        pos <= data.len(),
    ensures
        tokens_at(data, pos, tokens.take(k)),
        tokens_ok(data, (pos + span(tokens.take(k))) as int, tokens.skip(k)),
        pos + span(tokens.take(k)) <= data.len(),
        k > 0 ==> span(tokens.take(k)) > 0,
    decreases tokens.len(),
{
    if k == 0 {
        assert(tokens.skip(0) =~= tokens);
    } else {
        let t = tokens[0];
        lemma_applied(data, pos as int, t);
        lemma_tokens_split(data, pos + t.span(), tokens.skip(1), k - 1);
        assert(tokens.take(k).skip(1) =~= tokens.skip(1).take(k - 1));
        assert(tokens.skip(1).skip(k - 1) =~= tokens.skip(k));
    }
}

pub proof fn lemma_tokens_bits_add(a: Seq<Token>, b: Seq<Token>, lit: Seq<u8>, dist: Seq<u8>)
    ensures
        tokens_bits(a + b, lit, dist) == tokens_bits(a, lit, dist) + tokens_bits(b, lit, dist),
    decreases a.len(),
{
    if a.len() == 0 {
        assert(a + b =~= b);
        assert(tokens_bits(a, lit, dist) + tokens_bits(b, lit, dist) =~= tokens_bits(b, lit, dist));
    } else {
        lemma_tokens_bits_add(a.skip(1), b, lit, dist);
        assert((a + b).skip(1) =~= a.skip(1) + b);
        assert((a + b)[0] == a[0]);
        assert(tokens_bits(a + b, lit, dist) =~= tokens_bits(a, lit, dist) + tokens_bits(
            b,
            lit,
            dist,
        ));
    }
}

/// What a match was written with is read again.
pub proof fn lemma_take_match(len: nat, dist: nat, codes: Seq<u8>, rest: Seq<bool>)
    requires
        3 <= len <= 258,
        1 <= dist <= 32768,
        lengths_ok(codes),
        codes.len() <= 30,
        coded_dist(dist).index < codes.len(),
        codes[coded_dist(dist).index as int] > 0,
    ensures
        ({
            let l = coded_length(len);
            let d = coded_dist(dist);
            take_match(
                bits_of(l.extra as nat, l.extra_bits as nat) + code_bits(codes, d.index as int)
                    + bits_of(d.extra as nat, d.extra_bits as nat) + rest,
                l.index as int,
                codes,
            ) == Ok::<(nat, nat, Seq<bool>), Error>((len, dist, rest))
        }),
{
    let l = coded_length(len);
    let d = coded_dist(dist);
    lengths_roundtrip(len);
    dists_roundtrip(dist);
    let x = bits_of(l.extra as nat, l.extra_bits as nat);
    let y = bits_of(d.extra as nat, d.extra_bits as nat);
    let c = code_bits(codes, d.index as int);
    assert(x + c + y + rest =~= x + (c + (y + rest)));
    bits_roundtrip(l.extra as nat, l.extra_bits as nat, c + (y + rest));
    symbols_roundtrip(codes, d.index as int, y + rest);
    bits_roundtrip(d.extra as nat, d.extra_bits as nat, rest);
}

/// A block's tokens are read again, and give the bytes they stand for.
pub proof fn lemma_codes_read(
    data: Seq<u8>,
    pos: nat,
    tokens: Seq<Token>,
    lit: Seq<u8>,
    dist: Seq<u8>,
    limit: nat,
    rest: Seq<bool>,
)
    requires
        pos <= data.len() <= limit,
        tokens_at(data, pos, tokens),
        lengths_ok(lit),
        lengths_ok(dist),
        lit.len() <= 288,
        dist.len() <= 30,
        has_codes(tokens, lit, dist),
    ensures
        take_codes(
            body_bits(tokens, lit, dist) + rest,
            data.take(pos as int),
            limit,
            lit,
            dist,
        ) == Ok::<(Seq<bool>, Seq<u8>), Error>(
            (rest, data.take((pos + span(tokens)) as int)),
        ),
        pos + span(tokens) <= data.len(),
    decreases tokens.len(),
{
    let s = body_bits(tokens, lit, dist) + rest;
    let out = data.take(pos as int);
    if tokens.len() == 0 {
        assert(s =~= code_bits(lit, 256) + rest);
        symbols_roundtrip(lit, 256, rest);
    } else {
        let t = tokens[0];
        let more = tokens.skip(1);
        assert(has_code(tokens[0], lit, dist));
        lemma_applied(data, pos as int, t);
        assert forall|i: int| 0 <= i < more.len() implies has_code(
            #[trigger] more[i],
            lit,
            dist,
        ) by {
            assert(has_code(tokens[i + 1], lit, dist));
        }
        lemma_codes_read(data, pos + t.span(), more, lit, dist, limit, rest);
        let tail = body_bits(more, lit, dist) + rest;
        assert(s =~= token_bits(t, lit, dist) + tail);
        match t {
            Token::Literal(b) => {
                symbols_roundtrip(lit, b as int, tail);
                lemma_take_symbol(lit, s);
                assert(out.push(b) =~= data.take(pos as int + 1));
            },
            Token::Match { len, dist: d } => {
                let l = coded_length(len as nat);
                let dc = coded_dist(d as nat);
                let x = bits_of(l.extra as nat, l.extra_bits as nat);
                let y = bits_of(dc.extra as nat, dc.extra_bits as nat);
                let c = code_bits(dist, dc.index as int);
                assert(s =~= code_bits(lit, 257 + l.index) + (x + c + y + tail));
                lengths_roundtrip(len as nat);
                symbols_roundtrip(lit, 257 + l.index, x + c + y + tail);
                lemma_take_match(len as nat, d as nat, dist, tail);
                lemma_take_symbol(lit, s);
            },
        }
    }
}

// Codes without trailing zero lengths.

proof fn lemma_count_trailing(lengths: Seq<u8>, k: int, len: nat)
    requires
        0 <= k <= lengths.len(),
        len > 0,
        forall|i: int| k <= i < lengths.len() ==> lengths[i] == 0,
    ensures
        count_len(lengths, len) == count_len(lengths.take(k), len),
    decreases lengths.len(),
{
    if k == lengths.len() {
        assert(lengths.take(k) =~= lengths);
    } else {
        lemma_count_trailing(lengths.drop_last(), k, len);
        assert(lengths.drop_last().take(k) =~= lengths.take(k));
    }
}

proof fn lemma_end_trailing(lengths: Seq<u8>, k: int, len: nat)
    requires
        0 <= k <= lengths.len(),
        forall|i: int| k <= i < lengths.len() ==> lengths[i] == 0,
    ensures
        codes_end(lengths, len) == codes_end(lengths.take(k), len),
    decreases len,
{
    if len > 0 {
        lemma_end_trailing(lengths, k, (len - 1) as nat);
        lemma_count_trailing(lengths, k, len);
    }
}

/// Trailing symbols without a code do not change the other codes.
pub proof fn lemma_code_trailing(lengths: Seq<u8>, k: int, symbol: int)
    requires
        0 <= symbol < k <= lengths.len(),
        forall|i: int| k <= i < lengths.len() ==> lengths[i] == 0,
    ensures
        code_bits(lengths.take(k), symbol) == code_bits(lengths, symbol),
{
    let len = lengths[symbol] as nat;
    assert(lengths.take(k).take(symbol) =~= lengths.take(symbol));
    if len > 0 {
        lemma_end_trailing(lengths, k, (len - 1) as nat);
    }
}

proof fn lemma_slots_trailing(lengths: Seq<u8>, k: int)
    requires
        0 <= k <= lengths.len(),
        forall|i: int| k <= i < lengths.len() ==> lengths[i] == 0,
    ensures
        slots(lengths.take(k)) == slots(lengths),
    decreases lengths.len(),
{
    if k == lengths.len() {
        assert(lengths.take(k) =~= lengths);
    } else {
        lemma_slots_trailing(lengths.drop_last(), k);
        assert(lengths.drop_last().take(k) =~= lengths.take(k));
    }
}

proof fn lemma_ok_trailing(lengths: Seq<u8>, k: int)
    requires
        0 <= k <= lengths.len(),
        forall|i: int| k <= i < lengths.len() ==> lengths[i] == 0,
        lengths_ok(lengths),
    ensures
        lengths_ok(lengths.take(k)),
{
    lemma_slots_trailing(lengths, k);
    let t = lengths.take(k);
    assert forall|i: int| 0 <= i < t.len() implies #[trigger] t[i] <= 15 by {
        assert(lengths[i] <= 15);
    }
}

proof fn lemma_tokens_trailing(
    tokens: Seq<Token>,
    lit: Seq<u8>,
    dist: Seq<u8>,
    k: int,
    j: int,
)
    requires
        257 <= k <= lit.len(),
        0 <= j <= dist.len(),
        forall|i: int| k <= i < lit.len() ==> lit[i] == 0,
        forall|i: int| j <= i < dist.len() ==> dist[i] == 0,
        has_codes(tokens, lit, dist),
    ensures
        tokens_bits(tokens, lit.take(k), dist.take(j)) == tokens_bits(tokens, lit, dist),
        has_codes(tokens, lit.take(k), dist.take(j)),
        code_bits(lit.take(k), 256) == code_bits(lit, 256),
    decreases tokens.len(),
{
    lemma_code_trailing(lit, k, 256);
    if tokens.len() > 0 {
        let more = tokens.skip(1);
        assert forall|i: int| 0 <= i < more.len() implies has_code(
            #[trigger] more[i],
            lit,
            dist,
        ) by {
            assert(has_code(tokens[i + 1], lit, dist));
        }
        lemma_tokens_trailing(more, lit, dist, k, j);
        assert(has_code(tokens[0], lit, dist));
        match tokens[0] {
            Token::Literal(b) => {
                lemma_code_trailing(lit, k, b as int);
            },
            Token::Match { len, dist: d } => {
                lemma_code_trailing(lit, k, 257 + coded_length(len as nat).index);
                lemma_code_trailing(dist, j, coded_dist(d as nat).index as int);
            },
        }
        assert forall|i: int| 0 <= i < tokens.len() implies has_code(
            #[trigger] tokens[i],
            lit.take(k),
            dist.take(j),
        ) by {
            if i > 0 {
                assert(has_code(more[i - 1], lit.take(k), dist.take(j)));
                assert(more[i - 1] == tokens[i]);
            }
        }
    }
}

// Counts.

/// How often each literal/length symbol occurs.
pub open spec fn lit_counts(tokens: Seq<Token>) -> Seq<u64>
    decreases tokens.len(),
{
    if tokens.len() == 0 {
        Seq::new(286, |i: int| 0u64)
    } else {
        let c = lit_counts(tokens.drop_last());
        let s = lit_symbol(tokens.last());
        c.update(s, (c[s] + 1) as u64)
    }
}

/// The literal/length symbol of a token.
pub open spec fn lit_symbol(t: Token) -> int {
    match t {
        Token::Literal(b) => b as int,
        Token::Match { len, .. } => 257 + coded_length(len as nat).index,
    }
}

/// How often each distance symbol occurs.
pub open spec fn dist_counts(tokens: Seq<Token>) -> Seq<u64>
    decreases tokens.len(),
{
    if tokens.len() == 0 {
        Seq::new(30, |i: int| 0u64)
    } else {
        let c = dist_counts(tokens.drop_last());
        match tokens.last() {
            Token::Literal(_) => c,
            Token::Match { dist, .. } => {
                let s = coded_dist(dist as nat).index as int;
                c.update(s, (c[s] + 1) as u64)
            },
        }
    }
}

/// Tokens within Deflate's limits.
pub open spec fn tokens_sane(tokens: Seq<Token>) -> bool {
    forall|i: int|
        0 <= i < tokens.len() ==> match #[trigger] tokens[i] {
            Token::Literal(_) => true,
            Token::Match { len, dist } => 3 <= len <= 258 && 1 <= dist <= 32768,
        }
}

pub proof fn lemma_sane(data: Seq<u8>, pos: nat, tokens: Seq<Token>)
    requires
        tokens_at(data, pos, tokens),
    ensures
        tokens_sane(tokens),
    decreases tokens.len(),
{
    if tokens.len() > 0 {
        lemma_sane(data, pos + tokens[0].span(), tokens.skip(1));
        assert forall|i: int| 0 <= i < tokens.len() implies match #[trigger] tokens[i] {
            Token::Literal(_) => true,
            Token::Match { len, dist } => 3 <= len <= 258 && 1 <= dist <= 32768,
        } by {
            if i > 0 {
                assert(tokens.skip(1)[i - 1] == tokens[i]);
            }
        }
    }
}

pub proof fn lemma_total_update(c: Seq<u64>, i: int, x: u64)
    requires
        0 <= i < c.len(),
    ensures
        total(c.update(i, x)) == total(c) - c[i] + x,
    decreases c.len(),
{
    if i == c.len() - 1 {
        assert(c.update(i, x).drop_last() =~= c.drop_last());
    } else {
        lemma_total_update(c.drop_last(), i, x);
        assert(c.update(i, x).drop_last() =~= c.drop_last().update(i, x));
    }
}

pub proof fn lemma_total_zero(n: nat)
    ensures
        total(Seq::new(n, |i: int| 0u64)) == 0,
    decreases n,
{
    if n > 0 {
        lemma_total_zero((n - 1) as nat);
        assert(Seq::new(n, |i: int| 0u64).drop_last() =~= Seq::new((n - 1) as nat, |i: int| 0u64));
    }
}

pub proof fn lemma_total_at(c: Seq<u64>, i: int)
    requires
        0 <= i < c.len(),
    ensures
        c[i] <= total(c),
    decreases c.len(),
{
    if i < c.len() - 1 {
        lemma_total_at(c.drop_last(), i);
    }
}

/// Every token is counted once.
pub proof fn lemma_counts(tokens: Seq<Token>)
    requires
        tokens_sane(tokens),
        tokens.len() <= 0xFFFF_FFFF,
    ensures
        lit_counts(tokens).len() == 286,
        dist_counts(tokens).len() == 30,
        total(lit_counts(tokens)) == tokens.len(),
        total(dist_counts(tokens)) <= tokens.len(),
        lit_counts(tokens)[256] == 0,
        forall|i: int|
            0 <= i < tokens.len() ==> lit_counts(tokens)[lit_symbol(#[trigger] tokens[i])] > 0,
        forall|i: int|
            0 <= i < tokens.len() ==> ((#[trigger] tokens[i]) matches Token::Match { dist, .. }
                ==> dist_counts(tokens)[coded_dist(dist as nat).index as int] > 0),
    decreases tokens.len(),
{
    if tokens.len() == 0 {
        lemma_total_zero(286);
        lemma_total_zero(30);
    } else {
        let before = tokens.drop_last();
        assert forall|i: int| 0 <= i < before.len() implies match #[trigger] before[i] {
            Token::Literal(_) => true,
            Token::Match { len, dist } => 3 <= len <= 258 && 1 <= dist <= 32768,
        } by {
            assert(before[i] == tokens[i]);
        }
        lemma_counts(before);
        let t = tokens.last();
        assert(t == tokens[tokens.len() - 1]);
        let c = lit_counts(before);
        let s = lit_symbol(t);
        let d = dist_counts(before);
        match t {
            Token::Literal(b) => {},
            Token::Match { len, dist } => {
                lengths_roundtrip(len as nat);
                dists_roundtrip(dist as nat);
                let k = coded_dist(dist as nat).index as int;
                lemma_total_at(d, k);
                lemma_total_update(d, k, (d[k] + 1) as u64);
            },
        }
        lemma_total_at(c, s);
        lemma_total_update(c, s, (c[s] + 1) as u64);
        assert forall|i: int| 0 <= i < tokens.len() implies lit_counts(
            tokens,
        )[lit_symbol(#[trigger] tokens[i])] > 0 by {
            if i < before.len() {
                assert(before[i] == tokens[i]);
                assert(c[lit_symbol(before[i])] > 0);
                lemma_lit_symbol(tokens[i]);
            }
        }
        assert forall|i: int|
            0 <= i < tokens.len() && (#[trigger] tokens[i]) is Match implies dist_counts(
            tokens,
        )[coded_dist(tokens[i]->dist as nat).index as int] > 0 by {
            dists_roundtrip(tokens[i]->dist as nat);
            if i < before.len() {
                assert(before[i] == tokens[i]);
                assert(d[coded_dist(before[i]->dist as nat).index as int] > 0);
            }
        }
    }
}

pub proof fn lemma_lit_symbol(t: Token)
    requires
        t matches Token::Match { len, .. } ==> 3 <= len <= 258,
    ensures
        0 <= lit_symbol(t) < 286,
        lit_symbol(t) != 256,
{
    match t {
        Token::Literal(_) => {},
        Token::Match { len, .. } => lengths_roundtrip(len as nat),
    }
}

// Run-length coded code lengths: symbols 0-15 are a length, 16 repeats the
// previous one 3-6 times, 17 is 3-10 zeros, 18 is 11-138 zeros.

/// The extra bits behind a code-length symbol.
pub open spec fn cl_extra(sym: u8) -> nat {
    if sym == 16 {
        2
    } else if sym == 17 {
        3
    } else if sym == 18 {
        7
    } else {
        0
    }
}

/// The same symbol `n` times.
pub open spec fn plain_symbols(value: u8, n: nat) -> Seq<(u8, u32)> {
    Seq::new(n, |i: int| (value, 0u32))
}

/// `n` zeros.
pub open spec fn zero_symbols(n: nat) -> Seq<(u8, u32)>
    decreases n,
{
    if n >= 11 {
        let k = if n < 138 {
            n
        } else {
            138
        };
        seq![(18u8, (k - 11) as u32)] + zero_symbols((n - k) as nat)
    } else if n >= 3 {
        seq![(17u8, (n - 3) as u32)]
    } else {
        plain_symbols(0, n)
    }
}

/// `n` more of the length before.
pub open spec fn repeat_symbols(value: u8, n: nat) -> Seq<(u8, u32)>
    decreases n,
{
    if n >= 3 {
        let k = if n < 6 {
            n
        } else {
            6
        };
        seq![(16u8, (k - 3) as u32)] + repeat_symbols(value, (n - k) as nat)
    } else {
        plain_symbols(value, n)
    }
}

/// A run of `n` equal lengths.
pub open spec fn run_symbols(value: u8, n: nat) -> Seq<(u8, u32)> {
    if value == 0 {
        zero_symbols(n)
    } else {
        seq![(value, 0u32)] + repeat_symbols(value, (n - 1) as nat)
    }
}

/// How many lengths from `i` on equal the one at `i`.
pub open spec fn run_len(lengths: Seq<u8>, i: nat, value: u8) -> nat
    decreases lengths.len() - i,
{
    if i >= lengths.len() || lengths[i as int] != value {
        0
    } else {
        1 + run_len(lengths, i + 1, value)
    }
}

/// The lengths from `i` on, run-length coded.
pub open spec fn rle_from(lengths: Seq<u8>, i: nat) -> Seq<(u8, u32)>
    decreases lengths.len() - i,
{
    if i >= lengths.len() {
        Seq::empty()
    } else {
        let value = lengths[i as int];
        let n = run_len(lengths, i, value);
        proof {
            lemma_run_len(lengths, i, value);
        }
        run_symbols(value, n) + rle_from(lengths, i + n)
    }
}

/// All lengths, run-length coded.
pub open spec fn rle(lengths: Seq<u8>) -> Seq<(u8, u32)> {
    rle_from(lengths, 0)
}

/// The lengths after one more symbol.
pub open spec fn unrle_one(so_far: Seq<u8>, sym: (u8, u32)) -> Seq<u8> {
    if sym.0 <= 15 {
        so_far.push(sym.0)
    } else if sym.0 == 16 {
        so_far + run_of(so_far.last(), 3 + sym.1 as nat)
    } else if sym.0 == 17 {
        so_far + run_of(0, 3 + sym.1 as nat)
    } else {
        so_far + run_of(0, 11 + sym.1 as nat)
    }
}

/// The lengths that symbols stand for.
pub open spec fn unrle(so_far: Seq<u8>, syms: Seq<(u8, u32)>) -> Seq<u8>
    decreases syms.len(),
{
    if syms.len() == 0 {
        so_far
    } else {
        unrle(unrle_one(so_far, syms[0]), syms.skip(1))
    }
}

/// Symbols that can be written, the first one behind `n` lengths.
pub open spec fn syms_ok(n: nat, syms: Seq<(u8, u32)>) -> bool {
    forall|i: int|
        0 <= i < syms.len() ==> {
            let s = #[trigger] syms[i];
            &&& s.0 <= 18
            &&& s.1 < pow2(cl_extra(s.0))
            &&& s.0 == 16 ==> i > 0 || n > 0
        }
}

proof fn lemma_unrle_add(so_far: Seq<u8>, a: Seq<(u8, u32)>, b: Seq<(u8, u32)>)
    ensures
        unrle(so_far, a + b) == unrle(unrle(so_far, a), b),
    decreases a.len(),
{
    if a.len() == 0 {
        assert(a + b =~= b);
    } else {
        lemma_unrle_add(unrle_one(so_far, a[0]), a.skip(1), b);
        assert((a + b).skip(1) =~= a.skip(1) + b);
    }
}

proof fn lemma_plain(so_far: Seq<u8>, value: u8, n: nat)
    requires
        value <= 15,
    ensures
        unrle(so_far, plain_symbols(value, n)) == so_far + run_of(value, n),
    decreases n,
{
    if n == 0 {
        assert(so_far + run_of(value, 0) =~= so_far);
    } else {
        let next = so_far.push(value);
        lemma_plain(next, value, (n - 1) as nat);
        assert(plain_symbols(value, n).skip(1) =~= plain_symbols(value, (n - 1) as nat));
        assert(next + run_of(value, (n - 1) as nat) =~= so_far + run_of(value, n));
    }
}

proof fn lemma_zero_symbols(so_far: Seq<u8>, n: nat)
    ensures
        unrle(so_far, zero_symbols(n)) == so_far + run_of(0, n),
        syms_ok(0, zero_symbols(n)),
        zero_symbols(n).len() <= n,
    decreases n,
{
    lemma_pow2_values();
    if n >= 11 {
        let k = if n < 138 {
            n
        } else {
            138
        };
        let next = so_far + run_of(0, k);
        lemma_zero_symbols(next, (n - k) as nat);
        let all = zero_symbols(n);
        assert(all.skip(1) =~= zero_symbols((n - k) as nat));
        assert(next + run_of(0, (n - k) as nat) =~= so_far + run_of(0, n));
        assert forall|i: int| 0 <= i < all.len() implies ({
            let s = #[trigger] all[i];
            &&& s.0 <= 18
            &&& s.1 < pow2(cl_extra(s.0))
            &&& s.0 == 16 ==> i > 0
        }) by {
            if i > 0 {
                assert(all[i] == zero_symbols((n - k) as nat)[i - 1]);
            }
        }
    } else if n >= 3 {
        let all = zero_symbols(n);
        assert(all.skip(1) =~= Seq::<(u8, u32)>::empty());
        reveal_with_fuel(unrle, 2);
    } else {
        lemma_plain(so_far, 0, n);
    }
}

proof fn lemma_repeat_symbols(so_far: Seq<u8>, value: u8, n: nat)
    requires
        so_far.len() > 0,
        so_far.last() == value,
        value <= 15,
    ensures
        unrle(so_far, repeat_symbols(value, n)) == so_far + run_of(value, n),
        syms_ok(so_far.len(), repeat_symbols(value, n)),
        repeat_symbols(value, n).len() <= n,
    decreases n,
{
    lemma_pow2_values();
    if n >= 3 {
        let k = if n < 6 {
            n
        } else {
            6
        };
        let next = so_far + run_of(value, k);
        lemma_repeat_symbols(next, value, (n - k) as nat);
        let all = repeat_symbols(value, n);
        assert(all.skip(1) =~= repeat_symbols(value, (n - k) as nat));
        assert(next + run_of(value, (n - k) as nat) =~= so_far + run_of(value, n));
        assert forall|i: int| 0 <= i < all.len() implies ({
            let s = #[trigger] all[i];
            &&& s.0 <= 18
            &&& s.1 < pow2(cl_extra(s.0))
        }) by {
            if i > 0 {
                assert(all[i] == repeat_symbols(value, (n - k) as nat)[i - 1]);
            }
        }
    } else {
        lemma_plain(so_far, value, n);
    }
}

proof fn lemma_run_symbols(so_far: Seq<u8>, value: u8, n: nat)
    requires
        n > 0,
        value <= 15,
    ensures
        unrle(so_far, run_symbols(value, n)) == so_far + run_of(value, n),
        syms_ok(0, run_symbols(value, n)),
        run_symbols(value, n).len() <= n,
{
    lemma_pow2_values();
    if value == 0 {
        lemma_zero_symbols(so_far, n);
    } else {
        let next = so_far.push(value);
        lemma_repeat_symbols(next, value, (n - 1) as nat);
        let all = run_symbols(value, n);
        let more = repeat_symbols(value, (n - 1) as nat);
        assert(all.skip(1) =~= more);
        assert(next + run_of(value, (n - 1) as nat) =~= so_far + run_of(value, n));
        assert forall|i: int| 0 <= i < all.len() implies ({
            let s = #[trigger] all[i];
            &&& s.0 <= 18
            &&& s.1 < pow2(cl_extra(s.0))
            &&& s.0 == 16 ==> i > 0
        }) by {
            if i > 0 {
                assert(all[i] == more[i - 1]);
            }
        }
    }
}

pub proof fn lemma_run_len(lengths: Seq<u8>, i: nat, value: u8)
    requires
        i <= lengths.len(),
    ensures
        i + run_len(lengths, i, value) <= lengths.len(),
        forall|j: int|
            i <= j < i + run_len(lengths, i, value) ==> #[trigger] lengths[j] == value,
        i < lengths.len() && lengths[i as int] == value ==> run_len(lengths, i, value) > 0,
        i + run_len(lengths, i, value) < lengths.len() ==> lengths[(i + run_len(
            lengths,
            i,
            value,
        )) as int] != value,
    decreases lengths.len() - i,
{
    if i < lengths.len() && lengths[i as int] == value {
        lemma_run_len(lengths, i + 1, value);
    }
}

/// The length of a run is determined by where it ends.
pub proof fn lemma_run_len_is(lengths: Seq<u8>, i: nat, value: u8, n: nat)
    requires
        i + n <= lengths.len(),
        forall|j: int| i <= j < i + n ==> #[trigger] lengths[j] == value,
        i + n < lengths.len() ==> lengths[(i + n) as int] != value,
    ensures
        run_len(lengths, i, value) == n,
    decreases n,
{
    if n > 0 {
        assert(lengths[i as int] == value);
        lemma_run_len_is(lengths, i + 1, value, (n - 1) as nat);
    }
}

proof fn lemma_rle_from(lengths: Seq<u8>, i: nat)
    requires
        i <= lengths.len(),
        lengths_small(lengths),
    ensures
        unrle(lengths.take(i as int), rle_from(lengths, i)) == lengths,
        syms_ok(0, rle_from(lengths, i)),
        rle_from(lengths, i).len() <= lengths.len() - i,
    decreases lengths.len() - i,
{
    if i >= lengths.len() {
        assert(lengths.take(i as int) =~= lengths);
    } else {
        let value = lengths[i as int];
        assert(lengths[i as int] <= 15);
        let n = run_len(lengths, i, value);
        lemma_run_len(lengths, i, value);
        let so_far = lengths.take(i as int);
        let a = run_symbols(value, n);
        let b = rle_from(lengths, i + n);
        lemma_run_symbols(so_far, value, n);
        assert(so_far + run_of(value, n) =~= lengths.take((i + n) as int));
        lemma_rle_from(lengths, i + n);
        lemma_unrle_add(so_far, a, b);
        let all = a + b;
        assert forall|j: int| 0 <= j < all.len() implies ({
            let s = #[trigger] all[j];
            &&& s.0 <= 18
            &&& s.1 < pow2(cl_extra(s.0))
            &&& s.0 == 16 ==> j > 0
        }) by {
            if j < a.len() {
                assert(all[j] == a[j]);
            } else {
                assert(all[j] == b[j - a.len()]);
            }
        }
    }
}

/// Run-length coded lengths stand for the lengths.
pub proof fn code_lengths_roundtrip(lengths: Seq<u8>)
    requires
        lengths_small(lengths),
    ensures
        unrle(Seq::empty(), rle(lengths)) == lengths,
        syms_ok(0, rle(lengths)),
        rle(lengths).len() <= lengths.len(),
{
    lemma_rle_from(lengths, 0);
    assert(lengths.take(0) =~= Seq::<u8>::empty());
}

/// A code-length symbol with its extra bits.
pub open spec fn cl_symbol_bits(cl: Seq<u8>, sym: (u8, u32)) -> Seq<bool> {
    code_bits(cl, sym.0 as int) + bits_of(sym.1 as nat, cl_extra(sym.0))
}

/// Code-length symbols, one behind the other.
pub open spec fn cl_symbols_bits(cl: Seq<u8>, syms: Seq<(u8, u32)>) -> Seq<bool>
    decreases syms.len(),
{
    if syms.len() == 0 {
        Seq::empty()
    } else {
        cl_symbol_bits(cl, syms[0]) + cl_symbols_bits(cl, syms.skip(1))
    }
}

proof fn lemma_unrle_one_len(so_far: Seq<u8>, sym: (u8, u32))
    ensures
        unrle_one(so_far, sym).len() > so_far.len(),
{
}

proof fn lemma_unrle_len(so_far: Seq<u8>, syms: Seq<(u8, u32)>)
    ensures
        unrle(so_far, syms).len() >= so_far.len(),
        syms.len() > 0 ==> unrle(so_far, syms).len() > so_far.len(),
    decreases syms.len(),
{
    if syms.len() > 0 {
        lemma_unrle_one_len(so_far, syms[0]);
        lemma_unrle_len(unrle_one(so_far, syms[0]), syms.skip(1));
    }
}

/// Run-length coded lengths are read again.
proof fn lemma_lengths_read(
    cl: Seq<u8>,
    so_far: Seq<u8>,
    syms: Seq<(u8, u32)>,
    rest: Seq<bool>,
)
    requires
        lengths_ok(cl),
        cl.len() == 19,
        syms_ok(so_far.len(), syms),
        forall|i: int| 0 <= i < syms.len() ==> cl[(#[trigger] syms[i]).0 as int] > 0,
    ensures
        take_lengths(
            cl_symbols_bits(cl, syms) + rest,
            cl,
            so_far,
            unrle(so_far, syms).len(),
        ) == Ok::<(Seq<u8>, Seq<bool>), Error>((unrle(so_far, syms), rest)),
    decreases syms.len(),
{
    let s = cl_symbols_bits(cl, syms) + rest;
    if syms.len() == 0 {
        assert(s =~= rest);
    } else {
        let sym = syms[0];
        let more = syms.skip(1);
        let next = unrle_one(so_far, sym);
        assert(cl[syms[0].0 as int] > 0);
        lemma_unrle_one_len(so_far, sym);
        lemma_unrle_len(next, more);
        let tail = cl_symbols_bits(cl, more) + rest;
        let x = bits_of(sym.1 as nat, cl_extra(sym.0));
        assert(s =~= code_bits(cl, sym.0 as int) + (x + tail));
        symbols_roundtrip(cl, sym.0 as int, x + tail);
        lemma_take_symbol(cl, s);
        bits_roundtrip(sym.1 as nat, cl_extra(sym.0), tail);
        if sym.0 <= 15 {
            lemma_pow2_values();
            assert(x =~= Seq::<bool>::empty());
            assert(x + tail =~= tail);
            assert(so_far + run_of(sym.0, 1) =~= next);
        }
        assert forall|i: int| 0 <= i < more.len() implies ({
            let s = #[trigger] more[i];
            &&& s.0 <= 18
            &&& s.1 < pow2(cl_extra(s.0))
            &&& cl[s.0 as int] > 0
        }) by {
            assert(more[i] == syms[i + 1]);
        }
        lemma_lengths_read(cl, next, more, rest);
    }
}

// A dynamic block's header.

/// One past the last length that is not 0.
pub open spec fn last_nonzero(s: Seq<u8>) -> nat
    decreases s.len(),
{
    if s.len() == 0 {
        0
    } else if s.last() > 0 {
        s.len()
    } else {
        last_nonzero(s.drop_last())
    }
}

pub proof fn lemma_last_nonzero(s: Seq<u8>)
    ensures
        last_nonzero(s) <= s.len(),
        forall|i: int| last_nonzero(s) <= i < s.len() ==> s[i] == 0,
        last_nonzero(s) > 0 ==> s[last_nonzero(s) - 1] > 0,
    decreases s.len(),
{
    if s.len() > 0 && s.last() == 0 {
        lemma_last_nonzero(s.drop_last());
        assert forall|i: int| last_nonzero(s) <= i < s.len() implies s[i] == 0 by {
            if i < s.len() - 1 {
                assert(s.drop_last()[i] == s[i]);
            }
        }
    }
}

/// How many code-length symbols occur how often.
pub open spec fn cl_counts(syms: Seq<(u8, u32)>) -> Seq<u64>
    decreases syms.len(),
{
    if syms.len() == 0 {
        Seq::new(19, |i: int| 0u64)
    } else {
        let c = cl_counts(syms.drop_last());
        let s = syms.last().0 as int;
        c.update(s, (c[s] + 1) as u64)
    }
}

/// How many lengths are not 0.
pub open spec fn nonzero(s: Seq<u8>) -> nat
    decreases s.len(),
{
    if s.len() == 0 {
        0
    } else {
        nonzero(s.drop_last()) + if s.last() > 0 {
            1nat
        } else {
            0nat
        }
    }
}

/// The code-length code's lengths. A one-symbol code is incomplete, which
/// zlib rejects for this code, so it gets a second, unused symbol.
pub open spec fn cl_lengths_for(syms: Seq<(u8, u32)>) -> Seq<u8> {
    let cl = lengths_for(cl_counts(syms), 7);
    if nonzero(cl) == 1 {
        cl.update(
            if cl[0] == 0 {
                0
            } else {
                1
            },
            1,
        )
    } else {
        cl
    }
}

/// How many code-length code lengths are sent: up to the last that is not 0
/// in their own order.
pub open spec fn cl_sent(cl: Seq<u8>, n: nat) -> nat
    decreases n,
{
    if n <= 4 || cl[cl_order(n - 1) as int] > 0 {
        n
    } else {
        cl_sent(cl, (n - 1) as nat)
    }
}

/// The distance code's lengths. Without a match in the block still one
/// distance code is sent, as zlib does; some decoders reject an empty
/// distance code.
pub open spec fn dist_lengths_for(tokens: Seq<Token>) -> Seq<u8> {
    let d = lengths_for(dist_counts(tokens), 15);
    if nonzero(d) == 0 {
        d.update(0, 1)
    } else {
        d
    }
}

/// What a dynamic block's header holds.
pub ghost struct Header {
    pub lit: Seq<u8>,
    pub dist: Seq<u8>,
    pub hlit: nat,
    pub hdist: nat,
    pub syms: Seq<(u8, u32)>,
    pub cl: Seq<u8>,
    pub hclen: nat,
}

/// The larger of two numbers.
pub open spec fn at_least(n: nat, least: nat) -> nat {
    if n < least {
        least
    } else {
        n
    }
}

/// The header for a block of `tokens`.
#[verifier::opaque]
pub open spec fn header_for(tokens: Seq<Token>) -> Header {
    let lit = lengths_for(lit_counts(tokens).update(256, 1), 15);
    let dist = dist_lengths_for(tokens);
    let hlit = at_least(last_nonzero(lit), 257);
    let hdist = at_least(last_nonzero(dist), 1);
    let syms = rle(lit.take(hlit as int) + dist.take(hdist as int));
    let cl = cl_lengths_for(syms);
    Header { lit, dist, hlit, hdist, syms, cl, hclen: cl_sent(cl, 19) }
}

/// The first `n` code-length code lengths in their own order.
pub open spec fn cl_bits(cl: Seq<u8>, n: nat) -> Seq<bool>
    decreases n,
{
    if n == 0 {
        Seq::empty()
    } else {
        cl_bits(cl, (n - 1) as nat) + bits_of(cl[cl_order(n - 1) as int] as nat, 3)
    }
}

impl Header {
    /// The header as it is written.
    pub open spec fn bits(self) -> Seq<bool> {
        bits_of((self.hlit - 257) as nat, 5) + bits_of((self.hdist - 1) as nat, 5) + bits_of(
            (self.hclen - 4) as nat,
            4,
        ) + cl_bits(self.cl, self.hclen) + cl_symbols_bits(self.cl, self.syms)
    }

    /// What a header must be to be read again.
    pub open spec fn ok(self) -> bool {
        &&& self.lit.len() == 286 && self.dist.len() == 30 && self.cl.len() == 19
        &&& lengths_ok(self.lit) && lengths_ok(self.dist) && lengths_ok(self.cl)
        &&& 257 <= self.hlit <= 286 && 1 <= self.hdist <= 30 && 4 <= self.hclen <= 19
        &&& forall|i: int| self.hlit <= i < 286 ==> self.lit[i] == 0
        &&& forall|i: int| self.hdist <= i < 30 ==> self.dist[i] == 0
        &&& forall|i: int| 0 <= i < 19 ==> #[trigger] self.cl[i] <= 7
        &&& forall|i: int| self.hclen <= i < 19 ==> self.cl[#[trigger] cl_order(i) as int] == 0
        &&& self.lit[256] > 0
        &&& syms_ok(0, self.syms)
        &&& self.syms.len() <= 316
        &&& forall|i: int|
            0 <= i < self.syms.len() ==> self.cl[(#[trigger] self.syms[i]).0 as int] > 0
        &&& unrle(Seq::empty(), self.syms) == self.lit.take(self.hlit as int) + self.dist.take(
            self.hdist as int,
        )
    }
}

proof fn lemma_cl_counts(syms: Seq<(u8, u32)>)
    requires
        syms_ok(0, syms),
        syms.len() <= 316,
    ensures
        cl_counts(syms).len() == 19,
        total(cl_counts(syms)) == syms.len(),
        forall|i: int|
            0 <= i < syms.len() ==> cl_counts(syms)[(#[trigger] syms[i]).0 as int] > 0,
    decreases syms.len(),
{
    if syms.len() == 0 {
        lemma_total_zero(19);
    } else {
        let before = syms.drop_last();
        assert forall|i: int| 0 <= i < before.len() implies ({
            let s = #[trigger] before[i];
            &&& s.0 <= 18
            &&& s.1 < pow2(cl_extra(s.0))
            &&& s.0 == 16 ==> i > 0
        }) by {
            assert(before[i] == syms[i]);
        }
        lemma_cl_counts(before);
        let c = cl_counts(before);
        let k = syms.last().0 as int;
        assert(syms[syms.len() - 1].0 <= 18);
        lemma_total_at(c, k);
        lemma_total_update(c, k, (c[k] + 1) as u64);
        assert forall|i: int| 0 <= i < syms.len() implies cl_counts(
            syms,
        )[(#[trigger] syms[i]).0 as int] > 0 by {
            if i < before.len() {
                assert(before[i] == syms[i]);
                assert(c[before[i].0 as int] > 0);
            }
        }
    }
}

proof fn lemma_slots_set(s: Seq<u8>, i: int, x: u8)
    requires
        0 <= i < s.len(),
    ensures
        slots(s.update(i, x)) == slots(s) - slot_share(s[i]) + slot_share(x),
    decreases s.len(),
{
    if i == s.len() - 1 {
        assert(s.update(i, x).drop_last() =~= s.drop_last());
    } else {
        lemma_slots_set(s.drop_last(), i, x);
        assert(s.update(i, x).drop_last() =~= s.drop_last().update(i, x));
    }
}

/// Lengths with at most one code take up at most half of the code space.
proof fn lemma_slots_one(s: Seq<u8>)
    requires
        lengths_small(s),
    ensures
        slots(s) <= nonzero(s) * 16384,
        nonzero(s) == 0 ==> forall|i: int| 0 <= i < s.len() ==> s[i] == 0,
    decreases s.len(),
{
    if s.len() > 0 {
        let t = s.drop_last();
        assert forall|i: int| 0 <= i < t.len() implies #[trigger] t[i] <= 15 by {
            assert(s[i] <= 15);
        }
        lemma_slots_one(t);
        lemma_pow2_values();
        let l = s.last();
        assert(s[s.len() - 1] <= 15);
        if l > 0 {
            lemma_pow2_le((15 - l) as nat, 14);
        }
        assert forall|i: int| nonzero(s) == 0 && 0 <= i < s.len() implies s[i] == 0 by {
            if i < t.len() {
                assert(t[i] == s[i]);
            }
        }
    }
}

pub proof fn lemma_cl_sent(cl: Seq<u8>, n: nat)
    requires
        4 <= n <= 19,
    ensures
        4 <= cl_sent(cl, n) <= n,
        forall|i: int| cl_sent(cl, n) <= i < n ==> cl[#[trigger] cl_order(i) as int] == 0,
    decreases n,
{
    if n > 4 && cl[cl_order(n - 1) as int] == 0 {
        lemma_cl_sent(cl, (n - 1) as nat);
    }
}

proof fn lemma_cl_lengths(syms: Seq<(u8, u32)>)
    requires
        syms_ok(0, syms),
        syms.len() <= 316,
    ensures
        cl_lengths_for(syms).len() == 19,
        lengths_ok(cl_lengths_for(syms)),
        forall|i: int| 0 <= i < 19 ==> #[trigger] cl_lengths_for(syms)[i] <= 7,
        forall|i: int|
            0 <= i < syms.len() ==> cl_lengths_for(syms)[(#[trigger] syms[i]).0 as int] > 0,
{
    lemma_pow2_values();
    lemma_cl_counts(syms);
    let counts = cl_counts(syms);
    crate::huffman::lengths::lemma_used(counts, 19);
    lengths_are_complete(counts, 7);
    let cl = lengths_for(counts, 7);
    assert(lengths_small(cl)) by {
        assert forall|i: int| 0 <= i < cl.len() implies #[trigger] cl[i] <= 15 by {
            assert(cl[i] <= 7);
        }
    }
    lemma_slots_one(cl);
    let out = cl_lengths_for(syms);
    if nonzero(cl) == 1 {
        let spare: int = if cl[0] == 0 {
            0
        } else {
            1
        };
        lemma_slots_set(cl, spare, 1);
    }
    assert forall|i: int| 0 <= i < 19 implies #[trigger] out[i] <= 7 by {
        assert(cl[i] <= 7);
    }
    assert forall|i: int| 0 <= i < syms.len() implies out[(#[trigger] syms[i]).0 as int] > 0 by {
        let k = syms[i].0 as int;
        assert(counts[k] > 0);
        assert(cl[k] > 0);
    }
}

/// A block's header can be read again, and its codes cover its tokens.
pub proof fn lemma_header(tokens: Seq<Token>)
    requires
        tokens_sane(tokens),
        tokens.len() <= 16384,
    ensures
        header_for(tokens).ok(),
        has_codes(tokens, header_for(tokens).lit, header_for(tokens).dist),
{
    reveal(header_for);
    lemma_pow2_values();
    lemma_counts(tokens);
    let h = header_for(tokens);
    let lc = lit_counts(tokens).update(256, 1);
    let dc = dist_counts(tokens);
    lemma_total_update(lit_counts(tokens), 256, 1);
    crate::huffman::lengths::lemma_used(lc, 286);
    lengths_are_complete(lc, 15);
    crate::huffman::lengths::lemma_used(dc, 30);
    lengths_are_complete(dc, 15);
    let d = lengths_for(dc, 15);
    assert(lengths_small(h.lit)) by {
        assert forall|i: int| 0 <= i < h.lit.len() implies #[trigger] h.lit[i] <= 15 by {}
    }
    assert(lengths_small(d)) by {
        assert forall|i: int| 0 <= i < d.len() implies #[trigger] d[i] <= 15 by {}
    }
    lemma_slots_one(d);
    lemma_slots_set(d, 0, 1);
    assert(lengths_small(h.dist)) by {
        assert forall|i: int| 0 <= i < h.dist.len() implies #[trigger] h.dist[i] <= 15 by {
            assert(d[i] <= 15);
        }
    }
    lemma_last_nonzero(h.lit);
    lemma_last_nonzero(h.dist);
    let all = h.lit.take(h.hlit as int) + h.dist.take(h.hdist as int);
    assert(lengths_small(all)) by {
        assert forall|i: int| 0 <= i < all.len() implies #[trigger] all[i] <= 15 by {
            if i < h.hlit {
                assert(h.lit[i] <= 15);
            } else {
                assert(h.dist[i - h.hlit] <= 15);
            }
        }
    }
    code_lengths_roundtrip(all);
    lemma_cl_lengths(h.syms);
    lemma_cl_sent(h.cl, 19);
    assert(lc[256] > 0);
    assert(h.lit[256] > 0);
    assert forall|i: int| 0 <= i < tokens.len() implies has_code(
        #[trigger] tokens[i],
        h.lit,
        h.dist,
    ) by {
        lemma_lit_symbol(tokens[i]);
        assert(lit_counts(tokens)[lit_symbol(tokens[i])] > 0);
        assert(lc[lit_symbol(tokens[i])] > 0);
        assert(h.lit[lit_symbol(tokens[i])] > 0);
        match tokens[i] {
            Token::Literal(_) => {},
            Token::Match { len, dist } => {
                dists_roundtrip(dist as nat);
                let k = coded_dist(dist as nat).index as int;
                assert(dc[k] > 0);
                assert(d[k] > 0);
            },
        }
    }
}

/// Every code-length symbol has its place in the order.
proof fn lemma_cl_place(i: int) -> (k: int)
    requires
        0 <= i < 19,
    ensures
        0 <= k < 19,
        cl_order(k) == i,
{
    reveal(cl_order);
    if i == 16 {
        0
    } else if i == 17 {
        1
    } else if i == 18 {
        2
    } else if i == 0 {
        3
    } else if i == 8 {
        4
    } else if i == 7 {
        5
    } else if i == 9 {
        6
    } else if i == 6 {
        7
    } else if i == 10 {
        8
    } else if i == 5 {
        9
    } else if i == 11 {
        10
    } else if i == 4 {
        11
    } else if i == 12 {
        12
    } else if i == 3 {
        13
    } else if i == 13 {
        14
    } else if i == 2 {
        15
    } else if i == 14 {
        16
    } else if i == 1 {
        17
    } else {
        18
    }
}

proof fn lemma_cl_read(cl: Seq<u8>, n: nat, rest: Seq<bool>)
    requires
        cl.len() == 19,
        n <= 19,
        forall|i: int| 0 <= i < 19 ==> #[trigger] cl[i] <= 7,
    ensures
        take_cl_lengths(cl_bits(cl, n) + rest, n) matches Ok((c, s)) && s == rest && c.len() == 19
            && (forall|k: int|
            0 <= k < 19 ==> c[#[trigger] cl_order(k) as int] == if k < n {
                cl[cl_order(k) as int]
            } else {
                0
            }),
    decreases n,
{
    if n == 0 {
        assert(cl_bits(cl, 0) + rest =~= rest);
        assert forall|k: int| 0 <= k < 19 implies cl_order(k) < 19 by {
            lemma_cl_order(k);
        }
    } else {
        let m = (n - 1) as nat;
        lemma_cl_order(m as int);
        let v = cl[cl_order(m as int) as int];
        let x = bits_of(v as nat, 3);
        lemma_cl_read(cl, m, x + rest);
        assert(cl_bits(cl, n) + rest =~= cl_bits(cl, m) + (x + rest));
        lemma_pow2_values();
        bits_roundtrip(v as nat, 3, rest);
        assert forall|k: int| 0 <= k < 19 implies #[trigger] cl_order(k) < 19 by {
            lemma_cl_order(k);
        }
    }
}

/// A header that was written is read again.
pub proof fn lemma_header_read(h: Header, rest: Seq<bool>)
    requires
        h.ok(),
    ensures
        take_header(h.bits() + rest) == Ok::<(Seq<u8>, Seq<u8>, Seq<bool>), Error>(
            (h.lit.take(h.hlit as int), h.dist.take(h.hdist as int), rest),
        ),
        lengths_ok(h.lit.take(h.hlit as int)),
        lengths_ok(h.dist.take(h.hdist as int)),
{
    reveal(take_header);
    lemma_pow2_values();
    let a = bits_of((h.hlit - 257) as nat, 5);
    let b = bits_of((h.hdist - 1) as nat, 5);
    let c = bits_of((h.hclen - 4) as nat, 4);
    let d = cl_bits(h.cl, h.hclen);
    let e = cl_symbols_bits(h.cl, h.syms);
    assert(h.bits() + rest =~= a + (b + (c + (d + (e + rest)))));
    bits_roundtrip((h.hlit - 257) as nat, 5, b + (c + (d + (e + rest))));
    bits_roundtrip((h.hdist - 1) as nat, 5, c + (d + (e + rest)));
    bits_roundtrip((h.hclen - 4) as nat, 4, d + (e + rest));
    lemma_cl_read(h.cl, h.hclen, e + rest);
    let got = take_cl_lengths(d + (e + rest), h.hclen)->Ok_0.0;
    assert(got =~= h.cl) by {
        assert forall|i: int| 0 <= i < 19 implies got[i] == h.cl[i] by {
            let k = lemma_cl_place(i);
            assert(got[cl_order(k) as int] == if k < h.hclen {
                h.cl[cl_order(k) as int]
            } else {
                0
            });
        }
    }
    lemma_lengths_read(h.cl, Seq::empty(), h.syms, rest);
    let lit = h.lit.take(h.hlit as int);
    let dist = h.dist.take(h.hdist as int);
    let all = lit + dist;
    assert(all.take(h.hlit as int) =~= lit);
    assert(all.skip(h.hlit as int) =~= dist);
    lemma_ok_trailing(h.lit, h.hlit as int);
    lemma_ok_trailing(h.dist, h.hdist as int);
}

// Blocks.

/// The bits written so far and a block of stored bytes, cut into chunks
/// that the 16-bit length field can hold.
pub open spec fn put_stored(w: Seq<bool>, raw: Seq<u8>, last: bool) -> Seq<bool>
    decreases raw.len(),
{
    let n: nat = if raw.len() < 65535 {
        raw.len()
    } else {
        65535
    };
    let head = padded(w + seq![last && n == raw.len()] + bits_of(0, 2));
    let out = head + bits_of(n, 16) + bits_of((65535 - n) as nat, 16) + bytes_bits(
        raw.take(n as int),
    );
    if n == raw.len() {
        out
    } else {
        put_stored(out, raw.skip(n as int), last)
    }
}

/// How many chunks `n` stored bytes are cut into.
pub open spec fn stored_chunks(n: nat) -> nat {
    if n == 0 {
        1
    } else {
        (n + 65534) / 65535
    }
}

/// What `n` stored bytes take up behind `at` bits, without the three bits
/// that every block starts with: padding, 32 bits of lengths and the bytes,
/// and for each further chunk a whole byte and 32 bits of lengths.
pub open spec fn stored_size(at: nat, n: nat) -> nat {
    ((8 - (at + 3) % 8) % 8 + 32 + 40 * (stored_chunks(n) - 1) + 8 * n) as nat
}

/// A fixed block's tokens.
pub open spec fn fixed_bits(tokens: Seq<Token>) -> Seq<bool> {
    body_bits(tokens, fixed_litlen(), fixed_dist())
}

/// A dynamic block's header and tokens.
pub open spec fn dynamic_bits(tokens: Seq<Token>) -> Seq<bool> {
    let h = header_for(tokens);
    h.bits() + body_bits(tokens, h.lit, h.dist)
}

/// The bits written so far and one more block, in its smallest form.
pub open spec fn put_block(w: Seq<bool>, tokens: Seq<Token>, raw: Seq<u8>, last: bool) -> Seq<
    bool,
> {
    let dynamic = dynamic_bits(tokens);
    let fixed = fixed_bits(tokens);
    if stored_size(w.len(), raw.len()) < dynamic.len() && stored_size(w.len(), raw.len())
        < fixed.len() {
        put_stored(w, raw, last)
    } else if fixed.len() <= dynamic.len() {
        w + seq![last] + bits_of(1, 2) + fixed
    } else {
        w + seq![last] + bits_of(2, 2) + dynamic
    }
}

/// The bits written so far and the blocks of `tokens`, which stand for
/// `input` from `pos` on.
pub open spec fn put_blocks(w: Seq<bool>, input: Seq<u8>, tokens: Seq<Token>, pos: nat) -> Seq<
    bool,
>
    decreases tokens.len(),
{
    if tokens.len() == 0 {
        w
    } else {
        let n: nat = if tokens.len() < 16384 {
            tokens.len()
        } else {
            16384
        };
        let block = tokens.take(n as int);
        let end = pos + span(block);
        put_blocks(
            put_block(
                w,
                block,
                input.subrange(pos as int, end as int),
                n == tokens.len(),
            ),
            input,
            tokens.skip(n as int),
            end,
        )
    }
}

/// A stored block takes up what it is reckoned to.
pub proof fn stored_size_is_exact(w: Seq<bool>, raw: Seq<u8>, last: bool)
    ensures
        put_stored(w, raw, last).len() == w.len() + 3 + stored_size(w.len(), raw.len()),
    decreases raw.len(),
{
    let n: nat = if raw.len() < 65535 {
        raw.len()
    } else {
        65535
    };
    lemma_bits_of_len(0, 2);
    lemma_bits_of_len(n, 16);
    lemma_bits_of_len((65535 - n) as nat, 16);
    let head = padded(w + seq![last && n == raw.len()] + bits_of(0, 2));
    let out = head + bits_of(n, 16) + bits_of((65535 - n) as nat, 16) + bytes_bits(
        raw.take(n as int),
    );
    assert(bytes_bits(raw.take(n as int)).len() == 8 * n);
    lemma_padded_len(w + seq![last && n == raw.len()] + bits_of(0, 2));
    if n < raw.len() {
        assert(out.len() % 8 == 0);
        stored_size_is_exact(out, raw.skip(n as int), last);
    }
}

/// Each block is written in its smallest form.
pub proof fn blocks_are_smallest(w: Seq<bool>, tokens: Seq<Token>, raw: Seq<u8>, last: bool)
    ensures
        put_block(w, tokens, raw, last).len() <= w.len() + 3 + fixed_bits(tokens).len(),
        put_block(w, tokens, raw, last).len() <= w.len() + 3 + dynamic_bits(tokens).len(),
        put_block(w, tokens, raw, last).len() <= put_stored(w, raw, last).len(),
{
    stored_size_is_exact(w, raw, last);
    lemma_bits_of_len(1, 2);
    lemma_bits_of_len(2, 2);
}

/// The bits of `input` as a raw Deflate stream at a level from 0 (store
/// only) to 9.
pub open spec fn deflated_bits(input: Seq<u8>, level: u8) -> Seq<bool> {
    if input.len() == 0 {
        // One final fixed block holding just end-of-block.
        seq![true] + bits_of(1, 2) + code_bits(fixed_litlen(), 256)
    } else if level == 0 {
        put_stored(Seq::empty(), input, true)
    } else {
        put_blocks(Seq::empty(), input, parsed(input, level_params(level)), 0)
    }
}

/// `a` is the start of `b`.
pub open spec fn starts(a: Seq<bool>, b: Seq<bool>) -> bool {
    a.len() <= b.len() && b.take(a.len() as int) == a
}

pub proof fn lemma_starts_trans(a: Seq<bool>, b: Seq<bool>, c: Seq<bool>)
    requires
        starts(a, b),
        starts(b, c),
    ensures
        starts(a, c),
{
    assert(c.take(a.len() as int) =~= b.take(a.len() as int));
}

pub proof fn lemma_starts_add(a: Seq<bool>, b: Seq<bool>)
    ensures
        starts(a, a + b),
{
    assert((a + b).take(a.len() as int) =~= a);
}

proof fn lemma_stored_extends(w: Seq<bool>, raw: Seq<u8>, last: bool)
    ensures
        starts(w, put_stored(w, raw, last)),
    decreases raw.len(),
{
    let n: nat = if raw.len() < 65535 {
        raw.len()
    } else {
        65535
    };
    let h = w + seq![last && n == raw.len()] + bits_of(0, 2);
    let head = padded(h);
    let out = head + bits_of(n, 16) + bits_of((65535 - n) as nat, 16) + bytes_bits(
        raw.take(n as int),
    );
    assert(out.take(w.len() as int) =~= w);
    if n != raw.len() {
        lemma_stored_extends(out, raw.skip(n as int), last);
        lemma_starts_trans(w, out, put_stored(out, raw.skip(n as int), last));
    }
}

proof fn lemma_block_extends(w: Seq<bool>, tokens: Seq<Token>, raw: Seq<u8>, last: bool)
    ensures
        starts(w, put_block(w, tokens, raw, last)),
{
    lemma_stored_extends(w, raw, last);
    let out = put_block(w, tokens, raw, last);
    assert(out.len() >= w.len());
    assert(out.take(w.len() as int) =~= w);
}

proof fn lemma_blocks_extend(w: Seq<bool>, input: Seq<u8>, tokens: Seq<Token>, pos: nat)
    ensures
        starts(w, put_blocks(w, input, tokens, pos)),
    decreases tokens.len(),
{
    if tokens.len() == 0 {
        assert(w.take(w.len() as int) =~= w);
    } else {
        let n: nat = if tokens.len() < 16384 {
            tokens.len()
        } else {
            16384
        };
        let block = tokens.take(n as int);
        let end = pos + span(block);
        let raw = input.subrange(pos as int, end as int);
        let next = put_block(w, block, raw, n == tokens.len());
        lemma_block_extends(w, block, raw, n == tokens.len());
        lemma_blocks_extend(next, input, tokens.skip(n as int), end);
        lemma_starts_trans(w, next, put_blocks(next, input, tokens.skip(n as int), end));
    }
}

/// A reader of `full` that has read `w` and the output `out` goes on to `w2`
/// and `out2`, and ends there if `last`.
pub open spec fn goes_on(
    full: Seq<bool>,
    w: Seq<bool>,
    out: Seq<u8>,
    w2: Seq<bool>,
    out2: Seq<u8>,
    last: bool,
    limit: nat,
) -> bool {
    take_blocks(full.skip(w.len() as int), out, limit) == if last {
        Ok::<(Seq<u8>, Seq<bool>), Error>((out2, full.skip(w2.len() as int)))
    } else {
        take_blocks(full.skip(w2.len() as int), out2, limit)
    }
}

pub proof fn lemma_flag(b: bool, rest: Seq<bool>)
    ensures
        take_bits(seq![b] + rest, 1) == Ok::<(nat, Seq<bool>), Error>(
            (
                if b {
                    1nat
                } else {
                    0nat
                },
                rest,
            ),
        ),
{
    let v: nat = if b {
        1
    } else {
        0
    };
    lemma_pow2_values();
    reveal_with_fuel(bits_of, 2);
    assert(bits_of(v, 1) =~= seq![b]);
    bits_roundtrip(v, 1, rest);
}

/// Reading a block whose bits are known.
proof fn lemma_goes_on(
    full: Seq<bool>,
    w: Seq<bool>,
    out: Seq<u8>,
    w2: Seq<bool>,
    out2: Seq<u8>,
    last: bool,
    limit: nat,
    kind: nat,
    body: Seq<bool>,
)
    requires
        kind < 3,
        full.skip(w.len() as int) == seq![last] + (bits_of(kind, 2) + body),
        take_body(kind, body, out, limit) == Ok::<(Seq<bool>, Seq<u8>), Error>(
            (full.skip(w2.len() as int), out2),
        ),
    ensures
        goes_on(full, w, out, w2, out2, last, limit),
{
    lemma_pow2_values();
    lemma_flag(last, bits_of(kind, 2) + body);
    bits_roundtrip(kind, 2, body);
}

/// A stored chunk behind its padding is read again.
proof fn lemma_take_stored(pad: nat, chunk: Seq<u8>, rest: Seq<bool>, out: Seq<u8>, limit: nat)
    requires
        chunk.len() <= 65535,
        pad < 8,
        rest.len() % 8 == 0,
        out.len() + chunk.len() <= limit,
    ensures
        take_stored(
            zeros(pad) + (bits_of(chunk.len(), 16) + (bits_of((65535 - chunk.len()) as nat, 16) + (
            bytes_bits(chunk) + rest))),
            out,
            limit,
        ) == Ok::<(Seq<bool>, Seq<u8>), Error>((rest, out + chunk)),
{
    lemma_pow2_values();
    let n = chunk.len();
    let a = bits_of(n, 16);
    let b = bits_of((65535 - n) as nat, 16);
    let c = bytes_bits(chunk);
    lemma_bits_of_len(n, 16);
    lemma_bits_of_len((65535 - n) as nat, 16);
    let data = a + (b + (c + rest));
    let body = zeros(pad) + data;
    assert(data.len() == 32 + 8 * n + rest.len());
    assert(body.len() % 8 == pad);
    assert(aligned(body) =~= data);
    bits_roundtrip(n, 16, b + (c + rest));
    bits_roundtrip((65535 - n) as nat, 16, c + rest);
    lemma_first_bytes(chunk, rest);
    assert((c + rest).skip(8 * n as int) =~= rest);
}

/// One stored chunk is read again.
pub proof fn lemma_chunk_read(
    w: Seq<bool>,
    chunk: Seq<u8>,
    flag: bool,
    full: Seq<bool>,
    out: Seq<u8>,
    limit: nat,
)
    requires
        chunk.len() <= 65535,
        full.len() % 8 == 0,
        out.len() + chunk.len() <= limit,
        starts(
            padded(w + seq![flag] + bits_of(0, 2)) + bits_of(chunk.len(), 16) + bits_of(
                (65535 - chunk.len()) as nat,
                16,
            ) + bytes_bits(chunk),
            full,
        ),
    ensures
        goes_on(
            full,
            w,
            out,
            padded(w + seq![flag] + bits_of(0, 2)) + bits_of(chunk.len(), 16) + bits_of(
                (65535 - chunk.len()) as nat,
                16,
            ) + bytes_bits(chunk),
            out + chunk,
            flag,
            limit,
        ),
{
    let n = chunk.len();
    let h = w + seq![flag] + bits_of(0, 2);
    let a = bits_of(n, 16);
    let b = bits_of((65535 - n) as nat, 16);
    let c = bytes_bits(chunk);
    lemma_bits_of_len(n, 16);
    lemma_bits_of_len((65535 - n) as nat, 16);
    let w2 = padded(h) + a + b + c;
    let rest = full.skip(w2.len() as int);
    assert(full =~= w2 + rest);
    lemma_padded_len(h);
    assert(w2.len() == padded(h).len() + 32 + 8 * n);
    assert(rest.len() % 8 == 0);
    let pad = ((8 - h.len() % 8) % 8) as nat;
    let body = zeros(pad) + (a + (b + (c + rest)));
    lemma_chunk_shape(w, flag, a, b, c, rest);
    lemma_take_stored(pad, chunk, rest, out, limit);
    lemma_goes_on(full, w, out, w2, out + chunk, flag, limit, 0, body);
}

proof fn lemma_padded_len(s: Seq<bool>)
    ensures
        padded(s).len() % 8 == 0,
{
}

/// What follows the bits before a stored chunk.
proof fn lemma_chunk_shape(
    w: Seq<bool>,
    flag: bool,
    a: Seq<bool>,
    b: Seq<bool>,
    c: Seq<bool>,
    rest: Seq<bool>,
)
    ensures
        ({
            let h = w + seq![flag] + bits_of(0, 2);
            let pad = zeros(((8 - h.len() % 8) % 8) as nat);
            (padded(h) + a + b + c + rest).skip(w.len() as int) == seq![flag] + (bits_of(0, 2) + (
            pad + (a + (b + (c + rest)))))
        }),
{
    let h = w + seq![flag] + bits_of(0, 2);
    let pad = zeros(((8 - h.len() % 8) % 8) as nat);
    assert((padded(h) + a + b + c + rest).skip(w.len() as int) =~= seq![flag] + (bits_of(0, 2) + (
    pad + (a + (b + (c + rest))))));
}

/// Stored bytes are read again.
proof fn lemma_stored_read(
    w: Seq<bool>,
    raw: Seq<u8>,
    last: bool,
    full: Seq<bool>,
    out: Seq<u8>,
    limit: nat,
)
    requires
        full.len() % 8 == 0,
        out.len() + raw.len() <= limit,
        starts(put_stored(w, raw, last), full),
    ensures
        goes_on(full, w, out, put_stored(w, raw, last), out + raw, last, limit),
    decreases raw.len(),
{
    let n: nat = if raw.len() < 65535 {
        raw.len()
    } else {
        65535
    };
    let chunk = raw.take(n as int);
    let flag = last && n == raw.len();
    let next = padded(w + seq![flag] + bits_of(0, 2)) + bits_of(chunk.len(), 16) + bits_of(
        (65535 - chunk.len()) as nat,
        16,
    ) + bytes_bits(chunk);
    if n == raw.len() {
        assert(chunk =~= raw);
        lemma_chunk_read(w, chunk, flag, full, out, limit);
    } else {
        let more = raw.skip(n as int);
        lemma_stored_extends(next, more, last);
        lemma_starts_trans(next, put_stored(next, more, last), full);
        lemma_chunk_read(w, chunk, flag, full, out, limit);
        assert((out + chunk) + more =~= out + raw);
        lemma_stored_read(next, more, last, full, out + chunk, limit);
    }
}

pub proof fn lemma_fixed_has_codes(tokens: Seq<Token>)
    requires
        tokens_sane(tokens),
    ensures
        has_codes(tokens, fixed_litlen(), fixed_dist()),
{
    assert forall|i: int| 0 <= i < tokens.len() implies has_code(
        #[trigger] tokens[i],
        fixed_litlen(),
        fixed_dist(),
    ) by {
        lemma_lit_symbol(tokens[i]);
        match tokens[i] {
            Token::Literal(_) => {},
            Token::Match { len, dist } => {
                dists_roundtrip(dist as nat);
            },
        }
    }
}

/// A block is read again, whatever form it was written in.
proof fn lemma_block_read(
    w: Seq<bool>,
    tokens: Seq<Token>,
    last: bool,
    full: Seq<bool>,
    data: Seq<u8>,
    pos: nat,
    limit: nat,
)
    requires
        full.len() % 8 == 0,
        pos <= data.len() <= limit,
        tokens_at(data, pos, tokens),
        pos + span(tokens) <= data.len(),
        tokens.len() <= 16384,
        starts(
            put_block(
                w,
                tokens,
                data.subrange(pos as int, (pos + span(tokens)) as int),
                last,
            ),
            full,
        ),
    ensures
        goes_on(
            full,
            w,
            data.take(pos as int),
            put_block(w, tokens, data.subrange(pos as int, (pos + span(tokens)) as int), last),
            data.take((pos + span(tokens)) as int),
            last,
            limit,
        ),
{
    lemma_pow2_values();
    let end = pos + span(tokens);
    let raw = data.subrange(pos as int, end as int);
    let w2 = put_block(w, tokens, raw, last);
    let out = data.take(pos as int);
    let dynamic = dynamic_bits(tokens);
    let fixed = fixed_bits(tokens);
    lemma_sane(data, pos, tokens);
    if stored_size(w.len(), raw.len()) < dynamic.len() && stored_size(w.len(), raw.len())
        < fixed.len() {
        lemma_stored_read(w, raw, last, full, out, limit);
        assert(out + raw =~= data.take(end as int));
    } else {
        let rest = full.skip(w2.len() as int);
        assert(full =~= w2 + rest);
        if fixed.len() <= dynamic.len() {
            lemma_fixed_read(full, w, tokens, last, data, pos, limit, rest);
        } else {
            lemma_dynamic_read(full, w, tokens, last, data, pos, limit, rest);
        }
    }
}

pub proof fn lemma_fixed_read(
    full: Seq<bool>,
    w: Seq<bool>,
    tokens: Seq<Token>,
    last: bool,
    data: Seq<u8>,
    pos: nat,
    limit: nat,
    rest: Seq<bool>,
)
    requires
        pos <= data.len() <= limit,
        tokens_at(data, pos, tokens),
        full == w + seq![last] + bits_of(1, 2) + fixed_bits(tokens) + rest,
    ensures
        goes_on(
            full,
            w,
            data.take(pos as int),
            w + seq![last] + bits_of(1, 2) + fixed_bits(tokens),
            data.take((pos + span(tokens)) as int),
            last,
            limit,
        ),
{
    let fixed = fixed_bits(tokens);
    let w2 = w + seq![last] + bits_of(1, 2) + fixed;
    lemma_sane(data, pos, tokens);
    lemma_fixed_ok();
    lemma_fixed_has_codes(tokens);
    lemma_codes_read(data, pos, tokens, fixed_litlen(), fixed_dist(), limit, rest);
    assert(full.skip(w.len() as int) =~= seq![last] + (bits_of(1, 2) + (fixed + rest)));
    assert(full.skip(w2.len() as int) =~= rest);
    lemma_goes_on(
        full,
        w,
        data.take(pos as int),
        w2,
        data.take((pos + span(tokens)) as int),
        last,
        limit,
        1,
        fixed + rest,
    );
}

proof fn lemma_dynamic_read(
    full: Seq<bool>,
    w: Seq<bool>,
    tokens: Seq<Token>,
    last: bool,
    data: Seq<u8>,
    pos: nat,
    limit: nat,
    rest: Seq<bool>,
)
    requires
        pos <= data.len() <= limit,
        tokens_at(data, pos, tokens),
        tokens.len() <= 16384,
        full == w + seq![last] + bits_of(2, 2) + dynamic_bits(tokens) + rest,
    ensures
        goes_on(
            full,
            w,
            data.take(pos as int),
            w + seq![last] + bits_of(2, 2) + dynamic_bits(tokens),
            data.take((pos + span(tokens)) as int),
            last,
            limit,
        ),
{
    lemma_sane(data, pos, tokens);
    lemma_header(tokens);
    lemma_any_dynamic_read(full, w, header_for(tokens), tokens, last, data, pos, limit, rest);
}

/// A dynamic block with any codes is read again.
pub proof fn lemma_any_dynamic_read(
    full: Seq<bool>,
    w: Seq<bool>,
    h: Header,
    tokens: Seq<Token>,
    last: bool,
    data: Seq<u8>,
    pos: nat,
    limit: nat,
    rest: Seq<bool>,
)
    requires
        pos <= data.len() <= limit,
        tokens_at(data, pos, tokens),
        h.ok(),
        has_codes(tokens, h.lit, h.dist),
        full == w + seq![last] + bits_of(2, 2) + (h.bits() + body_bits(tokens, h.lit, h.dist))
            + rest,
    ensures
        goes_on(
            full,
            w,
            data.take(pos as int),
            w + seq![last] + bits_of(2, 2) + (h.bits() + body_bits(tokens, h.lit, h.dist)),
            data.take((pos + span(tokens)) as int),
            last,
            limit,
        ),
{
    let body = body_bits(tokens, h.lit, h.dist);
    let w2 = w + seq![last] + bits_of(2, 2) + (h.bits() + body);
    lemma_header_read(h, body + rest);
    lemma_tokens_trailing(tokens, h.lit, h.dist, h.hlit as int, h.hdist as int);
    lemma_codes_read(
        data,
        pos,
        tokens,
        h.lit.take(h.hlit as int),
        h.dist.take(h.hdist as int),
        limit,
        rest,
    );
    let all = h.bits() + (body + rest);
    assert(full.skip(w.len() as int) =~= seq![last] + (bits_of(2, 2) + all));
    assert(full.skip(w2.len() as int) =~= rest);
    lemma_goes_on(
        full,
        w,
        data.take(pos as int),
        w2,
        data.take((pos + span(tokens)) as int),
        last,
        limit,
        2,
        all,
    );
}

proof fn lemma_blocks_read(
    w: Seq<bool>,
    tokens: Seq<Token>,
    full: Seq<bool>,
    data: Seq<u8>,
    pos: nat,
    limit: nat,
)
    requires
        full.len() % 8 == 0,
        pos <= data.len() <= limit,
        tokens_ok(data, pos as int, tokens),
        tokens.len() > 0,
        starts(put_blocks(w, data, tokens, pos), full),
    ensures
        goes_on(
            full,
            w,
            data.take(pos as int),
            put_blocks(w, data, tokens, pos),
            data,
            true,
            limit,
        ),
    decreases tokens.len(),
{
    let n: nat = if tokens.len() < 16384 {
        tokens.len()
    } else {
        16384
    };
    let block = tokens.take(n as int);
    let more = tokens.skip(n as int);
    let end = pos + span(block);
    let last = n == tokens.len();
    lemma_tokens_split(data, pos, tokens, n as int);
    let raw = data.subrange(pos as int, end as int);
    let next = put_block(w, block, raw, last);
    let all = put_blocks(next, data, more, end);
    lemma_blocks_extend(next, data, more, end);
    lemma_starts_trans(next, all, full);
    lemma_block_read(w, block, last, full, data, pos, limit);
    if last {
        assert(more =~= Seq::<Token>::empty());
        assert(data.take(end as int) =~= data);
    } else {
        lemma_blocks_read(next, more, full, data, end, limit);
    }
}

/// Whatever the level, a Deflate stream of `input` inflates to `input`, and
/// takes up all of its bytes, whatever follows it.
pub proof fn deflate_is_lossless(
    input: Seq<u8>,
    level: u8,
    stream: Seq<u8>,
    tail: Seq<u8>,
    limit: nat,
)
    requires
        bytes_bits(stream) == padded(deflated_bits(input, level)),
        input.len() <= limit,
    ensures
        inflated(stream + tail, limit) == Ok::<(Seq<u8>, nat), Error>((input, stream.len())),
{
    let w = deflated_bits(input, level);
    let full = bytes_bits(stream + tail);
    lemma_stream_shape(w, stream, tail);
    lemma_deflated_read(input, level, full, limit);
    lemma_consumed(w, stream, tail, input, limit);
}

/// Each token stands for a byte at least.
proof fn lemma_span_len(data: Seq<u8>, pos: nat, tokens: Seq<Token>)
    requires
        tokens_at(data, pos, tokens),
    ensures
        span(tokens) >= tokens.len(),
    decreases tokens.len(),
{
    if tokens.len() > 0 {
        lemma_applied(data, pos as int, tokens[0]);
        lemma_span_len(data, pos + tokens[0].span(), tokens.skip(1));
    }
}

/// The most bits that a stream of `n` bytes takes up: the bytes, and what
/// blocks of 16384 tokens and stored chunks of 65535 bytes add to them.
pub open spec fn most_bits(n: nat) -> nat {
    8 * n + 40 * (n / 65535) + 42 * ((n + 16383) / 16384)
}

proof fn lemma_block_bound(w: Seq<bool>, tokens: Seq<Token>, raw: Seq<u8>, last: bool)
    ensures
        put_block(w, tokens, raw, last).len() <= w.len() + 8 * raw.len() + 40 * (raw.len() / 65535)
            + 42,
{
    blocks_are_smallest(w, tokens, raw, last);
    stored_size_is_exact(w, raw, last);
}

proof fn lemma_most_bits(s: nat, n: nat)
    requires
        0 < s <= n,
        s >= 16384 || s == n,
    ensures
        8 * s + 40 * (s / 65535) + 42 + most_bits((n - s) as nat) <= most_bits(n),
{
}

proof fn lemma_blocks_bound(w: Seq<bool>, data: Seq<u8>, tokens: Seq<Token>, pos: nat)
    requires
        pos <= data.len(),
        tokens_ok(data, pos as int, tokens),
    ensures
        put_blocks(w, data, tokens, pos).len() <= w.len() + most_bits((data.len() - pos) as nat),
    decreases tokens.len(),
{
    if tokens.len() > 0 {
        let n: nat = if tokens.len() < 16384 {
            tokens.len()
        } else {
            16384
        };
        let block = tokens.take(n as int);
        let end = pos + span(block);
        lemma_tokens_split(data, pos, tokens, n as int);
        lemma_span_len(data, pos, block);
        let raw = data.subrange(pos as int, end as int);
        let last = n == tokens.len();
        if last {
            assert(tokens.skip(n as int).len() == 0);
        }
        lemma_block_bound(w, block, raw, last);
        lemma_most_bits(raw.len(), (data.len() - pos) as nat);
        lemma_blocks_bound(put_block(w, block, raw, last), data, tokens.skip(n as int), end);
    }
}

/// Whatever the level, a stream is never much larger than its input.
pub proof fn growth_is_bounded(input: Seq<u8>, level: u8)
    ensures
        input.len() == 0 ==> deflated_bits(input, level).len() == 10,
        input.len() > 0 ==> deflated_bits(input, level).len() <= most_bits(input.len()),
{
    if input.len() == 0 {
        lemma_bits_of_len(1, 2);
        lemma_bits_of_len(code_of(fixed_litlen(), 256), 7);
    } else if level == 0 {
        stored_size_is_exact(Seq::empty(), input, true);
    } else {
        let params = level_params(level);
        parse_is_lossless(input, params);
        lemma_blocks_bound(Seq::empty(), input, parsed(input, params), 0);
    }
}

/// The bits of a stream come first in what it is part of.
pub proof fn lemma_stream_shape(w: Seq<bool>, stream: Seq<u8>, tail: Seq<u8>)
    requires
        bytes_bits(stream) == padded(w),
    ensures
        starts(w, bytes_bits(stream + tail)),
        bytes_bits(stream + tail).len() % 8 == 0,
        aligned(bytes_bits(stream + tail).skip(w.len() as int)).len() == 8 * tail.len(),
{
    let full = bytes_bits(stream + tail);
    lemma_packed_bytes(stream, w);
    lemma_before_bytes(w, tail);
    let rest = zeros(((8 - w.len() % 8) % 8) as nat) + bytes_bits(tail);
    lemma_starts_add(w, rest);
    assert(full.skip(w.len() as int) =~= rest);
    assert(full.len() == 8 * (stream + tail).len());
}

/// A stream takes up all of its bytes.
pub proof fn lemma_consumed(
    w: Seq<bool>,
    stream: Seq<u8>,
    tail: Seq<u8>,
    input: Seq<u8>,
    limit: nat,
)
    requires
        aligned(bytes_bits(stream + tail).skip(w.len() as int)).len() == 8 * tail.len(),
        take_blocks(bytes_bits(stream + tail), Seq::empty(), limit) == Ok::<
            (Seq<u8>, Seq<bool>),
            Error,
        >((input, bytes_bits(stream + tail).skip(w.len() as int))),
    ensures
        inflated(stream + tail, limit) == Ok::<(Seq<u8>, nat), Error>((input, stream.len())),
{
    assert((stream + tail).len() == stream.len() + tail.len());
}

/// The bits of a stream are read again.
proof fn lemma_deflated_read(input: Seq<u8>, level: u8, full: Seq<bool>, limit: nat)
    requires
        full.len() % 8 == 0,
        input.len() <= limit,
        starts(deflated_bits(input, level), full),
    ensures
        take_blocks(full, Seq::empty(), limit) == Ok::<(Seq<u8>, Seq<bool>), Error>(
            (input, full.skip(deflated_bits(input, level).len() as int)),
        ),
{
    let none = Seq::<bool>::empty();
    assert(full.skip(0) =~= full);
    assert(input.take(0) =~= Seq::<u8>::empty());
    if input.len() == 0 {
        lemma_empty_read(full, limit);
        assert(input =~= Seq::<u8>::empty());
    } else if level == 0 {
        lemma_stored_read(none, input, true, full, Seq::empty(), limit);
        assert(Seq::<u8>::empty() + input =~= input);
    } else {
        let params = level_params(level);
        parse_is_lossless(input, params);
        lemma_blocks_read(none, parsed(input, params), full, input, 0, limit);
    }
}

proof fn lemma_empty_read(full: Seq<bool>, limit: nat)
    requires
        starts(seq![true] + bits_of(1, 2) + code_bits(fixed_litlen(), 256), full),
    ensures
        take_blocks(full, Seq::empty(), limit) == Ok::<(Seq<u8>, Seq<bool>), Error>(
            (
                Seq::empty(),
                full.skip((seq![true] + bits_of(1, 2) + code_bits(fixed_litlen(), 256)).len() as int),
            ),
        ),
{
    lemma_pow2_values();
    let e = code_bits(fixed_litlen(), 256);
    let w = seq![true] + bits_of(1, 2) + e;
    let rest = full.skip(w.len() as int);
    assert(full =~= w + rest);
    assert(full =~= seq![true] + (bits_of(1, 2) + (e + rest)));
    lemma_flag(true, bits_of(1, 2) + (e + rest));
    bits_roundtrip(1, 2, e + rest);
    lemma_fixed_ok();
    symbols_roundtrip(fixed_litlen(), 256, rest);
}

} // verus!
