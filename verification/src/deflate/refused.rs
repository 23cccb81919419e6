//! What is not a Deflate stream, and how it is answered.
use crate::bits::aligned;
use crate::bits::bits_of;
use crate::bits::bits_roundtrip;
use crate::bits::lemma_bits_of_len;
use crate::bits::take_bits;
use crate::deflate::blocks::has_code;
use crate::deflate::blocks::lemma_flag;
use crate::deflate::blocks::lemma_take_match;
use crate::deflate::blocks::token_bits;
use crate::deflate::format::run_of;
use crate::deflate::format::take_blocks;
use crate::deflate::format::take_cl_lengths;
use crate::deflate::format::take_codes;
use crate::deflate::format::take_header;
use crate::deflate::format::take_lengths;
use crate::deflate::format::take_run;
use crate::deflate::tables::coded_dist;
use crate::deflate::tables::coded_length;
use crate::deflate::tables::lengths_roundtrip;
use crate::error::Error;
use crate::huffman::check;
use crate::huffman::code_bits;
use crate::huffman::lemma_take_symbol;
use crate::huffman::lengths_ok;
use crate::huffman::symbols_roundtrip;
use crate::huffman::take_symbol;
use crate::lz77::copied;
use crate::lz77::Token;
use crate::nums::lemma_pow2_values;
use vstd::prelude::*;

verus! {

/// A block with fewer bits than its head needs, and one of the kind that is
/// kept back, are refused, whatever came before.
pub proof fn bad_heads_are_refused(s: Seq<bool>, out: Seq<u8>, limit: nat)
    ensures
        s.len() < 3 ==> take_blocks(s, out, limit) == Err::<(Seq<u8>, Seq<bool>), Error>(
            Error::UnexpectedEof,
        ),
        s.len() >= 3 && s[1] && s[2] ==> take_blocks(s, out, limit) == Err::<
            (Seq<u8>, Seq<bool>),
            Error,
        >(Error::Corrupt("reserved deflate block type 3")),
{
    if s.len() >= 3 && s[1] && s[2] {
        let rest = s.skip(3);
        lemma_pow2_values();
        reveal_with_fuel(bits_of, 3);
        assert(bits_of(3, 2) =~= seq![true, true]);
        assert(s =~= seq![s[0]] + (bits_of(3, 2) + rest));
        lemma_flag(s[0], bits_of(3, 2) + rest);
        bits_roundtrip(3, 2, rest);
    }
}

/// A stored block is refused if its two lengths are not complements, if it
/// does not fit behind `out`, or if bytes are missing, and in that order.
pub proof fn bad_stored_blocks_are_refused(
    last: bool,
    pad: Seq<bool>,
    len: nat,
    nlen: nat,
    rest: Seq<bool>,
    out: Seq<u8>,
    limit: nat,
)
    requires
        pad.len() < 8,
        len < 65536,
        nlen < 65536,
        rest.len() % 8 == 0,
    ensures
        ({
            let s = seq![last, false, false] + (pad + (bits_of(len, 16) + (bits_of(nlen, 16)
                + rest)));
            let r = take_blocks(s, out, limit);
            &&& len + nlen != 65535 ==> r == Err::<(Seq<u8>, Seq<bool>), Error>(
                Error::Corrupt("stored block length check failed"),
            )
            &&& len + nlen == 65535 && out.len() + len > limit ==> r == Err::<
                (Seq<u8>, Seq<bool>),
                Error,
            >(Error::Corrupt("deflate output larger than allowed"))
            &&& len + nlen == 65535 && out.len() + len <= limit && rest.len() < 8 * len ==> r
                == Err::<(Seq<u8>, Seq<bool>), Error>(Error::UnexpectedEof)
        }),
{
    let a = bits_of(len, 16);
    let b = bits_of(nlen, 16);
    let body = pad + (a + (b + rest));
    let s = seq![last, false, false] + body;
    lemma_pow2_values();
    lemma_bits_of_len(len, 16);
    lemma_bits_of_len(nlen, 16);
    reveal_with_fuel(bits_of, 3);
    assert(bits_of(0, 2) =~= seq![false, false]);
    assert(s =~= seq![last] + (bits_of(0, 2) + body));
    lemma_flag(last, bits_of(0, 2) + body);
    bits_roundtrip(0, 2, body);
    assert(body.len() == pad.len() + 32 + rest.len());
    assert(body.len() % 8 == pad.len());
    assert(aligned(body) =~= a + (b + rest));
    bits_roundtrip(len, 16, b + rest);
    bits_roundtrip(nlen, 16, rest);
}

/// A token is taken only if it copies from what is there and its bytes fit;
/// reading then goes on behind them.
pub proof fn tokens_are_checked(
    t: Token,
    lit: Seq<u8>,
    dist: Seq<u8>,
    rest: Seq<bool>,
    out: Seq<u8>,
    limit: nat,
)
    requires
        lengths_ok(lit),
        lengths_ok(dist),
        dist.len() <= 30,
        has_code(t, lit, dist),
        t matches Token::Match { len, dist: d } ==> 3 <= len <= 258 && 1 <= d <= 32768,
    ensures
        ({
            let r = take_codes(token_bits(t, lit, dist) + rest, out, limit, lit, dist);
            match t {
                Token::Literal(b) => r == if out.len() < limit {
                    take_codes(rest, out + seq![b], limit, lit, dist)
                } else {
                    Err(Error::Corrupt("deflate output larger than allowed"))
                },
                Token::Match { len, dist: d } => r == if d > out.len() {
                    Err(Error::Corrupt("match distance before start of data"))
                } else if out.len() + len > limit {
                    Err(Error::Corrupt("deflate output larger than allowed"))
                } else {
                    take_codes(rest, copied(out, d as nat, len as nat), limit, lit, dist)
                },
            }
        }),
{
    let s = token_bits(t, lit, dist) + rest;
    match t {
        Token::Literal(b) => {
            symbols_roundtrip(lit, b as int, rest);
            lemma_take_symbol(lit, s);
            assert(out.push(b) =~= out + seq![b]);
        },
        Token::Match { len, dist: d } => {
            let l = coded_length(len as nat);
            let dc = coded_dist(d as nat);
            let x = bits_of(l.extra as nat, l.extra_bits as nat);
            let y = bits_of(dc.extra as nat, dc.extra_bits as nat);
            let c = code_bits(dist, dc.index as int);
            assert(s =~= code_bits(lit, 257 + l.index) + (x + c + y + rest));
            lengths_roundtrip(len as nat);
            symbols_roundtrip(lit, 257 + l.index, x + c + y + rest);
            lemma_take_match(len as nat, d as nat, dist, rest);
            lemma_take_symbol(lit, s);
        },
    }
}

/// The two length symbols that stand for no length are refused.
pub proof fn unused_symbols_are_refused(
    symbol: nat,
    lit: Seq<u8>,
    dist: Seq<u8>,
    rest: Seq<bool>,
    out: Seq<u8>,
    limit: nat,
)
    requires
        lengths_ok(lit),
        286 <= symbol < lit.len(),
        lit[symbol as int] > 0,
    ensures
        take_codes(code_bits(lit, symbol as int) + rest, out, limit, lit, dist) == Err::<
            (Seq<bool>, Seq<u8>),
            Error,
        >(Error::Corrupt("invalid length symbol")),
{
    symbols_roundtrip(lit, symbol as int, rest);
}

/// A dynamic block with more codes than there are symbols is refused.
pub proof fn large_tables_are_refused(hlit: nat, hdist: nat, rest: Seq<bool>)
    requires
        257 <= hlit <= 288,
        1 <= hdist <= 32,
        hlit > 286 || hdist > 30,
        rest.len() >= 4,
    ensures
        take_header(bits_of((hlit - 257) as nat, 5) + (bits_of((hdist - 1) as nat, 5) + rest))
            == Err::<(Seq<u8>, Seq<u8>, Seq<bool>), Error>(
            Error::Corrupt("too many deflate codes"),
        ),
{
    reveal(take_header);
    lemma_pow2_values();
    bits_roundtrip((hlit - 257) as nat, 5, bits_of((hdist - 1) as nat, 5) + rest);
    bits_roundtrip((hdist - 1) as nat, 5, rest);
}

/// Tables that are accepted have a code for the end of the block, and both
/// are codes that lengths can describe.
pub proof fn accepted_tables_are_codes(s: Seq<bool>)
    ensures
        take_header(s) matches Ok((lit, dist, _)) ==> {
            &&& 257 <= lit.len() <= 286
            &&& 1 <= dist.len() <= 30
            &&& lit[256] > 0
            &&& check(lit) is Ok
            &&& check(dist) is Ok
        },
{
    reveal(take_header);
    match take_bits(s, 5) {
        Ok((a, s1)) => match take_bits(s1, 5) {
            Ok((b, s2)) => match take_bits(s2, 4) {
                Ok((c, s3)) => {
                    if let Ok((cl, s4)) = take_cl_lengths(s3, c + 4) {
                        lemma_lengths_total(s4, cl, Seq::empty(), a + 257 + (b + 1));
                    }
                },
                Err(_) => {},
            },
            Err(_) => {},
        },
        Err(_) => {},
    }
}

/// Lengths that are read are as many as are asked for.
proof fn lemma_lengths_total(s: Seq<bool>, cl: Seq<u8>, so_far: Seq<u8>, total: nat)
    requires
        so_far.len() <= total,
    ensures
        take_lengths(s, cl, so_far, total) matches Ok(r) ==> r.0.len() == total,
    decreases s.len(),
{
    if so_far.len() < total {
        lemma_take_symbol(cl, s);
        if let Ok((sym, s1)) = take_symbol(cl, s) {
            if let Ok((value, repeat, s2)) = take_run(sym, so_far, s1) {
                if so_far.len() + repeat <= total {
                    lemma_lengths_total(s2, cl, so_far + run_of(value, repeat), total);
                }
            }
        }
    }
}

/// A repeat of the length before, where there is none, and a run of lengths
/// beyond the last are refused.
pub proof fn bad_runs_are_refused(
    cl: Seq<u8>,
    so_far: Seq<u8>,
    total: nat,
    symbol: nat,
    extra: nat,
    rest: Seq<bool>,
)
    requires
        lengths_ok(cl),
        cl.len() == 19,
        16 <= symbol <= 18,
        cl[symbol as int] > 0,
        so_far.len() < total,
        extra < (if symbol == 16 {
            4nat
        } else if symbol == 17 {
            8nat
        } else {
            128nat
        }),
    ensures
        ({
            let width: nat = if symbol == 16 {
                2
            } else if symbol == 17 {
                3
            } else {
                7
            };
            let least: nat = if symbol == 18 {
                11
            } else {
                3
            };
            let s = code_bits(cl, symbol as int) + (bits_of(extra, width) + rest);
            let r = take_lengths(s, cl, so_far, total);
            &&& symbol == 16 && so_far.len() == 0 ==> r == Err::<(Seq<u8>, Seq<bool>), Error>(
                Error::Corrupt("repeat with no previous length"),
            )
            &&& so_far.len() > 0 && so_far.len() + least + extra > total ==> r == Err::<
                (Seq<u8>, Seq<bool>),
                Error,
            >(Error::Corrupt("code lengths overflow"))
        }),
{
    let width: nat = if symbol == 16 {
        2
    } else if symbol == 17 {
        3
    } else {
        7
    };
    lemma_pow2_values();
    symbols_roundtrip(cl, symbol as int, bits_of(extra, width) + rest);
    bits_roundtrip(extra, width, rest);
}

} // verus!
