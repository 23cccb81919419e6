//! What RFC 1951 says a stream is: blocks of three kinds by any encoder, and
//! that this is what is read and what is written.
use crate::bits::bits_of;
use crate::bits::bytes_bits;
use crate::bits::padded;
use crate::deflate::blocks::body_bits;
use crate::deflate::blocks::cl_bits;
use crate::deflate::blocks::cl_symbols_bits;
use crate::deflate::blocks::deflated_bits;
use crate::deflate::blocks::dynamic_bits;
use crate::deflate::blocks::fixed_bits;
use crate::deflate::blocks::goes_on;
use crate::deflate::blocks::has_codes;
use crate::deflate::blocks::header_for;
use crate::deflate::blocks::lemma_any_dynamic_read;
use crate::deflate::blocks::lemma_chunk_read;
use crate::deflate::blocks::lemma_consumed;
use crate::deflate::blocks::lemma_fixed_read;
use crate::deflate::blocks::lemma_header;
use crate::deflate::blocks::lemma_sane;
use crate::deflate::blocks::lemma_starts_trans;
use crate::deflate::blocks::lemma_stream_shape;
use crate::deflate::blocks::lemma_tokens_split;
use crate::deflate::blocks::put_block;
use crate::deflate::blocks::put_blocks;
use crate::deflate::blocks::put_stored;
use crate::deflate::blocks::span;
use crate::deflate::blocks::starts;
use crate::deflate::blocks::stored_size;
use crate::deflate::blocks::token_bits;
use crate::deflate::blocks::tokens_at;
use crate::deflate::blocks::tokens_bits;
use crate::deflate::blocks::unrle;
use crate::deflate::blocks::Header;
use crate::deflate::blocks::dist_counts;
use crate::deflate::blocks::lemma_counts;
use crate::deflate::blocks::lemma_lit_symbol;
use crate::deflate::blocks::lemma_run_len;
use crate::deflate::blocks::lemma_run_len_is;
use crate::deflate::blocks::lemma_total_at;
use crate::deflate::blocks::lit_counts;
use crate::deflate::blocks::nonzero;
use crate::deflate::blocks::repeat_symbols;
use crate::deflate::blocks::rle;
use crate::deflate::blocks::rle_from;
use crate::deflate::blocks::run_len;
use crate::deflate::blocks::run_symbols;
use crate::deflate::blocks::tokens_sane;
use crate::deflate::blocks::zero_symbols;
use crate::huffman::lengths::lengths_for;
use crate::bits::lemma_bits_of_len;
use crate::deflate::blocks::blocks_are_smallest;
use crate::deflate::blocks::lemma_tokens_bits_add;
use crate::huffman::code_of;
use crate::deflate::format::inflated;
use crate::deflate::format::take_blocks;
use crate::deflate::tables::cl_order;
use crate::deflate::tables::dist_base;
use crate::deflate::tables::dist_extra;
use crate::deflate::tables::dists_roundtrip;
use crate::deflate::tables::fixed_dist;
use crate::deflate::tables::fixed_litlen;
use crate::deflate::tables::length_base;
use crate::deflate::tables::length_extra;
use crate::deflate::tables::lengths_roundtrip;
use crate::error::Error;
use crate::huffman::code_bits;
use crate::lz77::level_params;
use crate::lz77::parse_is_lossless;
use crate::lz77::parsed;
use crate::lz77::tokens_ok;
use crate::lz77::Token;
use crate::nums::lemma_pow2_values;
use vstd::arithmetic::power2::pow2;
use vstd::prelude::*;

verus! {

/// The tables follow rules: two distance codes for each number of extra
/// bits, four length codes, each code starting where the one before it ends.
/// Only the longest length has a code of its own.
pub proof fn tables_follow_rules(i: int)
    ensures
        0 <= i < 4 ==> dist_base(i) == 1 + i && dist_extra(i) == 0,
        4 <= i < 30 ==> dist_extra(i) == i / 2 - 1 && dist_base(i) == 1 + (if i % 2 == 0 {
            2nat
        } else {
            3nat
        }) * pow2(dist_extra(i)),
        0 <= i < 8 ==> length_base(i) == 3 + i && length_extra(i) == 0,
        8 <= i < 28 ==> length_extra(i) == i / 4 - 1 && length_base(i) == 3 + (if i % 4 == 0 {
            4nat
        } else if i % 4 == 1 {
            5nat
        } else if i % 4 == 2 {
            6nat
        } else {
            7nat
        }) * pow2(length_extra(i)),
        i == 28 ==> length_base(i) == 258 && length_extra(i) == 0,
        // The order of the code-length code lengths: the three repeats, 0, and
        // then by how far they are from 8.
        0 <= i < 3 ==> cl_order(i) == 16 + i,
        i == 3 ==> cl_order(i) == 0,
        4 <= i < 19 && i % 2 == 0 ==> cl_order(i) == 8 + (i - 4) / 2,
        4 <= i < 19 && i % 2 == 1 ==> cl_order(i) == 7 - (i - 5) / 2,
        // The fixed codes.
        0 <= i < 144 || 280 <= i < 288 ==> fixed_litlen()[i] == 8,
        144 <= i < 256 ==> fixed_litlen()[i] == 9,
        256 <= i < 280 ==> fixed_litlen()[i] == 7,
        0 <= i < 30 ==> fixed_dist()[i] == 5,
        fixed_litlen().len() == 288,
        fixed_dist().len() == 30,
{
    reveal(dist_base);
    reveal(dist_extra);
    reveal(length_base);
    reveal(length_extra);
    reveal(cl_order);
    lemma_pow2_values();
}

/// A match is the code of its length, the extra bits of that from the lowest
/// up, the code of its distance and the extra bits of that: `i` and `d` are
/// the codes that the two lie in.
pub proof fn tokens_are_laid_out(
    len: u16,
    dist: u16,
    b: u8,
    i: int,
    d: int,
    lit: Seq<u8>,
    codes: Seq<u8>,
)
    requires
        3 <= len <= 258,
        1 <= dist <= 32768,
        0 <= i < 29,
        0 <= d < 30,
        length_base(i) <= len,
        i < 28 ==> len < length_base(i + 1),
        dist_base(d) <= dist,
        d < 29 ==> dist < dist_base(d + 1),
    ensures
        token_bits(Token::Literal(b), lit, codes) == code_bits(lit, b as int),
        token_bits(Token::Match { len, dist }, lit, codes) == code_bits(lit, 257 + i) + bits_of(
            (len - length_base(i)) as nat,
            length_extra(i),
        ) + code_bits(codes, d) + bits_of((dist - dist_base(d)) as nat, dist_extra(d)),
{
    lemma_length_is(len as nat, i, 28);
    lemma_dist_is(dist as nat, d, 29);
    lengths_roundtrip(len as nat);
    dists_roundtrip(dist as nat);
}

proof fn lemma_length_is(len: nat, i: int, k: int)
    requires
        0 <= i <= k <= 28,
        length_base(i) <= len,
        i < 28 ==> len < length_base(i + 1),
        len >= 3,
    ensures
        crate::deflate::tables::length_index(len, k) == i,
    decreases k,
{
    if i < k {
        lemma_lengths_rise(i + 1, k);
        lemma_length_is(len, i, k - 1);
    }
}

proof fn lemma_lengths_rise(a: int, b: int)
    requires
        0 <= a <= b <= 28,
    ensures
        length_base(a) <= length_base(b),
    decreases b - a,
{
    if a < b {
        crate::deflate::tables::lemma_length_codes(b - 1);
        lemma_lengths_rise(a, b - 1);
    }
}

proof fn lemma_dist_is(dist: nat, d: int, k: int)
    requires
        0 <= d <= k <= 29,
        dist_base(d) <= dist,
        d < 29 ==> dist < dist_base(d + 1),
    ensures
        crate::deflate::tables::dist_index(dist, k) == d,
    decreases k,
{
    if d < k {
        lemma_dists_rise(d + 1, k);
        lemma_dist_is(dist, d, k - 1);
    }
}

proof fn lemma_dists_rise(a: int, b: int)
    requires
        0 <= a <= b <= 29,
    ensures
        dist_base(a) <= dist_base(b),
    decreases b - a,
{
    if a < b {
        crate::deflate::tables::lemma_dist_codes(b - 1);
        lemma_dists_rise(a, b - 1);
    }
}

/// The tokens of a block stand one behind the other, and its end behind them.
pub proof fn bodies_are_laid_out(tokens: Seq<Token>, t: Token, lit: Seq<u8>, codes: Seq<u8>)
    ensures
        tokens_bits(Seq::empty(), lit, codes) == Seq::<bool>::empty(),
        tokens_bits(tokens.push(t), lit, codes) == tokens_bits(tokens, lit, codes) + token_bits(
            t,
            lit,
            codes,
        ),
        body_bits(tokens, lit, codes) == tokens_bits(tokens, lit, codes) + code_bits(lit, 256),
{
    crate::deflate::blocks::lemma_tokens_bits_add(tokens, seq![t], lit, codes);
    assert(tokens.push(t) =~= tokens + seq![t]);
    reveal_with_fuel(tokens_bits, 2);
    assert(seq![t].skip(1) =~= Seq::<Token>::empty());
    assert(token_bits(t, lit, codes) + Seq::<bool>::empty() =~= token_bits(t, lit, codes));
}

/// The header of a dynamic block: three counts, the code-length code lengths
/// in their own order, three bits each, and the code lengths of both codes in
/// one go. Symbols up to 15 are lengths; 16 repeats the last one 3 to 6
/// times, 17 and 18 are 3 to 10 and 11 to 138 zeros.
pub proof fn headers_are_laid_out(
    h: Header,
    cl: Seq<u8>,
    n: nat,
    syms: Seq<(u8, u32)>,
    sym: (u8, u32),
    so_far: Seq<u8>,
)
    ensures
        h.bits() == bits_of((h.hlit - 257) as nat, 5) + bits_of((h.hdist - 1) as nat, 5) + bits_of(
            (h.hclen - 4) as nat,
            4,
        ) + cl_bits(h.cl, h.hclen) + cl_symbols_bits(h.cl, h.syms),
        cl_bits(cl, 0) == Seq::<bool>::empty(),
        cl_bits(cl, n + 1) == cl_bits(cl, n) + bits_of(cl[cl_order(n as int) as int] as nat, 3),
        cl_symbols_bits(cl, seq![sym] + syms) == code_bits(cl, sym.0 as int) + bits_of(
            sym.1 as nat,
            if sym.0 == 16 {
                2
            } else if sym.0 == 17 {
                3
            } else if sym.0 == 18 {
                7
            } else {
                0
            },
        ) + cl_symbols_bits(cl, syms),
        unrle(so_far, Seq::empty()) == so_far,
        sym.0 <= 15 ==> unrle(so_far, seq![sym] + syms) == unrle(so_far.push(sym.0), syms),
        sym.0 == 16 ==> unrle(so_far, seq![sym] + syms) == unrle(
            so_far + Seq::new(3 + sym.1 as nat, |i: int| so_far.last()),
            syms,
        ),
        sym.0 == 17 ==> unrle(so_far, seq![sym] + syms) == unrle(
            so_far + Seq::new(3 + sym.1 as nat, |i: int| 0u8),
            syms,
        ),
        sym.0 == 18 ==> unrle(so_far, seq![sym] + syms) == unrle(
            so_far + Seq::new(11 + sym.1 as nat, |i: int| 0u8),
            syms,
        ),
{
    let all = seq![sym] + syms;
    assert(all.skip(1) =~= syms);
    assert(all[0] == sym);
    let last = so_far.last();
    assert(so_far + Seq::new(3 + sym.1 as nat, |i: int| so_far.last()) =~= so_far + Seq::new(
        3 + sym.1 as nat,
        |i: int| last,
    ));
}

/// One block of any encoder.
pub ghost enum Block {
    Stored { bytes: Seq<u8> },
    Fixed { tokens: Seq<Token> },
    Dynamic { header: Header, tokens: Seq<Token> },
}

impl Block {
    /// How many bytes it holds.
    pub open spec fn size(self) -> nat {
        match self {
            Block::Stored { bytes } => bytes.len(),
            Block::Fixed { tokens } => span(tokens),
            Block::Dynamic { tokens, .. } => span(tokens),
        }
    }

    /// It holds the bytes of `data` at `pos`, and can be written.
    pub open spec fn holds(self, data: Seq<u8>, pos: nat) -> bool {
        &&& pos + self.size() <= data.len()
        &&& match self {
            Block::Stored { bytes } => bytes.len() <= 65535 && bytes == data.subrange(
                pos as int,
                (pos + bytes.len()) as int,
            ),
            Block::Fixed { tokens } => tokens_at(data, pos, tokens),
            Block::Dynamic { header, tokens } => tokens_at(data, pos, tokens) && header.ok()
                && has_codes(tokens, header.lit, header.dist),
        }
    }

    /// The bits written so far and the block.
    pub open spec fn behind(self, w: Seq<bool>, last: bool) -> Seq<bool> {
        match self {
            Block::Stored { bytes } => padded(w + seq![last] + bits_of(0, 2)) + bits_of(
                bytes.len(),
                16,
            ) + bits_of((65535 - bytes.len()) as nat, 16) + bytes_bits(bytes),
            Block::Fixed { tokens } => w + seq![last] + bits_of(1, 2) + body_bits(
                tokens,
                fixed_litlen(),
                fixed_dist(),
            ),
            Block::Dynamic { header, tokens } => w + seq![last] + bits_of(2, 2) + (header.bits()
                + body_bits(tokens, header.lit, header.dist)),
        }
    }
}

/// The bits written so far and all blocks; the last one says that it is.
pub open spec fn written(w: Seq<bool>, blocks: Seq<Block>) -> Seq<bool>
    decreases blocks.len(),
{
    if blocks.len() == 0 {
        w
    } else {
        written(blocks[0].behind(w, blocks.len() == 1), blocks.skip(1))
    }
}

/// The blocks hold all of `data` from `pos` on.
pub open spec fn blocks_hold(data: Seq<u8>, pos: nat, blocks: Seq<Block>) -> bool
    decreases blocks.len(),
{
    if blocks.len() == 0 {
        pos == data.len()
    } else {
        blocks[0].holds(data, pos) && blocks_hold(data, pos + blocks[0].size(), blocks.skip(1))
    }
}

proof fn lemma_behind(w: Seq<bool>, b: Block, last: bool)
    ensures
        starts(w, b.behind(w, last)),
{
    let all = b.behind(w, last);
    assert(all.take(w.len() as int) =~= w);
}

proof fn lemma_written(w: Seq<bool>, blocks: Seq<Block>)
    ensures
        starts(w, written(w, blocks)),
    decreases blocks.len(),
{
    if blocks.len() == 0 {
        assert(w.take(w.len() as int) =~= w);
    } else {
        let next = blocks[0].behind(w, blocks.len() == 1);
        lemma_behind(w, blocks[0], blocks.len() == 1);
        lemma_written(next, blocks.skip(1));
        lemma_starts_trans(w, next, written(next, blocks.skip(1)));
    }
}

/// A block of any encoder adds its bytes, and reading goes on behind it, with
/// whatever stands there, unless it was the last.
pub proof fn blocks_are_read_in_turn(
    w: Seq<bool>,
    b: Block,
    last: bool,
    full: Seq<bool>,
    data: Seq<u8>,
    pos: nat,
    limit: nat,
)
    requires
        full.len() % 8 == 0,
        data.len() <= limit,
        b.holds(data, pos),
        starts(b.behind(w, last), full),
    ensures
        goes_on(
            full,
            w,
            data.take(pos as int),
            b.behind(w, last),
            data.take((pos + b.size()) as int),
            last,
            limit,
        ),
{
    let w2 = b.behind(w, last);
    let rest = full.skip(w2.len() as int);
    assert(full =~= w2 + rest);
    match b {
        Block::Stored { bytes } => {
            lemma_chunk_read(w, bytes, last, full, data.take(pos as int), limit);
            assert(data.take(pos as int) + bytes =~= data.take((pos + bytes.len()) as int));
        },
        Block::Fixed { tokens } => {
            lemma_fixed_read(full, w, tokens, last, data, pos, limit, rest);
        },
        Block::Dynamic { header, tokens } => {
            lemma_any_dynamic_read(full, w, header, tokens, last, data, pos, limit, rest);
        },
    }
}

proof fn lemma_inflates(
    w: Seq<bool>,
    blocks: Seq<Block>,
    full: Seq<bool>,
    data: Seq<u8>,
    pos: nat,
    limit: nat,
)
    requires
        full.len() % 8 == 0,
        data.len() <= limit,
        blocks.len() > 0,
        blocks_hold(data, pos, blocks),
        starts(written(w, blocks), full),
    ensures
        take_blocks(full.skip(w.len() as int), data.take(pos as int), limit) == Ok::<
            (Seq<u8>, Seq<bool>),
            Error,
        >((data, full.skip(written(w, blocks).len() as int))),
    decreases blocks.len(),
{
    let b = blocks[0];
    let last = blocks.len() == 1;
    let next = b.behind(w, last);
    let more = blocks.skip(1);
    lemma_written(next, more);
    lemma_starts_trans(next, written(next, more), full);
    blocks_are_read_in_turn(w, b, last, full, data, pos, limit);
    if last {
        assert(more.len() == 0);
        assert(written(next, more) == next);
        assert(blocks_hold(data, pos + b.size(), more));
        assert(pos + b.size() == data.len());
        assert(data.take(data.len() as int) =~= data);
    } else {
        lemma_inflates(next, more, full, data, pos + b.size(), limit);
    }
}

/// A stream of any encoder is inflated: whatever blocks it cut the data into,
/// whatever tokens and codes it chose for them, and whatever follows.
pub proof fn any_stream_is_inflated(
    data: Seq<u8>,
    blocks: Seq<Block>,
    stream: Seq<u8>,
    tail: Seq<u8>,
    limit: nat,
)
    requires
        blocks.len() > 0,
        blocks_hold(data, 0, blocks),
        bytes_bits(stream) == padded(written(Seq::empty(), blocks)),
        data.len() <= limit,
    ensures
        inflated(stream + tail, limit) == Ok::<(Seq<u8>, nat), Error>((data, stream.len())),
{
    let none = Seq::<bool>::empty();
    let w = written(none, blocks);
    let full = bytes_bits(stream + tail);
    lemma_stream_shape(w, stream, tail);
    lemma_inflates(none, blocks, full, data, 0, limit);
    assert(full.skip(0) =~= full);
    assert(data.take(0) =~= Seq::<u8>::empty());
    lemma_consumed(w, stream, tail, data, limit);
}

/// Stored bytes as blocks of at most 65535.
spec fn stored(raw: Seq<u8>) -> Seq<Block>
    decreases raw.len(),
{
    if raw.len() <= 65535 {
        seq![Block::Stored { bytes: raw }]
    } else {
        seq![Block::Stored { bytes: raw.take(65535) }] + stored(raw.skip(65535))
    }
}

proof fn lemma_stored_blocks(w: Seq<bool>, data: Seq<u8>, pos: nat, n: nat, more: Seq<Block>)
    requires
        pos + n <= data.len(),
        blocks_hold(data, pos + n, more),
    ensures
        ({
            let raw = data.subrange(pos as int, (pos + n) as int);
            &&& stored(raw).len() > 0
            &&& blocks_hold(data, pos, stored(raw) + more)
            &&& written(w, stored(raw) + more) == written(
                put_stored(w, raw, more.len() == 0),
                more,
            )
        }),
    decreases n,
{
    let raw = data.subrange(pos as int, (pos + n) as int);
    let all = stored(raw) + more;
    let last = more.len() == 0;
    if n <= 65535 {
        assert(raw.take(n as int) =~= raw);
        assert(all.skip(1) =~= more);
        assert(all[0] == Block::Stored { bytes: raw });
        if n == 65535 {
            assert(raw.skip(n as int).len() == 0);
        }
    } else {
        let first = raw.take(65535);
        let rest = data.subrange((pos + 65535) as int, (pos + n) as int);
        assert(raw.skip(65535) =~= rest);
        let b = Block::Stored { bytes: first };
        assert(first =~= data.subrange(pos as int, (pos + 65535) as int));
        lemma_stored_blocks(
            b.behind(w, false),
            data,
            pos + 65535,
            (n - 65535) as nat,
            more,
        );
        assert(all.skip(1) =~= stored(rest) + more);
        assert(all[0] == b);
        assert(all.len() > 1);
    }
}

proof fn lemma_put_blocks(w: Seq<bool>, data: Seq<u8>, tokens: Seq<Token>, pos: nat) -> (blocks: Seq<
    Block,
>)
    requires
        pos <= data.len(),
        tokens_ok(data, pos as int, tokens),
    ensures
        written(w, blocks) == put_blocks(w, data, tokens, pos),
        blocks_hold(data, pos, blocks),
        blocks.len() > 0 <==> tokens.len() > 0,
    decreases tokens.len(),
{
    if tokens.len() == 0 {
        Seq::empty()
    } else {
        let n: nat = if tokens.len() < 16384 {
            tokens.len()
        } else {
            16384
        };
        let block = tokens.take(n as int);
        let end = pos + span(block);
        let last = n == tokens.len();
        let raw = data.subrange(pos as int, end as int);
        lemma_tokens_split(data, pos, tokens, n as int);
        lemma_sane(data, pos, block);
        lemma_header(block);
        let next = put_block(w, block, raw, last);
        let more = lemma_put_blocks(next, data, tokens.skip(n as int), end);
        assert(last == (more.len() == 0));
        if stored_size(w.len(), raw.len()) < dynamic_bits(block).len() && stored_size(
            w.len(),
            raw.len(),
        ) < fixed_bits(block).len() {
            lemma_stored_blocks(w, data, pos, span(block), more);
            stored(raw) + more
        } else {
            let b = if fixed_bits(block).len() <= dynamic_bits(block).len() {
                Block::Fixed { tokens: block }
            } else {
                Block::Dynamic { header: header_for(block), tokens: block }
            };
            let all = seq![b] + more;
            assert(all.skip(1) =~= more);
            assert(all[0] == b);
            all
        }
    }
}

/// What is written is such a stream, at every level: blocks that hold the
/// data, and nothing besides.
pub proof fn streams_are_standard(input: Seq<u8>, level: u8)
    ensures
        exists|blocks: Seq<Block>| #[trigger]
            blocks_hold(input, 0, blocks) && blocks.len() > 0 && deflated_bits(input, level)
                == written(Seq::empty(), blocks) && (level == 0 && input.len() > 0 ==> forall|i: int|
                0 <= i < blocks.len() ==> (#[trigger] blocks[i]) is Stored),
{
    let none = Seq::<bool>::empty();
    if input.len() == 0 {
        let no_tokens = Seq::<Token>::empty();
        let blocks = seq![Block::Fixed { tokens: no_tokens }];
        assert(blocks.skip(1) =~= Seq::<Block>::empty());
        reveal_with_fuel(written, 2);
        reveal_with_fuel(blocks_hold, 2);
        let e = code_bits(fixed_litlen(), 256);
        assert(body_bits(no_tokens, fixed_litlen(), fixed_dist()) =~= e);
        assert(none + seq![true] + bits_of(1, 2) + e =~= seq![true] + bits_of(1, 2) + e);
        assert(blocks_hold(input, 0, blocks));
    } else if level == 0 {
        let no_more = Seq::<Block>::empty();
        lemma_stored_blocks(none, input, 0, input.len(), no_more);
        assert(input.subrange(0, input.len() as int) =~= input);
        assert(stored(input) + no_more =~= stored(input));
        lemma_all_stored(input);
        assert(blocks_hold(input, 0, stored(input)));
    } else {
        let params = level_params(level);
        parse_is_lossless(input, params);
        let blocks = lemma_put_blocks(none, input, parsed(input, params), 0);
        assert(blocks_hold(input, 0, blocks));
    }
}

proof fn lemma_all_stored(raw: Seq<u8>)
    ensures
        forall|i: int| 0 <= i < stored(raw).len() ==> (#[trigger] stored(raw)[i]) is Stored,
    decreases raw.len(),
{
    if raw.len() > 65535 {
        lemma_all_stored(raw.skip(65535));
        let more = stored(raw.skip(65535));
        assert forall|i: int| 0 <= i < stored(raw).len() implies (
        #[trigger] stored(raw)[i]) is Stored by {
            if i > 0 {
                assert(stored(raw)[i] == more[i - 1]);
            }
        }
    }
}

/// The symbols from a place on go by the lengths from there on.
proof fn lemma_rle_shift(front: Seq<u8>, lengths: Seq<u8>, i: nat)
    requires
        i <= lengths.len(),
    ensures
        rle_from(front + lengths, front.len() + i) == rle_from(lengths, i),
    decreases lengths.len() - i,
{
    if i < lengths.len() {
        let all = front + lengths;
        let at = front.len() + i;
        let value = lengths[i as int];
        let n = run_len(lengths, i, value);
        lemma_run_len(lengths, i, value);
        assert forall|j: int| at <= j < at + n implies #[trigger] all[j] == value by {
            assert(lengths[j - front.len()] == value);
        }
        if i + n < lengths.len() {
            assert(all[(at + n) as int] == lengths[(i + n) as int]);
        }
        lemma_run_len_is(all, at, value, n);
        lemma_rle_shift(front, lengths, i + n);
        assert(all[at as int] == value);
    }
}

proof fn lemma_zeros_size(n: nat)
    ensures
        zero_symbols(n).len() == n / 138 + (if n % 138 < 3 {
            n % 138
        } else {
            1
        }),
    decreases n,
{
    if n >= 138 {
        lemma_zeros_size((n - 138) as nat);
        assert((n - 138) / 138 == n / 138 - 1 && (n - 138) % 138 == n as int % 138);
    } else if n >= 11 {
        reveal_with_fuel(zero_symbols, 2);
        assert(n / 138 == 0 && n % 138 == n);
    } else {
        assert(n / 138 == 0 && n % 138 == n);
    }
}

proof fn lemma_repeats_size(value: u8, n: nat)
    ensures
        repeat_symbols(value, n).len() == n / 6 + (if n % 6 < 3 {
            n % 6
        } else {
            1
        }),
    decreases n,
{
    if n >= 6 {
        lemma_repeats_size(value, (n - 6) as nat);
        assert((n - 6) / 6 == n / 6 - 1 && (n - 6) % 6 == n as int % 6);
    } else if n >= 3 {
        reveal_with_fuel(repeat_symbols, 2);
        assert(n / 6 == 0 && n % 6 == n);
    } else {
        assert(n / 6 == 0 && n % 6 == n);
    }
}

/// Equal lengths in a row are taken together: up to 138 zeros to a symbol,
/// and behind one of any other length up to 6 more, where there are at least
/// three. What comes behind the row does not change that.
pub proof fn equal_lengths_are_joined(value: u8, n: nat, rest: Seq<u8>)
    requires
        n > 0,
        rest.len() > 0 ==> rest[0] != value,
    ensures
        rle(Seq::new(n, |i: int| value) + rest) == run_symbols(value, n) + rle(rest),
        rle(Seq::empty()) == Seq::<(u8, u32)>::empty(),
        value == 0 ==> run_symbols(value, n).len() == n / 138 + (if n % 138 < 3 {
            n % 138
        } else {
            1
        }),
        value != 0 ==> run_symbols(value, n).len() == 1 + (n - 1) / 6 + (if (n - 1) % 6 < 3 {
            (n - 1) % 6
        } else {
            1
        }),
{
    let row = Seq::new(n, |i: int| value);
    let all = row + rest;
    if rest.len() > 0 {
        assert(all[n as int] == rest[0]);
    }
    lemma_run_len_is(all, 0, value, n);
    assert(all[0] == value);
    lemma_rle_shift(row, rest, 0);
    if value == 0 {
        lemma_zeros_size(n);
    } else {
        lemma_repeats_size(value, (n - 1) as nat);
    }
}

/// A dynamic block's codes are made for its own tokens: every literal, every
/// length and every distance counts once for its symbol, the end of the block
/// once.
pub proof fn codes_are_made_for_the_block(tokens: Seq<Token>, t: Token, i: int, d: int, s: int)
    requires
        tokens_sane(tokens.push(t)),
        tokens.len() < 0xFFFF_FFFF,
        0 <= s < 286,
        t matches Token::Match { len, dist } ==> {
            &&& 0 <= i < 29 && 0 <= d < 30
            &&& length_base(i) <= len && (i < 28 ==> len < length_base(i + 1))
            &&& dist_base(d) <= dist && (d < 29 ==> dist < dist_base(d + 1))
        },
    ensures
        lit_counts(Seq::empty())[s] == 0,
        lit_counts(tokens.push(t))[s] == lit_counts(tokens)[s] + if s == (match t {
            Token::Literal(b) => b as int,
            Token::Match { .. } => 257 + i,
        }) {
            1int
        } else {
            0
        },
        s < 30 ==> dist_counts(Seq::empty())[s] == 0,
        s < 30 ==> dist_counts(tokens.push(t))[s] == dist_counts(tokens)[s] + if t is Match && s
            == d {
            1int
        } else {
            0
        },
        header_for(tokens).lit == lengths_for(lit_counts(tokens).update(256, 1), 15),
        nonzero(lengths_for(dist_counts(tokens), 15)) > 0 ==> header_for(tokens).dist
            == lengths_for(dist_counts(tokens), 15),
{
    reveal(header_for);
    let all = tokens.push(t);
    assert(all.drop_last() =~= tokens);
    assert forall|k: int| 0 <= k < tokens.len() implies match #[trigger] tokens[k] {
        Token::Literal(_) => true,
        Token::Match { len, dist } => 3 <= len <= 258 && 1 <= dist <= 32768,
    } by {
        assert(all[k] == tokens[k]);
    }
    assert(all[all.len() - 1] == t);
    lemma_counts(tokens);
    lemma_counts(all);
    lemma_lit_symbol(t);
    match t {
        Token::Literal(b) => {
            lemma_total_at(lit_counts(tokens), b as int);
        },
        Token::Match { len, dist } => {
            lemma_length_is(len as nat, i, 28);
            lemma_dist_is(dist as nat, d, 29);
            lemma_total_at(lit_counts(tokens), 257 + i);
            lemma_total_at(dist_counts(tokens), d);
        },
    }
}

proof fn lemma_fixed_bound(w: Seq<bool>, data: Seq<u8>, tokens: Seq<Token>, pos: nat)
    ensures
        put_blocks(w, data, tokens, pos).len() <= w.len() + tokens_bits(
            tokens,
            fixed_litlen(),
            fixed_dist(),
        ).len() + 10 * ((tokens.len() + 16383) / 16384),
    decreases tokens.len(),
{
    if tokens.len() > 0 {
        let n: nat = if tokens.len() < 16384 {
            tokens.len()
        } else {
            16384
        };
        let block = tokens.take(n as int);
        let more = tokens.skip(n as int);
        let end = pos + span(block);
        let raw = data.subrange(pos as int, end as int);
        let next = put_block(w, block, raw, n == tokens.len());
        blocks_are_smallest(w, block, raw, n == tokens.len());
        lemma_bits_of_len(code_of(fixed_litlen(), 256), 7);
        assert(code_bits(fixed_litlen(), 256).len() == 7);
        lemma_fixed_bound(next, data, more, end);
        lemma_tokens_bits_add(block, more, fixed_litlen(), fixed_dist());
        assert(block + more =~= tokens);
    }
}

/// From level 1 on what is written are the tokens of that level's parse, 16384
/// to a block. With the fixed codes alone they would take no less.
pub proof fn streams_hold_the_parse(input: Seq<u8>, level: u8)
    requires
        level >= 1,
        input.len() > 0,
    ensures
        deflated_bits(input, level) == put_blocks(
            Seq::empty(),
            input,
            parsed(input, level_params(level)),
            0,
        ),
        deflated_bits(input, level).len() <= tokens_bits(
            parsed(input, level_params(level)),
            fixed_litlen(),
            fixed_dist(),
        ).len() + 10 * ((parsed(input, level_params(level)).len() + 16383) / 16384),
{
    lemma_fixed_bound(Seq::empty(), input, parsed(input, level_params(level)), 0);
}

/// Blocks are written one after the other: each in its smallest form, behind
/// what is there.
pub proof fn blocks_go_on(w: Seq<bool>, data: Seq<u8>, block: Seq<Token>, more: Seq<Token>, pos: nat)
    requires
        0 < block.len() <= 16384,
        more.len() > 0 ==> block.len() == 16384,
    ensures
        put_blocks(w, data, block + more, pos) == put_blocks(
            put_block(
                w,
                block,
                data.subrange(pos as int, (pos + span(block)) as int),
                more.len() == 0,
            ),
            data,
            more,
            pos + span(block),
        ),
        put_blocks(w, data, Seq::empty(), pos) == w,
{
    let all = block + more;
    let n = block.len() as int;
    assert(all.take(n) =~= block);
    assert(all.skip(n) =~= more);
}

} // verus!
