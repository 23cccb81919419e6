//! Deflate encoder.
//!
//! 1. LZ77 turns the input into tokens ([`crate::lz77::parse`]).
//! 2. Tokens are cut into blocks. Each block gets its own Huffman codes,
//!    so the codes can adapt as the data changes.
//! 3. For each block we compute the exact size as dynamic, fixed and stored,
//!    and write whichever is smallest.
use crate::bits::bits_of;
use crate::bits::bytes_bits;
use crate::bits::lemma_bits_of_len;
use crate::bits::lemma_bytes_bits_push;
use crate::bits::padded;
use crate::bits::BitWriter;
use crate::deflate::blocks::body_bits;
use crate::deflate::blocks::cl_bits;
use crate::deflate::blocks::cl_counts;
use crate::deflate::blocks::cl_extra;
use crate::deflate::blocks::cl_lengths_for;
use crate::deflate::blocks::cl_sent;
use crate::deflate::blocks::cl_symbols_bits;
use crate::deflate::blocks::deflate_is_lossless;
use crate::deflate::blocks::deflated_bits;
use crate::deflate::blocks::dist_counts;
use crate::deflate::blocks::dynamic_bits;
use crate::deflate::blocks::fixed_bits;
use crate::deflate::blocks::has_code;
use crate::deflate::blocks::has_codes;
use crate::deflate::blocks::header_for;
use crate::deflate::blocks::last_nonzero;
use crate::deflate::blocks::lemma_counts;
use crate::deflate::blocks::lemma_header;
use crate::deflate::blocks::lemma_last_nonzero;
use crate::deflate::blocks::lemma_lit_symbol;
use crate::deflate::blocks::lemma_run_len_is;
use crate::deflate::blocks::lemma_sane;
use crate::deflate::blocks::lemma_tokens_bits_add;
use crate::deflate::blocks::lemma_tokens_split;
use crate::deflate::blocks::lemma_total_at;
use crate::deflate::blocks::lemma_total_update;
use crate::deflate::blocks::lit_counts;
use crate::deflate::blocks::lit_symbol;
use crate::deflate::blocks::nonzero;
use crate::deflate::blocks::plain_symbols;
use crate::deflate::blocks::put_block;
use crate::deflate::blocks::put_blocks;
use crate::deflate::blocks::put_stored;
use crate::deflate::blocks::stored_size;
use crate::deflate::blocks::repeat_symbols;
use crate::deflate::blocks::rle;
use crate::deflate::blocks::rle_from;
use crate::deflate::blocks::run_symbols;
use crate::deflate::blocks::span;
use crate::deflate::blocks::syms_ok;
use crate::deflate::blocks::token_bits;
use crate::deflate::blocks::tokens_bits;
use crate::deflate::blocks::tokens_sane;
use crate::deflate::blocks::zero_symbols;
use crate::deflate::blocks::Header;
use crate::deflate::format::inflated;
use crate::deflate::tables::cl_order;
use crate::deflate::tables::coded_dist;
use crate::deflate::tables::coded_length;
use crate::deflate::tables::dist_code;
use crate::deflate::tables::dist_extra;
use crate::deflate::tables::dists_roundtrip;
use crate::deflate::tables::fixed_dist_lengths;
use crate::deflate::tables::fixed_litlen;
use crate::deflate::tables::fixed_litlen_lengths;
use crate::deflate::tables::lemma_cl_order;
use crate::deflate::tables::lemma_dist_codes;
use crate::deflate::tables::lemma_fixed_ok;
use crate::deflate::tables::lemma_length_codes;
use crate::deflate::tables::length_code;
use crate::deflate::tables::length_extra;
use crate::deflate::tables::lengths_roundtrip;
use crate::deflate::tables::CL_ORDER;
use crate::deflate::tables::DIST_EXTRA;
use crate::deflate::tables::END_OF_BLOCK;
use crate::deflate::tables::LENGTH_EXTRA;
use crate::deflate::tables::NUM_DIST;
use crate::deflate::tables::NUM_LITLEN;
use crate::error::Error;
use crate::huffman::code_bits;
use crate::huffman::code_lengths;
use crate::huffman::lemma_codes_fit;
use crate::huffman::lengths::lemma_used;
use crate::huffman::lengths::total;
use crate::huffman::lengths_ok;
use crate::huffman::lengths_small;
use crate::huffman::Encoder;
use crate::lz77;
use crate::lz77::tokens_ok;
use crate::lz77::Params;
use crate::lz77::Token;
use crate::nums::lemma_pow2_values;
use vstd::arithmetic::power2::pow2;
use vstd::prelude::*;
use vstd::slice::slice_subrange;

verus! {

/// Tokens per block. zlib uses 16K by default.
const BLOCK_TOKENS: usize = 16384;

/// Stored blocks hold at most this many bytes (16-bit length field).
const MAX_STORED: usize = 65535;

// What a block costs.

/// The bits of literal/length symbol `i` with its extra bits.
pub open spec fn lit_weight(lit: Seq<u8>, i: int) -> nat {
    lit[i] as nat + if i >= 257 {
        length_extra(i - 257)
    } else {
        0
    }
}

/// The bits of distance symbol `i` with its extra bits.
pub open spec fn dist_weight(dist: Seq<u8>, i: int) -> nat {
    dist[i] as nat + dist_extra(i)
}

/// The bits of the first `n` literal/length symbols, as often as they
/// occur.
pub open spec fn lit_cost(counts: Seq<u64>, lit: Seq<u8>, n: nat) -> nat
    decreases n,
{
    if n == 0 {
        0
    } else {
        lit_cost(counts, lit, (n - 1) as nat) + counts[n - 1] as nat * lit_weight(lit, n - 1)
    }
}

/// The bits of the first `n` distance symbols, as often as they occur.
pub open spec fn dist_cost(counts: Seq<u64>, dist: Seq<u8>, n: nat) -> nat
    decreases n,
{
    if n == 0 {
        0
    } else {
        dist_cost(counts, dist, (n - 1) as nat) + counts[n - 1] as nat * dist_weight(dist, n - 1)
    }
}

proof fn lemma_lit_cost_update(c: Seq<u64>, lit: Seq<u8>, n: nat, i: int, x: u64)
    requires
        0 <= i < c.len(),
        n <= c.len(),
        x == c[i] + 1,
    ensures
        lit_cost(c.update(i, x), lit, n) == lit_cost(c, lit, n) + if i < n {
            lit_weight(lit, i)
        } else {
            0
        },
    decreases n,
{
    if n > 0 {
        lemma_lit_cost_update(c, lit, (n - 1) as nat, i, x);
        if i == n - 1 {
            let w = lit_weight(lit, i);
            assert((c[i] as nat + 1) * w == c[i] as nat * w + w) by (nonlinear_arith);
        }
    }
}

proof fn lemma_dist_cost_update(c: Seq<u64>, dist: Seq<u8>, n: nat, i: int, x: u64)
    requires
        0 <= i < c.len(),
        n <= c.len(),
        x == c[i] + 1,
    ensures
        dist_cost(c.update(i, x), dist, n) == dist_cost(c, dist, n) + if i < n {
            dist_weight(dist, i)
        } else {
            0
        },
    decreases n,
{
    if n > 0 {
        lemma_dist_cost_update(c, dist, (n - 1) as nat, i, x);
        if i == n - 1 {
            let w = dist_weight(dist, i);
            assert((c[i] as nat + 1) * w == c[i] as nat * w + w) by (nonlinear_arith);
        }
    }
}

proof fn lemma_lit_cost_zero(lit: Seq<u8>, n: nat)
    requires
        n <= 286,
    ensures
        lit_cost(Seq::new(286, |i: int| 0u64), lit, n) == 0,
    decreases n,
{
    if n > 0 {
        lemma_lit_cost_zero(lit, (n - 1) as nat);
        assert(0 * lit_weight(lit, n - 1) == 0);
    }
}

proof fn lemma_dist_cost_zero(dist: Seq<u8>, n: nat)
    requires
        n <= 30,
    ensures
        dist_cost(Seq::new(30, |i: int| 0u64), dist, n) == 0,
    decreases n,
{
    if n > 0 {
        lemma_dist_cost_zero(dist, (n - 1) as nat);
        assert(0 * dist_weight(dist, n - 1) == 0);
    }
}

proof fn lemma_code_len(lengths: Seq<u8>, s: int)
    ensures
        code_bits(lengths, s).len() == lengths[s],
{
    lemma_bits_of_len(crate::huffman::code_of(lengths, s), lengths[s] as nat);
}

/// The counts tell how long the tokens are.
proof fn lemma_tokens_cost(tokens: Seq<Token>, lit: Seq<u8>, dist: Seq<u8>)
    requires
        tokens_sane(tokens),
        tokens.len() <= 0xFFFF_FFFF,
    ensures
        tokens_bits(tokens, lit, dist).len() == lit_cost(lit_counts(tokens), lit, 286) + dist_cost(
            dist_counts(tokens),
            dist,
            30,
        ),
    decreases tokens.len(),
{
    if tokens.len() == 0 {
        lemma_lit_cost_zero(lit, 286);
        lemma_dist_cost_zero(dist, 30);
    } else {
        let before = tokens.drop_last();
        let t = tokens.last();
        assert(t == tokens[tokens.len() - 1]);
        assert forall|i: int| 0 <= i < before.len() implies match #[trigger] before[i] {
            Token::Literal(_) => true,
            Token::Match { len, dist } => 3 <= len <= 258 && 1 <= dist <= 32768,
        } by {
            assert(before[i] == tokens[i]);
        }
        lemma_tokens_cost(before, lit, dist);
        lemma_counts(before);
        let c = lit_counts(before);
        let d = dist_counts(before);
        let s = lit_symbol(t);
        lemma_lit_symbol(t);
        lemma_total_at(c, s);
        lemma_lit_cost_update(c, lit, 286, s, (c[s] + 1) as u64);
        lemma_tokens_bits_add(before, seq![t], lit, dist);
        assert(before + seq![t] =~= tokens);
        assert(seq![t].skip(1) =~= Seq::<Token>::empty());
        reveal_with_fuel(tokens_bits, 2);
        assert(tokens_bits(seq![t], lit, dist) =~= token_bits(t, lit, dist));
        lemma_code_len(lit, s);
        match t {
            Token::Literal(b) => {},
            Token::Match { len, dist: dd } => {
                lengths_roundtrip(len as nat);
                dists_roundtrip(dd as nat);
                let k = coded_dist(dd as nat).index as int;
                lemma_total_at(d, k);
                lemma_dist_cost_update(d, dist, 30, k, (d[k] + 1) as u64);
                lemma_code_len(dist, k);
                let l = coded_length(len as nat);
                let dc = coded_dist(dd as nat);
                lemma_bits_of_len(l.extra as nat, l.extra_bits as nat);
                lemma_bits_of_len(dc.extra as nat, dc.extra_bits as nat);
            },
        }
    }
}

/// The counts tell how long a block is.
proof fn lemma_body_cost(tokens: Seq<Token>, lit: Seq<u8>, dist: Seq<u8>)
    requires
        tokens_sane(tokens),
        tokens.len() <= 0xFFFF_FFFF,
    ensures
        body_bits(tokens, lit, dist).len() == lit_cost(
            lit_counts(tokens).update(256, 1),
            lit,
            286,
        ) + dist_cost(dist_counts(tokens), dist, 30),
{
    lemma_tokens_cost(tokens, lit, dist);
    lemma_counts(tokens);
    lemma_lit_cost_update(lit_counts(tokens), lit, 286, 256, 1);
    lemma_code_len(lit, 256);
}

/// Symbol counts for one block.
struct Counts {
    lit: Vec<u64>,
    dist: Vec<u64>,
}

impl Counts {
    fn of(tokens: &[Token]) -> (r: Self)
        requires
            tokens_sane(tokens@),
            tokens@.len() <= 16384,
        ensures
            r.lit@ == lit_counts(tokens@).update(256, 1),
            r.dist@ == dist_counts(tokens@),
    {
        let ghost all = tokens@;
        let mut lit: Vec<u64> = vec![0;NUM_LITLEN];
        let mut dist: Vec<u64> = vec![0;NUM_DIST];
        let mut i: usize = 0;
        proof {
            assert(all.take(0) =~= Seq::<Token>::empty());
            assert(lit@ =~= lit_counts(all.take(0)));
            assert(dist@ =~= dist_counts(all.take(0)));
        }
        while i < tokens.len()
            invariant
                all == tokens@,
                tokens_sane(all),
                all.len() <= 16384,
                i <= all.len(),
                lit@ == lit_counts(all.take(i as int)),
                dist@ == dist_counts(all.take(i as int)),
            decreases all.len() - i,
        {
            let ghost so_far = all.take(i as int);
            proof {
                assert(all.take(i + 1).drop_last() =~= so_far);
                assert(tokens_sane(so_far)) by {
                    assert forall|k: int| 0 <= k < so_far.len() implies match #[trigger] so_far[k] {
                        Token::Literal(_) => true,
                        Token::Match { len, dist } => 3 <= len <= 258 && 1 <= dist <= 32768,
                    } by {
                        assert(so_far[k] == all[k]);
                    }
                }
                lemma_counts(so_far);
                lemma_lit_symbol(all[i as int]);
                lemma_total_at(lit@, lit_symbol(all[i as int]));
            }
            match tokens[i] {
                Token::Literal(b) => {
                    lit[b as usize] = lit[b as usize] + 1;
                },
                Token::Match { len, dist: d } => {
                    let l: usize = 257 + length_code(len as usize).index;
                    lit[l] = lit[l] + 1;
                    let k: usize = dist_code(d as usize).index;
                    proof {
                        dists_roundtrip(d as nat);
                        lemma_total_at(dist@, k as int);
                    }
                    dist[k] = dist[k] + 1;
                },
            }
            i = i + 1;
        }
        assert(all.take(i as int) =~= all);
        proof {
            lemma_counts(all);
        }
        lit[END_OF_BLOCK] = 1;
        Counts { lit, dist }
    }

    /// Bits to encode the block's symbols (not the header) with these codes.
    fn cost(&self, lit_lengths: &[u8], dist_lengths: &[u8], Ghost(tokens): Ghost<Seq<Token>>) -> (r:
        u64)
        requires
            tokens_sane(tokens),
            tokens.len() <= 16384,
            self.lit@ == lit_counts(tokens).update(256, 1),
            self.dist@ == dist_counts(tokens),
            lit_lengths@.len() >= 286,
            dist_lengths@.len() >= 30,
            lengths_small(lit_lengths@),
            lengths_small(dist_lengths@),
        ensures
            r == body_bits(tokens, lit_lengths@, dist_lengths@).len(),
            r < 0x1000_0000,
    {
        let ghost lit = lit_lengths@;
        let ghost dist = dist_lengths@;
        proof {
            lemma_body_cost(tokens, lit, dist);
            lemma_counts(tokens);
            lemma_total_update(lit_counts(tokens), 256, 1);
        }
        let mut sum: u64 = 0;
        let mut i: usize = 0;
        while i < NUM_LITLEN
            invariant
                i <= 286,
                lit == lit_lengths@,
                lit.len() >= 286,
                lengths_small(lit),
                self.lit@.len() == 286,
                total(self.lit@) <= 16385,
                sum == lit_cost(self.lit@, lit, i as nat),
                sum <= 400_000 * i,
            decreases 286 - i,
        {
            proof {
                lemma_total_at(self.lit@, i as int);
                assert(lit[i as int] <= 15);
                if i >= 257 {
                    lemma_length_codes(i - 257);
                    reveal(length_extra);
                }
            }
            let extra: u64 = if i >= 257 {
                LENGTH_EXTRA[i - 257] as u64
            } else {
                0
            };
            let weight: u64 = lit_lengths[i] as u64 + extra;
            let count: u64 = self.lit[i];
            assert(count * weight <= 400_000) by (nonlinear_arith)
                requires
                    count <= 16385,
                    weight <= 20,
            ;
            sum = sum + count * weight;
            i = i + 1;
        }
        let ghost lits = sum;
        let mut i: usize = 0;
        while i < NUM_DIST
            invariant
                i <= 30,
                dist == dist_lengths@,
                dist.len() >= 30,
                lengths_small(dist),
                self.dist@.len() == 30,
                total(self.dist@) <= 16385,
                lits <= 400_000 * 286,
                sum == lits + dist_cost(self.dist@, dist, i as nat),
                sum <= lits + 500_000 * i,
            decreases 30 - i,
        {
            proof {
                lemma_total_at(self.dist@, i as int);
                assert(dist[i as int] <= 15);
                lemma_dist_codes(i as int);
                reveal(dist_extra);
            }
            let weight: u64 = dist_lengths[i] as u64 + DIST_EXTRA[i] as u64;
            let count: u64 = self.dist[i];
            assert(count * weight <= 500_000) by (nonlinear_arith)
                requires
                    count <= 16385,
                    weight <= 28,
            ;
            sum = sum + count * weight;
            i = i + 1;
        }
        sum
    }
}

/// A dynamic block's header, ready to write.
struct DynamicHeader {
    lit_lengths: Vec<u8>,
    dist_lengths: Vec<u8>,
    hlit: usize,
    hdist: usize,
    /// Run-length coded code lengths: (symbol 0..=18, extra bits value).
    cl_symbols: Vec<(u8, u32)>,
    cl_lengths: Vec<u8>,
    hclen: usize,
}

impl DynamicHeader {
    spec fn header(&self) -> Header {
        Header {
            lit: self.lit_lengths@,
            dist: self.dist_lengths@,
            hlit: self.hlit as nat,
            hdist: self.hdist as nat,
            syms: self.cl_symbols@,
            cl: self.cl_lengths@,
            hclen: self.hclen as nat,
        }
    }

    fn new(counts: &Counts, Ghost(tokens): Ghost<Seq<Token>>) -> (r: Self)
        requires
            tokens_sane(tokens),
            tokens.len() <= 16384,
            counts.lit@ == lit_counts(tokens).update(256, 1),
            counts.dist@ == dist_counts(tokens),
        ensures
            r.header() == header_for(tokens),
            r.header().ok(),
            has_codes(tokens, r.header().lit, r.header().dist),
    {
        reveal(header_for);
        proof {
            lemma_pow2_values();
            lemma_header(tokens);
            lemma_counts(tokens);
            lemma_total_update(lit_counts(tokens), 256, 1);
            lemma_used(counts.lit@, 286);
            lemma_used(counts.dist@, 30);
        }
        let lit_lengths = code_lengths(&counts.lit, 15);
        let mut dist_lengths = code_lengths(&counts.dist, 15);
        if count_nonzero(&dist_lengths) == 0 {
            // No matches in this block. Still send one distance code, as
            // zlib does; some decoders reject an empty distance code.
            dist_lengths[0] = 1;
        }
        let last: usize = find_last_nonzero(&lit_lengths);
        let hlit: usize = if last < 257 {
            257
        } else {
            last
        };
        let last: usize = find_last_nonzero(&dist_lengths);
        let hdist: usize = if last < 1 {
            1
        } else {
            last
        };
        proof {
            lemma_last_nonzero(lit_lengths@);
            lemma_last_nonzero(dist_lengths@);
        }
        let mut all: Vec<u8> = Vec::with_capacity(hlit + hdist);
        let mut i: usize = 0;
        while i < hlit
            invariant
                i <= hlit <= lit_lengths@.len(),
                all@ == lit_lengths@.take(i as int),
            decreases hlit - i,
        {
            all.push(lit_lengths[i]);
            i = i + 1;
            assert(all@ =~= lit_lengths@.take(i as int));
        }
        let mut i: usize = 0;
        let ghost lits = all@;
        assert(all@ =~= lits + dist_lengths@.take(0));
        while i < hdist
            invariant
                i <= hdist <= dist_lengths@.len(),
                all@ == lits + dist_lengths@.take(i as int),
            decreases hdist - i,
        {
            all.push(dist_lengths[i]);
            i = i + 1;
            assert(all@ =~= lits + dist_lengths@.take(i as int));
        }
        let cl_symbols = rle_code_lengths(&all);
        let ghost h = header_for(tokens);
        assert(cl_symbols@ == h.syms);
        let cl_lengths = make_cl_lengths(&cl_symbols);
        let mut hclen: usize = 19;
        while hclen > 4 && cl_lengths[CL_ORDER[hclen - 1]] == 0
            invariant
                4 <= hclen <= 19,
                cl_lengths@.len() == 19,
                cl_sent(cl_lengths@, 19) == cl_sent(cl_lengths@, hclen as nat),
            decreases hclen,
        {
            proof {
                reveal(cl_order);
                lemma_cl_order(hclen - 1);
            }
            hclen = hclen - 1;
        }
        proof {
            reveal(cl_order);
        }
        Self { lit_lengths, dist_lengths, hlit, hdist, cl_symbols, cl_lengths, hclen }
    }

    fn bits(&self) -> (r: u64)
        requires
            self.header().ok(),
        ensures
            r == self.header().bits().len(),
            r < 0x1000_0000,
    {
        let ghost cl = self.cl_lengths@;
        let ghost syms = self.cl_symbols@;
        let mut sum: u64 = 0;
        let mut i: usize = 0;
        assert(syms.skip(0) =~= syms);
        while i < self.cl_symbols.len()
            invariant
                self.header().ok(),
                cl == self.cl_lengths@,
                syms == self.cl_symbols@,
                i <= syms.len(),
                sum + cl_symbols_bits(cl, syms.skip(i as int)).len() == cl_symbols_bits(
                    cl,
                    syms,
                ).len(),
                sum <= 30 * i,
            decreases syms.len() - i,
        {
            let (sym, extra) = self.cl_symbols[i];
            proof {
                let s = syms[i as int];
                assert(s.0 <= 18 && s.1 < pow2(cl_extra(s.0)));
                assert(syms.skip(i as int).skip(1) =~= syms.skip(i + 1));
                assert(syms.skip(i as int)[0] == s);
                lemma_code_len(cl, s.0 as int);
                lemma_bits_of_len(s.1 as nat, cl_extra(s.0));
                assert(cl[s.0 as int] <= 7);
            }
            sum = sum + self.cl_lengths[sym as usize] as u64 + extra_bits_for_cl(sym) as u64;
            i = i + 1;
        }
        proof {
            assert(syms.skip(i as int) =~= Seq::<(u8, u32)>::empty());
            lemma_cl_bits_len(cl, self.hclen as nat);
            lemma_bits_of_len((self.hlit - 257) as nat, 5);
            lemma_bits_of_len((self.hdist - 1) as nat, 5);
            lemma_bits_of_len((self.hclen - 4) as nat, 4);
        }
        5 + 5 + 4 + 3 * self.hclen as u64 + sum
    }

    fn write(&self, w: &mut BitWriter)
        requires
            old(w).wf(),
            self.header().ok(),
        ensures
            final(w).wf(),
            final(w)@ == old(w)@ + self.header().bits(),
    {
        let ghost cl = self.cl_lengths@;
        let ghost syms = self.cl_symbols@;
        let ghost start = w@;
        proof {
            lemma_pow2_values();
        }
        w.write_bits((self.hlit - 257) as u32, 5);
        w.write_bits((self.hdist - 1) as u32, 5);
        w.write_bits((self.hclen - 4) as u32, 4);
        let ghost head = w@;
        let mut i: usize = 0;
        assert(head + cl_bits(cl, 0) =~= head);
        while i < self.hclen
            invariant
                self.header().ok(),
                cl == self.cl_lengths@,
                w.wf(),
                i <= self.hclen,
                w@ == head + cl_bits(cl, i as nat),
            decreases self.hclen - i,
        {
            proof {
                lemma_pow2_values();
                lemma_cl_order(i as int);
                reveal(cl_order);
                assert(cl[cl_order(i as int) as int] <= 7);
            }
            let ghost before = w@;
            w.write_bits(self.cl_lengths[CL_ORDER[i]] as u32, 3);
            i = i + 1;
            assert(w@ =~= head + cl_bits(cl, i as nat));
        }
        proof {
            lemma_codes_fit(cl);
        }
        let enc = Encoder::from_lengths(&self.cl_lengths);
        let ghost middle = w@;
        let mut i: usize = 0;
        assert(syms.skip(0) =~= syms);
        while i < self.cl_symbols.len()
            invariant
                self.header().ok(),
                cl == self.cl_lengths@,
                syms == self.cl_symbols@,
                enc.wf(),
                enc.lengths() == cl,
                w.wf(),
                i <= syms.len(),
                w@ + cl_symbols_bits(cl, syms.skip(i as int)) == middle + cl_symbols_bits(cl, syms),
            decreases syms.len() - i,
        {
            let (sym, extra) = self.cl_symbols[i];
            let ghost before = w@;
            proof {
                let s = syms[i as int];
                assert(s.0 <= 18 && s.1 < pow2(cl_extra(s.0)));
                assert(cl[s.0 as int] > 0);
                assert(syms.skip(i as int).skip(1) =~= syms.skip(i + 1));
                assert(syms.skip(i as int)[0] == s);
            }
            enc.write(w, sym as usize);
            w.write_bits(extra, extra_bits_for_cl(sym));
            i = i + 1;
            assert(w@ + cl_symbols_bits(cl, syms.skip(i as int)) =~= before + cl_symbols_bits(
                cl,
                syms.skip(i - 1),
            ));
        }
        proof {
            assert(syms.skip(i as int) =~= Seq::<(u8, u32)>::empty());
            assert(w@ =~= middle + cl_symbols_bits(cl, syms));
            assert(w@ =~= start + self.header().bits());
        }
    }
}

proof fn lemma_cl_bits_len(cl: Seq<u8>, n: nat)
    ensures
        cl_bits(cl, n).len() == 3 * n,
    decreases n,
{
    if n > 0 {
        lemma_cl_bits_len(cl, (n - 1) as nat);
        lemma_bits_of_len(cl[cl_order(n - 1) as int] as nat, 3);
    }
}

/// How many lengths are not 0.
fn count_nonzero(lengths: &[u8]) -> (r: usize)
    ensures
        r == nonzero(lengths@),
{
    let mut n: usize = 0;
    let mut i: usize = 0;
    assert(lengths@.take(0) =~= Seq::<u8>::empty());
    while i < lengths.len()
        invariant
            n <= i <= lengths@.len(),
            n == nonzero(lengths@.take(i as int)),
        decreases lengths@.len() - i,
    {
        assert(lengths@.take(i + 1).drop_last() =~= lengths@.take(i as int));
        if lengths[i] > 0 {
            n = n + 1;
        }
        i = i + 1;
    }
    assert(lengths@.take(i as int) =~= lengths@);
    n
}

/// One past the last length that is not 0.
fn find_last_nonzero(lengths: &[u8]) -> (r: usize)
    ensures
        r == last_nonzero(lengths@),
{
    let mut n: usize = lengths.len();
    assert(lengths@.take(n as int) =~= lengths@);
    while n > 0 && lengths[n - 1] == 0
        invariant
            n <= lengths@.len(),
            last_nonzero(lengths@.take(n as int)) == last_nonzero(lengths@),
        decreases n,
    {
        assert(lengths@.take(n as int).drop_last() =~= lengths@.take(n - 1));
        n = n - 1;
    }
    n
}

fn extra_bits_for_cl(sym: u8) -> (r: u32)
    ensures
        r == cl_extra(sym),
        r <= 7,
{
    if sym == 16 {
        2
    } else if sym == 17 {
        3
    } else if sym == 18 {
        7
    } else {
        0
    }
}

/// The lengths of the code-length code.
fn make_cl_lengths(syms: &Vec<(u8, u32)>) -> (r: Vec<u8>)
    requires
        syms_ok(0, syms@),
        syms@.len() <= 316,
    ensures
        r@ == cl_lengths_for(syms@),
        r@.len() == 19,
{
    let ghost all = syms@;
    let mut counts: Vec<u64> = vec![0;19];
    let mut i: usize = 0;
    proof {
        assert(all.take(0) =~= Seq::<(u8, u32)>::empty());
        assert(counts@ =~= cl_counts(all.take(0)));
        crate::deflate::blocks::lemma_total_zero(19);
    }
    while i < syms.len()
        invariant
            all == syms@,
            syms_ok(0, all),
            all.len() <= 316,
            i <= all.len(),
            counts@.len() == 19,
            counts@ == cl_counts(all.take(i as int)),
            total(counts@) == i,
        decreases all.len() - i,
    {
        let sym: usize = syms[i].0 as usize;
        proof {
            assert(all[i as int].0 <= 18);
            assert(all.take(i + 1).drop_last() =~= all.take(i as int));
            lemma_total_at(counts@, sym as int);
            lemma_total_update(counts@, sym as int, (counts@[sym as int] + 1) as u64);
        }
        counts[sym] = counts[sym] + 1;
        i = i + 1;
    }
    assert(all.take(i as int) =~= all);
    proof {
        lemma_pow2_values();
        lemma_used(counts@, 19);
    }
    let mut cl_lengths = code_lengths(&counts, 7);
    if count_nonzero(&cl_lengths) == 1 {
        // A one-symbol code is incomplete, which zlib rejects for this
        // code. Add a second, unused symbol to complete it.
        let spare: usize = if cl_lengths[0] == 0 {
            0
        } else {
            1
        };
        cl_lengths[spare] = 1;
    }
    cl_lengths
}

/// Run-length code a sequence of code lengths with Deflate's symbols:
/// 0-15 literal length, 16 = repeat previous 3-6 times, 17 = 3-10 zeros,
/// 18 = 11-138 zeros.
pub fn rle_code_lengths(lengths: &[u8]) -> (r: Vec<(u8, u32)>)
    ensures
        r@ == rle(lengths@),
{
    let ghost all = lengths@;
    let ghost target = rle(all);
    let mut out: Vec<(u8, u32)> = Vec::new();
    let mut i: usize = 0;
    assert(out@ + rle_from(all, 0) =~= target);
    while i < lengths.len()
        invariant
            all == lengths@,
            i <= all.len(),
            out@ + rle_from(all, i as nat) == target,
        decreases all.len() - i,
    {
        let value: u8 = lengths[i];
        let mut run: usize = 1;
        while run < lengths.len() - i && lengths[i + run] == value
            invariant
                all == lengths@,
                i < all.len(),
                1 <= run <= all.len() - i,
                all.len() == lengths.len(),
                forall|j: int| i <= j < i + run ==> #[trigger] all[j] == value,
            decreases all.len() - i - run,
        {
            run = run + 1;
        }
        proof {
            lemma_run_len_is(all, i as nat, value, run as nat);
        }
        let ghost before = out@;
        let ghost goal = before + run_symbols(value, run as nat);
        let mut left: usize = run;
        if value == 0 {
            while left >= 11
                invariant
                    out@ + zero_symbols(left as nat) == goal,
                decreases left,
            {
                let n: usize = if left < 138 {
                    left
                } else {
                    138
                };
                let ghost was = out@;
                out.push((18, (n - 11) as u32));
                assert(out@ + zero_symbols((left - n) as nat) =~= was + zero_symbols(left as nat));
                left = left - n;
            }
            if left >= 3 {
                let ghost was = out@;
                out.push((17, (left - 3) as u32));
                assert(out@ =~= was + zero_symbols(left as nat));
                left = 0;
                assert(out@ + plain_symbols(0, 0) =~= out@);
            }
        } else {
            out.push((value, 0));
            left = left - 1;
            assert(out@ + repeat_symbols(value, left as nat) =~= goal);
            while left >= 3
                invariant
                    out@ + repeat_symbols(value, left as nat) == goal,
                decreases left,
            {
                let n: usize = if left < 6 {
                    left
                } else {
                    6
                };
                let ghost was = out@;
                out.push((16, (n - 3) as u32));
                assert(out@ + repeat_symbols(value, (left - n) as nat) =~= was + repeat_symbols(
                    value,
                    left as nat,
                ));
                left = left - n;
            }
        }
        assert(out@ + plain_symbols(value, left as nat) == goal);
        while left > 0
            invariant
                out@ + plain_symbols(value, left as nat) == goal,
            decreases left,
        {
            let ghost was = out@;
            out.push((value, 0));
            assert(out@ + plain_symbols(value, (left - 1) as nat) =~= was + plain_symbols(
                value,
                left as nat,
            ));
            left = left - 1;
        }
        assert(out@ =~= goal);
        assert(out@ + rle_from(all, (i + run) as nat) =~= before + rle_from(all, i as nat));
        i = i + run;
    }
    assert(out@ =~= target);
    out
}

/// Write a block in its smallest form.
fn write_block(w: &mut BitWriter, tokens: &[Token], raw: &[u8], last: bool)
    requires
        old(w).wf(),
        tokens_sane(tokens@),
        tokens@.len() <= 16384,
        raw@.len() <= 258 * 16384,
    ensures
        final(w).wf(),
        final(w)@ == put_block(old(w)@, tokens@, raw@, last),
{
    let ghost all = tokens@;
    let counts = Counts::of(tokens);
    let header = DynamicHeader::new(&counts, Ghost(all));
    let fixed_lit = fixed_litlen_lengths();
    let fixed_distances = fixed_dist_lengths();
    proof {
        lemma_fixed_ok();
        lemma_pow2_values();
    }
    let dynamic: u64 = header.bits() + counts.cost(
        &header.lit_lengths,
        &header.dist_lengths,
        Ghost(all),
    );
    let fixed: u64 = counts.cost(&fixed_lit, &fixed_distances, Ghost(all));
    // Padding and 32 bits of lengths; each chunk after the first starts on a
    // byte boundary and takes a whole byte for its three bits.
    let padding: u64 = (8 - (w.pending_bits() as u64 + 3) % 8) % 8;
    let chunks: u64 = if raw.len() == 0 {
        1
    } else {
        (raw.len() as u64 + 65534) / 65535
    };
    let stored: u64 = padding + 32 + 40 * (chunks - 1) + raw.len() as u64 * 8;
    assert(stored == stored_size(w@.len(), raw@.len()));
    let ghost start = w@;
    if stored < dynamic && stored < fixed {
        write_stored(w, raw, last);
    } else if fixed <= dynamic {
        w.write_bit(last);
        w.write_bits(1, 2);
        write_tokens(w, tokens, &fixed_lit, &fixed_distances);
        assert(w@ =~= start + seq![last] + bits_of(1, 2) + fixed_bits(all));
    } else {
        w.write_bit(last);
        w.write_bits(2, 2);
        header.write(w);
        write_tokens(w, tokens, &header.lit_lengths, &header.dist_lengths);
        assert(w@ =~= start + seq![last] + bits_of(2, 2) + dynamic_bits(all));
    }
}

fn write_tokens(w: &mut BitWriter, tokens: &[Token], lit_lengths: &[u8], dist_lengths: &[u8])
    requires
        old(w).wf(),
        tokens_sane(tokens@),
        lengths_ok(lit_lengths@),
        lengths_ok(dist_lengths@),
        has_codes(tokens@, lit_lengths@, dist_lengths@),
    ensures
        final(w).wf(),
        final(w)@ == old(w)@ + body_bits(tokens@, lit_lengths@, dist_lengths@),
{
    let ghost lit_l = lit_lengths@;
    let ghost dist_l = dist_lengths@;
    let ghost all = tokens@;
    proof {
        lemma_codes_fit(lit_l);
        lemma_codes_fit(dist_l);
    }
    let lit = Encoder::from_lengths(lit_lengths);
    let dist = Encoder::from_lengths(dist_lengths);
    let ghost start = w@;
    let mut i: usize = 0;
    assert(all.skip(0) =~= all);
    while i < tokens.len()
        invariant
            all == tokens@,
            i <= all.len(),
            tokens_sane(all),
            has_codes(all, lit_l, dist_l),
            lit.wf(),
            dist.wf(),
            lit.lengths() == lit_l,
            dist.lengths() == dist_l,
            w.wf(),
            w@ + tokens_bits(all.skip(i as int), lit_l, dist_l) == start + tokens_bits(
                all,
                lit_l,
                dist_l,
            ),
        decreases all.len() - i,
    {
        let ghost before = w@;
        let ghost t = all[i as int];
        proof {
            assert(has_code(all[i as int], lit_l, dist_l));
            assert(all.skip(i as int).skip(1) =~= all.skip(i + 1));
            assert(all.skip(i as int)[0] == t);
        }
        match tokens[i] {
            Token::Literal(b) => {
                lit.write(w, b as usize);
            },
            Token::Match { len, dist: d } => {
                proof {
                    lengths_roundtrip(len as nat);
                    dists_roundtrip(d as nat);
                }
                let l = length_code(len as usize);
                lit.write(w, 257 + l.index);
                w.write_bits(l.extra, l.extra_bits);
                let d = dist_code(d as usize);
                dist.write(w, d.index);
                w.write_bits(d.extra, d.extra_bits);
            },
        }
        i = i + 1;
        proof {
            assert(w@ =~= before + token_bits(t, lit_l, dist_l));
            assert(w@ + tokens_bits(all.skip(i as int), lit_l, dist_l) =~= before + tokens_bits(
                all.skip(i - 1),
                lit_l,
                dist_l,
            ));
        }
    }
    proof {
        assert(all.skip(i as int) =~= Seq::<Token>::empty());
        assert(w@ =~= start + tokens_bits(all, lit_l, dist_l));
    }
    lit.write(w, END_OF_BLOCK);
    assert(w@ =~= start + body_bits(all, lit_l, dist_l));
}

/// Write bytes as they are, in as many blocks as it takes.
fn write_stored(w: &mut BitWriter, raw: &[u8], last: bool)
    requires
        old(w).wf(),
    ensures
        final(w).wf(),
        final(w)@ == put_stored(old(w)@, raw@, last),
{
    let ghost target = put_stored(w@, raw@, last);
    let mut pos: usize = 0;
    assert(raw@.skip(0) =~= raw@);
    loop
        invariant
            w.wf(),
            pos <= raw@.len(),
            put_stored(w@, raw@.skip(pos as int), last) == target,
            target == put_stored(old(w)@, raw@, last),
        decreases raw@.len() - pos,
    {
        proof {
            lemma_pow2_values();
        }
        let ghost start = w@;
        let ghost left = raw@.skip(pos as int);
        let n: usize = if raw.len() - pos < MAX_STORED {
            raw.len() - pos
        } else {
            MAX_STORED
        };
        let end: bool = n == raw.len() - pos;
        w.write_bit(last && end);
        w.write_bits(0, 2);
        w.align_to_byte();
        w.write_bits(n as u32, 16);
        w.write_bits((MAX_STORED - n) as u32, 16);
        let ghost head = w@;
        let ghost chunk = left.take(n as int);
        let mut i: usize = 0;
        assert(bytes_bits(chunk.take(0)) =~= Seq::<bool>::empty());
        assert(head + bytes_bits(chunk.take(0)) =~= head);
        while i < n
            invariant
                w.wf(),
                pos + n <= raw@.len(),
                raw@.len() == raw.len(),
                i <= n,
                chunk == raw@.skip(pos as int).take(n as int),
                w@ == head + bytes_bits(chunk.take(i as int)),
            decreases n - i,
        {
            proof {
                assert(chunk.take(i + 1) =~= chunk.take(i as int).push(raw@[pos + i]));
                lemma_bytes_bits_push(chunk.take(i as int), raw@[pos + i]);
            }
            let ghost was = w@;
            w.write_byte(raw[pos + i]);
            i = i + 1;
            assert(w@ =~= head + bytes_bits(chunk.take(i as int)));
        }
        proof {
            assert(chunk.take(n as int) =~= chunk);
            assert(head == padded(start + seq![last && end] + bits_of(0, 2)) + bits_of(n as nat, 16)
                + bits_of((65535 - n) as nat, 16));
        }
        if end {
            return ;
        }
        assert(left.skip(n as int) =~= raw@.skip(pos + n));
        assert(put_stored(start, left, last) == put_stored(w@, left.skip(n as int), last));
        pos = pos + n;
    }
}

/// Compress `input` as a raw Deflate stream. `level` is 0 (store only) to 9.
pub fn deflate(input: &[u8], level: u8) -> (r: Vec<u8>)
    requires
        level == 0 || input@.len() < u32::MAX,
    ensures
        bytes_bits(r@) == padded(deflated_bits(input@, level)),
        forall|limit: nat|
            limit >= input@.len() ==> #[trigger] inflated(r@, limit) == Ok::<
                (Seq<u8>, nat),
                Error,
            >((input@, r@.len())),
{
    let mut w = BitWriter::with_capacity(input.len() / 2 + 64);
    proof {
        lemma_pow2_values();
    }
    if input.len() == 0 {
        // One final fixed block holding just end-of-block.
        w.write_bit(true);
        w.write_bits(1, 2);
        proof {
            lemma_fixed_ok();
            lemma_codes_fit(fixed_litlen());
        }
        Encoder::from_lengths(&fixed_litlen_lengths()).write(&mut w, END_OF_BLOCK);
        assert(w@ =~= deflated_bits(input@, level));
    } else if level == 0 {
        assert(w@ =~= Seq::<bool>::empty());
        write_stored(&mut w, input, true);
    } else {
        let tokens = lz77::parse(input, Params::level(level));
        write_blocks(&mut w, input, &tokens);
    }
    let r = w.finish();
    proof {
        assert forall|limit: nat| limit >= input@.len() implies #[trigger] inflated(r@, limit)
            == Ok::<(Seq<u8>, nat), Error>((input@, r@.len())) by {
            assert(r@ + Seq::<u8>::empty() =~= r@);
            deflate_is_lossless(input@, level, r@, Seq::empty(), limit);
        }
    }
    r
}

/// Write the tokens of `input` in blocks.
fn write_blocks(w: &mut BitWriter, input: &[u8], tokens: &Vec<Token>)
    requires
        old(w).wf(),
        old(w)@ == Seq::<bool>::empty(),
        tokens_ok(input@, 0, tokens@),
    ensures
        final(w).wf(),
        final(w)@ == put_blocks(Seq::empty(), input@, tokens@, 0),
{
    let ghost all = tokens@;
    let mut pos: usize = 0;
    let mut done: usize = 0;
    assert(all.skip(0) =~= all);
    while done < tokens.len()
        invariant
            all == tokens@,
            done <= all.len(),
            pos <= input@.len(),
            w.wf(),
            tokens_ok(input@, pos as int, all.skip(done as int)),
            put_blocks(w@, input@, all.skip(done as int), pos as nat) == put_blocks(
                Seq::empty(),
                input@,
                all,
                0,
            ),
        decreases all.len() - done,
    {
        let n: usize = if tokens.len() - done < BLOCK_TOKENS {
            tokens.len() - done
        } else {
            BLOCK_TOKENS
        };
        let block = slice_subrange(tokens, done, done + n);
        let ghost left = all.skip(done as int);
        proof {
            assert(block@ =~= left.take(n as int));
            lemma_tokens_split(input@, pos as nat, left, n as int);
            lemma_sane(input@, pos as nat, block@);
        }
        let mut len: usize = 0;
        let mut i: usize = 0;
        assert(block@.skip(0) =~= block@);
        while i < n
            invariant
                n <= 16384,
                block@.len() == n,
                tokens_sane(block@),
                i <= n,
                len <= 258 * i,
                len + span(block@.skip(i as int)) == span(block@),
                pos + span(block@) <= input@.len(),
                input@.len() == input.len(),
            decreases n - i,
        {
            proof {
                assert(block@.skip(i as int).skip(1) =~= block@.skip(i + 1));
                assert(block@.skip(i as int)[0] == block@[i as int]);
            }
            len = len + block[i].byte_len();
            i = i + 1;
        }
        proof {
            assert(block@.skip(n as int) =~= Seq::<Token>::empty());
            assert(left.skip(n as int) =~= all.skip(done + n));
        }
        let raw = slice_subrange(input, pos, pos + len);
        write_block(w, block, raw, done + n == tokens.len());
        pos = pos + len;
        done = done + n;
    }
    assert(all.skip(done as int) =~= Seq::<Token>::empty());
}

} // verus!
