//! The classic bzip2 pipeline: [`forward`](super::forward) exposes local
//! repetition as runs of the same byte, [`mtf`](super::mtf) turns "which
//! byte" into small numbers biased heavily towards 0, and the runs of 0
//! that fall out of that get coded directly rather than one at a time.
//!
//! Real bzip2 pairs this with a Huffman stage, which is stuck at 1 bit per
//! symbol no matter how likely that symbol is. Since move-to-front's
//! output is dominated by 0s, bzip2 first collapses runs of them into two
//! extra alphabet symbols (`RUNA`/`RUNB`, a bijective base-2 count) so
//! Huffman only pays for "a run happened", not for every 0 in it.
//!
//! Our entropy coder is [`crate::ans`], which doesn't have that 1-bit
//! floor -- read alone, it already prices a very likely 0 at a fraction of
//! a bit ([`crate::codecs::rans`] measured about 0.15 bits on an even more
//! skewed 90%-one-byte input). But a long run of identical bytes still
//! costs `run_length * that_fraction` bits under rANS, against
//! `O(log run_length)` for writing the length directly -- worth keeping for
//! highly repetitive data. So we still split runs of 0 out, just into a
//! plain length instead of bzip2's extra alphabet symbols: every run
//! becomes one *token* (byte value 0, meaning "a run of 0s follows") plus
//! its length written separately as an Elias gamma code, and every other
//! byte becomes one token carrying its own value. The token stream -- never
//! bigger than the input, at most 255 distinct values wide -- then goes
//! through [`crate::ans`] exactly like [`crate::codecs::rans`]'s bytes do.
//!
//! This is **not** the `.bz2` file format: bzip2 also randomises pathological
//! blocks (a bug workaround from bzip1 kept for compatibility), splits
//! large Huffman-coded sections into several tables, and of course uses
//! Huffman rather than rANS. None of that changes what the transform
//! demonstrates, so we didn't chase bit-for-bit compatibility here the way
//! [`crate::deflate`]/[`crate::gzip`] and [`crate::lzma`] do for their
//! formats.
//!
//! Block layout, repeated until the input is exhausted (integers as Elias
//! gamma codes, LSB-first bits, byte-aligned before each raw section):
//!
//! ```text
//! gamma(primary_index + 1)     row of the original block in forward()'s sorted rotations
//! gamma(block_len + 1)         bytes of original data in this block
//! 256 x gamma(freq + 1)        token frequency table
//! gamma(token_count + 1)       number of tokens
//! gamma(coded_len + 1)         byte length of the rANS-coded tokens
//! gamma(run_lengths_bits + 1)  bit length of the run-length side channel
//! (pad to a byte)
//! [coded_len bytes]            rANS-coded tokens
//! [run_lengths bytes]          Elias gamma-coded run lengths, back to back
//! ```
use crate::ans;
use crate::ans::freqs_check;
use crate::ans::lemma_rans_len;
use crate::ans::rans_bytes;
use crate::ans::rans_decoded;
use crate::ans::rans_is_lossless;
use crate::ans::Freqs;
use crate::bits::aligned;
use crate::bits::bytes_bits;
use crate::bits::gamma_bits;
use crate::bits::ilog2;
use crate::bits::lemma_before_bytes;
use crate::bits::gamma_roundtrip;
use crate::bits::lemma_packed_bits;
use crate::bits::lemma_packed_bytes;
use crate::bits::lemma_take_gamma;
use crate::bits::packed_bytes;
use crate::bits::padded;
use crate::bits::take_gamma;
use crate::bits::zeros;
use crate::bits::BitReader;
use crate::bits::BitWriter;
use crate::bwt::column;
use crate::bwt::forward;
use crate::bwt::inverse;
use crate::bwt::mtf;
use crate::bwt::mtf::fresh_table;
use crate::bwt::primary;
use crate::bwt::restored;
use crate::bwt::transform_is_lossless;
use crate::bwt::walked;
use crate::codecs::packbits::push_run;
use crate::codecs::packbits::repeated;
use crate::counts::count_bytes;
use crate::error::same_bytes;
use crate::error::Error;
use crate::freq_table::freq_bits;
use crate::freq_table::freqs_for;
use crate::freq_table::lemma_freqs_for;
use crate::freq_table::lemma_freqs_shrink;
use crate::freq_table::lemma_take_freqs;
use crate::freq_table::read_freqs;
use crate::freq_table::take_freqs;
use crate::freq_table::write_freqs;
use vstd::prelude::*;
use vstd::slice::slice_subrange;

verus! {

/// Bytes of original data per block. Matches bzip2 `-9`'s maximum, a
/// reasonable trade-off between how far the transform can look and how
/// long the O(n log n) sort takes.
pub const BLOCK_SIZE: usize = 900_000;

// Runs.

/// How many ranks at the start are 0.
pub open spec fn zero_run(ranks: Seq<u8>) -> nat
    decreases ranks.len(),
{
    if ranks.len() == 0 || ranks[0] != 0 {
        0
    } else {
        1 + zero_run(ranks.skip(1))
    }
}

pub proof fn lemma_zero_run(ranks: Seq<u8>)
    ensures
        zero_run(ranks) <= ranks.len(),
        ranks.take(zero_run(ranks) as int) == repeated(0, zero_run(ranks)),
        ranks.len() > 0 && ranks[0] == 0 ==> zero_run(ranks) >= 1,
    decreases ranks.len(),
{
    let n = zero_run(ranks) as int;
    if ranks.len() > 0 && ranks[0] == 0 {
        let more = ranks.skip(1);
        lemma_zero_run(more);
        assert forall|i: int| 0 <= i < n implies ranks[i] == 0 by {
            if i > 0 {
                assert(ranks[i] == more.take(n - 1)[i - 1]);
            }
        }
    }
    assert(ranks.take(n) =~= repeated(0, n as nat));
}

/// A token per run of 0s or other rank.
pub open spec fn tokens_of(ranks: Seq<u8>) -> Seq<u8>
    decreases ranks.len(),
{
    if ranks.len() == 0 {
        Seq::empty()
    } else if ranks[0] == 0 {
        proof {
            lemma_zero_run(ranks);
        }
        seq![0u8] + tokens_of(ranks.skip(zero_run(ranks) as int))
    } else {
        seq![ranks[0]] + tokens_of(ranks.skip(1))
    }
}

/// The lengths of the runs of 0s.
pub open spec fn runs_bits(ranks: Seq<u8>) -> Seq<bool>
    decreases ranks.len(),
{
    if ranks.len() == 0 {
        Seq::empty()
    } else if ranks[0] == 0 {
        proof {
            lemma_zero_run(ranks);
        }
        gamma_bits(zero_run(ranks)) + runs_bits(ranks.skip(zero_run(ranks) as int))
    } else {
        runs_bits(ranks.skip(1))
    }
}

/// The ranks that tokens and run lengths stand for, behind `out`.
pub open spec fn joined(tokens: Seq<u8>, runs: Seq<bool>, out: Seq<u8>, n: nat) -> Result<
    Seq<u8>,
    Error,
>
    decreases tokens.len(),
{
    if tokens.len() == 0 {
        if out.len() != n {
            Err(Error::Corrupt("BWT block decoded to the wrong length"))
        } else {
            Ok(out)
        }
    } else if tokens[0] == 0 {
        match take_gamma(runs) {
            Err(e) => Err(e),
            Ok((run, rest)) => if out.len() + run > n {
                Err(Error::Corrupt("BWT run length invalid or overruns the block"))
            } else {
                joined(tokens.skip(1), rest, out + repeated(0, run), n)
            },
        }
    } else if out.len() >= n {
        Err(Error::Corrupt("BWT token stream overruns the block"))
    } else {
        joined(tokens.skip(1), runs, out.push(tokens[0]), n)
    }
}

/// There are never more tokens than ranks.
pub proof fn tokens_are_fewer(ranks: Seq<u8>)
    ensures
        tokens_of(ranks).len() <= ranks.len(),
        ranks.len() > 0 ==> tokens_of(ranks).len() > 0,
    decreases ranks.len(),
{
    if ranks.len() > 0 {
        if ranks[0] == 0 {
            lemma_zero_run(ranks);
            tokens_are_fewer(ranks.skip(zero_run(ranks) as int));
        } else {
            tokens_are_fewer(ranks.skip(1));
        }
    }
}

proof fn lemma_ilog2_less(n: nat)
    requires
        n > 0,
    ensures
        ilog2(n) < n,
    decreases n,
{
    if n > 1 {
        lemma_ilog2_less(n / 2);
    }
}

proof fn lemma_runs_len(ranks: Seq<u8>)
    requires
        ranks.len() <= u64::MAX,
    ensures
        runs_bits(ranks).len() <= 2 * ranks.len(),
    decreases ranks.len(),
{
    if ranks.len() > 0 {
        if ranks[0] == 0 {
            let n = zero_run(ranks);
            lemma_zero_run(ranks);
            gamma_roundtrip(n, Seq::empty());
            lemma_ilog2_less(n);
            lemma_runs_len(ranks.skip(n as int));
        } else {
            lemma_runs_len(ranks.skip(1));
        }
    }
}

/// Tokens and run lengths give back the ranks.
pub proof fn runs_roundtrip(ranks: Seq<u8>, out: Seq<u8>, tail: Seq<bool>)
    requires
        ranks.len() <= u64::MAX,
    ensures
        joined(tokens_of(ranks), runs_bits(ranks) + tail, out, out.len() + ranks.len()) == Ok::<
            Seq<u8>,
            Error,
        >(out + ranks),
    decreases ranks.len(),
{
    if ranks.len() == 0 {
        assert(out + ranks =~= out);
    } else {
        let tokens = tokens_of(ranks);
        if ranks[0] == 0 {
            let n = zero_run(ranks);
            lemma_zero_run(ranks);
            let more = ranks.skip(n as int);
            let rest = runs_bits(more) + tail;
            gamma_roundtrip(n, rest);
            assert(runs_bits(ranks) + tail =~= gamma_bits(n) + rest);
            assert(tokens.skip(1) =~= tokens_of(more));
            runs_roundtrip(more, out + repeated(0, n), tail);
            assert(out + repeated(0, n) + more =~= out + ranks) by {
                assert(ranks =~= ranks.take(n as int) + more);
            }
        } else {
            let more = ranks.skip(1);
            assert(tokens.skip(1) =~= tokens_of(more));
            runs_roundtrip(more, out.push(ranks[0]), tail);
            assert(out.push(ranks[0]) + more =~= out + ranks);
        }
    }
}

// Blocks.

/// The ranks of a block's last column.
pub open spec fn block_ranks(block: Seq<u8>) -> Seq<u8> {
    mtf::ranks(fresh_table(), column(block))
}

/// A block's tokens.
pub open spec fn block_tokens(block: Seq<u8>) -> Seq<u8> {
    tokens_of(block_ranks(block))
}

/// A block's tokens, coded.
pub open spec fn block_coded(block: Seq<u8>) -> Seq<u8> {
    rans_bytes(block_tokens(block), freqs_for(block_tokens(block)))
}

/// The bits before a block's raw sections.
pub open spec fn head_bits(block: Seq<u8>) -> Seq<bool> {
    gamma_bits(primary(block) + 1) + (gamma_bits(block.len() + 1) + (freq_bits(
        freqs_for(block_tokens(block)),
        256,
    ) + (gamma_bits(block_tokens(block).len() + 1) + (gamma_bits(block_coded(block).len() + 1)
        + gamma_bits(runs_bits(block_ranks(block)).len() + 1)))))
}

/// A whole block.
pub open spec fn block_bytes(block: Seq<u8>) -> Seq<u8> {
    packed_bytes(head_bits(block)) + (block_coded(block) + packed_bytes(
        runs_bits(block_ranks(block)),
    ))
}

/// All blocks of `input`.
pub open spec fn blocks_bytes(input: Seq<u8>) -> Seq<u8>
    decreases input.len(),
{
    if input.len() == 0 {
        Seq::empty()
    } else {
        let n: int = if input.len() < 900_000 {
            input.len() as int
        } else {
            900_000
        };
        block_bytes(input.take(n)) + blocks_bytes(input.skip(n))
    }
}

/// What stands before a block's raw sections.
pub ghost struct Head {
    pub primary: nat,
    pub n: nat,
    pub freq: Seq<u32>,
    pub tokens: nat,
    pub coded: nat,
    pub runs: nat,
}

/// Reading the first two fields of a block.
pub open spec fn take_sizes(s: Seq<bool>, remaining: nat) -> Result<
    (nat, nat, Seq<bool>),
    Error,
> {
    match take_gamma(s) {
        Err(e) => Err(e),
        Ok((p, s)) => match take_gamma(s) {
            Err(e) => Err(e),
            Ok((g, s)) => {
                let n = (g - 1) as nat;
                if n > usize::MAX {
                    Err(Error::Corrupt("BWT block length too large"))
                } else if n == 0 || n > remaining {
                    Err(Error::Corrupt("BWT block length invalid or larger than allowed"))
                } else if n > u32::MAX {
                    Err(Error::Corrupt("BWT block length too large"))
                } else {
                    Ok(((p - 1) as nat, n, s))
                }
            },
        },
    }
}

/// Reading the last three fields of a block of `n` bytes.
pub open spec fn take_lengths(s: Seq<bool>, n: nat) -> Result<
    (nat, nat, nat, Seq<bool>),
    Error,
> {
    match take_gamma(s) {
        Err(e) => Err(e),
        Ok((t, s)) => if t - 1 > usize::MAX {
            Err(Error::Corrupt("BWT token count too large"))
        } else if t - 1 > n {
            Err(Error::Corrupt("BWT token count exceeds block length"))
        } else {
            match take_gamma(s) {
                Err(e) => Err(e),
                Ok((c, s)) => if c - 1 > usize::MAX {
                    Err(Error::Corrupt("BWT coded length too large"))
                } else {
                    match take_gamma(s) {
                        Err(e) => Err(e),
                        Ok((r, s)) => Ok(((t - 1) as nat, (c - 1) as nat, (r - 1) as nat, s)),
                    }
                },
            }
        },
    }
}

/// Reading what stands before a block's raw sections.
#[verifier::opaque]
pub open spec fn take_head(s: Seq<bool>, remaining: nat) -> Result<(Head, Seq<bool>), Error> {
    match take_sizes(s, remaining) {
        Err(e) => Err(e),
        Ok((primary, n, s)) => match take_freqs(s, 256, "BWT token frequency too large") {
            Err(e) => Err(e),
            Ok((freq, s)) => match take_lengths(s, n) {
                Err(e) => Err(e),
                Ok((tokens, coded, runs, s)) => Ok(
                    (Head { primary, n, freq, tokens, coded, runs }, s),
                ),
            },
        },
    }
}

/// The data of a block, from its raw sections.
#[verifier::opaque]
pub open spec fn block_data(h: Head, coded: Seq<u8>, runs: Seq<u8>) -> Result<Seq<u8>, Error> {
    match freqs_check(h.freq) {
        Err(e) => Err(e),
        Ok(_) => match rans_decoded(coded, h.freq, h.tokens) {
            Err(e) => Err(e),
            Ok(tokens) => match joined(tokens, bytes_bits(runs), Seq::empty(), h.n) {
                Err(e) => Err(e),
                Ok(ranks) => if h.primary > u32::MAX {
                    Err(Error::Corrupt("BWT primary index too large"))
                } else {
                    restored(mtf::bytes(fresh_table(), ranks), h.primary)
                },
            },
        },
    }
}

/// The block that `s` starts with, of at most `remaining` bytes, and the
/// bytes it takes up.
#[verifier::opaque]
pub open spec fn take_block(s: Seq<u8>, remaining: nat) -> Result<(Seq<u8>, nat), Error> {
    match take_head(bytes_bits(s), remaining) {
        Err(e) => Err(e),
        Ok((h, b)) => {
            let at = (s.len() - aligned(b).len() / 8) as nat;
            let mid = at + h.coded;
            let end = mid + (h.runs + 7) / 8;
            if end > s.len() {
                Err(Error::UnexpectedEof)
            } else {
                match block_data(
                    h,
                    s.subrange(at as int, mid as int),
                    s.subrange(mid as int, end as int),
                ) {
                    Err(e) => Err(e),
                    Ok(data) => Ok((data, end)),
                }
            }
        },
    }
}

proof fn lemma_head_shrinks(s: Seq<bool>, remaining: nat)
    ensures
        take_head(s, remaining) matches Ok((h, rest)) ==> {
            &&& rest.len() < s.len()
            &&& 0 < h.n <= remaining
            &&& h.n <= u32::MAX
            &&& h.freq.len() == 256
            &&& h.tokens <= h.n
        },
{
    reveal(take_head);
    match take_sizes(s, remaining) {
        Ok((p, n, t)) => {
            lemma_freqs_shrink(t, 256, "BWT token frequency too large");
            match take_freqs(t, 256, "BWT token frequency too large") {
                Ok((freq, t)) => lemma_take_gamma(t),
                Err(_) => {},
            }
        },
        Err(_) => {},
    }
}

proof fn lemma_joined_len(tokens: Seq<u8>, runs: Seq<bool>, out: Seq<u8>, n: nat)
    ensures
        joined(tokens, runs, out, n) matches Ok(r) ==> r.len() == n,
    decreases tokens.len(),
{
    if tokens.len() > 0 {
        if tokens[0] == 0 {
            match take_gamma(runs) {
                Ok((run, rest)) => lemma_joined_len(
                    tokens.skip(1),
                    rest,
                    out + repeated(0, run),
                    n,
                ),
                Err(_) => {},
            }
        } else {
            lemma_joined_len(tokens.skip(1), runs, out.push(tokens[0]), n);
        }
    }
}

proof fn lemma_bytes_len(table: Seq<u8>, ranks: Seq<u8>)
    ensures
        mtf::bytes(table, ranks).len() == ranks.len(),
    decreases ranks.len(),
{
    if ranks.len() > 0 {
        lemma_bytes_len(mtf::to_front(table, ranks[0] as int), ranks.skip(1));
    }
}

proof fn lemma_walked_len(l: Seq<u8>, row: int, k: nat)
    ensures
        walked(l, row, k).len() == k,
    decreases k,
{
    if k > 0 {
        lemma_walked_len(l, crate::bwt::lf(l, row) as int, (k - 1) as nat);
    }
}

proof fn lemma_block_data_len(h: Head, coded: Seq<u8>, runs: Seq<u8>)
    ensures
        block_data(h, coded, runs) matches Ok(data) ==> data.len() == h.n,
{
    reveal(block_data);
    match rans_decoded(coded, h.freq, h.tokens) {
        Ok(tokens) => {
            lemma_joined_len(tokens, bytes_bits(runs), Seq::empty(), h.n);
            match joined(tokens, bytes_bits(runs), Seq::empty(), h.n) {
                Ok(ranks) => {
                    lemma_bytes_len(fresh_table(), ranks);
                    let l = mtf::bytes(fresh_table(), ranks);
                    lemma_walked_len(l, h.primary as int, l.len());
                },
                Err(_) => {},
            }
        },
        Err(_) => {},
    }
}

/// A block holds some bytes, no more than allowed, and takes up some.
pub proof fn lemma_take_block(s: Seq<u8>, remaining: nat)
    ensures
        take_block(s, remaining) matches Ok((data, len)) ==> 0 < data.len() <= remaining && 0 < len
            <= s.len(),
{
    reveal(take_block);
    let bits = bytes_bits(s);
    assert(bits.len() == 8 * s.len());
    lemma_head_shrinks(bits, remaining);
    match take_head(bits, remaining) {
        Ok((h, b)) => {
            let at = (s.len() - aligned(b).len() / 8) as nat;
            let mid = at + h.coded;
            let end = mid + (h.runs + 7) / 8;
            lemma_block_data_len(
                h,
                s.subrange(at as int, mid as int),
                s.subrange(mid as int, end as int),
            );
        },
        Err(_) => {},
    }
}

/// What blocks decode to, behind `out`.
pub open spec fn unblocked(s: Seq<u8>, out: Seq<u8>, expected: nat) -> Result<Seq<u8>, Error>
    decreases expected - out.len(),
{
    if out.len() >= expected {
        if s.len() > 0 {
            Err(Error::Corrupt("data after the last BWT block"))
        } else {
            Ok(out)
        }
    } else {
        let remaining = (expected - out.len()) as nat;
        proof {
            lemma_take_block(s, remaining);
        }
        match take_block(s, remaining) {
            Err(e) => Err(e),
            Ok((data, len)) => unblocked(s.skip(len as int), out + data, expected),
        }
    }
}

/// What is known of the parts of a block.
proof fn lemma_block_parts(block: Seq<u8>)
    requires
        0 < block.len() <= u32::MAX,
    ensures
        column(block).len() == block.len(),
        primary(block) < block.len(),
        restored(column(block), primary(block)) == Ok::<Seq<u8>, Error>(block),
        block_ranks(block).len() == block.len(),
        mtf::bytes(fresh_table(), block_ranks(block)) == column(block),
        0 < block_tokens(block).len() <= block.len(),
        crate::ans::freqs_ok(freqs_for(block_tokens(block))),
        crate::ans::covers(freqs_for(block_tokens(block)), block_tokens(block)),
        block_coded(block).len() <= 16 + 2 * block.len(),
        runs_bits(block_ranks(block)).len() <= 2 * block.len(),
{
    transform_is_lossless(block);
    mtf::lemma_fresh();
    mtf::ranks_roundtrip(fresh_table(), column(block));
    tokens_are_fewer(block_ranks(block));
    lemma_freqs_for(block_tokens(block));
    lemma_rans_len(block_tokens(block), freqs_for(block_tokens(block)));
    lemma_runs_len(block_ranks(block));
}

/// What stands before a block's raw sections is read again.
proof fn lemma_head(block: Seq<u8>, rest: Seq<bool>, remaining: nat)
    requires
        0 < block.len() <= u32::MAX,
        block.len() <= remaining,
        block_coded(block).len() <= usize::MAX,
    ensures
        take_head(head_bits(block) + rest, remaining) == Ok::<(Head, Seq<bool>), Error>(
            (
                Head {
                    primary: primary(block),
                    n: block.len(),
                    freq: freqs_for(block_tokens(block)),
                    tokens: block_tokens(block).len(),
                    coded: block_coded(block).len(),
                    runs: runs_bits(block_ranks(block)).len(),
                },
                rest,
            ),
        ),
{
    lemma_block_parts(block);
    let freq = freqs_for(block_tokens(block));
    let t = block_tokens(block).len();
    let c = block_coded(block).len();
    let r = runs_bits(block_ranks(block)).len();
    lemma_head_fields(primary(block), block.len(), freq, t, c, r, rest, remaining);
    lemma_regroup(
        gamma_bits(primary(block) + 1),
        gamma_bits(block.len() + 1),
        freq_bits(freq, 256),
        gamma_bits(t + 1),
        gamma_bits(c + 1),
        gamma_bits(r + 1),
        rest,
    );
}

/// The fields before a block's raw sections are read again.
proof fn lemma_head_fields(
    p: nat,
    n: nat,
    freq: Seq<u32>,
    t: nat,
    c: nat,
    r: nat,
    rest: Seq<bool>,
    remaining: nat,
)
    requires
        p <= u32::MAX,
        0 < n <= u32::MAX,
        n <= remaining,
        crate::ans::freqs_ok(freq),
        t <= n,
        c <= 0x10_0000_0000,
        c <= usize::MAX,
        r <= 0x10_0000_0000,
    ensures
        take_head(
            gamma_bits(p + 1) + (gamma_bits(n + 1) + (freq_bits(freq, 256) + (gamma_bits(t + 1) + (
            gamma_bits(c + 1) + (gamma_bits(r + 1) + rest))))),
            remaining,
        ) == Ok::<(Head, Seq<bool>), Error>(
            (Head { primary: p, n, freq, tokens: t, coded: c, runs: r }, rest),
        ),
{
    reveal(take_head);
    let s3 = gamma_bits(t + 1) + (gamma_bits(c + 1) + (gamma_bits(r + 1) + rest));
    lemma_sizes(p, n, freq_bits(freq, 256) + s3, remaining);
    lemma_take_freqs(freq, 256, "BWT token frequency too large", s3);
    assert(freq.take(256) =~= freq);
    lemma_lengths(t, c, r, rest, n);
}

proof fn lemma_regroup(
    a: Seq<bool>,
    b: Seq<bool>,
    f: Seq<bool>,
    t: Seq<bool>,
    c: Seq<bool>,
    r: Seq<bool>,
    rest: Seq<bool>,
)
    ensures
        (a + (b + (f + (t + (c + r))))) + rest == a + (b + (f + (t + (c + (r + rest))))),
{
    assert((a + (b + (f + (t + (c + r))))) + rest =~= a + (b + (f + (t + (c + (r + rest))))));
}

proof fn lemma_sizes(p: nat, n: nat, rest: Seq<bool>, remaining: nat)
    requires
        p <= u32::MAX,
        0 < n <= u32::MAX,
        n <= remaining,
    ensures
        take_sizes(gamma_bits(p + 1) + (gamma_bits(n + 1) + rest), remaining) == Ok::<
            (nat, nat, Seq<bool>),
            Error,
        >((p, n, rest)),
{
    gamma_roundtrip(p + 1, gamma_bits(n + 1) + rest);
    gamma_roundtrip(n + 1, rest);
}

proof fn lemma_lengths(t: nat, c: nat, r: nat, rest: Seq<bool>, n: nat)
    requires
        t <= n <= u32::MAX,
        c <= 0x10_0000_0000,
        c <= usize::MAX,
        r <= 0x10_0000_0000,
    ensures
        take_lengths(
            gamma_bits(t + 1) + (gamma_bits(c + 1) + (gamma_bits(r + 1) + rest)),
            n,
        ) == Ok::<(nat, nat, nat, Seq<bool>), Error>((t, c, r, rest)),
{
    let s2 = gamma_bits(r + 1) + rest;
    let s1 = gamma_bits(c + 1) + s2;
    gamma_roundtrip(t + 1, s1);
    gamma_roundtrip(c + 1, s2);
    gamma_roundtrip(r + 1, rest);
    lemma_three_fields(gamma_bits(t + 1) + s1, s1, s2, rest, t, c, r, n);
}

proof fn lemma_three_fields(
    s: Seq<bool>,
    s1: Seq<bool>,
    s2: Seq<bool>,
    rest: Seq<bool>,
    t: nat,
    c: nat,
    r: nat,
    n: nat,
)
    requires
        take_gamma(s) == Ok::<(nat, Seq<bool>), Error>((t + 1, s1)),
        take_gamma(s1) == Ok::<(nat, Seq<bool>), Error>((c + 1, s2)),
        take_gamma(s2) == Ok::<(nat, Seq<bool>), Error>((r + 1, rest)),
        t <= n <= u32::MAX,
        c <= usize::MAX,
    ensures
        take_lengths(s, n) == Ok::<(nat, nat, nat, Seq<bool>), Error>((t, c, r, rest)),
{
}

/// A block's raw sections give back its data.
proof fn lemma_data(block: Seq<u8>, h: Head)
    requires
        0 < block.len() <= u32::MAX,
        h.primary == primary(block),
        h.n == block.len(),
        h.freq == freqs_for(block_tokens(block)),
        h.tokens == block_tokens(block).len(),
    ensures
        block_data(h, block_coded(block), packed_bytes(runs_bits(block_ranks(block)))) == Ok::<
            Seq<u8>,
            Error,
        >(block),
{
    reveal(block_data);
    lemma_block_parts(block);
    let ranks = block_ranks(block);
    let runs = runs_bits(ranks);
    rans_is_lossless(block_tokens(block), h.freq);
    lemma_packed_bits(runs);
    let tail = zeros(((8 - runs.len() % 8) % 8) as nat);
    runs_roundtrip(ranks, Seq::empty(), tail);
    assert(Seq::<u8>::empty() + ranks =~= ranks);
}

/// A block is read again, whatever follows it.
pub proof fn block_is_read_again(block: Seq<u8>, tail: Seq<u8>, remaining: nat)
    requires
        0 < block.len() <= u32::MAX,
        block_coded(block).len() <= usize::MAX,
        block.len() <= remaining,
    ensures
        take_block(block_bytes(block) + tail, remaining) == Ok::<(Seq<u8>, nat), Error>(
            (block, block_bytes(block).len()),
        ),
{
    reveal(take_block);
    let head = head_bits(block);
    let coded = block_coded(block);
    let runs = runs_bits(block_ranks(block));
    let side = packed_bytes(runs);
    let s = block_bytes(block) + tail;
    let behind = coded + side + tail;
    lemma_before_bytes(head, behind);
    assert(s =~= packed_bytes(head) + behind);
    let rest = zeros(((8 - head.len() % 8) % 8) as nat) + bytes_bits(behind);
    lemma_head(block, rest, remaining);
    lemma_packed_bits(runs);
    let at = packed_bytes(head).len() as int;
    let mid = at + coded.len();
    assert(8 * side.len() == padded(runs).len());
    assert(side.len() == (runs.len() + 7) / 8);
    let end = mid + side.len();
    assert(s.len() == at + behind.len());
    assert(s.subrange(at, mid) =~= coded);
    assert(s.subrange(mid, end) =~= side);
    let h = Head {
        primary: primary(block),
        n: block.len(),
        freq: freqs_for(block_tokens(block)),
        tokens: block_tokens(block).len(),
        coded: coded.len(),
        runs: runs.len(),
    };
    lemma_data(block, h);
}

/// A block that is longer than allowed is refused.
pub proof fn long_block_is_refused(block: Seq<u8>, tail: Seq<u8>, remaining: nat)
    requires
        0 < block.len() <= u32::MAX,
        remaining < block.len(),
    ensures
        take_block(block_bytes(block) + tail, remaining) == Err::<(Seq<u8>, nat), Error>(
            Error::Corrupt("BWT block length invalid or larger than allowed"),
        ),
{
    reveal(take_block);
    let head = head_bits(block);
    let behind = block_coded(block) + packed_bytes(runs_bits(block_ranks(block))) + tail;
    lemma_before_bytes(head, behind);
    assert(block_bytes(block) + tail =~= packed_bytes(head) + behind);
    transform_is_lossless(block);
    let b = gamma_bits(block.len() + 1);
    let t = block_tokens(block).len();
    let rest = zeros(((8 - head.len() % 8) % 8) as nat) + bytes_bits(behind);
    lemma_regroup(
        gamma_bits(primary(block) + 1),
        b,
        freq_bits(freqs_for(block_tokens(block)), 256),
        gamma_bits(t + 1),
        gamma_bits(block_coded(block).len() + 1),
        gamma_bits(runs_bits(block_ranks(block)).len() + 1),
        rest,
    );
    let s2 = freq_bits(freqs_for(block_tokens(block)), 256) + (gamma_bits(t + 1) + (gamma_bits(
        block_coded(block).len() + 1,
    ) + (gamma_bits(runs_bits(block_ranks(block)).len() + 1) + rest)));
    gamma_roundtrip(primary(block) + 1, b + s2);
    gamma_roundtrip(block.len() + 1, s2);
    lemma_too_long(head + rest, b + s2, s2, primary(block), block.len(), remaining);
}

proof fn lemma_too_long(
    s: Seq<bool>,
    s1: Seq<bool>,
    s2: Seq<bool>,
    p: nat,
    n: nat,
    remaining: nat,
)
    requires
        take_gamma(s) == Ok::<(nat, Seq<bool>), Error>((p + 1, s1)),
        take_gamma(s1) == Ok::<(nat, Seq<bool>), Error>((n + 1, s2)),
        remaining < n <= u32::MAX,
    ensures
        take_head(s, remaining) == Err::<(Head, Seq<bool>), Error>(
            Error::Corrupt("BWT block length invalid or larger than allowed"),
        ),
{
    reveal(take_head);
}

proof fn lemma_block_len(block: Seq<u8>)
    requires
        0 < block.len() <= u32::MAX,
    ensures
        block_bytes(block).len() > 0,
        block_coded(block).len() <= 16 + 2 * block.len(),
{
    lemma_block_parts(block);
    lemma_packed_bits(head_bits(block));
    gamma_roundtrip(primary(block) + 1, Seq::empty());
}

/// The blocks of `input` from `pos` on, with `tail` behind them, read as part
/// of `expected` bytes.
proof fn lemma_blocks(input: Seq<u8>, pos: int, tail: Seq<u8>, expected: nat)
    requires
        0 <= pos <= input.len(),
        pos <= expected <= input.len() || tail.len() == 0,
        pos <= expected,
    ensures
        ({
            let r = unblocked(blocks_bytes(input.skip(pos)) + tail, input.take(pos), expected);
            &&& expected == input.len() && tail.len() == 0 ==> r == Ok::<Seq<u8>, Error>(input)
            &&& expected != input.len() || tail.len() > 0 ==> r is Err
        }),
    decreases input.len() - pos,
{
    let left = input.skip(pos);
    let all = blocks_bytes(left) + tail;
    let out = input.take(pos);
    if left.len() == 0 {
        assert(input.take(pos) =~= input);
        assert(all =~= tail);
        if expected > input.len() {
            lemma_take_block(all, (expected - out.len()) as nat);
        }
    } else {
        let n: int = if left.len() < 900_000 {
            left.len() as int
        } else {
            900_000
        };
        let block = left.take(n);
        let more = blocks_bytes(left.skip(n)) + tail;
        let remaining = (expected - pos) as nat;
        lemma_block_len(block);
        assert(all =~= block_bytes(block) + more);
        if remaining == 0 {
        } else if remaining < n {
            long_block_is_refused(block, more, remaining);
        } else {
            block_is_read_again(block, more, remaining);
            assert(all.skip(block_bytes(block).len() as int) =~= more);
            assert(left.skip(n) =~= input.skip(pos + n));
            assert(out + block =~= input.take(pos + n));
            lemma_blocks(input, pos + n, tail, expected);
        }
    }
}

/// Blocks decode to the data they were made of.
pub proof fn pipeline_is_lossless(input: Seq<u8>)
    ensures
        unblocked(blocks_bytes(input), Seq::empty(), input.len()) == Ok::<Seq<u8>, Error>(input),
{
    assert(input.skip(0) =~= input);
    assert(input.take(0) =~= Seq::<u8>::empty());
    assert(blocks_bytes(input) + Seq::<u8>::empty() =~= blocks_bytes(input));
    lemma_blocks(input, 0, Seq::empty(), input.len());
}

/// Blocks are refused when any other length is expected of them.
pub proof fn other_lengths_are_refused(input: Seq<u8>, expected: nat)
    requires
        expected != input.len(),
    ensures
        unblocked(blocks_bytes(input), Seq::empty(), expected) is Err,
{
    assert(input.skip(0) =~= input);
    assert(input.take(0) =~= Seq::<u8>::empty());
    assert(blocks_bytes(input) + Seq::<u8>::empty() =~= blocks_bytes(input));
    lemma_blocks(input, 0, Seq::empty(), expected);
}

/// Blocks with anything behind them are refused.
pub proof fn appended_bytes_are_refused(input: Seq<u8>, tail: Seq<u8>)
    requires
        tail.len() > 0,
    ensures
        unblocked(blocks_bytes(input) + tail, Seq::empty(), input.len()) is Err,
{
    assert(input.skip(0) =~= input);
    assert(input.take(0) =~= Seq::<u8>::empty());
    lemma_blocks(input, 0, tail, input.len());
}

pub fn compress(input: &[u8]) -> (r: Vec<u8>)
    ensures
        r@ == blocks_bytes(input@),
        unblocked(r@, Seq::empty(), input@.len()) == Ok::<Seq<u8>, Error>(input@),
{
    let mut out: Vec<u8> = Vec::with_capacity(input.len());
    let mut pos: usize = 0;
    let ghost target = blocks_bytes(input@);
    assert(input@.skip(0) =~= input@);
    assert(out@ + target =~= target);
    while pos < input.len()
        invariant
            pos <= input@.len(),
            input@.len() == input.len(),
            out@ + blocks_bytes(input@.skip(pos as int)) == target,
        decreases input@.len() - pos,
    {
        let n: usize = if input.len() - pos < BLOCK_SIZE {
            input.len() - pos
        } else {
            BLOCK_SIZE
        };
        let ghost was = out@;
        let ghost left = input@.skip(pos as int);
        let block = slice_subrange(input, pos, pos + n);
        assert(block@ =~= left.take(n as int));
        assert(left.skip(n as int) =~= input@.skip(pos + n));
        encode_block(block, &mut out);
        assert(out@ + blocks_bytes(left.skip(n as int)) =~= was + blocks_bytes(left));
        pos = pos + n;
    }
    assert(out@ =~= target);
    proof {
        pipeline_is_lossless(input@);
    }
    out
}

pub fn decompress(input: &[u8], expected_len: usize) -> (r: Result<Vec<u8>, Error>)
    ensures
        same_bytes(r, unblocked(input@, Seq::empty(), expected_len as nat)),
        r matches Ok(out) ==> out@.len() == expected_len,
{
    let mut out: Vec<u8> = Vec::new();
    let mut pos: usize = 0;
    let ghost target = unblocked(input@, Seq::empty(), expected_len as nat);
    assert(input@.skip(0) =~= input@);
    assert(out@ =~= Seq::<u8>::empty());
    while out.len() < expected_len
        invariant
            pos <= input@.len(),
            input@.len() == input.len(),
            out@.len() <= expected_len,
            target == unblocked(input@, Seq::empty(), expected_len as nat),
            unblocked(input@.skip(pos as int), out@, expected_len as nat) == target,
        decreases expected_len - out@.len(),
    {
        let rest = slice_subrange(input, pos, input.len());
        let remaining: usize = expected_len - out.len();
        proof {
            assert(rest@ =~= input@.skip(pos as int));
            lemma_take_block(rest@, remaining as nat);
        }
        let used: usize = match decode_block(rest, remaining, &mut out) {
            Err(e) => {
                return Err(e);
            },
            Ok(used) => used,
        };
        assert(rest@.skip(used as int) =~= input@.skip(pos + used));
        pos = pos + used;
    }
    if pos != input.len() {
        return Err(Error::Corrupt("data after the last BWT block"));
    }
    Ok(out)
}

/// Append `block`, transformed and coded, to `out`.
pub fn encode_block(block: &[u8], out: &mut Vec<u8>)
    requires
        0 < block@.len() <= u32::MAX,
    ensures
        final(out)@ == old(out)@ + block_bytes(block@),
{
    proof {
        lemma_block_parts(block@);
        lemma_freqs_for(block_tokens(block@));
    }
    let n: usize = block.len();
    let (l, first) = forward(block);
    let ranks = mtf::encode(&l);
    let (tokens, run_lengths, run_lengths_bits) = split_runs(&ranks);
    let counts = count_bytes(&tokens);
    let freqs = match Freqs::normalize(&counts) {
        Some(f) => f,
        // A non-empty block always has at least one token.
        None => {
            return ;
        },
    };
    let coded = ans::encode(&tokens, &freqs);
    let mut w = BitWriter::with_capacity(300);
    w.write_gamma(first as u64 + 1);
    w.write_gamma(n as u64 + 1);
    write_freqs(&mut w, &freqs);
    w.write_gamma(tokens.len() as u64 + 1);
    w.write_gamma(coded.len() as u64 + 1);
    w.write_gamma(run_lengths_bits + 1);
    assert(w@ =~= head_bits(block@));
    let head = w.finish();
    proof {
        lemma_packed_bytes(head@, head_bits(block@));
    }
    out.extend_from_slice(&head);
    out.extend_from_slice(&coded);
    out.extend_from_slice(&run_lengths);
    assert(out@ =~= old(out)@ + block_bytes(block@));
}

/// What stands before a block's raw sections, as read.
struct Fields {
    primary: u64,
    n: usize,
    freq: [u32; 256],
    tokens: usize,
    coded: usize,
    runs: u64,
}

impl Fields {
    spec fn head(&self) -> Head {
        Head {
            primary: self.primary as nat,
            n: self.n as nat,
            freq: self.freq@,
            tokens: self.tokens as nat,
            coded: self.coded as nat,
            runs: self.runs as nat,
        }
    }
}

/// Read the first two fields of a block.
fn read_sizes(r: &mut BitReader, remaining: usize) -> (res: Result<(u64, usize), Error>)
    requires
        old(r).wf(),
    ensures
        final(r).wf(),
        final(r).source() == old(r).source(),
        match take_sizes(old(r)@, remaining as nat) {
            Err(e) => res matches Err(f) && f == e,
            Ok((p, n, rest)) => res matches Ok(x) && x.0 == p && x.1 == n && final(r)@ == rest,
        },
{
    let first: u64 = match r.read_gamma() {
        Err(e) => {
            return Err(e);
        },
        Ok(g) => g - 1,
    };
    let n: u64 = match r.read_gamma() {
        Err(e) => {
            return Err(e);
        },
        Ok(g) => g - 1,
    };
    if n > usize::MAX as u64 {
        return Err(Error::Corrupt("BWT block length too large"));
    }
    if n == 0 || n > remaining as u64 {
        return Err(Error::Corrupt("BWT block length invalid or larger than allowed"));
    }
    if n > u32::MAX as u64 {
        return Err(Error::Corrupt("BWT block length too large"));
    }
    Ok((first, n as usize))
}

/// Read the last three fields of a block of `n` bytes.
fn read_lengths(r: &mut BitReader, n: usize) -> (res: Result<(usize, usize, u64), Error>)
    requires
        old(r).wf(),
    ensures
        final(r).wf(),
        final(r).source() == old(r).source(),
        match take_lengths(old(r)@, n as nat) {
            Err(e) => res matches Err(f) && f == e,
            Ok((t, c, b, rest)) => res matches Ok(x) && x.0 == t && x.1 == c && x.2 == b
                && final(r)@ == rest,
        },
{
    let tokens: u64 = match r.read_gamma() {
        Err(e) => {
            return Err(e);
        },
        Ok(g) => g - 1,
    };
    if tokens > usize::MAX as u64 {
        return Err(Error::Corrupt("BWT token count too large"));
    }
    // A token always accounts for at least one output byte (either a
    // literal, or a run of at least one 0), so it can never outnumber them.
    if tokens > n as u64 {
        return Err(Error::Corrupt("BWT token count exceeds block length"));
    }
    let coded: u64 = match r.read_gamma() {
        Err(e) => {
            return Err(e);
        },
        Ok(g) => g - 1,
    };
    if coded > usize::MAX as u64 {
        return Err(Error::Corrupt("BWT coded length too large"));
    }
    let runs: u64 = match r.read_gamma() {
        Err(e) => {
            return Err(e);
        },
        Ok(g) => g - 1,
    };
    Ok((tokens as usize, coded as usize, runs))
}

/// Read what stands before a block's raw sections.
fn read_head(r: &mut BitReader, remaining: usize) -> (res: Result<Fields, Error>)
    requires
        old(r).wf(),
    ensures
        final(r).wf(),
        final(r).source() == old(r).source(),
        match take_head(old(r)@, remaining as nat) {
            Err(e) => res matches Err(f) && f == e,
            Ok((h, rest)) => res matches Ok(x) && x.head() == h && final(r)@ == rest,
        },
{
    proof {
        reveal(take_head);
    }
    let (primary, n) = match read_sizes(r, remaining) {
        Err(e) => {
            return Err(e);
        },
        Ok(x) => x,
    };
    let freq = match read_freqs(r, "BWT token frequency too large") {
        Err(e) => {
            return Err(e);
        },
        Ok(f) => f,
    };
    let (tokens, coded, runs) = match read_lengths(r, n) {
        Err(e) => {
            return Err(e);
        },
        Ok(x) => x,
    };
    Ok(Fields { primary, n, freq, tokens, coded, runs })
}

/// Decode a block's raw sections.
fn decode_data(h: &Fields, coded: &[u8], run_lengths: &[u8]) -> (r: Result<Vec<u8>, Error>)
    requires
        h.n <= u32::MAX,
    ensures
        same_bytes(r, block_data(h.head(), coded@, run_lengths@)),
{
    proof {
        reveal(block_data);
    }
    let freqs = match Freqs::from_freqs(h.freq) {
        Err(e) => {
            return Err(e);
        },
        Ok(f) => f,
    };
    let mut tokens: Vec<u8> = Vec::new();
    assert(tokens@ =~= Seq::<u8>::empty());
    match ans::decode(coded, &freqs, h.tokens, &mut tokens) {
        Err(e) => {
            return Err(e);
        },
        Ok(_) => {},
    }
    proof {
        match rans_decoded(coded@, h.freq@, h.tokens as nat) {
            Ok(t) => assert(Seq::<u8>::empty() + t =~= t),
            Err(_) => {},
        }
    }
    let ranks = match join_runs(&tokens, run_lengths, h.n) {
        Err(e) => {
            return Err(e);
        },
        Ok(ranks) => ranks,
    };
    proof {
        lemma_joined_len(tokens@, bytes_bits(run_lengths@), Seq::empty(), h.n as nat);
    }
    let l = mtf::decode(&ranks);
    if h.primary > u32::MAX as u64 {
        return Err(Error::Corrupt("BWT primary index too large"));
    }
    inverse(&l, h.primary as u32)
}

/// Decode a block onto `out`. Returns bytes of `input` consumed.
pub fn decode_block(input: &[u8], remaining: usize, out: &mut Vec<u8>) -> (r: Result<usize, Error>)
    ensures
        match take_block(input@, remaining as nat) {
            Err(e) => r matches Err(f) && f == e && final(out)@ == old(out)@,
            Ok((data, len)) => {
                &&& r matches Ok(used) && used == len
                &&& final(out)@ == old(out)@ + data
                &&& 0 < data.len() <= remaining
                &&& 0 < len <= input@.len()
            },
        },
{
    let mut r = BitReader::new(input);
    proof {
        reveal(take_block);
        lemma_take_block(input@, remaining as nat);
        lemma_head_shrinks(bytes_bits(input@), remaining as nat);
    }
    let h = match read_head(&mut r, remaining) {
        Err(e) => {
            return Err(e);
        },
        Ok(h) => h,
    };
    let ghost b = r@;
    r.align_to_byte();
    let pos: usize = r.byte_position();
    assert(pos == input@.len() - aligned(b).len() / 8);
    if input.len() - pos < h.coded {
        return Err(Error::UnexpectedEof);
    }
    let mid: usize = pos + h.coded;
    let side: u64 = h.runs / 8 + if h.runs % 8 > 0 {
        1
    } else {
        0
    };
    assert(side == (h.runs + 7) / 8);
    if side > (input.len() - mid) as u64 {
        return Err(Error::UnexpectedEof);
    }
    let end: usize = mid + side as usize;
    let coded = slice_subrange(input, pos, mid);
    let run_lengths = slice_subrange(input, mid, end);
    match decode_data(&h, coded, run_lengths) {
        Err(e) => Err(e),
        Ok(data) => {
            out.extend_from_slice(&data);
            assert(out@ =~= old(out)@ + data@);
            Ok(end)
        },
    }
}

/// Split `ranks` into a token per run of 0s (however long) or literal
/// non-zero byte, plus the run lengths as a separate Elias gamma bitstream
/// (in the order their tokens appear).
pub fn split_runs(ranks: &[u8]) -> (r: (Vec<u8>, Vec<u8>, u64))
    requires
        2 * ranks@.len() <= u64::MAX,
    ensures
        r.0@ == tokens_of(ranks@),
        r.1@ == packed_bytes(runs_bits(ranks@)),
        r.2 == runs_bits(ranks@).len(),
        joined(r.0@, bytes_bits(r.1@), Seq::empty(), ranks@.len()) == Ok::<Seq<u8>, Error>(ranks@),
{
    let mut tokens: Vec<u8> = Vec::new();
    let mut w = BitWriter::new();
    let mut i: usize = 0;
    let ghost all = tokens_of(ranks@);
    let ghost bits = runs_bits(ranks@);
    assert(ranks@.skip(0) =~= ranks@);
    assert(tokens@ + all =~= all);
    assert(w@ + bits =~= bits);
    while i < ranks.len()
        invariant
            w.wf(),
            i <= ranks@.len(),
            tokens@ + tokens_of(ranks@.skip(i as int)) == all,
            w@ + runs_bits(ranks@.skip(i as int)) == bits,
        decreases ranks@.len() - i,
    {
        let ghost left = ranks@.skip(i as int);
        let ghost had = tokens@;
        let ghost was = w@;
        if ranks[i] == 0 {
            let run: usize = count_zeros(ranks, i);
            proof {
                lemma_zero_run(left);
            }
            tokens.push(0);
            w.write_gamma(run as u64);
            assert(left.skip(run as int) =~= ranks@.skip(i + run));
            i = i + run;
        } else {
            tokens.push(ranks[i]);
            assert(left.skip(1) =~= ranks@.skip(i + 1));
            i = i + 1;
        }
        assert(tokens@ + tokens_of(ranks@.skip(i as int)) =~= had + tokens_of(left));
        assert(w@ + runs_bits(ranks@.skip(i as int)) =~= was + runs_bits(left));
    }
    assert(tokens@ =~= all);
    assert(w@ =~= bits);
    proof {
        lemma_runs_len(ranks@);
    }
    let count: u64 = w.bit_len();
    let side = w.finish();
    proof {
        lemma_packed_bytes(side@, bits);
        runs_roundtrip(ranks@, Seq::empty(), zeros(((8 - bits.len() % 8) % 8) as nat));
        assert(Seq::<u8>::empty() + ranks@ =~= ranks@);
    }
    (tokens, side, count)
}

/// How many ranks from `i` on are 0.
fn count_zeros(ranks: &[u8], i: usize) -> (r: usize)
    requires
        i <= ranks@.len(),
    ensures
        r == zero_run(ranks@.skip(i as int)),
        r <= ranks@.len() - i,
{
    let mut n: usize = 0;
    while n < ranks.len() - i && ranks[i + n] == 0
        invariant
            i <= ranks@.len(),
            ranks@.len() == ranks.len(),
            n <= ranks@.len() - i,
            n + zero_run(ranks@.skip(i + n)) == zero_run(ranks@.skip(i as int)),
        decreases ranks@.len() - i - n,
    {
        assert(ranks@.skip(i + n).skip(1) =~= ranks@.skip(i + n + 1));
        n = n + 1;
    }
    n
}

/// Inverse of [`split_runs`]: rebuild the `n`-byte rank stream from
/// `tokens` and the run-length bitstream. Rejects malformed input (a run
/// past `n`, or fewer bytes decoded than `n`) instead of panicking.
pub fn join_runs(tokens: &[u8], run_lengths: &[u8], n: usize) -> (r: Result<Vec<u8>, Error>)
    ensures
        same_bytes(r, joined(tokens@, bytes_bits(run_lengths@), Seq::empty(), n as nat)),
{
    let mut out: Vec<u8> = Vec::new();
    let mut r = BitReader::new(run_lengths);
    let mut i: usize = 0;
    let ghost target = joined(tokens@, r@, Seq::empty(), n as nat);
    assert(tokens@.skip(0) =~= tokens@);
    assert(out@ =~= Seq::<u8>::empty());
    while i < tokens.len()
        invariant
            r.wf(),
            i <= tokens@.len(),
            out@.len() <= n,
            target == joined(tokens@, bytes_bits(run_lengths@), Seq::empty(), n as nat),
            joined(tokens@.skip(i as int), r@, out@, n as nat) == target,
        decreases tokens@.len() - i,
    {
        let t: u8 = tokens[i];
        assert(tokens@.skip(i as int).skip(1) =~= tokens@.skip(i + 1));
        if t == 0 {
            let run: u64 = match r.read_gamma() {
                Err(e) => {
                    return Err(e);
                },
                Ok(g) => g,
            };
            if run > (n - out.len()) as u64 {
                return Err(Error::Corrupt("BWT run length invalid or overruns the block"));
            }
            push_run(&mut out, 0, run as usize);
        } else {
            if out.len() >= n {
                return Err(Error::Corrupt("BWT token stream overruns the block"));
            }
            out.push(t);
        }
        i = i + 1;
    }
    if out.len() != n {
        return Err(Error::Corrupt("BWT block decoded to the wrong length"));
    }
    Ok(out)
}

} // verus!
