//! Inflate: decode a Deflate stream.
use crate::bits::bytes_bits;
use crate::bits::first_bytes;
use crate::bits::BitReader;
use crate::deflate::format::inflated;
use crate::deflate::format::lemma_block_shrinks;
use crate::deflate::format::lemma_inflated;
use crate::deflate::format::lemma_take_match;
use crate::deflate::format::run_of;
use crate::deflate::format::take_blocks;
use crate::deflate::format::take_body;
use crate::deflate::format::take_cl_lengths;
use crate::deflate::format::take_codes;
use crate::deflate::format::take_header;
use crate::deflate::format::take_lengths;
use crate::deflate::format::take_match;
use crate::deflate::format::take_run;
use crate::deflate::format::take_stored;
use crate::deflate::tables::cl_order;
use crate::deflate::tables::dist_base;
use crate::deflate::tables::dist_extra;
use crate::deflate::tables::fixed_dist;
use crate::deflate::tables::fixed_dist_lengths;
use crate::deflate::tables::fixed_litlen;
use crate::deflate::tables::fixed_litlen_lengths;
use crate::deflate::tables::lemma_cl_order;
use crate::deflate::tables::lemma_dist_codes;
use crate::deflate::tables::lemma_fixed_ok;
use crate::deflate::tables::lemma_length_codes;
use crate::deflate::tables::length_base;
use crate::deflate::tables::length_extra;
use crate::deflate::tables::CL_ORDER;
use crate::deflate::tables::DIST_BASE;
use crate::deflate::tables::DIST_EXTRA;
use crate::deflate::tables::END_OF_BLOCK;
use crate::deflate::tables::LENGTH_BASE;
use crate::deflate::tables::LENGTH_EXTRA;
use crate::deflate::tables::NUM_DIST;
use crate::deflate::tables::NUM_LITLEN;
use crate::error::Error;
use crate::huffman::check;
use crate::huffman::lemma_take_symbol;
use crate::huffman::Decoder;
use crate::lz77::copy_match;
use crate::nums::lemma_pow2_le;
use crate::nums::lemma_pow2_values;
use vstd::prelude::*;
use vstd::slice::slice_subrange;

verus! {

/// Result of [`inflate`].
#[derive(Debug, Clone, PartialEq, Eq)]
pub struct Inflated {
    pub data: Vec<u8>,
    /// Bytes of input the stream occupied. Containers like gzip keep more
    /// data (a checksum) right after it.
    pub consumed: usize,
}

/// The reader stands where `rest` starts, and the output is `bytes`.
spec fn stands(r: BitReader, source: Seq<u8>, out: Seq<u8>, to: (Seq<bool>, Seq<u8>)) -> bool {
    r.wf() && r.source() == source && r@ == to.0 && out == to.1
}

/// A step of the decoder agrees with its description.
spec fn agrees(
    done: Result<(), Error>,
    r: BitReader,
    source: Seq<u8>,
    out: Seq<u8>,
    spec_result: Result<(Seq<bool>, Seq<u8>), Error>,
) -> bool {
    &&& r.wf()
    &&& r.source() == source
    &&& match spec_result {
        Err(e) => done == Err::<(), Error>(e),
        Ok(to) => done is Ok && stands(r, source, out, to),
    }
}

fn stored_block(r: &mut BitReader, out: &mut Vec<u8>, limit: usize) -> (done: Result<(), Error>)
    requires
        old(r).wf(),
        old(out)@.len() <= limit,
    ensures
        agrees(
            done,
            *final(r),
            old(r).source(),
            final(out)@,
            take_stored(old(r)@, old(out)@, limit as nat),
        ),
{
    r.align_to_byte();
    let len: u32 = match r.read_bits(16) {
        Err(e) => {
            return Err(e);
        },
        Ok(v) => v,
    };
    let nlen: u32 = match r.read_bits(16) {
        Err(e) => {
            return Err(e);
        },
        Ok(v) => v,
    };
    proof {
        lemma_pow2_values();
    }
    if len + nlen != 65535 {
        return Err(Error::Corrupt("stored block length check failed"));
    }
    if len as usize > limit - out.len() {
        return Err(Error::Corrupt("deflate output larger than allowed"));
    }
    let ghost start = r@;
    let ghost base = out@;
    let mut i: u32 = 0;
    assert(start.skip(0) =~= start);
    assert(base + first_bytes(start, 0) =~= base);
    while i < len
        invariant
            i <= len,
            r.wf(),
            r.source() == old(r).source(),
            r@ == start.skip(8 * i as int),
            8 * i <= start.len(),
            out@ == base + first_bytes(start, i as nat),
            start.len() < 8 * len ==> take_stored(old(r)@, old(out)@, limit as nat) == Err::<
                (Seq<bool>, Seq<u8>),
                Error,
            >(Error::UnexpectedEof),
        decreases len - i,
    {
        let ghost before = r@;
        match r.read_byte() {
            Err(e) => {
                return Err(e);
            },
            Ok(b) => {
                let ghost was = out@;
                out.push(b);
                proof {
                    assert(before.take(8) =~= start.subrange(8 * i as int, 8 * i as int + 8));
                    assert(out@ =~= base + first_bytes(start, (i + 1) as nat));
                    assert(start.skip(8 * i as int).skip(8) =~= start.skip(8 * (i + 1) as int));
                }
            },
        }
        i = i + 1;
    }
    Ok(())
}

fn huffman_block(
    r: &mut BitReader,
    out: &mut Vec<u8>,
    limit: usize,
    lit: &Decoder,
    dist: &Decoder,
) -> (done: Result<(), Error>)
    requires
        old(r).wf(),
        lit.wf(),
        dist.wf(),
        old(out)@.len() <= limit,
    ensures
        agrees(
            done,
            *final(r),
            old(r).source(),
            final(out)@,
            take_codes(old(r)@, old(out)@, limit as nat, lit.lengths(), dist.lengths()),
        ),
{
    let ghost target = take_codes(r@, out@, limit as nat, lit.lengths(), dist.lengths());
    loop
        invariant
            r.wf(),
            r.source() == old(r).source(),
            lit.wf(),
            dist.wf(),
            out@.len() <= limit,
            take_codes(r@, out@, limit as nat, lit.lengths(), dist.lengths()) == target,
            target == take_codes(
                old(r)@,
                old(out)@,
                limit as nat,
                lit.lengths(),
                dist.lengths(),
            ),
        decreases r@.len(),
    {
        proof {
            lemma_take_symbol(lit.lengths(), r@);
        }
        let sym: usize = match lit.read(r) {
            Err(e) => {
                return Err(e);
            },
            Ok(s) => s,
        };
        if sym < END_OF_BLOCK {
            if out.len() >= limit {
                return Err(Error::Corrupt("deflate output larger than allowed"));
            }
            out.push(sym as u8);
            continue ;
        }
        if sym == END_OF_BLOCK {
            return Ok(());
        }
        let i: usize = sym - 257;
        if i >= 29 {
            return Err(Error::Corrupt("invalid length symbol"));
        }
        let ghost s1 = r@;
        proof {
            lemma_length_codes(i as int);
            reveal(length_base);
            reveal(length_extra);
            lemma_take_match(s1, i as int, dist.lengths());
            lemma_pow2_values();
            lemma_pow2_le(length_extra(i as int), 5);
        }
        let len: usize = match r.read_bits(LENGTH_EXTRA[i] as u32) {
            Err(e) => {
                return Err(e);
            },
            Ok(x) => LENGTH_BASE[i] as usize + x as usize,
        };
        let d: usize = match dist.read(r) {
            Err(e) => {
                return Err(e);
            },
            Ok(d) => d,
        };
        if d >= NUM_DIST {
            return Err(Error::Corrupt("invalid distance symbol"));
        }
        proof {
            lemma_dist_codes(d as int);
            reveal(dist_base);
            reveal(dist_extra);
            lemma_pow2_le(dist_extra(d as int), 13);
        }
        let distance: usize = match r.read_bits(DIST_EXTRA[d] as u32) {
            Err(e) => {
                return Err(e);
            },
            Ok(x) => DIST_BASE[d] as usize + x as usize,
        };
        assert(take_match(s1, i as int, dist.lengths()) == Ok::<(nat, nat, Seq<bool>), Error>(
            (len as nat, distance as nat, r@),
        ));
        if distance > out.len() {
            return Err(Error::Corrupt("match distance before start of data"));
        }
        if len > limit - out.len() {
            return Err(Error::Corrupt("deflate output larger than allowed"));
        }
        copy_match(out, distance, len);
    }
}

/// Read the code lengths of the code-length code.
fn read_cl_lengths(r: &mut BitReader, hclen: usize) -> (res: Result<Vec<u8>, Error>)
    requires
        old(r).wf(),
        hclen <= 19,
    ensures
        final(r).wf(),
        final(r).source() == old(r).source(),
        match take_cl_lengths(old(r)@, hclen as nat) {
            Err(e) => res matches Err(f) && f == e,
            Ok((cl, s)) => {
                &&& res matches Ok(a)
                &&& a@ == cl
                &&& a@.len() == 19
                &&& final(r)@ == s
            },
        },
{
    let mut cl: Vec<u8> = vec![0;19];
    let mut k: usize = 0;
    assert(cl@ =~= Seq::new(19, |i: int| 0u8));
    while k < hclen
        invariant
            k <= hclen <= 19,
            r.wf(),
            r.source() == old(r).source(),
            cl@.len() == 19,
            take_cl_lengths(old(r)@, k as nat) == Ok::<(Seq<u8>, Seq<bool>), Error>((cl@, r@)),
        decreases hclen - k,
    {
        proof {
            lemma_cl_order(k as int);
            reveal(cl_order);
            lemma_pow2_values();
        }
        let v: u32 = match r.read_bits(3) {
            Err(e) => {
                proof {
                    lemma_cl_err(old(r)@, k as nat, hclen as nat, e);
                }
                return Err(e);
            },
            Ok(v) => v,
        };
        cl[CL_ORDER[k]] = v as u8;
        k = k + 1;
    }
    Ok(cl)
}

/// An error while reading lengths is the result.
proof fn lemma_cl_err(s: Seq<bool>, k: nat, n: nat, e: Error)
    requires
        k < n,
        take_cl_lengths(s, k) is Ok,
        take_cl_lengths(s, k + 1) == Err::<(Seq<u8>, Seq<bool>), Error>(e),
    ensures
        take_cl_lengths(s, n) == Err::<(Seq<u8>, Seq<bool>), Error>(e),
    decreases n,
{
    if n > k + 1 {
        lemma_cl_err(s, k, (n - 1) as nat, e);
    }
}

/// Read run-length coded code lengths until there are `total`.
fn read_lengths(r: &mut BitReader, cl: &Decoder, total: usize) -> (res: Result<Vec<u8>, Error>)
    requires
        old(r).wf(),
        cl.wf(),
        total <= 1000,
    ensures
        final(r).wf(),
        final(r).source() == old(r).source(),
        match take_lengths(old(r)@, cl.lengths(), Seq::empty(), total as nat) {
            Err(e) => res matches Err(f) && f == e,
            Ok((all, s)) => res matches Ok(v) && v@ == all && all.len() == total && final(r)@ == s,
        },
{
    let mut lengths: Vec<u8> = Vec::with_capacity(total);
    let ghost target = take_lengths(r@, cl.lengths(), Seq::empty(), total as nat);
    assert(lengths@ =~= Seq::<u8>::empty());
    while lengths.len() < total
        invariant
            r.wf(),
            r.source() == old(r).source(),
            cl.wf(),
            total <= 1000,
            lengths@.len() <= total,
            take_lengths(r@, cl.lengths(), lengths@, total as nat) == target,
            target == take_lengths(old(r)@, cl.lengths(), Seq::empty(), total as nat),
        decreases total - lengths@.len(),
    {
        proof {
            lemma_pow2_values();
            lemma_take_symbol(cl.lengths(), r@);
        }
        let sym: usize = match cl.read(r) {
            Err(e) => {
                return Err(e);
            },
            Ok(s) => s,
        };
        let ghost s1 = r@;
        let value: u8;
        let repeat: usize;
        if sym <= 15 {
            value = sym as u8;
            repeat = 1;
        } else if sym == 16 {
            if lengths.len() == 0 {
                return Err(Error::Corrupt("repeat with no previous length"));
            }
            value = lengths[lengths.len() - 1];
            repeat = match r.read_bits(2) {
                Err(e) => {
                    return Err(e);
                },
                Ok(v) => 3 + v as usize,
            };
        } else if sym == 17 {
            value = 0;
            repeat = match r.read_bits(3) {
                Err(e) => {
                    return Err(e);
                },
                Ok(v) => 3 + v as usize,
            };
        } else {
            value = 0;
            repeat = match r.read_bits(7) {
                Err(e) => {
                    return Err(e);
                },
                Ok(v) => 11 + v as usize,
            };
        }
        assert(take_run(sym as nat, lengths@, s1) == Ok::<(u8, nat, Seq<bool>), Error>(
            (value, repeat as nat, r@),
        ));
        if repeat > total - lengths.len() {
            return Err(Error::Corrupt("code lengths overflow"));
        }
        let ghost before = lengths@;
        let mut k: usize = 0;
        assert(before + run_of(value, 0) =~= before);
        while k < repeat
            invariant
                k <= repeat,
                lengths@ == before + run_of(value, k as nat),
            decreases repeat - k,
        {
            lengths.push(value);
            k = k + 1;
            assert(lengths@ =~= before + run_of(value, k as nat));
        }
    }
    Ok(lengths)
}

/// Read a dynamic block's code tables (RFC 1951 section 3.2.7).
///
/// The literal and distance code lengths are themselves compressed: they
/// are run-length coded (symbols 16/17/18 mean "repeat") and Huffman coded
/// with a third, small code whose lengths come first.
fn read_dynamic_header(r: &mut BitReader) -> (res: Result<(Decoder, Decoder), Error>)
    requires
        old(r).wf(),
    ensures
        final(r).wf(),
        final(r).source() == old(r).source(),
        match take_header(old(r)@) {
            Err(e) => res matches Err(f) && f == e,
            Ok((lit, dist, s)) => {
                &&& res matches Ok((a, b))
                &&& a.wf() && a.lengths() == lit
                &&& b.wf() && b.lengths() == dist
                &&& final(r)@ == s
            },
        },
{
    reveal(take_header);
    proof {
        lemma_pow2_values();
    }
    let hlit: usize = match r.read_bits(5) {
        Err(e) => {
            return Err(e);
        },
        Ok(v) => v as usize + 257,
    };
    let hdist: usize = match r.read_bits(5) {
        Err(e) => {
            return Err(e);
        },
        Ok(v) => v as usize + 1,
    };
    let hclen: usize = match r.read_bits(4) {
        Err(e) => {
            return Err(e);
        },
        Ok(v) => v as usize + 4,
    };
    if hlit > NUM_LITLEN || hdist > NUM_DIST {
        return Err(Error::Corrupt("too many deflate codes"));
    }
    let cl_lengths = match read_cl_lengths(r, hclen) {
        Err(e) => {
            return Err(e);
        },
        Ok(cl) => cl,
    };
    let cl = match Decoder::from_lengths(&cl_lengths) {
        Err(e) => {
            return Err(e);
        },
        Ok(d) => d,
    };
    let lengths = match read_lengths(r, &cl, hlit + hdist) {
        Err(e) => {
            return Err(e);
        },
        Ok(v) => v,
    };
    let lit = slice_subrange(&lengths, 0, hlit);
    let dist = slice_subrange(&lengths, hlit, lengths.len());
    assert(lit@ =~= lengths@.take(hlit as int));
    assert(dist@ =~= lengths@.skip(hlit as int));
    if lit[END_OF_BLOCK] == 0 {
        return Err(Error::Corrupt("no end-of-block code"));
    }
    let a = match Decoder::from_lengths(lit) {
        Err(e) => {
            return Err(e);
        },
        Ok(d) => d,
    };
    let b = match Decoder::from_lengths(dist) {
        Err(e) => {
            return Err(e);
        },
        Ok(d) => d,
    };
    Ok((a, b))
}

/// The fixed codes.
fn fixed_codes() -> (res: Result<(Decoder, Decoder), Error>)
    ensures
        res matches Ok((a, b)) && a.wf() && b.wf() && a.lengths() == fixed_litlen() && b.lengths()
            == fixed_dist(),
{
    proof {
        lemma_fixed_ok();
    }
    let a = match Decoder::from_lengths(&fixed_litlen_lengths()) {
        Err(e) => {
            return Err(e);
        },
        Ok(d) => d,
    };
    let b = match Decoder::from_lengths(&fixed_dist_lengths()) {
        Err(e) => {
            return Err(e);
        },
        Ok(d) => d,
    };
    Ok((a, b))
}

/// One block, behind its last-block bit and type.
fn block_body(r: &mut BitReader, out: &mut Vec<u8>, limit: usize, kind: u32) -> (done: Result<
    (),
    Error,
>)
    requires
        old(r).wf(),
        old(out)@.len() <= limit,
    ensures
        agrees(
            done,
            *final(r),
            old(r).source(),
            final(out)@,
            take_body(kind as nat, old(r)@, old(out)@, limit as nat),
        ),
{
    proof {
        lemma_fixed_ok();
    }
    if kind == 0 {
        stored_block(r, out, limit)
    } else if kind == 1 {
        match fixed_codes() {
            Err(e) => Err(e),
            Ok((lit, dist)) => huffman_block(r, out, limit, &lit, &dist),
        }
    } else if kind == 2 {
        match read_dynamic_header(r) {
            Err(e) => Err(e),
            Ok((lit, dist)) => huffman_block(r, out, limit, &lit, &dist),
        }
    } else {
        Err(Error::Corrupt("reserved deflate block type 3"))
    }
}

/// Decode one Deflate stream from the start of `input`.
///
/// Fails if the output would exceed `limit` bytes, so a tiny malicious
/// stream can't expand into gigabytes.
pub fn inflate(input: &[u8], limit: usize) -> (res: Result<Inflated, Error>)
    ensures
        match inflated(input@, limit as nat) {
            Err(e) => res matches Err(f) && f == e,
            Ok((data, consumed)) => res matches Ok(x) && x.data@ == data && x.consumed == consumed,
        },
        res matches Ok(x) ==> x.data@.len() <= limit && x.consumed <= input@.len(),
{
    let mut r = BitReader::new(input);
    let mut out: Vec<u8> = Vec::new();
    let ghost target = take_blocks(r@, out@, limit as nat);
    assert(out@ =~= Seq::<u8>::empty());
    loop
        invariant_except_break
            take_blocks(r@, out@, limit as nat) == target,
            out@.len() <= limit,
        invariant
            r.wf(),
            r.source() == input@,
            target == take_blocks(bytes_bits(input@), Seq::empty(), limit as nat),
        ensures
            target == Ok::<(Seq<u8>, Seq<bool>), Error>((out@, r@)),
        decreases r@.len(),
    {
        proof {
            lemma_block_shrinks(r@, out@, limit as nat);
            lemma_pow2_values();
        }
        let last: u32 = match r.read_bits(1) {
            Err(e) => {
                return Err(e);
            },
            Ok(v) => v,
        };
        let kind: u32 = match r.read_bits(2) {
            Err(e) => {
                return Err(e);
            },
            Ok(v) => v,
        };
        match block_body(&mut r, &mut out, limit, kind) {
            Err(e) => {
                return Err(e);
            },
            Ok(_) => {},
        }
        if last == 1 {
            break ;
        }
    }
    r.align_to_byte();
    let consumed: usize = r.byte_position();
    proof {
        lemma_inflated(input@, limit as nat);
    }
    Ok(Inflated { data: out, consumed })
}

} // verus!
