//! What a Deflate stream says: the blocks of a bit string, read from the
//! front.
use crate::bits::aligned;
use crate::bits::bytes_bits;
use crate::bits::first_bytes;
use crate::bits::take_bits;
use crate::deflate::tables::cl_order;
use crate::deflate::tables::dist_base;
use crate::deflate::tables::dist_extra;
use crate::deflate::tables::fixed_dist;
use crate::deflate::tables::fixed_litlen;
use crate::deflate::tables::length_base;
use crate::deflate::tables::length_extra;
use crate::error::Error;
use crate::huffman::check;
use crate::huffman::lemma_take_symbol;
use crate::huffman::take_symbol;
use crate::lz77::copied;
use vstd::prelude::*;

verus! {

/// A stored block's length and bytes; what is left, and the output with
/// them.
pub open spec fn take_stored(s: Seq<bool>, out: Seq<u8>, limit: nat) -> Result<
    (Seq<bool>, Seq<u8>),
    Error,
> {
    match take_bits(aligned(s), 16) {
        Err(e) => Err(e),
        Ok((len, s)) => match take_bits(s, 16) {
            Err(e) => Err(e),
            Ok((nlen, s)) => if len + nlen != 65535 {
                Err(Error::Corrupt("stored block length check failed"))
            } else if out.len() + len > limit {
                Err(Error::Corrupt("deflate output larger than allowed"))
            } else if s.len() < 8 * len {
                Err(Error::UnexpectedEof)
            } else {
                Ok((s.skip(8 * len as int), out + first_bytes(s, len)))
            },
        },
    }
}

/// The rest of a match, after its length symbol: length and distance.
pub open spec fn take_match(s: Seq<bool>, i: int, dist: Seq<u8>) -> Result<
    (nat, nat, Seq<bool>),
    Error,
> {
    match take_bits(s, length_extra(i)) {
        Err(e) => Err(e),
        Ok((x, s)) => match take_symbol(dist, s) {
            Err(e) => Err(e),
            Ok((d, s)) => if d >= 30 {
                Err(Error::Corrupt("invalid distance symbol"))
            } else {
                match take_bits(s, dist_extra(d as int)) {
                    Err(e) => Err(e),
                    Ok((y, s)) => Ok((length_base(i) + x, dist_base(d as int) + y, s)),
                }
            },
        },
    }
}

/// The literals and matches of a block, up to its end.
pub open spec fn take_codes(
    s: Seq<bool>,
    out: Seq<u8>,
    limit: nat,
    lit: Seq<u8>,
    dist: Seq<u8>,
) -> Result<(Seq<bool>, Seq<u8>), Error>
    decreases s.len(),
{
    proof {
        lemma_take_symbol(lit, s);
    }
    match take_symbol(lit, s) {
        Err(e) => Err(e),
        Ok((sym, s1)) => if sym < 256 {
            if out.len() + 1 > limit {
                Err(Error::Corrupt("deflate output larger than allowed"))
            } else {
                take_codes(s1, out.push(sym as u8), limit, lit, dist)
            }
        } else if sym == 256 {
            Ok((s1, out))
        } else if sym - 257 >= 29 {
            Err(Error::Corrupt("invalid length symbol"))
        } else {
            proof {
                lemma_take_match(s1, sym - 257, dist);
            }
            match take_match(s1, sym - 257, dist) {
                Err(e) => Err(e),
                Ok((len, distance, s2)) => if distance > out.len() {
                    Err(Error::Corrupt("match distance before start of data"))
                } else if out.len() + len > limit {
                    Err(Error::Corrupt("deflate output larger than allowed"))
                } else {
                    take_codes(s2, copied(out, distance, len), limit, lit, dist)
                },
            }
        },
    }
}

pub proof fn lemma_take_match(s: Seq<bool>, i: int, dist: Seq<u8>)
    ensures
        take_match(s, i, dist) matches Ok(r) ==> r.2.len() <= s.len(),
{
    match take_bits(s, length_extra(i)) {
        Ok((x, s1)) => lemma_take_symbol(dist, s1),
        Err(_) => {},
    }
}

/// The lengths of the code-length code: `n` of them, in their own order.
pub open spec fn take_cl_lengths(s: Seq<bool>, n: nat) -> Result<(Seq<u8>, Seq<bool>), Error>
    decreases n,
{
    if n == 0 {
        Ok((Seq::new(19, |i: int| 0u8), s))
    } else {
        match take_cl_lengths(s, (n - 1) as nat) {
            Err(e) => Err(e),
            Ok((cl, s)) => match take_bits(s, 3) {
                Err(e) => Err(e),
                Ok((v, s)) => Ok((cl.update(cl_order(n - 1) as int, v as u8), s)),
            },
        }
    }
}

/// What a code-length symbol stands for: a length, and how often.
pub open spec fn take_run(sym: nat, so_far: Seq<u8>, s: Seq<bool>) -> Result<
    (u8, nat, Seq<bool>),
    Error,
> {
    if sym <= 15 {
        Ok((sym as u8, 1, s))
    } else if sym == 16 {
        if so_far.len() == 0 {
            Err(Error::Corrupt("repeat with no previous length"))
        } else {
            match take_bits(s, 2) {
                Err(e) => Err(e),
                Ok((v, s)) => Ok((so_far.last(), 3 + v, s)),
            }
        }
    } else if sym == 17 {
        match take_bits(s, 3) {
            Err(e) => Err(e),
            Ok((v, s)) => Ok((0, 3 + v, s)),
        }
    } else {
        match take_bits(s, 7) {
            Err(e) => Err(e),
            Ok((v, s)) => Ok((0, 11 + v, s)),
        }
    }
}

/// `n` times the same length.
pub open spec fn run_of(value: u8, n: nat) -> Seq<u8> {
    Seq::new(n, |i: int| value)
}

/// Run-length coded code lengths until there are `total`.
pub open spec fn take_lengths(s: Seq<bool>, cl: Seq<u8>, so_far: Seq<u8>, total: nat) -> Result<
    (Seq<u8>, Seq<bool>),
    Error,
>
    decreases s.len(),
{
    if so_far.len() >= total {
        Ok((so_far, s))
    } else {
        proof {
            lemma_take_symbol(cl, s);
        }
        match take_symbol(cl, s) {
            Err(e) => Err(e),
            Ok((sym, s1)) => match take_run(sym, so_far, s1) {
                Err(e) => Err(e),
                Ok((value, repeat, s2)) => if so_far.len() + repeat > total {
                    Err(Error::Corrupt("code lengths overflow"))
                } else {
                    take_lengths(s2, cl, so_far + run_of(value, repeat), total)
                },
            },
        }
    }
}

/// A dynamic block's code lengths, split into the two codes and checked.
pub open spec fn split_lengths(all: Seq<u8>, hlit: nat, s: Seq<bool>) -> Result<
    (Seq<u8>, Seq<u8>, Seq<bool>),
    Error,
> {
    let lit = all.take(hlit as int);
    let dist = all.skip(hlit as int);
    if lit[256] == 0 {
        Err(Error::Corrupt("no end-of-block code"))
    } else {
        match check(lit) {
            Err(e) => Err(e),
            Ok(_) => match check(dist) {
                Err(e) => Err(e),
                Ok(_) => Ok((lit, dist, s)),
            },
        }
    }
}

/// The code-length code and the lengths it codes.
pub open spec fn take_tables(s: Seq<bool>, hlit: nat, hdist: nat, hclen: nat) -> Result<
    (Seq<u8>, Seq<u8>, Seq<bool>),
    Error,
> {
    if hlit > 286 || hdist > 30 {
        Err(Error::Corrupt("too many deflate codes"))
    } else {
        match take_cl_lengths(s, hclen) {
            Err(e) => Err(e),
            Ok((cl, s)) => match check(cl) {
                Err(e) => Err(e),
                Ok(_) => match take_lengths(s, cl, Seq::empty(), hlit + hdist) {
                    Err(e) => Err(e),
                    Ok((all, s)) => split_lengths(all, hlit, s),
                },
            },
        }
    }
}

/// A dynamic block's code tables (RFC 1951 section 3.2.7).
#[verifier::opaque]
pub open spec fn take_header(s: Seq<bool>) -> Result<(Seq<u8>, Seq<u8>, Seq<bool>), Error> {
    match take_bits(s, 5) {
        Err(e) => Err(e),
        Ok((hlit, s)) => match take_bits(s, 5) {
            Err(e) => Err(e),
            Ok((hdist, s)) => match take_bits(s, 4) {
                Err(e) => Err(e),
                Ok((hclen, s)) => take_tables(s, hlit + 257, hdist + 1, hclen + 4),
            },
        },
    }
}

/// One block, behind its last-block bit and type.
pub open spec fn take_body(kind: nat, s: Seq<bool>, out: Seq<u8>, limit: nat) -> Result<
    (Seq<bool>, Seq<u8>),
    Error,
> {
    if kind == 0 {
        take_stored(s, out, limit)
    } else if kind == 1 {
        match check(fixed_litlen()) {
            Err(e) => Err(e),
            Ok(_) => match check(fixed_dist()) {
                Err(e) => Err(e),
                Ok(_) => take_codes(s, out, limit, fixed_litlen(), fixed_dist()),
            },
        }
    } else if kind == 2 {
        match take_header(s) {
            Err(e) => Err(e),
            Ok((lit, dist, s)) => take_codes(s, out, limit, lit, dist),
        }
    } else {
        Err(Error::Corrupt("reserved deflate block type 3"))
    }
}

/// One block: whether it is the last, what is left, and the output with it.
pub open spec fn take_block(s: Seq<bool>, out: Seq<u8>, limit: nat) -> Result<
    (bool, Seq<bool>, Seq<u8>),
    Error,
> {
    match take_bits(s, 1) {
        Err(e) => Err(e),
        Ok((last, s)) => match take_bits(s, 2) {
            Err(e) => Err(e),
            Ok((kind, s)) => match take_body(kind, s, out, limit) {
                Err(e) => Err(e),
                Ok((s, out)) => Ok((last == 1, s, out)),
            },
        },
    }
}

proof fn lemma_codes_shrink(
    s: Seq<bool>,
    out: Seq<u8>,
    limit: nat,
    lit: Seq<u8>,
    dist: Seq<u8>,
)
    ensures
        take_codes(s, out, limit, lit, dist) matches Ok(r) ==> r.0.len() <= s.len() && (out.len()
            <= limit ==> r.1.len() <= limit),
    decreases s.len(),
{
    lemma_take_symbol(lit, s);
    match take_symbol(lit, s) {
        Ok((sym, s1)) => {
            if sym < 256 {
                if out.len() + 1 <= limit {
                    lemma_codes_shrink(s1, out.push(sym as u8), limit, lit, dist);
                }
            } else if sym > 256 && sym - 257 < 29 {
                lemma_take_match(s1, sym - 257, dist);
                match take_match(s1, sym - 257, dist) {
                    Ok((len, distance, s2)) => {
                        crate::lz77::lemma_copied_len(out, distance, len);
                        if distance <= out.len() && out.len() + len <= limit {
                            lemma_codes_shrink(
                                s2,
                                copied(out, distance, len),
                                limit,
                                lit,
                                dist,
                            );
                        }
                    },
                    Err(_) => {},
                }
            }
        },
        Err(_) => {},
    }
}

proof fn lemma_cl_shrink(s: Seq<bool>, n: nat)
    ensures
        take_cl_lengths(s, n) matches Ok(r) ==> r.1.len() <= s.len(),
    decreases n,
{
    if n > 0 {
        lemma_cl_shrink(s, (n - 1) as nat);
    }
}

proof fn lemma_lengths_shrink(s: Seq<bool>, cl: Seq<u8>, so_far: Seq<u8>, total: nat)
    ensures
        take_lengths(s, cl, so_far, total) matches Ok(r) ==> r.1.len() <= s.len(),
    decreases s.len(),
{
    if so_far.len() < total {
        lemma_take_symbol(cl, s);
        match take_symbol(cl, s) {
            Ok((sym, s1)) => match take_run(sym, so_far, s1) {
                Ok((value, repeat, s2)) => {
                    lemma_lengths_shrink(s2, cl, so_far + run_of(value, repeat), total);
                },
                Err(_) => {},
            },
            Err(_) => {},
        }
    }
}

proof fn lemma_header_shrink(s: Seq<bool>)
    ensures
        take_header(s) matches Ok(r) ==> r.2.len() <= s.len(),
{
    reveal(take_header);
    match take_bits(s, 5) {
        Ok((hlit, s1)) => match take_bits(s1, 5) {
            Ok((hdist, s2)) => match take_bits(s2, 4) {
                Ok((hclen, s3)) => {
                    lemma_cl_shrink(s3, hclen + 4);
                    match take_cl_lengths(s3, hclen + 4) {
                        Ok((cl, s4)) => {
                            lemma_lengths_shrink(
                                s4,
                                cl,
                                Seq::empty(),
                                hlit + 257 + (hdist + 1),
                            );
                        },
                        Err(_) => {},
                    }
                },
                Err(_) => {},
            },
            Err(_) => {},
        },
        Err(_) => {},
    }
}

/// A block takes up bits, and keeps to the limit.
pub proof fn lemma_block_shrinks(s: Seq<bool>, out: Seq<u8>, limit: nat)
    ensures
        take_block(s, out, limit) matches Ok(r) ==> r.1.len() < s.len() && (out.len() <= limit
            ==> r.2.len() <= limit),
{
    match take_bits(s, 1) {
        Ok((last, s1)) => match take_bits(s1, 2) {
            Ok((kind, s2)) => {
                lemma_codes_shrink(s2, out, limit, fixed_litlen(), fixed_dist());
                lemma_header_shrink(s2);
                match take_header(s2) {
                    Ok((lit, dist, s3)) => lemma_codes_shrink(s3, out, limit, lit, dist),
                    Err(_) => {},
                }
            },
            Err(_) => {},
        },
        Err(_) => {},
    }
}

/// Blocks up to the last one: the output, and the bits behind them.
pub open spec fn take_blocks(s: Seq<bool>, out: Seq<u8>, limit: nat) -> Result<
    (Seq<u8>, Seq<bool>),
    Error,
>
    decreases s.len(),
{
    proof {
        lemma_block_shrinks(s, out, limit);
    }
    match take_block(s, out, limit) {
        Err(e) => Err(e),
        Ok((last, rest, more)) => if last {
            Ok((more, rest))
        } else {
            take_blocks(rest, more, limit)
        },
    }
}

/// The Deflate stream at the start of `input`: what it holds, in at most
/// `limit` bytes, and how many bytes it takes up.
pub open spec fn inflated(input: Seq<u8>, limit: nat) -> Result<(Seq<u8>, nat), Error> {
    match take_blocks(bytes_bits(input), Seq::empty(), limit) {
        Err(e) => Err(e),
        Ok((out, rest)) => Ok((out, (input.len() - aligned(rest).len() / 8) as nat)),
    }
}

/// A stream keeps to the limit and to its input.
pub proof fn lemma_inflated(input: Seq<u8>, limit: nat)
    ensures
        inflated(input, limit) matches Ok((out, consumed)) ==> out.len() <= limit && 0 < consumed
            <= input.len(),
{
    lemma_blocks_shrink(bytes_bits(input), Seq::empty(), limit);
}

/// The error of a stream that would exceed its limit.
pub open spec fn too_large() -> Error {
    Error::Corrupt("deflate output larger than allowed")
}

proof fn lemma_codes_limit(
    s: Seq<bool>,
    out: Seq<u8>,
    small: nat,
    big: nat,
    lit: Seq<u8>,
    dist: Seq<u8>,
)
    requires
        small <= big,
    ensures
        take_codes(s, out, small, lit, dist) == take_codes(s, out, big, lit, dist) || take_codes(
            s,
            out,
            small,
            lit,
            dist,
        ) == Err::<(Seq<bool>, Seq<u8>), Error>(too_large()),
    decreases s.len(),
{
    lemma_take_symbol(lit, s);
    match take_symbol(lit, s) {
        Ok((sym, s1)) => {
            if sym < 256 {
                lemma_codes_limit(s1, out.push(sym as u8), small, big, lit, dist);
            } else if sym > 256 && sym - 257 < 29 {
                lemma_take_match(s1, sym - 257, dist);
                match take_match(s1, sym - 257, dist) {
                    Ok((len, distance, s2)) => {
                        lemma_codes_limit(
                            s2,
                            copied(out, distance, len),
                            small,
                            big,
                            lit,
                            dist,
                        );
                    },
                    Err(_) => {},
                }
            }
        },
        Err(_) => {},
    }
}

proof fn lemma_block_limit(s: Seq<bool>, out: Seq<u8>, small: nat, big: nat)
    requires
        small <= big,
    ensures
        take_block(s, out, small) == take_block(s, out, big) || take_block(s, out, small) == Err::<
            (bool, Seq<bool>, Seq<u8>),
            Error,
        >(too_large()),
{
    match take_bits(s, 1) {
        Ok((last, s)) => match take_bits(s, 2) {
            Ok((kind, s)) => {
                lemma_codes_limit(s, out, small, big, fixed_litlen(), fixed_dist());
                match take_header(s) {
                    Ok((lit, dist, s)) => lemma_codes_limit(s, out, small, big, lit, dist),
                    Err(_) => {},
                }
            },
            Err(_) => {},
        },
        Err(_) => {},
    }
}

proof fn lemma_blocks_limit(s: Seq<bool>, out: Seq<u8>, small: nat, big: nat)
    requires
        small <= big,
    ensures
        take_blocks(s, out, small) == take_blocks(s, out, big) || take_blocks(s, out, small)
            == Err::<(Seq<u8>, Seq<bool>), Error>(too_large()),
    decreases s.len(),
{
    lemma_block_limit(s, out, small, big);
    lemma_block_shrinks(s, out, big);
    match take_block(s, out, big) {
        Ok((last, rest, more)) => if !last {
            lemma_blocks_limit(rest, more, small, big);
        },
        Err(_) => {},
    }
}

/// A stream that holds more than the limit allows is refused for that.
pub proof fn small_limits_are_refused(input: Seq<u8>, big: nat, limit: nat)
    requires
        inflated(input, big) matches Ok((out, _)) && limit < out.len(),
    ensures
        inflated(input, limit) == Err::<(Seq<u8>, nat), Error>(too_large()),
{
    lemma_inflated(input, big);
    lemma_inflated(input, limit);
    lemma_blocks_limit(bytes_bits(input), Seq::empty(), limit, big);
}

proof fn lemma_blocks_shrink(s: Seq<bool>, out: Seq<u8>, limit: nat)
    requires
        out.len() <= limit,
    ensures
        take_blocks(s, out, limit) matches Ok((more, rest)) ==> more.len() <= limit && rest.len()
            < s.len(),
    decreases s.len(),
{
    lemma_block_shrinks(s, out, limit);
    match take_block(s, out, limit) {
        Ok((last, rest, more)) => if !last {
            lemma_blocks_shrink(rest, more, limit);
        },
        Err(_) => {},
    }
}

} // verus!
