//! LZSS: LZ77 tokens written with fixed-size fields, no entropy coding.
//!
//! This shows what LZ77 achieves on its own, before Huffman is added on top
//! (which is what [`Deflate`](super::Deflate) does).
//!
//! ```text
//! literal: 0, byte (8 bits)                       = 9 bits
//! match:   1, len - 3 (8 bits), dist - 1 (15 bits) = 24 bits
//! ```
//!
//! A match therefore pays off from 3 bytes (27 bits as literals). The
//! decoder stops after producing the expected number of bytes.
use crate::bits::bits_of;
use crate::bits::bytes_bits;
use crate::bits::bits_roundtrip;
use crate::bits::padded;
use crate::bits::take_bits;
use crate::bits::zeros;
use crate::bits::BitReader;
use crate::bits::BitWriter;
use crate::codec::Codec;
use crate::error::Error;
use crate::lz77::copied;
use crate::lz77::copy_match;
use crate::lz77::lemma_applied;
use crate::lz77::level_params;
use crate::lz77::parse;
use crate::lz77::parse_is_lossless;
use crate::lz77::parsed;
use crate::lz77::token_ok;
use crate::lz77::tokens_ok;
use crate::lz77::Params;
use crate::lz77::Token;
use crate::lz77::MIN_MATCH;
use crate::nums::lemma_pow2_values;
use crate::bits::lemma_bits_of_len;
use vstd::prelude::*;

verus! {

/// The fields of a token.
pub open spec fn token_bits(t: Token) -> Seq<bool> {
    match t {
        Token::Literal(b) => seq![false] + bits_of(b as nat, 8),
        Token::Match { len, dist } => seq![true] + bits_of((len - 3) as nat, 8) + bits_of(
            (dist - 1) as nat,
            15,
        ),
    }
}

/// The fields of all tokens.
pub open spec fn tokens_bits(tokens: Seq<Token>) -> Seq<bool>
    decreases tokens.len(),
{
    if tokens.len() == 0 {
        Seq::empty()
    } else {
        token_bits(tokens[0]) + tokens_bits(tokens.skip(1))
    }
}

/// What tokens decode to, behind `out`.
#[verifier::opaque]
pub open spec fn unlzss(s: Seq<bool>, out: Seq<u8>, expected: nat) -> Result<Seq<u8>, Error>
    decreases s.len(),
{
    if out.len() >= expected {
        Ok(out)
    } else if s.len() == 0 {
        Err(Error::UnexpectedEof)
    } else if !s[0] {
        match take_bits(s.skip(1), 8) {
            Err(e) => Err(e),
            Ok((b, s1)) => unlzss(s1, out.push(b as u8), expected),
        }
    } else {
        match take_bits(s.skip(1), 8) {
            Err(e) => Err(e),
            Ok((x, s1)) => match take_bits(s1, 15) {
                Err(e) => Err(e),
                Ok((y, s2)) => {
                    let len = x + 3;
                    let dist = y + 1;
                    if dist > out.len() {
                        Err(Error::Corrupt("match distance before start of data"))
                    } else if len > expected - out.len() {
                        Err(Error::Corrupt("match runs past the end"))
                    } else {
                        unlzss(s2, copied(out, dist, len), expected)
                    }
                },
            },
        }
    }
}

/// One token is read again.
proof fn lemma_token(data: Seq<u8>, pos: int, t: Token, rest: Seq<bool>)
    requires
        0 <= pos < data.len(),
        token_ok(data, pos, t),
        pos + t.span() <= data.len(),
    ensures
        unlzss(token_bits(t) + rest, data.take(pos), data.len()) == unlzss(
            rest,
            data.take(pos + t.span()),
            data.len(),
        ),
{
    reveal(unlzss);
    lemma_pow2_values();
    lemma_applied(data, pos, t);
    let s = token_bits(t) + rest;
    match t {
        Token::Literal(b) => {
            assert(s.skip(1) =~= bits_of(b as nat, 8) + rest);
            bits_roundtrip(b as nat, 8, rest);
        },
        Token::Match { len, dist } => {
            let y = bits_of((dist - 1) as nat, 15) + rest;
            assert(s.skip(1) =~= bits_of((len - 3) as nat, 8) + y);
            bits_roundtrip((len - 3) as nat, 8, y);
            bits_roundtrip((dist - 1) as nat, 15, rest);
        },
    }
}

proof fn lemma_tokens(data: Seq<u8>, pos: int, tokens: Seq<Token>, tail: Seq<bool>)
    requires
        0 <= pos <= data.len(),
        tokens_ok(data, pos, tokens),
    ensures
        unlzss(tokens_bits(tokens) + tail, data.take(pos), data.len()) == Ok::<Seq<u8>, Error>(
            data,
        ),
    decreases tokens.len(),
{
    if tokens.len() == 0 {
        reveal(unlzss);
        assert(data.take(pos) =~= data);
    } else {
        let t = tokens[0];
        let more = tokens.skip(1);
        let rest = tokens_bits(more) + tail;
        assert(tokens_bits(tokens) + tail =~= token_bits(t) + rest);
        lemma_token(data, pos, t, rest);
        lemma_tokens(data, pos + t.span(), more, tail);
    }
}

#[derive(Debug, Clone, Copy, Default)]
pub struct Lzss;

impl Lzss {
    /// Tokens give back the data they were made of.
    pub proof fn lossless(&self, input: Seq<u8>, packed: Seq<u8>)
        requires
            self.packs(input, packed),
        ensures
            self.unpacked(packed, input.len()) == Ok::<Seq<u8>, Error>(input),
    {
        let tokens = parsed(input, level_params(6));
        let w = tokens_bits(tokens);
        parse_is_lossless(input, level_params(6));
        assert(input.take(0) =~= Seq::<u8>::empty());
        lemma_tokens(input, 0, tokens, zeros(((8 - w.len() % 8) % 8) as nat));
    }

    /// What is written are the tokens of the parse at level 6, in fields of 9
    /// bits for a literal and 24 for a match.
    pub proof fn streams_hold_the_parse(&self, input: Seq<u8>, packed: Seq<u8>)
        requires
            self.packs(input, packed),
        ensures
            bytes_bits(packed) == padded(tokens_bits(parsed(input, level_params(6)))),
            packed.len() == (fields_size(parsed(input, level_params(6))) + 7) / 8,
    {
        let tokens = parsed(input, level_params(6));
        lemma_fields_size(tokens);
        assert(bytes_bits(packed).len() == 8 * packed.len());
    }

    /// Any tokens that describe the data give it back, whoever chose them and
    /// whatever follows them.
    pub proof fn any_tokens_are_read(
        &self,
        data: Seq<u8>,
        tokens: Seq<Token>,
        packed: Seq<u8>,
        tail: Seq<bool>,
    )
        requires
            tokens_ok(data, 0, tokens),
            bytes_bits(packed) == tokens_bits(tokens) + tail,
        ensures
            self.unpacked(packed, data.len()) == Ok::<Seq<u8>, Error>(data),
    {
        assert(data.take(0) =~= Seq::<u8>::empty());
        lemma_tokens(data, 0, tokens, tail);
    }

    /// A token is taken only if it copies from what is there and ends with the
    /// data or before; reading then goes on behind it.
    pub proof fn tokens_are_checked(
        &self,
        t: Token,
        rest: Seq<bool>,
        out: Seq<u8>,
        expected: nat,
    )
        requires
            out.len() < expected,
            t matches Token::Match { len, dist } ==> 3 <= len <= 258 && 1 <= dist <= 32768,
        ensures
            ({
                let r = unlzss(token_bits(t) + rest, out, expected);
                match t {
                    Token::Literal(b) => r == unlzss(rest, out + seq![b], expected),
                    Token::Match { len, dist } => r == if dist > out.len() {
                        Err(Error::Corrupt("match distance before start of data"))
                    } else if out.len() + len > expected {
                        Err(Error::Corrupt("match runs past the end"))
                    } else {
                        unlzss(rest, copied(out, dist as nat, len as nat), expected)
                    },
                }
            }),
    {
        reveal(unlzss);
        lemma_pow2_values();
        let s = token_bits(t) + rest;
        match t {
            Token::Literal(b) => {
                assert(s.skip(1) =~= bits_of(b as nat, 8) + rest);
                bits_roundtrip(b as nat, 8, rest);
                assert(out.push(b) =~= out + seq![b]);
            },
            Token::Match { len, dist } => {
                let y = bits_of((dist - 1) as nat, 15) + rest;
                assert(s.skip(1) =~= bits_of((len - 3) as nat, 8) + y);
                bits_roundtrip((len - 3) as nat, 8, y);
                bits_roundtrip((dist - 1) as nat, 15, rest);
            },
        }
    }

    /// A token that breaks off, or is missing, is refused.
    pub proof fn cut_tokens_are_refused(
        &self,
        t: Token,
        n: nat,
        out: Seq<u8>,
        expected: nat,
    )
        requires
            out.len() < expected,
            n < token_bits(t).len(),
        ensures
            unlzss(token_bits(t).take(n as int), out, expected) == Err::<Seq<u8>, Error>(
                Error::UnexpectedEof,
            ),
    {
        reveal(unlzss);
        let s = token_bits(t).take(n as int);
        match t {
            Token::Literal(b) => {
                lemma_bits_of_len(b as nat, 8);
            },
            Token::Match { len, dist } => {
                lemma_bits_of_len((len - 3) as nat, 8);
                lemma_bits_of_len((dist - 1) as nat, 15);
            },
        }
    }
}

/// The sizes of all fields.
pub open spec fn fields_size(tokens: Seq<Token>) -> nat
    decreases tokens.len(),
{
    if tokens.len() == 0 {
        0
    } else {
        (if tokens[0] is Literal {
            9nat
        } else {
            24nat
        }) + fields_size(tokens.skip(1))
    }
}

proof fn lemma_fields_size(tokens: Seq<Token>)
    ensures
        tokens_bits(tokens).len() == fields_size(tokens),
    decreases tokens.len(),
{
    if tokens.len() > 0 {
        lemma_fields_size(tokens.skip(1));
        match tokens[0] {
            Token::Literal(b) => crate::bits::lemma_bits_of_len(b as nat, 8),
            Token::Match { len, dist } => {
                crate::bits::lemma_bits_of_len((len - 3) as nat, 8);
                crate::bits::lemma_bits_of_len((dist - 1) as nat, 15);
            },
        }
    }
}

/// A literal is a 0 and its byte, a match a 1, eight bits of its length less
/// 3 and fifteen of its distance less 1; they stand one behind the other.
pub proof fn fields_are_laid_out(b: u8, len: u16, dist: u16, t: Token, more: Seq<Token>)
    ensures
        token_bits(Token::Literal(b)) == seq![false] + bits_of(b as nat, 8),
        token_bits(Token::Match { len, dist }) == seq![true] + bits_of((len - 3) as nat, 8)
            + bits_of((dist - 1) as nat, 15),
        tokens_bits(Seq::empty()) == Seq::<bool>::empty(),
        tokens_bits(seq![t] + more) == token_bits(t) + tokens_bits(more),
{
    assert((seq![t] + more).skip(1) =~= more);
}

impl Codec for Lzss {
    open spec fn number(&self) -> u8 {
        4
    }

    open spec fn label(&self) -> Seq<char> {
        "lzss"@
    }

    open spec fn about(&self) -> Seq<char> {
        "LZ77 matches with fixed-size fields, no Huffman (32 KB window)"@
    }

    open spec fn accepts(&self, input: Seq<u8>) -> bool {
        input.len() < u32::MAX
    }

    open spec fn packs(&self, input: Seq<u8>, packed: Seq<u8>) -> bool {
        bytes_bits(packed) == padded(tokens_bits(parsed(input, level_params(6))))
    }

    open spec fn unpacked(&self, packed: Seq<u8>, expected_len: nat) -> Result<Seq<u8>, Error> {
        unlzss(bytes_bits(packed), Seq::empty(), expected_len)
    }

    fn id(&self) -> (r: u8) {
        4
    }

    fn name(&self) -> (r: &'static str) {
        "lzss"
    }

    fn description(&self) -> (r: &'static str) {
        "LZ77 matches with fixed-size fields, no Huffman (32 KB window)"
    }

    fn can_compress(&self, input: &[u8]) -> (r: bool) {
        (input.len() as u64) < u32::MAX as u64
    }

    fn compress(&self, input: &[u8]) -> (r: Vec<u8>) {
        let mut w = BitWriter::with_capacity(input.len());
        let tokens = parse(input, Params::default());
        let mut i: usize = 0;
        let ghost mut pos: int = 0;
        let ghost target = tokens_bits(tokens@);
        assert(tokens@.skip(0) =~= tokens@);
        assert(w@ + target =~= target);
        while i < tokens.len()
            invariant
                w.wf(),
                i <= tokens@.len(),
                tokens_ok(input@, pos, tokens@.skip(i as int)),
                w@ + tokens_bits(tokens@.skip(i as int)) == target,
            decreases tokens@.len() - i,
        {
            let ghost left = tokens@.skip(i as int);
            let ghost was = w@;
            proof {
                lemma_pow2_values();
                assert(left[0] == tokens@[i as int]);
                assert(left.skip(1) =~= tokens@.skip(i + 1));
                pos = pos + left[0].span();
            }
            match tokens[i] {
                Token::Literal(b) => {
                    w.write_bit(false);
                    w.write_byte(b);
                },
                Token::Match { len, dist } => {
                    w.write_bit(true);
                    w.write_bits(len as u32 - MIN_MATCH as u32, 8);
                    w.write_bits(dist as u32 - 1, 15);
                },
            }
            i = i + 1;
            assert(w@ =~= was + token_bits(left[0]));
            assert(w@ + tokens_bits(left.skip(1)) =~= was + tokens_bits(left));
        }
        assert(w@ =~= target);
        let out = w.finish();
        proof {
            self.lossless(input@, out@);
        }
        out
    }

    fn decompress(&self, input: &[u8], expected_len: usize) -> (r: Result<Vec<u8>, Error>) {
        let mut r = BitReader::new(input);
        let mut out: Vec<u8> = Vec::new();
        let ghost target = unlzss(r@, Seq::empty(), expected_len as nat);
        assert(out@ =~= Seq::<u8>::empty());
        proof {
            lemma_pow2_values();
        }
        while out.len() < expected_len
            invariant
                r.wf(),
                out@.len() <= expected_len,
                target == unlzss(bytes_bits(input@), Seq::empty(), expected_len as nat),
                unlzss(r@, out@, expected_len as nat) == target,
            decreases r@.len(),
        {
            proof {
                reveal(unlzss);
                lemma_pow2_values();
            }
            let is_match: bool = match r.read_bit() {
                Err(e) => {
                    return Err(e);
                },
                Ok(b) => b,
            };
            if !is_match {
                match r.read_byte() {
                    Err(e) => {
                        return Err(e);
                    },
                    Ok(b) => out.push(b),
                }
            } else {
                let len: usize = match r.read_bits(8) {
                    Err(e) => {
                        return Err(e);
                    },
                    Ok(x) => x as usize + MIN_MATCH,
                };
                let dist: usize = match r.read_bits(15) {
                    Err(e) => {
                        return Err(e);
                    },
                    Ok(y) => y as usize + 1,
                };
                if dist > out.len() {
                    return Err(Error::Corrupt("match distance before start of data"));
                }
                if len > expected_len - out.len() {
                    return Err(Error::Corrupt("match runs past the end"));
                }
                copy_match(&mut out, dist, len);
            }
        }
        proof {
            reveal(unlzss);
        }
        Ok(out)
    }
}

} // verus!
