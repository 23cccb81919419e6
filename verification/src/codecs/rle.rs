//! Bit-level run-length encoding with Elias gamma lengths.
//!
//! Same idea as [`PackBits`](super::PackBits), with one change: lengths are
//! written as variable-length [gamma codes](crate::bits::BitWriter::write_gamma)
//! instead of fixed 7-bit fields, so there is no 128-byte packet limit. A run
//! of a million zeros takes about 6 bytes instead of 16 KB.
//!
//! The stream is a sequence of tokens:
//!
//! ```text
//! literal: 0, gamma(len),     then len raw bytes (8 bits each)
//! run:     1, gamma(len - 2), then the repeated byte
//! ```
//!
//! Runs are at least [`MIN_RUN`] long, so `len - 2 >= 1` as gamma requires.
//! The decoder stops once it has produced the expected number of bytes.
//!
//! Trade-off versus PackBits: literals are no longer byte-aligned, so
//! decoding is slower (every byte goes through the bit reader).
use crate::bits::bits_of;
use crate::bits::bytes_bits;
use crate::bits::first_bytes;
use crate::bits::gamma_bits;
use crate::bits::lemma_bytes_bits_push;
use crate::bits::lemma_first_bytes;
use crate::bits::gamma_roundtrip;
use crate::bits::bits_roundtrip;
use crate::bits::padded;
use crate::bits::take_bits;
use crate::bits::take_bytes;
use crate::bits::take_gamma;
use crate::bits::zeros;
use crate::bits::BitReader;
use crate::bits::BitWriter;
use crate::codec::Codec;
use crate::codecs::packbits::free_of_runs;
use crate::codecs::packbits::lemma_free_of_runs;
use crate::codecs::packbits::lemma_run_at;
use crate::codecs::packbits::push_run;
use crate::codecs::packbits::repeated;
use crate::codecs::packbits::run_at;
use crate::codecs::packbits::run_length;
use crate::error::Error;
use crate::nums::lemma_pow2_values;
use vstd::prelude::*;

verus! {

/// Shortest run worth its own token. A run token costs 1 flag bit, the gamma
/// length and 8 bits for the byte. Breaking a literal also costs another
/// literal header later, so short runs are cheaper left in the literal.
pub const MIN_RUN: usize = 4;

/// A literal token, if there is anything to hold.
pub open spec fn literal_bits(bytes: Seq<u8>) -> Seq<bool> {
    if bytes.len() == 0 {
        Seq::empty()
    } else {
        seq![false] + gamma_bits(bytes.len()) + bytes_bits(bytes)
    }
}

/// A run token.
pub open spec fn run_bits(b: u8, n: nat) -> Seq<bool> {
    seq![true] + gamma_bits((n - 2) as nat) + bits_of(b as nat, 8)
}

/// The tokens of `input` from `start` on, with no run worth a token between
/// `start` and `i`.
pub open spec fn tokens_from(input: Seq<u8>, start: int, i: int) -> Seq<bool>
    decreases input.len() - i,
{
    if i < 0 || i >= input.len() {
        literal_bits(input.subrange(start, input.len() as int))
    } else {
        proof {
            lemma_run_at(input, i, input.len());
        }
        let run = run_at(input, i, input.len());
        if run >= 4 {
            literal_bits(input.subrange(start, i)) + run_bits(input[i], run) + tokens_from(
                input,
                i + run,
                i + run,
            )
        } else {
            tokens_from(input, start, i + run)
        }
    }
}

/// What tokens decode to, behind `out`.
#[verifier::opaque]
pub open spec fn untokened(s: Seq<bool>, out: Seq<u8>, expected: nat) -> Result<Seq<u8>, Error>
    decreases s.len(),
{
    if out.len() >= expected {
        Ok(out)
    } else if s.len() == 0 {
        Err(Error::UnexpectedEof)
    } else {
        match take_gamma(s.skip(1)) {
            Err(e) => Err(e),
            Ok((g, s1)) => {
                let len = if s[0] {
                    g + 2
                } else {
                    g
                };
                if len > expected - out.len() {
                    Err(Error::Corrupt("token longer than remaining output"))
                } else if s[0] {
                    match take_bits(s1, 8) {
                        Err(e) => Err(e),
                        Ok((b, s2)) => untokened(s2, out + repeated(b as u8, len), expected),
                    }
                } else {
                    match take_bytes(s1, len) {
                        Err(e) => Err(e),
                        Ok((bytes, s2)) => untokened(s2, out + bytes, expected),
                    }
                }
            },
        }
    }
}

proof fn lemma_literal(bytes: Seq<u8>, rest: Seq<bool>, out: Seq<u8>, expected: nat)
    requires
        out.len() + bytes.len() <= expected <= u64::MAX,
    ensures
        untokened(literal_bits(bytes) + rest, out, expected) == untokened(
            rest,
            out + bytes,
            expected,
        ),
{
    reveal(untokened);
    if bytes.len() == 0 {
        assert(literal_bits(bytes) + rest =~= rest);
        assert(out + bytes =~= out);
    } else {
        let body = bytes_bits(bytes) + rest;
        let s = literal_bits(bytes) + rest;
        gamma_roundtrip(bytes.len(), body);
        assert(s.skip(1) =~= gamma_bits(bytes.len()) + body);
        lemma_first_bytes(bytes, rest);
        assert(body.skip(8 * bytes.len() as int) =~= rest);
    }
}

proof fn lemma_run_token(b: u8, n: nat, rest: Seq<bool>, out: Seq<u8>, expected: nat)
    requires
        n >= 3,
        out.len() + n <= expected <= u64::MAX,
    ensures
        untokened(run_bits(b, n) + rest, out, expected) == untokened(
            rest,
            out + repeated(b, n),
            expected,
        ),
{
    reveal(untokened);
    lemma_pow2_values();
    let body = bits_of(b as nat, 8) + rest;
    let s = run_bits(b, n) + rest;
    gamma_roundtrip((n - 2) as nat, body);
    assert(s.skip(1) =~= gamma_bits((n - 2) as nat) + body);
    bits_roundtrip(b as nat, 8, rest);
}

proof fn lemma_tokens(input: Seq<u8>, start: int, i: int, tail: Seq<bool>)
    requires
        0 <= start <= i <= input.len() <= u64::MAX,
    ensures
        untokened(tokens_from(input, start, i) + tail, input.take(start), input.len()) == Ok::<
            Seq<u8>,
            Error,
        >(input),
    decreases input.len() - i,
{
    let out = input.take(start);
    let n = input.len() as int;
    if i == n {
        let b = input.subrange(start, n);
        lemma_literal(b, tail, out, input.len());
        assert(out + b =~= input);
        reveal(untokened);
    } else {
        lemma_run_at(input, i, input.len());
        let run = run_at(input, i, input.len());
        if run >= 4 {
            let b = input.subrange(start, i);
            let more = tokens_from(input, i + run, i + run) + tail;
            lemma_literal(b, run_bits(input[i], run) + more, out, input.len());
            lemma_run_token(input[i], run, more, out + b, input.len());
            assert(tokens_from(input, start, i) + tail =~= literal_bits(b) + (run_bits(
                input[i],
                run,
            ) + more));
            assert(out + b + repeated(input[i], run) =~= input.take(i + run)) by {
                assert(input.take(i + run) =~= out + b + input.subrange(i, i + run));
            }
            lemma_tokens(input, i + run, i + run, tail);
        } else {
            lemma_tokens(input, start, i + run, tail);
        }
    }
}

/// What one token stands for.
pub ghost enum Piece {
    Literal { bytes: Seq<u8> },
    Run { byte: u8, n: nat },
}

impl Piece {
    /// The bytes.
    pub open spec fn bytes(self) -> Seq<u8> {
        match self {
            Piece::Literal { bytes } => bytes,
            Piece::Run { byte, n } => Seq::new(n, |i: int| byte),
        }
    }

    /// The token: a flag, the length as a gamma code, and the bytes or the
    /// byte.
    pub open spec fn token(self) -> Seq<bool> {
        match self {
            Piece::Literal { bytes } => seq![false] + gamma_bits(bytes.len()) + bytes_bits(bytes),
            Piece::Run { byte, n } => seq![true] + gamma_bits((n - 2) as nat) + bits_of(
                byte as nat,
                8,
            ),
        }
    }

    /// There is a token for it.
    pub open spec fn ok(self) -> bool {
        match self {
            Piece::Literal { bytes } => bytes.len() > 0,
            Piece::Run { n, .. } => n >= 3,
        }
    }

    /// No literal holds a run worth a token, and no token is spent on a run
    /// that is not.
    pub open spec fn fair(self) -> bool {
        match self {
            Piece::Literal { bytes } => bytes.len() > 0 && free_of_runs(bytes, 4),
            Piece::Run { n, .. } => n >= 4,
        }
    }

    /// The two belong apart: they are not both literals, and a run ends
    /// where its byte does.
    pub open spec fn apart(self, next: Piece) -> bool {
        &&& self is Run || next is Run
        &&& self.bytes().last() != next.bytes()[0]
    }
}

/// All bytes.
pub open spec fn joined(pieces: Seq<Piece>) -> Seq<u8>
    decreases pieces.len(),
{
    if pieces.len() == 0 {
        Seq::empty()
    } else {
        pieces[0].bytes() + joined(pieces.skip(1))
    }
}

/// All tokens.
pub open spec fn written(pieces: Seq<Piece>) -> Seq<bool>
    decreases pieces.len(),
{
    if pieces.len() == 0 {
        Seq::empty()
    } else {
        pieces[0].token() + written(pieces.skip(1))
    }
}

/// Every run of four or more bytes, as long as it is, is a piece of its own,
/// and what lies between two of them is one literal.
pub open spec fn cut_at_runs(pieces: Seq<Piece>) -> bool {
    &&& forall|i: int| 0 <= i < pieces.len() ==> (#[trigger] pieces[i]).fair()
    &&& forall|i: int|
        0 < i < pieces.len() ==> pieces[i - 1].apart(#[trigger] pieces[i])
}

proof fn lemma_cons(piece: Piece, pieces: Seq<Piece>)
    ensures
        joined(seq![piece] + pieces) == piece.bytes() + joined(pieces),
        written(seq![piece] + pieces) == piece.token() + written(pieces),
        piece.fair() && cut_at_runs(pieces) && (pieces.len() > 0 ==> piece.apart(pieces[0]))
            ==> cut_at_runs(seq![piece] + pieces),
{
    let all = seq![piece] + pieces;
    assert(all.skip(1) =~= pieces);
    if piece.fair() && cut_at_runs(pieces) && (pieces.len() > 0 ==> piece.apart(pieces[0])) {
        assert forall|i: int| 0 <= i < all.len() implies (#[trigger] all[i]).fair() by {
            if i > 0 {
                assert(all[i] == pieces[i - 1]);
            }
        }
        assert forall|i: int| 0 < i < all.len() implies all[i - 1].apart(#[trigger] all[i]) by {
            assert(all[i] == pieces[i - 1]);
            if i > 1 {
                assert(pieces[i - 2].apart(pieces[i - 1]));
            }
        }
    }
}

proof fn lemma_cut(input: Seq<u8>, start: int, i: int) -> (pieces: Seq<Piece>)
    requires
        0 <= start <= i <= input.len(),
        free_of_runs(input.subrange(start, i), 4),
        start < i < input.len() ==> input[i - 1] != input[i],
    ensures
        joined(pieces) == input.skip(start),
        written(pieces) == tokens_from(input, start, i),
        cut_at_runs(pieces),
        pieces.len() > 0 <==> start < input.len(),
        pieces.len() > 0 ==> pieces[0].bytes()[0] == input[start],
        start < i && pieces.len() > 0 ==> pieces[0] is Literal,
    decreases input.len() - i,
{
    let n = input.len() as int;
    if i == n {
        let b = input.subrange(start, n);
        assert(b =~= input.skip(start));
        if start == n {
            Seq::empty()
        } else {
            let p = Piece::Literal { bytes: b };
            lemma_cons(p, Seq::empty());
            assert(seq![p] + Seq::<Piece>::empty() =~= seq![p]);
            assert(p.token() + Seq::<bool>::empty() =~= p.token());
            assert(p.bytes() + Seq::<u8>::empty() =~= p.bytes());
            seq![p]
        }
    } else {
        lemma_run_at(input, i, input.len());
        let run = run_at(input, i, input.len());
        let end = i + run;
        if run >= 4 {
            assert(input.subrange(end, end) =~= Seq::<u8>::empty());
            let more = lemma_cut(input, end, end);
            let r = Piece::Run { byte: input[i], n: run };
            assert(r.bytes() =~= input.subrange(i, end));
            lemma_cons(r, more);
            let tail = seq![r] + more;
            assert(r.bytes().last() == input[i]);
            assert(joined(tail) =~= input.skip(i));
            if start == i {
                assert(literal_bits(input.subrange(start, i)) + r.token() =~= r.token());
                tail
            } else {
                let b = input.subrange(start, i);
                let p = Piece::Literal { bytes: b };
                lemma_cons(p, tail);
                assert(tail[0] == r);
                assert(b.last() == input[i - 1]);
                assert(b + input.skip(i) =~= input.skip(start));
                assert(p.token() + (r.token() + written(more)) =~= p.token() + r.token() + written(
                    more,
                ));
                seq![p] + tail
            }
        } else {
            lemma_free_of_runs(input, start, i, run, 4);
            assert(input.subrange(i, end)[run - 1] == input[i]);
            lemma_cut(input, start, end)
        }
    }
}

#[derive(Debug, Clone, Copy, Default)]
pub struct Rle;

impl Rle {
    /// Tokens give back the data they were made of.
    pub proof fn lossless(&self, input: Seq<u8>, packed: Seq<u8>)
        requires
            self.packs(input, packed),
            input.len() <= u64::MAX,
        ensures
            self.unpacked(packed, input.len()) == Ok::<Seq<u8>, Error>(input),
    {
        let w = tokens_from(input, 0, 0);
        assert(input.take(0) =~= Seq::<u8>::empty());
        lemma_tokens(input, 0, 0, zeros(((8 - w.len() % 8) % 8) as nat));
    }

    /// Every run of four or more equal bytes gets a token, and that token
    /// holds the whole run; all else is in literals that are as long as can
    /// be.
    pub proof fn runs_are_found(&self, input: Seq<u8>, packed: Seq<u8>)
        requires
            self.packs(input, packed),
        ensures
            exists|pieces: Seq<Piece>| #[trigger]
                cut_at_runs(pieces) && joined(pieces) == input && bytes_bits(packed) == padded(
                    written(pieces),
                ),
    {
        assert(input.subrange(0, 0) =~= Seq::<u8>::empty());
        let pieces = lemma_cut(input, 0, 0);
        assert(input.skip(0) =~= input);
        assert(cut_at_runs(pieces));
    }

    /// Any tokens give back the bytes they stand for, whoever cut them and
    /// whatever follows them.
    pub proof fn tokens_are_read(&self, pieces: Seq<Piece>, packed: Seq<u8>, tail: Seq<bool>)
        requires
            forall|i: int| 0 <= i < pieces.len() ==> (#[trigger] pieces[i]).ok(),
            bytes_bits(packed) == written(pieces) + tail,
            joined(pieces).len() <= u64::MAX,
        ensures
            self.unpacked(packed, joined(pieces).len()) == Ok::<Seq<u8>, Error>(joined(pieces)),
    {
        lemma_pieces_read(pieces, tail, Seq::empty(), joined(pieces).len());
        assert(Seq::<u8>::empty() + joined(pieces) =~= joined(pieces));
        reveal(untokened);
    }

    /// A token for more bytes than are expected is refused, wherever it
    /// stands.
    pub proof fn long_tokens_are_refused(
        &self,
        pieces: Seq<Piece>,
        last: Piece,
        packed: Seq<u8>,
        tail: Seq<bool>,
        expected: nat,
    )
        requires
            forall|i: int| 0 <= i < pieces.len() ==> (#[trigger] pieces[i]).ok(),
            last.ok(),
            bytes_bits(packed) == written(pieces) + (last.token() + tail),
            joined(pieces).len() < expected < joined(pieces).len() + last.bytes().len(),
            joined(pieces).len() + last.bytes().len() <= u64::MAX,
        ensures
            self.unpacked(packed, expected) == Err::<Seq<u8>, Error>(
                Error::Corrupt("token longer than remaining output"),
            ),
    {
        let all = joined(pieces);
        lemma_pieces_read(pieces, last.token() + tail, Seq::empty(), expected);
        assert(Seq::<u8>::empty() + all =~= all);
        reveal(untokened);
        let s = last.token() + tail;
        match last {
            Piece::Literal { bytes } => {
                gamma_roundtrip(bytes.len(), bytes_bits(bytes) + tail);
                assert(s.skip(1) =~= gamma_bits(bytes.len()) + (bytes_bits(bytes) + tail));
            },
            Piece::Run { byte, n } => {
                let body = bits_of(byte as nat, 8) + tail;
                gamma_roundtrip((n - 2) as nat, body);
                assert(s.skip(1) =~= gamma_bits((n - 2) as nat) + body);
            },
        }
    }
}

proof fn lemma_pieces_read(pieces: Seq<Piece>, tail: Seq<bool>, out: Seq<u8>, expected: nat)
    requires
        forall|i: int| 0 <= i < pieces.len() ==> (#[trigger] pieces[i]).ok(),
        out.len() + joined(pieces).len() <= expected <= u64::MAX,
    ensures
        untokened(written(pieces) + tail, out, expected) == untokened(
            tail,
            out + joined(pieces),
            expected,
        ),
    decreases pieces.len(),
{
    if pieces.len() == 0 {
        assert(written(pieces) + tail =~= tail);
        assert(out + joined(pieces) =~= out);
    } else {
        let p = pieces[0];
        let more = pieces.skip(1);
        let rest = written(more) + tail;
        assert(written(pieces) + tail =~= p.token() + rest);
        match p {
            Piece::Literal { bytes } => lemma_literal(bytes, rest, out, expected),
            Piece::Run { byte, n } => {
                lemma_run_token(byte, n, rest, out, expected);
                assert(p.bytes() =~= repeated(byte, n));
            },
        }
        assert forall|i: int| 0 <= i < more.len() implies (#[trigger] more[i]).ok() by {
            assert(more[i] == pieces[i + 1]);
        }
        lemma_pieces_read(more, tail, out + p.bytes(), expected);
        assert(out + p.bytes() + joined(more) =~= out + joined(pieces));
    }
}

impl Codec for Rle {
    open spec fn number(&self) -> u8 {
        2
    }

    open spec fn label(&self) -> Seq<char> {
        "rle"@
    }

    open spec fn about(&self) -> Seq<char> {
        "Bit-level run-length encoding with Elias gamma lengths"@
    }

    open spec fn accepts(&self, input: Seq<u8>) -> bool {
        true
    }

    open spec fn packs(&self, input: Seq<u8>, packed: Seq<u8>) -> bool {
        bytes_bits(packed) == padded(tokens_from(input, 0, 0))
    }

    open spec fn unpacked(&self, packed: Seq<u8>, expected_len: nat) -> Result<Seq<u8>, Error> {
        untokened(bytes_bits(packed), Seq::empty(), expected_len)
    }

    fn id(&self) -> (r: u8) {
        2
    }

    fn name(&self) -> (r: &'static str) {
        "rle"
    }

    fn description(&self) -> (r: &'static str) {
        "Bit-level run-length encoding with Elias gamma lengths"
    }

    fn can_compress(&self, _input: &[u8]) -> (r: bool) {
        true
    }

    fn compress(&self, input: &[u8]) -> (r: Vec<u8>) {
        let mut w = BitWriter::with_capacity(input.len() / 2);
        let mut start: usize = 0;
        let mut i: usize = 0;
        let ghost target = tokens_from(input@, 0, 0);
        assert(w@ + target =~= target);
        while i < input.len()
            invariant
                w.wf(),
                start <= i <= input@.len(),
                input@.len() == input.len(),
                w@ + tokens_from(input@, start as int, i as int) == target,
            decreases input@.len() - i,
        {
            proof {
                lemma_run_at(input@, i as int, input@.len());
            }
            let run: usize = run_length(input, i, input.len());
            if run >= MIN_RUN {
                let ghost was = w@;
                let ghost here = tokens_from(input@, start as int, i as int);
                write_literal(&mut w, input, start, i);
                w.write_bit(true);
                w.write_gamma((run - 2) as u64);
                w.write_byte(input[i]);
                i = i + run;
                start = i;
                assert(w@ + tokens_from(input@, start as int, i as int) =~= was + here);
            } else {
                i = i + run;
            }
        }
        write_literal(&mut w, input, start, input.len());
        assert(w@ =~= target);
        let out = w.finish();
        proof {
            self.lossless(input@, out@);
        }
        out
    }

    fn decompress(&self, input: &[u8], expected_len: usize) -> (r: Result<Vec<u8>, Error>) {
        let mut out: Vec<u8> = Vec::new();
        let mut r = BitReader::new(input);
        let ghost target = untokened(r@, Seq::empty(), expected_len as nat);
        assert(out@ =~= Seq::<u8>::empty());
        while out.len() < expected_len
            invariant
                r.wf(),
                out@.len() <= expected_len,
                target == untokened(bytes_bits(input@), Seq::empty(), expected_len as nat),
                untokened(r@, out@, expected_len as nat) == target,
            decreases r@.len(),
        {
            proof {
                reveal(untokened);
            }
            let is_run: bool = match r.read_bit() {
                Err(e) => {
                    return Err(e);
                },
                Ok(b) => b,
            };
            let len: u64 = match r.read_gamma() {
                Err(e) => {
                    return Err(e);
                },
                Ok(n) => n,
            };
            let room: u64 = (expected_len - out.len()) as u64;
            if len > room || (is_run && room - len < 2) {
                return Err(Error::Corrupt("token longer than remaining output"));
            }
            if is_run {
                proof {
                    lemma_pow2_values();
                }
                let byte: u8 = match r.read_byte() {
                    Err(e) => {
                        return Err(e);
                    },
                    Ok(b) => b,
                };
                push_run(&mut out, byte, len as usize + 2);
            } else {
                match read_bytes(&mut r, &mut out, len as usize) {
                    Err(e) => {
                        return Err(e);
                    },
                    Ok(_) => {},
                }
            }
        }
        proof {
            reveal(untokened);
        }
        Ok(out)
    }
}

/// Read `n` bytes into `out`.
fn read_bytes(r: &mut BitReader, out: &mut Vec<u8>, n: usize) -> (done: Result<(), Error>)
    requires
        old(r).wf(),
    ensures
        final(r).wf(),
        final(r).source() == old(r).source(),
        match take_bytes(old(r)@, n as nat) {
            Err(e) => done == Err::<(), Error>(e),
            Ok((bytes, rest)) => done == Ok::<(), Error>(()) && final(r)@ == rest && final(out)@
                == old(out)@ + bytes && bytes.len() == n,
        },
{
    let ghost start = r@;
    let ghost base = out@;
    let mut i: usize = 0;
    assert(start.skip(0) =~= start);
    assert(base + first_bytes(start, 0) =~= base);
    while i < n
        invariant
            i <= n,
            r.wf(),
            r.source() == old(r).source(),
            start == old(r)@,
            r@ == start.skip(8 * i as int),
            8 * i <= start.len(),
            out@ == base + first_bytes(start, i as nat),
        decreases n - i,
    {
        let ghost before = r@;
        match r.read_byte() {
            Err(e) => {
                return Err(e);
            },
            Ok(b) => {
                out.push(b);
                proof {
                    assert(before.take(8) =~= start.subrange(8 * i as int, 8 * i as int + 8));
                    assert(out@ =~= base + first_bytes(start, (i + 1) as nat));
                    assert(start.skip(8 * i as int).skip(8) =~= start.skip(8 * (i + 1) as int));
                }
            },
        }
        i = i + 1;
    }
    Ok(())
}

/// Write the bytes from `start` to `end` as a literal token, if there are
/// any.
fn write_literal(w: &mut BitWriter, input: &[u8], start: usize, end: usize)
    requires
        old(w).wf(),
        start <= end <= input@.len(),
    ensures
        final(w).wf(),
        final(w)@ == old(w)@ + literal_bits(input@.subrange(start as int, end as int)),
{
    let ghost bytes = input@.subrange(start as int, end as int);
    if start == end {
        assert(w@ + literal_bits(bytes) =~= w@);
        return ;
    }
    let ghost base = w@;
    w.write_bit(false);
    w.write_gamma((end - start) as u64);
    let ghost head = w@;
    let mut i: usize = start;
    assert(head + bytes_bits(bytes.take(0)) =~= head);
    while i < end
        invariant
            w.wf(),
            start <= i <= end <= input@.len(),
            bytes == input@.subrange(start as int, end as int),
            w@ == head + bytes_bits(bytes.take(i - start)),
        decreases end - i,
    {
        proof {
            assert(bytes.take(i + 1 - start) =~= bytes.take(i - start).push(input@[i as int]));
            lemma_bytes_bits_push(bytes.take(i - start), input@[i as int]);
        }
        w.write_byte(input[i]);
        i = i + 1;
        assert(w@ =~= head + bytes_bits(bytes.take(i - start)));
    }
    assert(bytes.take(end - start) =~= bytes);
    assert(w@ =~= base + literal_bits(bytes));
}

} // verus!
