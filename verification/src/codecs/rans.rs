//! Order-0 rANS with a fresh frequency table per block.
//!
//! The same job as [`Huffman`](super::Huffman) (code each byte by how
//! common it is) but with fractional bits, like the range coders, while
//! decoding many times faster than them. See [`crate::ans`].
//!
//! Frequencies are static, so they have to be sent. Cutting the input into
//! blocks with their own tables lets the model follow data that changes,
//! which is most of what the adaptive [`Range0`](super::Range0) gains over
//! Huffman.
//!
//! Stream layout, repeated for each block of up to `BLOCK` input bytes:
//!
//! ```text
//! 256 x gamma(freq + 1)   frequency of each byte value, out of 4096 (bits, LSB-first)
//! gamma(len + 1)          byte length of the rANS data
//! (pad to a byte)
//! len bytes               rANS data
//! ```
//!
//! Empty input gives empty output.
use crate::ans;
use crate::ans::freqs_check;
use crate::ans::lemma_decoded_len;
use crate::ans::lemma_rans_len;
use crate::ans::rans_bytes;
use crate::ans::rans_decoded;
use crate::ans::rans_is_lossless;
use crate::ans::Freqs;
use crate::bits::aligned;
use crate::bits::bytes_bits;
use crate::bits::gamma_bits;
use crate::bits::lemma_before_bytes;
use crate::bits::gamma_roundtrip;
use crate::bits::lemma_packed_bytes;
use crate::bits::packed_bytes;
use crate::bits::take_gamma;
use crate::bits::zeros;
use crate::bits::BitReader;
use crate::bits::BitWriter;
use crate::codec::Codec;
use crate::counts::count_bytes;
use crate::error::Error;
use crate::freq_table::freq_bits;
use crate::freq_table::freqs_for;
use crate::freq_table::lemma_freqs_for;
use crate::freq_table::lemma_freqs_shrink;
use crate::freq_table::lemma_take_freqs;
use crate::freq_table::read_freqs;
use crate::freq_table::take_freqs;
use crate::freq_table::write_freqs;
use crate::ans::accepted_streams_are_coded;
use crate::ans::covers;
use crate::ans::sum_to;
use vstd::prelude::*;
use vstd::slice::slice_subrange;

verus! {

/// Input bytes per block.
const BLOCK: usize = 32768;

/// The bits before a block's rANS data.
pub open spec fn head_bits(block: Seq<u8>) -> Seq<bool> {
    freq_bits(freqs_for(block), 256) + gamma_bits(rans_bytes(block, freqs_for(block)).len() + 1)
}

/// A block with its table.
pub open spec fn block_bytes(block: Seq<u8>) -> Seq<u8> {
    packed_bytes(head_bits(block)) + rans_bytes(block, freqs_for(block))
}

/// All blocks of `input`.
pub open spec fn blocks_bytes(input: Seq<u8>) -> Seq<u8>
    decreases input.len(),
{
    if input.len() == 0 {
        Seq::empty()
    } else {
        let n: int = if input.len() < 32768 {
            input.len() as int
        } else {
            32768
        };
        block_bytes(input.take(n)) + blocks_bytes(input.skip(n))
    }
}

/// The block of `n` bytes that `s` starts with, and the bytes it takes up.
pub open spec fn take_block(s: Seq<u8>, n: nat) -> Result<(Seq<u8>, nat), Error> {
    match take_freqs(bytes_bits(s), 256, "rANS frequency too large") {
        Err(e) => Err(e),
        Ok((freq, b)) => match take_gamma(b) {
            Err(e) => Err(e),
            Ok((g, b)) => {
                let len = (g - 1) as nat;
                let at = (s.len() - aligned(b).len() / 8) as nat;
                if len > usize::MAX {
                    Err(Error::Corrupt("rANS block too large"))
                } else if s.len() - at < len {
                    Err(Error::UnexpectedEof)
                } else {
                    match freqs_check(freq) {
                        Err(e) => Err(e),
                        Ok(_) => match rans_decoded(
                            s.subrange(at as int, (at + len) as int),
                            freq,
                            n,
                        ) {
                            Err(e) => Err(e),
                            Ok(bytes) => Ok((bytes, at + len)),
                        },
                    }
                }
            },
        },
    }
}

/// A block gives as many bytes as were asked for, and takes up some.
pub proof fn lemma_take_block(s: Seq<u8>, n: nat)
    ensures
        take_block(s, n) matches Ok((bytes, len)) ==> bytes.len() == n && 0 < len <= s.len(),
{
    let bits = bytes_bits(s);
    assert(bits.len() == 8 * s.len());
    lemma_freqs_shrink(bits, 256, "rANS frequency too large");
    match take_freqs(bits, 256, "rANS frequency too large") {
        Ok((freq, b)) => match take_gamma(b) {
            Ok((g, b)) => {
                let len = (g - 1) as nat;
                let at = (s.len() - aligned(b).len() / 8) as nat;
                assert(b.len() < bits.len());
                if s.len() - at >= len {
                    let data = s.subrange(at as int, (at + len) as int);
                    lemma_decoded_len(data, freq, ans::lanes_of(data), 16, 0, n as int);
                }
            },
            Err(_) => {},
        },
        Err(_) => {},
    }
}

/// What blocks decode to, behind `out`.
pub open spec fn unblocked(s: Seq<u8>, out: Seq<u8>, expected: nat) -> Result<Seq<u8>, Error>
    decreases expected - out.len(),
{
    if out.len() >= expected {
        if s.len() > 0 {
            Err(Error::Corrupt("data after the last rANS block"))
        } else {
            Ok(out)
        }
    } else {
        let n: nat = if expected - out.len() < 32768 {
            (expected - out.len()) as nat
        } else {
            32768
        };
        proof {
            lemma_take_block(s, n);
        }
        match take_block(s, n) {
            Err(e) => Err(e),
            Ok((bytes, len)) => unblocked(s.skip(len as int), out + bytes, expected),
        }
    }
}

/// A block is read again, whatever follows it.
proof fn lemma_block(block: Seq<u8>, tail: Seq<u8>)
    requires
        0 < block.len() <= 32768,
    ensures
        take_block(block_bytes(block) + tail, block.len()) == Ok::<(Seq<u8>, nat), Error>(
            (block, block_bytes(block).len()),
        ),
{
    let why = "rANS frequency too large";
    let freq = freqs_for(block);
    let data = rans_bytes(block, freq);
    let head = head_bits(block);
    let s = block_bytes(block) + tail;
    lemma_freqs_for(block);
    lemma_rans_len(block, freq);
    lemma_before_bytes(head, data + tail);
    assert(s =~= packed_bytes(head) + (data + tail));
    let rest = zeros(((8 - head.len() % 8) % 8) as nat) + bytes_bits(data + tail);
    let g = gamma_bits(data.len() + 1);
    assert(head + rest =~= freq_bits(freq, 256) + (g + rest));
    lemma_take_freqs(freq, 256, why, g + rest);
    assert(freq.take(256) =~= freq);
    gamma_roundtrip(data.len() + 1, rest);
    let at = packed_bytes(head).len() as int;
    assert(s.len() == at + (data + tail).len());
    assert(s.subrange(at, at + data.len()) =~= data);
    rans_is_lossless(block, freq);
}

/// Blocks are read to the end, and nothing may follow them.
proof fn lemma_blocks(input: Seq<u8>, pos: int, tail: Seq<u8>)
    requires
        0 <= pos <= input.len(),
    ensures
        unblocked(blocks_bytes(input.skip(pos)) + tail, input.take(pos), input.len())
            == if tail.len() > 0 {
            Err::<Seq<u8>, Error>(Error::Corrupt("data after the last rANS block"))
        } else {
            Ok(input)
        },
    decreases input.len() - pos,
{
    let left = input.skip(pos);
    if left.len() == 0 {
        assert(input.take(pos) =~= input);
    } else {
        let n: int = if left.len() < 32768 {
            left.len() as int
        } else {
            32768
        };
        let block = left.take(n);
        let more = blocks_bytes(left.skip(n)) + tail;
        lemma_block(block, more);
        let s = blocks_bytes(left) + tail;
        assert(s =~= block_bytes(block) + more);
        assert(s.skip(block_bytes(block).len() as int) =~= more);
        assert(left.skip(n) =~= input.skip(pos + n));
        assert(input.take(pos) + block =~= input.take(pos + n));
        lemma_blocks(input, pos + n, tail);
    }
}

/// A block with any table and any data behind it: the frequencies must add
/// up to 4096, and the data must be what its bytes are coded as with them.
/// Any encoder's choice of table is read.
pub proof fn blocks_are_checked(
    freq: Seq<u32>,
    data: Seq<u8>,
    tail: Seq<u8>,
    n: nat,
    block: Seq<u8>,
)
    requires
        freq.len() == 256,
        data.len() < usize::MAX,
    ensures
        ({
            let head = packed_bytes(freq_bits(freq, 256) + gamma_bits(data.len() + 1));
            let r = take_block(head + data + tail, n);
            let sum = sum_to(freq, 256);
            &&& sum > 4096 ==> r == Err::<(Seq<u8>, nat), Error>(
                Error::Corrupt("rANS frequencies exceed the total"),
            )
            &&& sum < 4096 ==> r == Err::<(Seq<u8>, nat), Error>(
                Error::Corrupt("rANS frequencies do not add up"),
            )
            &&& sum == 4096 && block.len() == n ==> (r == Ok::<(Seq<u8>, nat), Error>(
                (block, head.len() + data.len()),
            ) <==> covers(freq, block) && data == rans_bytes(block, freq))
        }),
{
    let why = "rANS frequency too large";
    let g = gamma_bits(data.len() + 1);
    let head = freq_bits(freq, 256) + g;
    let s = packed_bytes(head) + data + tail;
    lemma_before_bytes(head, data + tail);
    assert(s =~= packed_bytes(head) + (data + tail));
    let rest = zeros(((8 - head.len() % 8) % 8) as nat) + bytes_bits(data + tail);
    assert(head + rest =~= freq_bits(freq, 256) + (g + rest));
    lemma_take_freqs(freq, 256, why, g + rest);
    assert(freq.take(256) =~= freq);
    gamma_roundtrip(data.len() + 1, rest);
    let at = packed_bytes(head).len() as int;
    assert(s.len() == at + (data + tail).len());
    assert(s.subrange(at, at + data.len()) =~= data);
    if sum_to(freq, 256) == 4096 && block.len() == n {
        if rans_decoded(data, freq, n) == Ok::<Seq<u8>, Error>(block) {
            accepted_streams_are_coded(data, freq, block);
        }
        if covers(freq, block) && data == rans_bytes(block, freq) {
            rans_is_lossless(block, freq);
        }
    }
}

/// Data is cut into blocks of 32768 bytes, each with a table of its own.
pub proof fn blocks_are_whole(block: Seq<u8>, rest: Seq<u8>)
    requires
        0 < block.len() <= 32768,
        rest.len() > 0 ==> block.len() == 32768,
    ensures
        blocks_bytes(block + rest) == block_bytes(block) + blocks_bytes(rest),
        blocks_bytes(Seq::empty()) == Seq::<u8>::empty(),
{
    let all = block + rest;
    let n = block.len() as int;
    assert(all.take(n) =~= block);
    assert(all.skip(n) =~= rest);
}

#[derive(Debug, Clone, Copy, Default)]
pub struct Rans;

impl Rans {
    /// Blocks give back the data they were made of.
    pub proof fn lossless(&self, input: Seq<u8>, packed: Seq<u8>)
        requires
            self.packs(input, packed),
        ensures
            self.unpacked(packed, input.len()) == Ok::<Seq<u8>, Error>(input),
    {
        assert(input.skip(0) =~= input);
        assert(input.take(0) =~= Seq::<u8>::empty());
        assert(blocks_bytes(input) + Seq::<u8>::empty() =~= blocks_bytes(input));
        lemma_blocks(input, 0, Seq::empty());
    }

    /// A block of 32768 bytes is packed by itself, whatever follows it.
    pub proof fn blocks_are_packed_alone(
        &self,
        block: Seq<u8>,
        rest: Seq<u8>,
        a: Seq<u8>,
        b: Seq<u8>,
    )
        requires
            block.len() == 32768,
            self.packs(block, a),
            self.packs(rest, b),
        ensures
            self.packs(block + rest, a + b),
    {
        let none = Seq::<u8>::empty();
        blocks_are_whole(block, rest);
        blocks_are_whole(block, none);
        assert(block + none =~= block);
        assert(block_bytes(block) + none =~= block_bytes(block));
    }

    /// Blocks with anything behind them are refused.
    pub proof fn appended_bytes_are_refused(
        &self,
        input: Seq<u8>,
        packed: Seq<u8>,
        tail: Seq<u8>,
    )
        requires
            self.packs(input, packed),
            tail.len() > 0,
        ensures
            self.unpacked(packed + tail, input.len()) == Err::<Seq<u8>, Error>(
                Error::Corrupt("data after the last rANS block"),
            ),
    {
        assert(input.skip(0) =~= input);
        assert(input.take(0) =~= Seq::<u8>::empty());
        lemma_blocks(input, 0, tail);
    }
}

impl Codec for Rans {
    open spec fn number(&self) -> u8 {
        8
    }

    open spec fn label(&self) -> Seq<char> {
        "rans"@
    }

    open spec fn about(&self) -> Seq<char> {
        "Order-0 rANS (asymmetric numeral systems), 4 interleaved states, 32K blocks"@
    }

    open spec fn accepts(&self, input: Seq<u8>) -> bool {
        true
    }

    open spec fn packs(&self, input: Seq<u8>, packed: Seq<u8>) -> bool {
        packed == blocks_bytes(input)
    }

    open spec fn unpacked(&self, packed: Seq<u8>, expected_len: nat) -> Result<Seq<u8>, Error> {
        unblocked(packed, Seq::empty(), expected_len)
    }

    fn id(&self) -> (r: u8) {
        8
    }

    fn name(&self) -> (r: &'static str) {
        "rans"
    }

    fn description(&self) -> (r: &'static str) {
        "Order-0 rANS (asymmetric numeral systems), 4 interleaved states, 32K blocks"
    }

    fn can_compress(&self, _input: &[u8]) -> (r: bool) {
        true
    }

    fn compress(&self, input: &[u8]) -> (r: Vec<u8>) {
        let mut out: Vec<u8> = Vec::with_capacity(input.len() / 2);
        let mut pos: usize = 0;
        let ghost target = blocks_bytes(input@);
        assert(input@.skip(0) =~= input@);
        assert(out@ + target =~= target);
        while pos < input.len()
            invariant
                pos <= input@.len(),
                input@.len() == input.len(),
                out@ + blocks_bytes(input@.skip(pos as int)) == target,
            decreases input@.len() - pos,
        {
            let n: usize = if input.len() - pos < BLOCK {
                input.len() - pos
            } else {
                BLOCK
            };
            let ghost was = out@;
            let ghost left = input@.skip(pos as int);
            let block = slice_subrange(input, pos, pos + n);
            assert(block@ =~= left.take(n as int));
            assert(left.skip(n as int) =~= input@.skip(pos + n));
            encode_block(block, &mut out);
            assert(out@ + blocks_bytes(left.skip(n as int)) =~= was + blocks_bytes(left));
            pos = pos + n;
        }
        assert(out@ =~= target);
        proof {
            self.lossless(input@, out@);
        }
        out
    }

    fn decompress(&self, input: &[u8], expected_len: usize) -> (r: Result<Vec<u8>, Error>) {
        let mut out: Vec<u8> = Vec::new();
        let mut pos: usize = 0;
        let ghost target = unblocked(input@, Seq::empty(), expected_len as nat);
        assert(input@.skip(0) =~= input@);
        assert(out@ =~= Seq::<u8>::empty());
        while out.len() < expected_len
            invariant
                pos <= input@.len(),
                input@.len() == input.len(),
                out@.len() <= expected_len,
                target == unblocked(input@, Seq::empty(), expected_len as nat),
                unblocked(input@.skip(pos as int), out@, expected_len as nat) == target,
            decreases expected_len - out@.len(),
        {
            let n: usize = if expected_len - out.len() < BLOCK {
                expected_len - out.len()
            } else {
                BLOCK
            };
            let rest = slice_subrange(input, pos, input.len());
            proof {
                assert(rest@ =~= input@.skip(pos as int));
                lemma_take_block(rest@, n as nat);
            }
            let used: usize = match decode_block(rest, n, &mut out) {
                Err(e) => {
                    return Err(e);
                },
                Ok(used) => used,
            };
            assert(rest@.skip(used as int) =~= input@.skip(pos + used));
            pos = pos + used;
        }
        if pos != input.len() {
            return Err(Error::Corrupt("data after the last rANS block"));
        }
        Ok(out)
    }
}

/// Append a block with its table.
fn encode_block(block: &[u8], out: &mut Vec<u8>)
    requires
        0 < block@.len() <= 32768,
    ensures
        final(out)@ == old(out)@ + block_bytes(block@),
{
    let counts = count_bytes(block);
    proof {
        lemma_freqs_for(block@);
        lemma_rans_len(block@, freqs_for(block@));
    }
    let freqs = match Freqs::normalize(&counts) {
        Some(f) => f,
        // A block that is not empty has frequencies.
        None => {
            return ;
        },
    };
    let data = ans::encode(block, &freqs);
    let mut w = BitWriter::new();
    write_freqs(&mut w, &freqs);
    w.write_gamma(data.len() as u64 + 1);
    assert(w@ =~= head_bits(block@));
    let head = w.finish();
    proof {
        lemma_packed_bytes(head@, head_bits(block@));
    }
    out.extend_from_slice(&head);
    out.extend_from_slice(&data);
    assert(out@ =~= old(out)@ + block_bytes(block@));
}

/// Decode a block of `n` bytes. Returns bytes of `input` consumed.
fn decode_block(input: &[u8], n: usize, out: &mut Vec<u8>) -> (r: Result<usize, Error>)
    ensures
        match take_block(input@, n as nat) {
            Err(e) => r matches Err(f) && f == e,
            Ok((bytes, len)) => r matches Ok(used) && used == len && final(out)@ == old(out)@
                + bytes,
        },
{
    let mut r = BitReader::new(input);
    let freq = match read_freqs(&mut r, "rANS frequency too large") {
        Err(e) => {
            return Err(e);
        },
        Ok(f) => f,
    };
    let len: u64 = match r.read_gamma() {
        Err(e) => {
            return Err(e);
        },
        Ok(g) => g - 1,
    };
    if len > usize::MAX as u64 {
        return Err(Error::Corrupt("rANS block too large"));
    }
    let len: usize = len as usize;
    let ghost b = r@;
    r.align_to_byte();
    let pos: usize = r.byte_position();
    assert(pos == input@.len() - aligned(b).len() / 8);
    if input.len() - pos < len {
        return Err(Error::UnexpectedEof);
    }
    let data = slice_subrange(input, pos, pos + len);
    let freqs = match Freqs::from_freqs(freq) {
        Err(e) => {
            return Err(e);
        },
        Ok(f) => f,
    };
    match ans::decode(data, &freqs, n, out) {
        Err(e) => Err(e),
        Ok(_) => Ok(pos + len),
    }
}

} // verus!
