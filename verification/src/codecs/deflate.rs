//! Deflate as a codec.
use crate::bits::bytes_bits;
use crate::bits::padded;
use crate::codec::Codec;
use crate::deflate::blocks::deflate_is_lossless;
use crate::deflate::blocks::deflated_bits;
use crate::deflate::deflate;
use crate::deflate::format::inflated;
use crate::deflate::inflate;
use crate::deflate::layout::any_stream_is_inflated;
use crate::deflate::layout::blocks_hold;
use crate::deflate::layout::written;
use crate::deflate::layout::Block;
use crate::deflate::DEFAULT_LEVEL;
use crate::error::Error;
use vstd::prelude::*;

verus! {

/// Raw Deflate stream (RFC 1951) at level 6, byte-compatible with zlib.
#[derive(Debug, Clone, Copy, Default)]
pub struct Deflate;

impl Deflate {
    /// A stream gives back the data it was made of.
    pub proof fn lossless(&self, input: Seq<u8>, packed: Seq<u8>)
        requires
            self.packs(input, packed),
        ensures
            self.unpacked(packed, input.len()) == Ok::<Seq<u8>, Error>(input),
    {
        deflate_is_lossless(input, 6, packed, Seq::empty(), input.len());
        assert(packed + Seq::<u8>::empty() =~= packed);
    }

    /// A stream of any encoder, whatever blocks and codes it chose, gives its
    /// data, but not with anything behind it.
    pub proof fn any_stream_is_read(
        &self,
        data: Seq<u8>,
        blocks: Seq<Block>,
        stream: Seq<u8>,
        tail: Seq<u8>,
        expected_len: nat,
    )
        requires
            blocks.len() > 0,
            blocks_hold(data, 0, blocks),
            bytes_bits(stream) == padded(written(Seq::empty(), blocks)),
            data.len() <= expected_len,
        ensures
            self.unpacked(stream + tail, expected_len) == if tail.len() == 0 {
                Ok::<Seq<u8>, Error>(data)
            } else {
                Err(Error::Corrupt("data after end of deflate stream"))
            },
    {
        any_stream_is_inflated(data, blocks, stream, tail, expected_len);
    }

    /// The stream is the one that [`deflate`] makes at level 6, whatever the
    /// input.
    pub proof fn streams_are_of_level_six(&self, input: Seq<u8>, packed: Seq<u8>)
        requires
            self.packs(input, packed),
        ensures
            bytes_bits(packed) == padded(deflated_bits(input, 6)),
    {
    }
}

impl Codec for Deflate {
    open spec fn number(&self) -> u8 {
        5
    }

    open spec fn label(&self) -> Seq<char> {
        "deflate"@
    }

    open spec fn about(&self) -> Seq<char> {
        "Deflate (LZ77 + Huffman), the format of zip/gzip/png, level 6"@
    }

    open spec fn accepts(&self, input: Seq<u8>) -> bool {
        input.len() < u32::MAX
    }

    open spec fn packs(&self, input: Seq<u8>, packed: Seq<u8>) -> bool {
        bytes_bits(packed) == padded(deflated_bits(input, 6))
    }

    open spec fn unpacked(&self, packed: Seq<u8>, expected_len: nat) -> Result<Seq<u8>, Error> {
        match inflated(packed, expected_len) {
            Err(e) => Err(e),
            Ok((data, consumed)) => if consumed != packed.len() {
                Err(Error::Corrupt("data after end of deflate stream"))
            } else {
                Ok(data)
            },
        }
    }

    fn id(&self) -> (r: u8) {
        5
    }

    fn name(&self) -> (r: &'static str) {
        "deflate"
    }

    fn description(&self) -> (r: &'static str) {
        "Deflate (LZ77 + Huffman), the format of zip/gzip/png, level 6"
    }

    fn can_compress(&self, input: &[u8]) -> (r: bool) {
        (input.len() as u64) < u32::MAX as u64
    }

    fn compress(&self, input: &[u8]) -> (r: Vec<u8>) {
        let out = deflate(input, DEFAULT_LEVEL);
        proof {
            self.lossless(input@, out@);
        }
        out
    }

    fn decompress(&self, input: &[u8], expected_len: usize) -> (r: Result<Vec<u8>, Error>) {
        let r = match inflate(input, expected_len) {
            Err(e) => {
                return Err(e);
            },
            Ok(r) => r,
        };
        if r.consumed != input.len() {
            return Err(Error::Corrupt("data after end of deflate stream"));
        }
        Ok(r.data)
    }
}

} // verus!
