//! The Burrows-Wheeler pipeline as a codec.
use crate::bwt::compress;
use crate::bwt::decompress;
use crate::bwt::meaning::blocks_are_whole;
use crate::bwt::pipeline::blocks_bytes;
use crate::bwt::pipeline::pipeline_is_lossless;
use crate::bwt::pipeline::unblocked;
use crate::codec::Codec;
use crate::error::Error;
use vstd::prelude::*;

verus! {

/// Burrows-Wheeler transform + move-to-front + run-length + rANS, the
/// pipeline bzip2 is built on (not the `.bz2` file format itself; see
/// [`crate::bwt`]), 900K blocks.
#[derive(Debug, Clone, Copy, Default)]
pub struct Bwt;

impl Bwt {
    /// Blocks give back the data they were made of.
    pub proof fn lossless(&self, input: Seq<u8>, packed: Seq<u8>)
        requires
            self.packs(input, packed),
        ensures
            self.unpacked(packed, input.len()) == Ok::<Seq<u8>, Error>(input),
    {
        pipeline_is_lossless(input);
    }

    /// A block of 900000 bytes is packed by itself, whatever follows it.
    pub proof fn blocks_are_packed_alone(
        &self,
        block: Seq<u8>,
        rest: Seq<u8>,
        a: Seq<u8>,
        b: Seq<u8>,
    )
        requires
            block.len() == 900_000,
            self.packs(block, a),
            self.packs(rest, b),
        ensures
            self.packs(block + rest, a + b),
    {
        let none = Seq::<u8>::empty();
        blocks_are_whole(block, rest);
        blocks_are_whole(block, none);
        assert(block + none =~= block);
        assert(a + none =~= a);
    }
}

impl Codec for Bwt {
    open spec fn number(&self) -> u8 {
        10
    }

    open spec fn label(&self) -> Seq<char> {
        "bwt"@
    }

    open spec fn about(&self) -> Seq<char> {
        "Burrows-Wheeler transform + move-to-front + run-length + rANS (bzip2-style), 900K blocks"@
    }

    open spec fn accepts(&self, input: Seq<u8>) -> bool {
        true
    }

    open spec fn packs(&self, input: Seq<u8>, packed: Seq<u8>) -> bool {
        packed == blocks_bytes(input)
    }

    open spec fn unpacked(&self, packed: Seq<u8>, expected_len: nat) -> Result<Seq<u8>, Error> {
        unblocked(packed, Seq::empty(), expected_len)
    }

    fn id(&self) -> (r: u8) {
        10
    }

    fn name(&self) -> (r: &'static str) {
        "bwt"
    }

    fn description(&self) -> (r: &'static str) {
        "Burrows-Wheeler transform + move-to-front + run-length + rANS (bzip2-style), 900K blocks"
    }

    fn can_compress(&self, _input: &[u8]) -> (r: bool) {
        true
    }

    fn compress(&self, input: &[u8]) -> (r: Vec<u8>) {
        compress(input)
    }

    fn decompress(&self, input: &[u8], expected_len: usize) -> (r: Result<Vec<u8>, Error>) {
        decompress(input, expected_len)
    }
}

} // verus!
