//! No compression.
use crate::codec::Codec;
use crate::error::Error;
use vstd::prelude::*;

verus! {

/// No compression: output equals input.
///
/// Useful as a baseline, for already-compressed data, and as the simplest
/// possible example of a codec.
#[derive(Debug, Clone, Copy, Default)]
pub struct Store;

impl Store {
    /// Stored bytes are given back.
    pub proof fn lossless(&self, input: Seq<u8>, packed: Seq<u8>)
        requires
            self.packs(input, packed),
        ensures
            self.unpacked(packed, input.len()) == Ok::<Seq<u8>, Error>(input),
    {
    }

    /// The output is the input and nothing else is; what has another length
    /// than expected is refused.
    pub proof fn output_is_input(&self, input: Seq<u8>, packed: Seq<u8>, expected_len: nat)
        ensures
            self.packs(input, packed) <==> packed == input,
            self.unpacked(packed, expected_len) is Ok <==> packed.len() == expected_len,
            packed.len() == expected_len ==> self.unpacked(packed, expected_len)->Ok_0 == packed,
    {
    }
}

impl Codec for Store {
    open spec fn number(&self) -> u8 {
        0
    }

    open spec fn label(&self) -> Seq<char> {
        "store"@
    }

    open spec fn about(&self) -> Seq<char> {
        "No compression; copies data as-is (baseline)"@
    }

    open spec fn accepts(&self, input: Seq<u8>) -> bool {
        true
    }

    open spec fn packs(&self, input: Seq<u8>, packed: Seq<u8>) -> bool {
        packed == input
    }

    open spec fn unpacked(&self, packed: Seq<u8>, expected_len: nat) -> Result<Seq<u8>, Error> {
        if packed.len() != expected_len {
            Err(
                Error::LengthMismatch {
                    expected: expected_len as usize,
                    actual: packed.len() as usize,
                },
            )
        } else {
            Ok(packed)
        }
    }

    fn id(&self) -> (r: u8) {
        0
    }

    fn name(&self) -> (r: &'static str) {
        "store"
    }

    fn description(&self) -> (r: &'static str) {
        "No compression; copies data as-is (baseline)"
    }

    fn can_compress(&self, _input: &[u8]) -> (r: bool) {
        true
    }

    fn compress(&self, input: &[u8]) -> (r: Vec<u8>) {
        let mut out: Vec<u8> = Vec::with_capacity(input.len());
        out.extend_from_slice(input);
        assert(out@ =~= input@);
        out
    }

    fn decompress(&self, input: &[u8], expected_len: usize) -> (r: Result<Vec<u8>, Error>) {
        if input.len() != expected_len {
            return Err(Error::LengthMismatch { expected: expected_len, actual: input.len() });
        }
        let mut out: Vec<u8> = Vec::with_capacity(input.len());
        out.extend_from_slice(input);
        assert(out@ =~= input@);
        Ok(out)
    }
}

} // verus!
