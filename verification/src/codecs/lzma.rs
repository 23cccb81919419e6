//! LZMA as a codec.
use crate::codec::Codec;
use crate::error::Error;
use crate::lzma::compress;
use crate::lzma::decompress;
use crate::lzma::encode::compressed_is_lossless;
use crate::lzma::encode::default_options;
use crate::lzma::encode::is_compressed;
use crate::lzma::format::decoded;
use crate::lzma::Options;
use crate::lzma::encode::header_of;
use crate::lzma::encode::is_parse;
use crate::lzma::encode::is_stream_of;
use crate::lzma::encode::dict_size_for;
use crate::lzma::encode::Parse;
use crate::lzma::format::Op;
use crate::lzma::choices::dictionaries_fit;
use crate::nums::le_bytes;
use crate::nums::le_value;
use crate::nums::lemma_le_bytes;
use crate::nums::lemma_pow2_values;
use vstd::prelude::*;

verus! {

/// LZMA in the `.lzma` format, 16 MB dictionary, optimal parse.
#[derive(Debug, Clone, Copy, Default)]
pub struct Lzma;

impl Lzma {
    /// A stream gives back the data it was made of.
    pub proof fn lossless(&self, input: Seq<u8>, packed: Seq<u8>)
        requires
            self.packs(input, packed),
            input.len() < u32::MAX,
            packed.len() <= usize::MAX,
        ensures
            self.unpacked(packed, input.len()) == Ok::<Seq<u8>, Error>(input),
    {
        compressed_is_lossless(input, default_options(), packed, input.len());
    }

    /// The stream starts with the properties byte of three literal context
    /// bits and two position bits, the size of the dictionary, at most 16 MB,
    /// and the size of the data; whatever the input, optimal parsing chose what
    /// follows.
    pub proof fn streams_are_of_the_default(&self, input: Seq<u8>, packed: Seq<u8>)
        requires
            self.packs(input, packed),
            input.len() < u32::MAX,
        ensures
            packed.len() >= 13,
            packed[0] == 0x5D,
            le_value(packed.subrange(1, 5)) <= 16 * 1024 * 1024,
            le_value(packed.subrange(5, 13)) == input.len(),
            is_compressed(input, default_options(), packed),
            default_options().parse == Parse::Optimal,
    {
        let opts = default_options();
        let ops = choose|ops: Seq<Op>| #[trigger]
            is_parse(input, opts, ops) && is_stream_of(input, opts, ops, packed);
        let size = dict_size_for(opts.dict_size, input.len());
        lemma_pow2_values();
        vstd::arithmetic::power2::lemma2_to64_rest();
        dictionaries_fit(opts.dict_size, input.len());
        lemma_le_bytes(size, 4);
        lemma_le_bytes(input.len(), 8);
        let header = header_of(input, opts);
        assert(packed.take(13)[0] == header[0]);
        assert(packed.subrange(1, 5) =~= packed.take(13).subrange(1, 5));
        assert(header.subrange(1, 5) =~= le_bytes(size, 4));
        assert(packed.subrange(5, 13) =~= packed.take(13).subrange(5, 13));
        assert(header.subrange(5, 13) =~= le_bytes(input.len(), 8));
    }

    /// A stream that decodes to another number of bytes than expected is
    /// refused.
    pub proof fn other_lengths_are_refused(
        &self,
        input: Seq<u8>,
        packed: Seq<u8>,
        expected_len: nat,
    )
        requires
            self.packs(input, packed),
            input.len() < u32::MAX,
            packed.len() <= usize::MAX,
            expected_len != input.len(),
        ensures
            self.unpacked(packed, expected_len) is Err,
    {
        self.streams_are_of_the_default(input, packed);
        if input.len() <= expected_len {
            compressed_is_lossless(input, default_options(), packed, expected_len);
        }
    }
}

impl Codec for Lzma {
    open spec fn number(&self) -> u8 {
        9
    }

    open spec fn label(&self) -> Seq<char> {
        "lzma"@
    }

    open spec fn about(&self) -> Seq<char> {
        "LZMA (LZ77 + range coder + context models), the 7-Zip method, 16 MB window"@
    }

    open spec fn accepts(&self, input: Seq<u8>) -> bool {
        input.len() < u32::MAX
    }

    open spec fn packs(&self, input: Seq<u8>, packed: Seq<u8>) -> bool {
        is_compressed(input, default_options(), packed)
    }

    open spec fn unpacked(&self, packed: Seq<u8>, expected_len: nat) -> Result<Seq<u8>, Error> {
        match decoded(packed, expected_len) {
            Err(e) => Err(e),
            Ok(data) => if data.len() != expected_len {
                Err(
                    Error::LengthMismatch {
                        expected: expected_len as usize,
                        actual: data.len() as usize,
                    },
                )
            } else {
                Ok(data)
            },
        }
    }

    fn id(&self) -> (r: u8) {
        9
    }

    fn name(&self) -> (r: &'static str) {
        "lzma"
    }

    fn description(&self) -> (r: &'static str) {
        "LZMA (LZ77 + range coder + context models), the 7-Zip method, 16 MB window"
    }

    fn can_compress(&self, input: &[u8]) -> (r: bool) {
        (input.len() as u64) < u32::MAX as u64
    }

    fn compress(&self, input: &[u8]) -> (r: Vec<u8>) {
        let out = compress(input, Options::default());
        proof {
            assert(out@.len() == out.len());
            self.lossless(input@, out@);
        }
        out
    }

    fn decompress(&self, input: &[u8], expected_len: usize) -> (r: Result<Vec<u8>, Error>) {
        let out = match decompress(input, expected_len) {
            Err(e) => {
                return Err(e);
            },
            Ok(out) => out,
        };
        if out.len() != expected_len {
            return Err(Error::LengthMismatch { expected: expected_len, actual: out.len() });
        }
        Ok(out)
    }
}

} // verus!
