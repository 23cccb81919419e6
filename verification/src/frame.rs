//! Minimal single-file frame: header + one codec's output.
//!
//! Layout, all integers little-endian:
//!
//! | offset | size | field                          |
//! |--------|------|--------------------------------|
//! | 0      | 4    | magic `b"CMPR"`                |
//! | 4      | 1    | frame version (currently 0)    |
//! | 5      | 1    | codec id                       |
//! | 6      | 8    | original length in bytes       |
//! | 14     | 4    | CRC-32 of the original data    |
//! | 18     | ..   | codec payload                  |
use crate::codec::accepts_by;
use crate::codec::codec_by_id;
use crate::codec::codecs_are_lossless;
use crate::codec::ids_decide;
use crate::codec::packs_by;
use crate::codec::unpacked_by;
use crate::codec::Codec;
use crate::crc32::changed_byte_is_seen;
use crate::crc32::crc32;
use crate::crc32::crc_of;
use crate::error::same_bytes;
use crate::error::Error;
use crate::nums::le_bytes;
use crate::nums::le_bytes_are_digits;
use crate::nums::le_value;
use crate::nums::lemma_le_bytes;
use crate::nums::lemma_le_len;
use crate::nums::lemma_le_value_bound;
use crate::nums::lemma_pow2_values;
use crate::nums::push_le;
use crate::nums::read_le;
use vstd::arithmetic::power2::pow2;
use vstd::prelude::*;
use vstd::slice::slice_subrange;

verus! {

/// The letters `CMPR`.
pub const MAGIC: [u8; 4] = [0x43, 0x4D, 0x50, 0x52];

pub const VERSION: u8 = 0;

pub const HEADER_LEN: usize = 18;

/// Parsed frame header.
#[derive(Debug, Clone, Copy, PartialEq, Eq)]
pub struct Header {
    pub codec_id: u8,
    pub original_len: u64,
    pub crc32: u32,
}

/// The header of a frame that holds `data`.
pub open spec fn header_bytes(codec_id: u8, data: Seq<u8>) -> Seq<u8> {
    seq![0x43u8, 0x4D, 0x50, 0x52, 0, codec_id] + le_bytes(data.len(), 8) + le_bytes(
        crc_of(data) as nat,
        4,
    )
}

/// Whether `frame` starts with the magic bytes.
pub open spec fn has_magic(frame: Seq<u8>) -> bool {
    &&& frame.len() >= 4
    &&& frame[0] == 0x43
    &&& frame[1] == 0x4D
    &&& frame[2] == 0x50
    &&& frame[3] == 0x52
}

/// The header that `frame` starts with.
pub open spec fn header_of(frame: Seq<u8>) -> Result<Header, Error> {
    if frame.len() >= 4 && !has_magic(frame) {
        Err(Error::BadMagic)
    } else if frame.len() < 18 {
        Err(Error::UnexpectedEof)
    } else if frame[4] != 0 {
        Err(Error::UnsupportedVersion(frame[4]))
    } else {
        Ok(
            Header {
                codec_id: frame[5],
                original_len: le_value(frame.subrange(6, 14)) as u64,
                crc32: le_value(frame.subrange(14, 18)) as u32,
            },
        )
    }
}

/// What a frame holds.
pub open spec fn unframed(frame: Seq<u8>) -> Result<Seq<u8>, Error> {
    match header_of(frame) {
        Err(e) => Err(e),
        Ok(h) => if h.codec_id >= 11 {
            Err(Error::UnknownCodec(h.codec_id))
        } else if h.original_len > usize::MAX {
            Err(Error::Corrupt("original length does not fit in memory"))
        } else {
            match unpacked_by(h.codec_id as int, frame.skip(18), h.original_len as nat) {
                Err(e) => Err(e),
                Ok(data) => if data.len() != h.original_len {
                    Err(
                        Error::LengthMismatch {
                            expected: h.original_len as usize,
                            actual: data.len() as usize,
                        },
                    )
                } else if crc_of(data) != h.crc32 {
                    Err(Error::ChecksumMismatch { expected: h.crc32, actual: crc_of(data) })
                } else {
                    Ok(data)
                },
            }
        },
    }
}

/// A header that was written is read again.
pub proof fn lemma_header(frame: Seq<u8>, codec_id: u8, data: Seq<u8>)
    requires
        frame.len() >= 18,
        frame.take(18) == header_bytes(codec_id, data),
        data.len() <= u64::MAX,
    ensures
        header_of(frame) == Ok::<Header, Error>(
            Header { codec_id, original_len: data.len() as u64, crc32: crc_of(data) },
        ),
{
    lemma_pow2_values();
    vstd::arithmetic::power2::lemma2_to64_rest();
    let h = header_bytes(codec_id, data);
    lemma_le_bytes(data.len(), 8);
    lemma_le_bytes(crc_of(data) as nat, 4);
    lemma_le_len(data.len(), 8);
    lemma_le_len(crc_of(data) as nat, 4);
    assert forall|i: int| 0 <= i < 6 implies frame[i] == h[i] by {
        assert(frame[i] == frame.take(18)[i]);
    }
    assert(frame.subrange(6, 14) =~= le_bytes(data.len(), 8)) by {
        assert(frame.subrange(6, 14) =~= frame.take(18).subrange(6, 14));
        assert(h.subrange(6, 14) =~= le_bytes(data.len(), 8));
    }
    assert(frame.subrange(14, 18) =~= le_bytes(crc_of(data) as nat, 4)) by {
        assert(frame.subrange(14, 18) =~= frame.take(18).subrange(14, 18));
        assert(h.subrange(14, 18) =~= le_bytes(crc_of(data) as nat, 4));
    }
}

/// The header, byte by byte: `CMPR`, version 0, the codec, eight bytes of the
/// length and four of the CRC, each lowest first.
pub proof fn headers_are_laid_out(codec_id: u8, data: Seq<u8>, i: nat)
    ensures
        ({
            let h = header_bytes(codec_id, data);
            &&& h.len() == 18
            &&& h[0] == 0x43 && h[1] == 0x4D && h[2] == 0x50 && h[3] == 0x52
            &&& h[4] == 0
            &&& h[5] == codec_id
            &&& i < 8 ==> h[6 + i as int] == data.len() / pow2(8 * i) % 256
            &&& i < 4 ==> h[14 + i as int] == crc_of(data) as nat / pow2(8 * i) % 256
        }),
{
    lemma_le_len(data.len(), 8);
    lemma_le_len(crc_of(data) as nat, 4);
    if i < 8 {
        le_bytes_are_digits(data.len(), 8, i);
    }
    if i < 4 {
        le_bytes_are_digits(crc_of(data) as nat, 4, i);
    }
}

/// What is wrong with a frame comes in this order: no magic bytes, too short,
/// another version, an unknown codec, a payload that does not decode, a wrong
/// length, a wrong checksum.
pub proof fn frames_are_checked(frame: Seq<u8>)
    ensures
        frame.len() >= 4 && !(frame[0] == 0x43 && frame[1] == 0x4D && frame[2] == 0x50 && frame[3]
            == 0x52) ==> unframed(frame) == Err::<Seq<u8>, Error>(Error::BadMagic),
        frame.len() < 4 ==> unframed(frame) == Err::<Seq<u8>, Error>(Error::UnexpectedEof),
        has_magic(frame) && frame.len() < 18 ==> unframed(frame) == Err::<Seq<u8>, Error>(
            Error::UnexpectedEof,
        ),
        has_magic(frame) && frame.len() >= 18 && frame[4] != 0 ==> unframed(frame) == Err::<
            Seq<u8>,
            Error,
        >(Error::UnsupportedVersion(frame[4])),
        has_magic(frame) && frame.len() >= 18 && frame[4] == 0 && frame[5] > 10 ==> unframed(frame)
            == Err::<Seq<u8>, Error>(Error::UnknownCodec(frame[5])),
        has_magic(frame) && frame.len() >= 18 && frame[4] == 0 && frame[5] <= 10 ==> {
            let len = le_value(frame.subrange(6, 14));
            let crc = le_value(frame.subrange(14, 18));
            len <= usize::MAX ==> match unpacked_by(frame[5] as int, frame.skip(18), len) {
                Err(e) => unframed(frame) == Err::<Seq<u8>, Error>(e),
                Ok(data) => {
                    &&& data.len() != len ==> unframed(frame) is Err
                    &&& data.len() == len && crc_of(data) != crc ==> (unframed(frame) matches Err(
                        Error::ChecksumMismatch { expected, actual },
                    ) && expected == crc && actual == crc_of(data))
                    &&& data.len() == len && crc_of(data) == crc ==> unframed(frame) == Ok::<
                        Seq<u8>,
                        Error,
                    >(data)
                },
            }
        },
{
    if has_magic(frame) && frame.len() >= 18 {
        lemma_pow2_values();
        vstd::arithmetic::power2::lemma2_to64_rest();
        lemma_le_value_bound(frame.subrange(6, 14));
        lemma_le_value_bound(frame.subrange(14, 18));
    }
}

/// A frame of any codec gives back the data it was made of.
pub proof fn frame_is_lossless(frame: Seq<u8>, codec_id: u8, data: Seq<u8>)
    requires
        codec_id < 11,
        18 <= frame.len() <= usize::MAX,
        data.len() <= usize::MAX,
        accepts_by(codec_id as int, data),
        frame.take(18) == header_bytes(codec_id, data),
        packs_by(codec_id as int, data, frame.skip(18)),
    ensures
        unframed(frame) == Ok::<Seq<u8>, Error>(data),
{
    lemma_header(frame, codec_id, data);
    codecs_are_lossless(codec_id as int, data, frame.skip(18));
}

/// A payload that decodes to the framed data but for one byte is refused.
pub proof fn damage_is_detected(frame: Seq<u8>, codec_id: u8, data: Seq<u8>, i: int, b: u8)
    requires
        codec_id < 11,
        frame.len() >= 18,
        data.len() <= usize::MAX,
        frame.take(18) == header_bytes(codec_id, data),
        0 <= i < data.len(),
        b != data[i],
        unpacked_by(codec_id as int, frame.skip(18), data.len()) == Ok::<Seq<u8>, Error>(
            data.update(i, b),
        ),
    ensures
        unframed(frame) == Err::<Seq<u8>, Error>(
            Error::ChecksumMismatch { expected: crc_of(data), actual: crc_of(data.update(i, b)) },
        ),
{
    lemma_header(frame, codec_id, data);
    changed_byte_is_seen(data, i, b);
}

/// Compress `data` with `codec` and wrap it in a frame.
pub fn encode(codec: &dyn Codec, data: &[u8]) -> (r: Vec<u8>)
    requires
        codec.accepts(data@),
    ensures
        r@.len() >= 18,
        r@.take(18) == header_bytes(codec.number(), data@),
        codec.packs(data@, r@.skip(18)),
        codec.unpacked(r@.skip(18), data@.len()) == Ok::<Seq<u8>, Error>(data@),
{
    let payload = codec.compress(data);
    let out = wrap(codec.id(), data, &payload);
    assert(out@.skip(18) =~= payload@);
    out
}

/// Put a header before a payload.
pub fn wrap(codec_id: u8, data: &[u8], payload: &[u8]) -> (r: Vec<u8>)
    ensures
        r@ == header_bytes(codec_id, data@) + payload@,
        header_bytes(codec_id, data@).len() == 18,
        r@.take(18) == header_bytes(codec_id, data@),
        r@.skip(18) == payload@,
{
    let mut out: Vec<u8> = Vec::with_capacity(HEADER_LEN);
    out.push(MAGIC[0]);
    out.push(MAGIC[1]);
    out.push(MAGIC[2]);
    out.push(MAGIC[3]);
    out.push(VERSION);
    out.push(codec_id);
    push_le(&mut out, data.len() as u64, 8);
    push_le(&mut out, crc32(data) as u64, 4);
    proof {
        assert(out@ =~= header_bytes(codec_id, data@));
        lemma_le_len(data@.len(), 8);
        lemma_le_len(crc_of(data@) as nat, 4);
    }
    out.extend_from_slice(payload);
    proof {
        assert(out@ =~= header_bytes(codec_id, data@) + payload@);
        assert(out@.take(18) =~= header_bytes(codec_id, data@));
        assert(out@.skip(18) =~= payload@);
    }
    out
}

fn starts_with_magic(frame: &[u8]) -> (r: bool)
    ensures
        r == has_magic(frame@),
{
    frame.len() >= 4 && frame[0] == MAGIC[0] && frame[1] == MAGIC[1] && frame[2] == MAGIC[2]
        && frame[3] == MAGIC[3]
}

/// Read and validate a frame header.
pub fn read_header(frame: &[u8]) -> (r: Result<Header, Error>)
    ensures
        match header_of(frame@) {
            Err(e) => r matches Err(f) && f == e,
            Ok(h) => r matches Ok(x) && x == h,
        },
{
    if frame.len() < HEADER_LEN {
        return Err(
            if frame.len() >= 4 && !starts_with_magic(frame) {
                Error::BadMagic
            } else {
                Error::UnexpectedEof
            },
        );
    }
    if !starts_with_magic(frame) {
        return Err(Error::BadMagic);
    }
    if frame[4] != VERSION {
        return Err(Error::UnsupportedVersion(frame[4]));
    }
    proof {
        lemma_pow2_values();
    }
    Ok(
        Header {
            codec_id: frame[5],
            original_len: read_le(frame, 6, 8),
            crc32: read_le(frame, 14, 4) as u32,
        },
    )
}

/// Decode a frame, verifying length and checksum.
pub fn decode(frame: &[u8]) -> (r: Result<Vec<u8>, Error>)
    ensures
        same_bytes(r, unframed(frame@)),
        r matches Ok(out) ==> (header_of(frame@) matches Ok(h) && out@.len() == h.original_len
            && crc_of(out@) == h.crc32),
{
    let header = match read_header(frame) {
        Err(e) => {
            return Err(e);
        },
        Ok(h) => h,
    };
    let codec = match codec_by_id(header.codec_id) {
        None => {
            return Err(Error::UnknownCodec(header.codec_id));
        },
        Some(c) => c,
    };
    if header.original_len > usize::MAX as u64 {
        return Err(Error::Corrupt("original length does not fit in memory"));
    }
    let expected: usize = header.original_len as usize;
    let payload = slice_subrange(frame, HEADER_LEN, frame.len());
    assert(payload@ =~= frame@.skip(18));
    proof {
        ids_decide(codec, header.codec_id as int);
    }
    let data = match codec.decompress(payload, expected) {
        Err(e) => {
            return Err(e);
        },
        Ok(d) => d,
    };
    if data.len() != expected {
        return Err(Error::LengthMismatch { expected, actual: data.len() });
    }
    let actual: u32 = crc32(&data);
    if actual != header.crc32 {
        return Err(Error::ChecksumMismatch { expected: header.crc32, actual });
    }
    Ok(data)
}

} // verus!
