use cmpr_codecs::codecs::Bwt;
use cmpr_codecs::codecs::Rle;
use cmpr_codecs::codecs::Store;
use cmpr_codecs::crc32::crc32;
use cmpr_codecs::frame::decode;
use cmpr_codecs::frame::encode;
use cmpr_codecs::frame::read_header;
use cmpr_codecs::frame::Header;
use cmpr_codecs::frame::HEADER_LEN;
use cmpr_codecs::frame::MAGIC;
use cmpr_codecs::frame::VERSION;
use cmpr_codecs::Error;

#[test]
fn frame_roundtrip() {
    let frame = encode(&Store, b"framed");
    assert_eq!(decode(&frame).unwrap(), b"framed");
}

#[test]
fn rejects_bad_magic() {
    let mut frame = encode(&Store, b"x");
    frame[0] = b'Z';
    assert_eq!(decode(&frame), Err(Error::BadMagic));
}

#[test]
fn rejects_truncated() {
    assert_eq!(decode(b"CMPR"), Err(Error::UnexpectedEof));
}

#[test]
fn frame_detects_corruption() {
    let mut frame = encode(&Store, b"some data to damage");
    let last = frame.len() - 1;
    frame[last] ^= 0x01;
    assert!(matches!(
        decode(&frame),
        Err(Error::ChecksumMismatch { .. })
    ));
}

#[test]
fn rejects_unknown_codec() {
    let mut frame = encode(&Store, b"x");
    frame[5] = 255;
    assert_eq!(decode(&frame), Err(Error::UnknownCodec(255)));
}

#[test]
fn frame_layout() {
    let frame = encode(&Rle, b"aaaaaaaa");
    assert_eq!(&MAGIC, b"CMPR");
    assert_eq!(frame[..4], MAGIC);
    assert_eq!(frame[4], VERSION);
    assert_eq!(frame[5], 2);
    assert_eq!(frame[6..14], 8u64.to_le_bytes());
    assert_eq!(frame[14..18], crc32(b"aaaaaaaa").to_le_bytes());
    assert_eq!(HEADER_LEN, 18);
    assert_eq!(
        read_header(&frame),
        Ok(Header {
            codec_id: 2,
            original_len: 8,
            crc32: crc32(b"aaaaaaaa"),
        })
    );
}

#[test]
fn header_errors_by_name() {
    assert_eq!(read_header(b""), Err(Error::UnexpectedEof));
    assert_eq!(read_header(b"CM"), Err(Error::UnexpectedEof));
    assert_eq!(read_header(b"XX"), Err(Error::UnexpectedEof));
    assert_eq!(read_header(b"XXXX"), Err(Error::BadMagic));
    let mut frame = encode(&Store, b"abc");
    frame[4] = 9;
    assert_eq!(read_header(&frame), Err(Error::UnsupportedVersion(9)));
}

#[test]
fn wrong_length_is_detected() {
    let mut frame = encode(&Store, b"abc");
    frame[6] = 4;
    assert_eq!(
        decode(&frame),
        Err(Error::LengthMismatch {
            expected: 4,
            actual: 3,
        })
    );
}

#[test]
fn codec_id_in_the_frame_picks_the_decoder() {
    let frame = encode(&Bwt, b"banana");
    assert_eq!(frame[5], 10);
    assert_eq!(decode(&frame).unwrap(), b"banana");
    let mut unknown = frame.clone();
    unknown[5] = 11;
    assert_eq!(decode(&unknown), Err(Error::UnknownCodec(11)));
}
