use cmpr_codecs::Error;

#[test]
fn messages() {
    assert_eq!(Error::UnexpectedEof.message(), "unexpected end of input");
    assert_eq!(
        Error::Corrupt("bad table").message(),
        "corrupt data: bad table"
    );
    assert_eq!(
        Error::LengthMismatch {
            expected: 10,
            actual: 1234567890,
        }
        .message(),
        "expected 10 bytes after decoding, got 1234567890"
    );
    assert_eq!(
        Error::ChecksumMismatch {
            expected: 0xCBF4_3926,
            actual: 0x0A,
        }
        .message(),
        "checksum mismatch: expected cbf43926, got 0000000a"
    );
    assert_eq!(
        Error::BadMagic.message(),
        "not a cmpr file (bad magic bytes)"
    );
    assert_eq!(
        Error::UnsupportedVersion(7).message(),
        "unsupported frame version 7"
    );
    assert_eq!(Error::UnknownCodec(255).message(), "unknown codec id 255");
}
