use cmpr_codecs::crc32::crc32;
use cmpr_codecs::deflate::deflate;
use cmpr_codecs::gzip::compress;
use cmpr_codecs::gzip::decompress;
use cmpr_codecs::Error;

#[test]
fn gzip_roundtrip() {
    let data = b"hello gzip, hello gzip, hello gzip".repeat(10);
    assert_eq!(decompress(&compress(&data, 6), usize::MAX).unwrap(), data);
}

#[test]
fn multiple_members_concatenate() {
    let mut file = compress(b"first ", 6);
    file.extend(compress(b"second", 1));
    assert_eq!(decompress(&file, usize::MAX).unwrap(), b"first second");
}

#[test]
fn gzip_detects_corruption() {
    let mut file = compress(b"some text to protect", 6);
    let n = file.len();
    file[n - 5] ^= 1; // inside the CRC
    assert!(decompress(&file, usize::MAX).is_err());
}

#[test]
fn gzip_layout() {
    for (level, hint) in [(0, 4), (1, 4), (2, 0), (6, 0), (9, 2)] {
        let data = b"layout layout layout";
        let file = compress(data, level);
        assert_eq!(
            file[..10],
            [0x1F, 0x8B, 8, 0, 0, 0, 0, 0, hint, 255],
            "level {level}"
        );
        let n = file.len();
        assert_eq!(file[10..n - 8], deflate(data, level));
        assert_eq!(file[n - 8..n - 4], crc32(data).to_le_bytes());
        assert_eq!(file[n - 4..], 20u32.to_le_bytes());
    }
}

#[test]
fn gzip_header_errors_by_name() {
    let file = compress(b"x", 6);
    assert_eq!(decompress(&[], 10), Err(Error::UnexpectedEof));
    assert_eq!(decompress(&file[..9], 10), Err(Error::UnexpectedEof));
    let mut bad = file.clone();
    bad[1] = 0;
    assert_eq!(decompress(&bad, 10), Err(Error::Corrupt("not a gzip file")));
    let mut bad = file.clone();
    bad[2] = 7;
    assert_eq!(
        decompress(&bad, 10),
        Err(Error::Corrupt("gzip compression method is not deflate"))
    );
    let mut bad = file.clone();
    bad[3] = 0x20;
    assert_eq!(
        decompress(&bad, 10),
        Err(Error::Corrupt("reserved gzip flags set"))
    );
    let n = file.len();
    let mut bad = file.clone();
    bad[n - 1] = 1;
    assert_eq!(
        decompress(&bad, 10),
        Err(Error::Corrupt("gzip size field does not match"))
    );
    let mut bad = file.clone();
    bad[n - 8] ^= 1;
    assert_eq!(
        decompress(&bad, 10),
        Err(Error::ChecksumMismatch {
            expected: crc32(b"x") ^ 1,
            actual: crc32(b"x"),
        })
    );
    assert_eq!(decompress(&file[..n - 1], 10), Err(Error::UnexpectedEof));
}

#[test]
fn gzip_optional_fields_are_skipped() {
    // All optional fields: extra (3 bytes), name, comment, header CRC.
    let plain = compress(b"fields", 6);
    let mut file = plain[..10].to_vec();
    file[3] = 2 | 4 | 8 | 16;
    file.extend([3, 0, b'a', b'b', b'c']);
    file.extend(b"name\0");
    file.extend(b"comment\0");
    file.extend([0, 0]);
    let header = file.len();
    file.extend(&plain[10..]);
    assert_eq!(decompress(&file, 6).unwrap(), b"fields");
    for n in 10..header {
        assert_eq!(decompress(&file[..n], 6), Err(Error::UnexpectedEof), "{n}");
    }
}

#[test]
fn gzip_limit_holds_over_all_members() {
    let mut file = compress(b"12345", 6);
    file.extend(compress(b"67890", 6));
    assert_eq!(decompress(&file, 10).unwrap(), b"1234567890");
    assert!(decompress(&file, 9).is_err());
}

#[test]
fn gzip_notices_a_changed_byte() {
    let data = b"some text to protect";
    let mut file = compress(data, 0);
    // Ten bytes of header, five of a stored block's, then the data.
    file[15 + 4] ^= 1;
    let mut changed = data.to_vec();
    changed[4] ^= 1;
    assert_eq!(
        decompress(&file, usize::MAX),
        Err(Error::ChecksumMismatch {
            expected: crc32(data),
            actual: crc32(&changed),
        })
    );
}
