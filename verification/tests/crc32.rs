use cmpr_codecs::crc32::crc32;
use cmpr_codecs::crc32::Crc32;

#[test]
fn known_vectors() {
    assert_eq!(crc32(b""), 0);
    // The standard CRC "check" value.
    assert_eq!(crc32(b"123456789"), 0xCBF4_3926);
    assert_eq!(
        crc32(b"The quick brown fox jumps over the lazy dog"),
        0x414F_A339
    );
}

#[test]
fn incremental_matches_one_shot() {
    let data = b"hello, incremental world";
    let mut c = Crc32::new();
    c.update(&data[..5]);
    c.update(&data[5..]);
    assert_eq!(c.finish(), crc32(data));
}

#[test]
fn every_changed_byte_changes_the_crc() {
    let data = b"a short message".to_vec();
    let before = crc32(&data);
    for i in 0..data.len() {
        for x in 1..=255u8 {
            let mut other = data.clone();
            other[i] ^= x;
            assert_ne!(crc32(&other), before);
        }
    }
}

#[test]
fn a_fresh_crc_is_that_of_nothing() {
    assert_eq!(Crc32::default().finish(), 0);
    assert_eq!(Crc32::new().finish(), crc32(&[]));
}
