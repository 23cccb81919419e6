//! Our Deflate and gzip must be compatible with the real thing: `flate2`
//! must decode what we write, and we must decode what it writes.

use cmpr_codecs::deflate::deflate;
use cmpr_codecs::deflate::inflate;
use cmpr_codecs::gzip;
use cmpr_codecs::testkit::pseudo_random;
use cmpr_codecs::testkit::standard_inputs;
use flate2::read::DeflateDecoder;
use flate2::read::GzDecoder;
use flate2::write::DeflateEncoder;
use flate2::write::GzEncoder;
use flate2::Compression;
use std::io::Read;
use std::io::Write;

fn reference_inflate(data: &[u8]) -> Vec<u8> {
    let mut out = Vec::new();
    DeflateDecoder::new(data)
        .read_to_end(&mut out)
        .expect("zlib rejected our stream");
    out
}

fn reference_deflate(data: &[u8], level: u32) -> Vec<u8> {
    let mut enc = DeflateEncoder::new(Vec::new(), Compression::new(level));
    enc.write_all(data).unwrap();
    enc.finish().unwrap()
}

fn check_both_ways(name: &str, data: &[u8], level: u8) {
    let ours = deflate(data, level);
    assert!(
        reference_inflate(&ours) == data,
        "[{name}] zlib decoding our level {level} output"
    );
    let theirs = reference_deflate(data, u32::from(level));
    let decoded = inflate(&theirs, data.len()).unwrap();
    assert!(
        decoded.data == data,
        "[{name}] us decoding zlib level {level} output"
    );
    assert_eq!(decoded.consumed, theirs.len());
}

#[test]
fn standard_inputs_all_levels() {
    for (name, data) in standard_inputs() {
        for level in 0..=9 {
            check_both_ways(name, &data, level);
        }
    }
}

#[test]
fn zlib_interop_large_varied_input() {
    // Big enough for many blocks and long distances.
    let mut data = Vec::new();
    for i in 0..40_000u32 {
        data.extend_from_slice(format!("line {} value {}\n", i, i * 7919 % 1000).as_bytes());
    }
    check_both_ways("large", &data, 6);
    check_both_ways("large", &data, 9);
}

#[test]
fn gzip_interop() {
    let data = b"gzip interop test. gzip interop test. gzip interop test.".repeat(100);
    let mut out = Vec::new();
    GzDecoder::new(&gzip::compress(&data, 6)[..])
        .read_to_end(&mut out)
        .unwrap();
    assert_eq!(out, data);

    // Reference file with a file name and comment in the header.
    let mut enc = flate2::GzBuilder::new()
        .filename("example.txt")
        .comment("made by flate2")
        .write(Vec::new(), Compression::best());
    enc.write_all(&data).unwrap();
    let file = enc.finish().unwrap();
    assert_eq!(gzip::decompress(&file, usize::MAX).unwrap(), data);

    let mut enc = GzEncoder::new(Vec::new(), Compression::fast());
    enc.write_all(b"").unwrap();
    assert_eq!(
        gzip::decompress(&enc.finish().unwrap(), usize::MAX).unwrap(),
        b""
    );
}

#[test]
fn varied_data_both_ways_with_zlib() {
    for seed in 0..40u64 {
        let noise = pseudo_random(1500, seed);
        let data: Vec<u8> = match seed % 3 {
            0 => noise,
            1 => noise.iter().map(|b| b % 4).collect(),
            _ => noise[..1 + seed as usize].repeat(80),
        };
        check_both_ways("varied", &data, (seed % 10) as u8);
    }
}
