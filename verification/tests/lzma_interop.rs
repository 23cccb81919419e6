//! Our LZMA must be compatible with the real thing: `liblzma` (the library
//! inside xz) must decode what we write, and we must decode what it writes,
//! including other lc/lp/pb settings and its end-marker streams.

use cmpr_codecs::lzma::compress;
use cmpr_codecs::lzma::decompress;
use cmpr_codecs::lzma::Options;
use cmpr_codecs::lzma::Parse;
use cmpr_codecs::testkit::pseudo_random;
use cmpr_codecs::testkit::standard_inputs;
use liblzma::read::XzDecoder;
use liblzma::stream::LzmaOptions;
use liblzma::stream::Stream;
use liblzma::write::XzEncoder;
use std::io::Read;
use std::io::Write;

fn reference_decode(data: &[u8]) -> Vec<u8> {
    let stream = Stream::new_lzma_decoder(u64::MAX).unwrap();
    let mut out = Vec::new();
    XzDecoder::new_stream(data, stream)
        .read_to_end(&mut out)
        .expect("liblzma rejected our stream");
    out
}

/// liblzma's `.lzma` encoder: size unknown in the header, end marker at
/// the end.
fn reference_encode(data: &[u8], opts: &LzmaOptions) -> Vec<u8> {
    let stream = Stream::new_lzma_encoder(opts).unwrap();
    let mut enc = XzEncoder::new_stream(Vec::new(), stream);
    enc.write_all(data).unwrap();
    enc.finish().unwrap()
}

fn check_both_ways(name: &str, data: &[u8]) {
    for parse in [Parse::Optimal, Parse::Fast] {
        let ours = compress(
            data,
            Options {
                parse,
                ..Options::default()
            },
        );
        assert!(
            reference_decode(&ours) == data,
            "[{name}] liblzma decoding ours ({parse:?})"
        );
    }
    let theirs = reference_encode(data, &LzmaOptions::new_preset(6).unwrap());
    let decoded = decompress(&theirs, usize::MAX).unwrap();
    assert!(decoded == data, "[{name}] us decoding liblzma");
}

#[test]
fn standard_inputs_both_ways() {
    for (name, data) in standard_inputs() {
        check_both_ways(name, &data);
    }
}

#[test]
fn lzma_interop_large_varied_input() {
    let mut data = Vec::new();
    for i in 0..60_000u32 {
        data.extend_from_slice(format!("row {} value {}\n", i, i * 7919 % 1000).as_bytes());
    }
    check_both_ways("large", &data);
}

#[test]
fn other_literal_and_position_settings() {
    let data = b"LZMA props test \x00\x01\x02\x03 with some binary-ish data. ".repeat(300);
    // liblzma only encodes lc + lp <= 4.
    for (lc, lp, pb) in [(0, 0, 0), (4, 0, 0), (0, 4, 4), (1, 2, 3), (2, 2, 1)] {
        let mut opts = LzmaOptions::new_preset(6).unwrap();
        opts.literal_context_bits(lc)
            .literal_position_bits(lp)
            .position_bits(pb);
        let theirs = reference_encode(&data, &opts);
        assert_eq!(
            decompress(&theirs, usize::MAX).unwrap(),
            data,
            "lc={lc} lp={lp} pb={pb}"
        );
    }
}

#[test]
fn output_limit_is_enforced() {
    let theirs = reference_encode(&[0u8; 100_000], &LzmaOptions::new_preset(6).unwrap());
    assert!(decompress(&theirs, 99_999).is_err());
    let ours = compress(&[0u8; 100_000], Options::default());
    assert!(decompress(&ours, 99_999).is_err());
}

#[test]
fn varied_data_both_ways_with_liblzma() {
    for seed in 0..20u64 {
        let noise = pseudo_random(1500, seed);
        let data: Vec<u8> = match seed % 3 {
            0 => noise,
            1 => noise.iter().map(|b| b % 4).collect(),
            _ => noise[..1 + seed as usize].repeat(80),
        };
        check_both_ways("varied", &data);
    }
}

#[test]
fn small_dictionaries_are_kept_to() {
    // The second half repeats the first from far outside the dictionary,
    // with nearer repeats in between.
    let mut data = pseudo_random(20_000, 11);
    data.extend(b"a nearer repeat, ".repeat(200));
    data.extend(pseudo_random(20_000, 11));
    for parse in [Parse::Optimal, Parse::Fast] {
        let ours = compress(
            &data,
            Options {
                dict_size: 4096,
                parse,
                ..Options::default()
            },
        );
        assert_eq!(ours[1..5], 4096u32.to_le_bytes());
        // The far repeat is out of reach, so both halves cost their bytes.
        assert!(ours.len() > 40_000, "{parse:?}: {} bytes", ours.len());
        assert!(reference_decode(&ours) == data, "{parse:?}");
        assert!(decompress(&ours, data.len()).unwrap() == data, "{parse:?}");
    }
}
