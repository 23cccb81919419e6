use cmpr_codecs::bits::BitWriter;
use cmpr_codecs::codecs::Bwt;
use cmpr_codecs::codecs::Deflate;
use cmpr_codecs::codecs::Huffman;
use cmpr_codecs::codecs::Lzma;
use cmpr_codecs::codecs::Lzss;
use cmpr_codecs::codecs::PackBits;
use cmpr_codecs::codecs::Range0;
use cmpr_codecs::codecs::Range1;
use cmpr_codecs::codecs::Rans;
use cmpr_codecs::codecs::Rle;
use cmpr_codecs::codecs::Store;
use cmpr_codecs::Codec;
use cmpr_codecs::Error;

/// Input bytes per rANS block.
const BLOCK: usize = 32 * 1024;

fn entropy_bits_per_byte(data: &[u8]) -> f64 {
    let mut counts = [0u64; 256];
    for &b in data {
        counts[b as usize] += 1;
    }
    let n = data.len() as f64;
    counts
        .iter()
        .filter(|&&c| c > 0)
        .map(|&c| {
            let p = c as f64 / n;
            -p * p.log2()
        })
        .sum()
}

fn order1_entropy_bits_per_byte(data: &[u8]) -> f64 {
    let mut counts = vec![[0u64; 256]; 256];
    let mut prev = 0usize;
    for &b in data {
        counts[prev][usize::from(b)] += 1;
        prev = usize::from(b);
    }
    let bits: f64 = counts
        .iter()
        .map(|row| {
            let n: u64 = row.iter().sum();
            row.iter()
                .filter(|&&c| c > 0)
                .map(|&c| c as f64 * (n as f64 / c as f64).log2())
                .sum::<f64>()
        })
        .sum();
    bits / data.len() as f64
}

#[test]
fn close_to_entropy_on_text() {
    let text = b"it was the best of times, it was the worst of times. ".repeat(200);
    let packed = Huffman.compress(&text);
    let ideal_bits = entropy_bits_per_byte(&text) * text.len() as f64;
    let actual_bits = (packed.len() - 128) as f64 * 8.0;
    // Huffman loses at most 1 bit per byte versus entropy; on real text
    // it is usually within a few percent.
    assert!(
        actual_bits < ideal_bits * 1.05,
        "{actual_bits} vs {ideal_bits}"
    );
}

#[test]
fn single_symbol_costs_one_bit_each() {
    let packed = Huffman.compress(&[b'z'; 800]);
    assert_eq!(packed.len(), 128 + 100);
}

#[test]
fn known_encoding() {
    // The worked example from Apple's Technical Note TN1023.
    let input = [
        0xAA, 0xAA, 0xAA, 0x80, 0x00, 0x2A, 0xAA, 0xAA, 0xAA, 0xAA, 0x80, 0x00, 0x2A, 0x22, 0xAA,
        0xAA, 0xAA, 0xAA, 0xAA, 0xAA, 0xAA, 0xAA, 0xAA, 0xAA,
    ];
    let expected = [
        0xFE, 0xAA, 0x02, 0x80, 0x00, 0x2A, 0xFD, 0xAA, 0x03, 0x80, 0x00, 0x2A, 0x22, 0xF7, 0xAA,
    ];
    assert_eq!(PackBits.compress(&input), expected);
    assert_eq!(PackBits.decompress(&expected, input.len()).unwrap(), input);
}

#[test]
fn worst_case_expansion_is_bounded() {
    let data: Vec<u8> = (0..=255).cycle().take(128 * 100).collect();
    assert_eq!(PackBits.compress(&data).len(), data.len() + 100);
}

#[test]
fn long_run() {
    let packed = PackBits.compress(&[7; 1000]);
    // 7 full runs of 128 + one run of 104, 2 bytes each.
    assert_eq!(packed.len(), 16);
}

#[test]
fn packbits_rejects_bomb() {
    // A run of 128 when only 10 bytes are expected.
    assert!(PackBits.decompress(&[0x81, 0], 10).is_err());
}

fn text() -> Vec<u8> {
    let mut t = Vec::new();
    for i in 0..400 {
        t.extend_from_slice(b"the quick brown fox jumps over the lazy dog; ");
        t.extend_from_slice(i.to_string().as_bytes());
        t.extend_from_slice(b" quiet queens quarrel quietly. ");
    }
    t
}

#[test]
fn order0_is_close_to_entropy_on_uniform_text() {
    // A fixed code suits text whose statistics never change, so here
    // Huffman is hard to beat: the adaptive estimate keeps jittering
    // around the true probabilities and pays a few percent for it.
    let t = text();
    let packed = Range0.compress(&t).len() as f64;
    let ideal = entropy_bits_per_byte(&t) * t.len() as f64 / 8.0;
    assert!(packed < ideal * 1.08, "{packed} vs {ideal}");
}

#[test]
fn order0_beats_huffman_when_the_data_changes() {
    // Text followed by a table of numbers. Huffman has to use one code
    // for both halves; the adaptive model re-learns in the middle.
    let mut data = text();
    for i in 0..20_000u32 {
        data.extend_from_slice(format!("{},", i * 7919 % 10_007).as_bytes());
    }
    let packed = Range0.compress(&data).len();
    let huffman = Huffman.compress(&data).len();
    assert!(packed * 10 < huffman * 9, "{packed} vs huffman {huffman}");
}

#[test]
fn order1_breaks_the_order0_limit() {
    let t = text();
    let o0 = entropy_bits_per_byte(&t) * t.len() as f64 / 8.0;
    let o1 = order1_entropy_bits_per_byte(&t) * t.len() as f64 / 8.0;
    let packed = Range1.compress(&t).len() as f64;
    assert!(packed < o0 * 0.7, "{packed} vs order-0 {o0}");
    // On an input this small, learning 256 separate models from scratch
    // costs a lot over the order-1 ideal, which assumes they are known.
    assert!(packed < o1 * 1.4, "{packed} vs order-1 {o1}");
}

#[test]
fn constant_input_is_nearly_free() {
    let packed = Range0.compress(&[7u8; 100_000]);
    // 8 bits per byte at the probability floor (31/2048) costs about
    // 0.18 bits per byte.
    assert!(packed.len() < 2_500, "{}", packed.len());
}

#[test]
fn beats_huffman_on_skewed_data() {
    // 90% one byte. Huffman can't spend less than 1 bit on it, rANS
    // spends about 0.15: 0.75 bits per byte in all, against Huffman's
    // 1.3.
    let data: Vec<u8> = (0..200_000u32)
        .map(|i| {
            if i % 10 == 0 {
                (i / 10 % 7) as u8
            } else {
                b'.'
            }
        })
        .collect();
    let rans = Rans.compress(&data).len();
    let huffman = Huffman.compress(&data).len();
    assert!(rans * 3 < huffman * 2, "{rans} vs huffman {huffman}");
}

#[test]
fn rans_multi_block_roundtrip() {
    let mut data = vec![b'a'; BLOCK];
    data.extend((0..=255u8).cycle().take(BLOCK + 17));
    let packed = Rans.compress(&data);
    assert_eq!(Rans.decompress(&packed, data.len()).unwrap(), data);
    assert!(Rans.decompress(&packed, data.len() - 1).is_err());
}

#[test]
fn million_zeros_is_tiny() {
    let packed = Rle.compress(&vec![0; 1_000_000]);
    // 1 flag + 39 gamma bits + 8 byte bits = 48 bits.
    assert_eq!(packed.len(), 6);
}

#[test]
fn random_data_barely_grows() {
    let data = noise(10_000);
    let packed = Rle.compress(&data);
    assert!(packed.len() <= data.len() + 8, "{} bytes", packed.len());
}

#[test]
fn rle_rejects_bomb() {
    // Run token claiming a huge length when 10 bytes are expected.
    let mut w = BitWriter::new();
    w.write_bit(true);
    w.write_gamma(1_000_000);
    w.write_byte(0);
    assert!(Rle.decompress(&w.finish(), 10).is_err());
}

/// Simple xorshift noise with no runs worth encoding.
fn noise(len: usize) -> Vec<u8> {
    let mut s = 0x9E37_79B9_7F4A_7C15u64;
    (0..len)
        .map(|_| {
            s ^= s << 13;
            s ^= s >> 7;
            s ^= s << 17;
            (s >> 24) as u8
        })
        .collect()
}

#[test]
fn store_checks_the_length() {
    assert_eq!(Store.compress(b"abc"), b"abc");
    assert_eq!(
        Store.decompress(b"abc", 4),
        Err(Error::LengthMismatch {
            expected: 4,
            actual: 3,
        })
    );
}

#[test]
fn packbits_errors_by_name() {
    assert_eq!(
        PackBits.decompress(&[128], 10),
        Err(Error::Corrupt("packbits header 128 is unused"))
    );
    assert_eq!(PackBits.decompress(&[2, 1, 1], 10), Err(Error::UnexpectedEof));
    assert_eq!(PackBits.decompress(&[0xFE], 10), Err(Error::UnexpectedEof));
    assert_eq!(
        PackBits.decompress(&[1, 5, 6], 1),
        Err(Error::Corrupt("decoded data longer than recorded size"))
    );
    // Shorter than recorded is not this codec's business.
    assert_eq!(PackBits.decompress(&[0, 5], 9).unwrap(), [5]);
}

#[test]
fn rle_tokens() {
    // literal "ab", then a run of 4 "c".
    let mut w = BitWriter::new();
    w.write_bit(false);
    w.write_gamma(2);
    w.write_byte(b'a');
    w.write_byte(b'b');
    w.write_bit(true);
    w.write_gamma(2);
    w.write_byte(b'c');
    let stream = w.finish();
    assert_eq!(Rle.compress(b"abcccc"), stream);
    assert_eq!(Rle.decompress(&stream, 6).unwrap(), b"abcccc");
    assert_eq!(
        Rle.decompress(&stream, 5),
        Err(Error::Corrupt("token longer than remaining output"))
    );
    assert_eq!(Rle.decompress(&stream[..2], 6), Err(Error::UnexpectedEof));
    // Three of a kind stay a literal.
    let mut w = BitWriter::new();
    w.write_bit(false);
    w.write_gamma(3);
    for _ in 0..3 {
        w.write_byte(b'x');
    }
    assert_eq!(Rle.compress(b"xxx"), w.finish());
}

#[test]
fn huffman_table_errors() {
    assert_eq!(
        Huffman.decompress(&[0; 128], 1),
        Err(Error::Corrupt("huffman table is empty"))
    );
    assert_eq!(Huffman.decompress(&[0; 127], 1), Err(Error::UnexpectedEof));
    assert_eq!(
        Huffman.decompress(&[0x11; 128], 1),
        Err(Error::Corrupt("huffman code lengths over-subscribed"))
    );
    assert_eq!(Huffman.decompress(&[1, 2, 3], 0).unwrap(), b"");
    assert!(Huffman.compress(b"").is_empty());
}

#[test]
fn lzss_fields() {
    let mut w = BitWriter::new();
    w.write_bit(false);
    w.write_byte(b'a');
    w.write_bit(true);
    w.write_bits(6 - 3, 8);
    w.write_bits(0, 15);
    let stream = w.finish();
    assert_eq!(Lzss.compress(b"aaaaaaa"), stream);
    assert_eq!(Lzss.decompress(&stream, 7).unwrap(), b"aaaaaaa");
    assert_eq!(
        Lzss.decompress(&stream, 6),
        Err(Error::Corrupt("match runs past the end"))
    );
    let mut w = BitWriter::new();
    w.write_bit(true);
    w.write_bits(0, 8);
    w.write_bits(0, 15);
    assert_eq!(
        Lzss.decompress(&w.finish(), 6),
        Err(Error::Corrupt("match distance before start of data"))
    );
    assert_eq!(Lzss.decompress(&[], 6), Err(Error::UnexpectedEof));
}

#[test]
fn streams_with_a_tail_are_refused() {
    for codec in [&Deflate as &dyn Codec, &Lzma, &Rans, &Range0, &Range1, &Bwt] {
        let data = b"a message with nothing behind it".repeat(3);
        let mut packed = codec.compress(&data);
        assert_eq!(codec.decompress(&packed, data.len()).unwrap(), data);
        packed.push(0);
        assert!(
            codec.decompress(&packed, data.len()).is_err(),
            "{}",
            codec.name()
        );
    }
    assert_eq!(
        Range0.decompress(&[0], 0),
        Err(Error::Corrupt("data for an empty input"))
    );
    assert_eq!(
        Rans.decompress(&[0], 0),
        Err(Error::Corrupt("data after the last rANS block"))
    );
    let mut packed = Deflate.compress(b"x");
    packed.push(0);
    assert_eq!(
        Deflate.decompress(&packed, 1),
        Err(Error::Corrupt("data after end of deflate stream"))
    );
}

#[test]
fn lzma_codec_checks_the_length() {
    let packed = Lzma.compress(b"seven!!");
    assert_eq!(Lzma.decompress(&packed, 7).unwrap(), b"seven!!");
    assert_eq!(
        Lzma.decompress(&packed, 8),
        Err(Error::LengthMismatch {
            expected: 8,
            actual: 7,
        })
    );
}

#[test]
fn bwt_codec_roundtrips() {
    let data = b"she sells sea shells by the sea shore ".repeat(30);
    let packed = Bwt.compress(&data);
    assert_eq!(Bwt.decompress(&packed, data.len()).unwrap(), data);
    assert!(packed.len() < data.len() / 3);
    assert_eq!((Bwt.id(), Bwt.name()), (10, "bwt"));
}

#[test]
fn counts_of_bytes_and_pairs() {
    let bytes = cmpr_codecs::counts::count_bytes(b"abac");
    assert_eq!((bytes[97], bytes[98], bytes[99]), (2, 1, 1));
    assert_eq!(bytes.iter().sum::<u64>(), 4);
    let pairs = cmpr_codecs::counts::count_pairs(b"abab");
    assert_eq!(pairs.len(), 65536);
    assert_eq!(pairs[97], 1);
    assert_eq!(pairs[256 * 97 + 98], 2);
    assert_eq!(pairs[256 * 98 + 97], 1);
    assert_eq!(pairs.iter().sum::<u64>(), 4);
}
