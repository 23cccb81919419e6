use cmpr_codecs::bits::BitReader;
use cmpr_codecs::bits::BitWriter;
use cmpr_codecs::huffman::canonical_codes;
use cmpr_codecs::huffman::code_lengths;
use cmpr_codecs::huffman::Decoder;
use cmpr_codecs::huffman::Encoder;
use cmpr_codecs::testkit::pseudo_random;
use cmpr_codecs::Error;

fn kraft_sum(lengths: &[u8]) -> f64 {
    lengths
        .iter()
        .filter(|&&l| l > 0)
        .map(|&l| 0.5f64.powi(l.into()))
        .sum()
}

#[test]
fn textbook_example() {
    // a:5 b:2 c:1 d:1 -> a=1 bit, b=2 bits, c and d=3 bits.
    assert_eq!(code_lengths(&[5, 2, 1, 1], 15), [1, 2, 3, 3]);
}

#[test]
fn rfc1951_canonical_example() {
    // RFC 1951 section 3.2.2: lengths (3,3,3,3,3,2,4,4) for symbols A..H.
    let codes = canonical_codes(&[3, 3, 3, 3, 3, 2, 4, 4]);
    assert_eq!(
        codes,
        [0b010, 0b011, 0b100, 0b101, 0b110, 0b00, 0b1110, 0b1111]
    );
}

#[test]
fn length_limit_on_fibonacci_counts() {
    // Fibonacci counts make the deepest possible tree: 29 symbols would
    // need a 28-bit code without the limit.
    let mut counts = vec![1u64, 1];
    while counts.len() < 29 {
        let n = counts.len();
        counts.push(counts[n - 1] + counts[n - 2]);
    }
    let lengths = code_lengths(&counts, 15);
    assert!(lengths.iter().all(|&l| (1..=15).contains(&l)));
    assert!(
        (kraft_sum(&lengths) - 1.0).abs() < 1e-12,
        "code must be complete"
    );
}

#[test]
fn single_and_no_symbols() {
    assert_eq!(code_lengths(&[0, 0, 7, 0], 15), [0, 0, 1, 0]);
    assert_eq!(code_lengths(&[0, 0], 15), [0, 0]);
}

#[test]
fn decoder_rejects_oversubscribed() {
    assert!(Decoder::from_lengths(&[1, 1, 1]).is_err());
}

#[test]
fn lengths_are_valid_and_near_optimal_on_noise() {
    for seed in 0..60u64 {
        let n = 2 + (seed as usize * 37) % 290;
        let noise = pseudo_random(4 * n, seed);
        let counts: Vec<u64> = noise
            .chunks_exact(4)
            .map(|c| {
                if c[3] < 60 {
                    0
                } else {
                    u64::from(c[0]) * u64::from(c[1]) * u64::from(c[2] % 2 + 1) % 100_000
                }
            })
            .collect();
        let max_len = 9 + (seed % 7) as u32;
        let lengths = code_lengths(&counts, max_len);
        let used = counts.iter().filter(|&&c| c > 0).count();
        for (c, l) in counts.iter().zip(&lengths) {
            assert_eq!(*c > 0, *l > 0);
            assert!(u32::from(*l) <= max_len);
        }
        assert!(kraft_sum(&lengths) <= 1.0 + 1e-12);
        if used >= 2 {
            assert!((kraft_sum(&lengths) - 1.0).abs() < 1e-12, "code must be complete");
            let total: u64 = counts.iter().sum();
            let bits: u64 = counts
                .iter()
                .zip(&lengths)
                .map(|(&c, &l)| c * u64::from(l))
                .sum();
            let entropy: f64 = counts
                .iter()
                .filter(|&&c| c > 0)
                .map(|&c| {
                    let p = c as f64 / total as f64;
                    -(c as f64) * p.log2()
                })
                .sum();
            assert!(bits as f64 >= entropy - 1e-6);
            if max_len == 15 && used <= 64 {
                assert!((bits as f64) < entropy + total as f64);
            }
        }
    }
}

#[test]
fn symbols_encode_and_decode() {
    for seed in 0..30u64 {
        let n = 2 + (seed as usize * 53) % 290;
        let counts: Vec<u64> = pseudo_random(n, seed)
            .iter()
            .map(|&b| u64::from(b.saturating_sub(40)))
            .collect();
        let lengths = code_lengths(&counts, 15);
        let symbols: Vec<usize> = (0..n).filter(|&s| lengths[s] > 0).collect();
        let message: Vec<usize> = pseudo_random(500, seed + 1)
            .iter()
            .map(|&b| symbols[usize::from(b) % symbols.len()])
            .collect();
        let enc = Encoder::from_lengths(&lengths);
        let mut w = BitWriter::new();
        let mut bits = 0;
        for &s in &message {
            enc.write(&mut w, s);
            bits += u64::from(enc.len(s));
        }
        assert_eq!(w.bit_len(), bits);
        let bytes = w.finish();
        let dec = Decoder::from_lengths(&lengths).unwrap();
        let mut r = BitReader::new(&bytes);
        for &s in &message {
            assert_eq!(dec.read(&mut r), Ok(s));
        }
    }
}

#[test]
fn huffman_errors_by_name() {
    assert_eq!(
        Decoder::from_lengths(&[1, 1, 1]).err(),
        Some(Error::Corrupt("huffman code lengths over-subscribed"))
    );
    assert_eq!(
        Decoder::from_lengths(&[16]).err(),
        Some(Error::Corrupt("huffman code length above 15"))
    );
    // One code of two bits: 00. The others stand for nothing.
    let dec = Decoder::from_lengths(&[2]).unwrap();
    assert_eq!(dec.read(&mut BitReader::new(&[0b00])), Ok(0));
    assert_eq!(
        dec.read(&mut BitReader::new(&[0b01])),
        Err(Error::Corrupt("invalid huffman code"))
    );
    assert_eq!(
        dec.read(&mut BitReader::new(&[])),
        Err(Error::UnexpectedEof)
    );
}

/// The cheapest way to give `counts` code lengths of 1 to 6 bits that leave
/// room for a code, by trying them all.
fn cheapest(counts: &[u64], room: u32) -> Option<u64> {
    let Some((&c, rest)) = counts.split_first() else {
        return Some(0);
    };
    (1..=6u32)
        .filter(|&l| 64 >> l <= room)
        .filter_map(|l| Some(c * u64::from(l) + cheapest(rest, room - (64 >> l))?))
        .min()
}

#[test]
fn lengths_are_optimal_on_small_alphabets() {
    for seed in 0..40u64 {
        let n = 2 + seed as usize % 5;
        let counts: Vec<u64> = pseudo_random(n, seed)
            .iter()
            .map(|&b| 1 + u64::from(b) * u64::from(b) / 40)
            .collect();
        let bits: u64 = counts
            .iter()
            .zip(code_lengths(&counts, 15))
            .map(|(&c, l)| c * u64::from(l))
            .sum();
        assert_eq!(Some(bits), cheapest(&counts, 64), "{counts:?}");
    }
}

#[test]
fn frequent_symbols_have_short_codes() {
    for (seed, max_len) in [(1, 15), (2, 9), (3, 8)] {
        let counts: Vec<u64> = pseudo_random(256, seed)
            .iter()
            .map(|&b| 1u64 << (b % 30))
            .collect();
        let lengths = code_lengths(&counts, max_len);
        for a in 0..256 {
            for b in 0..256 {
                assert!(counts[a] <= counts[b] || lengths[a] <= lengths[b]);
            }
        }
    }
}
