use cmpr_codecs::deflate::deflate;
use cmpr_codecs::deflate::encode::rle_code_lengths;
use cmpr_codecs::deflate::inflate;
use cmpr_codecs::deflate::tables::dist_code;
use cmpr_codecs::deflate::tables::length_code;
use cmpr_codecs::deflate::tables::Coded;
use cmpr_codecs::deflate::tables::DIST_BASE;
use cmpr_codecs::deflate::tables::LENGTH_BASE;
use cmpr_codecs::testkit::pseudo_random;
use cmpr_codecs::Error;

#[test]
fn rle_of_code_lengths() {
    let lengths = [
        8, 8, 8, 8, 8, 8, 8, 0, 0, 0, 0, 0, 0, 0, 0, 0, 0, 0, 0, 5, 5,
    ];
    assert_eq!(
        rle_code_lengths(&lengths),
        [(8, 0), (16, 3), (18, 1), (5, 0), (5, 0)]
    );
}

#[test]
fn empty_input_matches_zlib() {
    assert_eq!(deflate(b"", 6), [0x03, 0x00]);
}

#[test]
fn roundtrip_every_level() {
    let data = b"Deflate: LZ77 plus Huffman. Deflate: LZ77 plus Huffman! ".repeat(50);
    for level in 0..=9 {
        let packed = deflate(&data, level);
        assert_eq!(
            inflate(&packed, data.len()).unwrap().data,
            data,
            "level {level}"
        );
    }
}

fn c(index: usize, extra: u32, extra_bits: u32) -> Coded {
    Coded {
        index,
        extra,
        extra_bits,
    }
}

#[test]
fn length_codes() {
    assert_eq!(length_code(3), c(0, 0, 0));
    assert_eq!(length_code(12), c(8, 1, 1)); // 11 + 1
    assert_eq!(length_code(257), c(27, 30, 5)); // 227 + 30
    // 258 has its own code with no extra bits.
    assert_eq!(length_code(258), c(28, 0, 0));
}

#[test]
fn dist_codes() {
    assert_eq!(dist_code(1), c(0, 0, 0));
    assert_eq!(dist_code(6), c(4, 1, 1)); // 5 + 1
    assert_eq!(dist_code(32768), c(29, 8191, 13)); // 24577 + 8191
}

#[test]
fn every_value_roundtrips() {
    for len in 3..=258 {
        let c = length_code(len);
        assert!(c.extra < 1 << c.extra_bits || c.extra_bits == 0 && c.extra == 0);
        assert_eq!(usize::from(LENGTH_BASE[c.index]) + c.extra as usize, len);
    }
    for dist in 1..=32768 {
        let c = dist_code(dist);
        assert!(c.extra < 1 << c.extra_bits || c.extra_bits == 0 && c.extra == 0);
        assert_eq!(usize::from(DIST_BASE[c.index]) + c.extra as usize, dist);
    }
}

#[test]
fn stored_blocks_are_split_at_64k() {
    let data = pseudo_random(70_000, 5);
    let packed = deflate(&data, 0);
    // Two blocks of 5 header bytes each.
    assert_eq!(packed.len(), data.len() + 10);
    assert_eq!(packed[..5], [0, 0xFF, 0xFF, 0, 0]);
    assert_eq!(packed[5..100], data[..95]);
    let r = inflate(&packed, data.len()).unwrap();
    assert_eq!(r.data, data);
    assert_eq!(r.consumed, packed.len());
}

#[test]
fn bytes_behind_a_stream_are_left() {
    for level in [0, 1, 6, 9] {
        let data = b"trailing bytes are not part of the stream".repeat(5);
        let mut packed = deflate(&data, level);
        let n = packed.len();
        packed.extend(b"tail");
        let r = inflate(&packed, data.len()).unwrap();
        assert_eq!(r.data, data);
        assert_eq!(r.consumed, n);
    }
}

#[test]
fn inflate_errors_by_name() {
    assert_eq!(inflate(&[], 10).err(), Some(Error::UnexpectedEof));
    // Block type 3.
    assert_eq!(
        inflate(&[0b111], 10).err(),
        Some(Error::Corrupt("reserved deflate block type 3"))
    );
    // A stored block whose length check does not match.
    assert_eq!(
        inflate(&[1, 1, 0, 0, 0], 10).err(),
        Some(Error::Corrupt("stored block length check failed"))
    );
    // A stored block that is too long for the limit, or cut off.
    let stored = deflate(b"abcd", 0);
    assert_eq!(
        inflate(&stored, 3).err(),
        Some(Error::Corrupt("deflate output larger than allowed"))
    );
    assert_eq!(
        inflate(&stored[..stored.len() - 1], 4).err(),
        Some(Error::UnexpectedEof)
    );
    let packed = deflate(&b"abcabcabcabcabc".repeat(20), 6);
    assert_eq!(
        inflate(&packed, 299).err(),
        Some(Error::Corrupt("deflate output larger than allowed"))
    );
}

#[test]
fn inflate_survives_garbage() {
    for seed in 0..400 {
        let data = pseudo_random(seed as usize, seed);
        if let Ok(r) = inflate(&data, 1 << 20) {
            assert!(r.consumed <= data.len());
        }
    }
}

#[test]
fn no_level_is_much_larger_than_stored() {
    for seed in 0..4u64 {
        let noise = pseudo_random(20_000 + seed as usize * 7_001, seed);
        let stored = deflate(&noise, 0).len();
        for level in 1..=9 {
            // One block header and its padding per 16384 tokens.
            let blocks = noise.len() / 16384 + 1;
            assert!(deflate(&noise, level).len() <= stored + 5 * blocks);
        }
    }
}

#[test]
fn one_block_is_never_larger_than_stored() {
    for seed in 0..6u64 {
        let noise = pseudo_random(1 + seed as usize * 3_276, seed);
        let text = b"stored or coded, whichever is smaller; ".repeat(1 + 80 * seed as usize);
        for data in [&noise[..], &text[..]] {
            let stored = deflate(data, 0).len();
            for level in 1..=9 {
                assert!(deflate(data, level).len() <= stored);
            }
        }
    }
}

#[test]
fn growth_stays_in_bounds() {
    for n in [1usize, 16_383, 16_384, 16_385, 65_535, 65_536, 150_000] {
        let noise = pseudo_random(n, n as u64);
        for level in [0, 1, 6, 9] {
            let bits = 8 * n + 40 * (n / 65_535) + 42 * ((n + 16_383) / 16_384);
            assert!(deflate(&noise, level).len() <= (bits + 7) / 8);
        }
    }
}

#[test]
fn every_smaller_limit_is_refused() {
    let data = b"limits, limits, limits and more limits".repeat(3);
    for level in [0, 1, 9] {
        let packed = deflate(&data, level);
        assert_eq!(inflate(&packed, data.len()).unwrap().data, data);
        for limit in 0..data.len() {
            assert_eq!(
                inflate(&packed, limit).err(),
                Some(Error::Corrupt("deflate output larger than allowed"))
            );
        }
    }
}
