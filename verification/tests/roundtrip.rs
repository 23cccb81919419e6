//! Every registered codec must pass these. Adding a codec to
//! `cmpr_codecs::all_codecs()` is enough to put it under test.

use cmpr_codecs::all_codecs;
use cmpr_codecs::codec_by_id;
use cmpr_codecs::codec_by_name;
use cmpr_codecs::codecs::Bwt;
use cmpr_codecs::codecs::Store;
use cmpr_codecs::frame;
use cmpr_codecs::testkit::check_roundtrip;
use cmpr_codecs::testkit::pseudo_random;
use cmpr_codecs::testkit::standard_inputs;
use cmpr_codecs::Codec;
use std::collections::HashSet;

/// Run every standard input through `codec`, panicking with all failures.
fn assert_standard_suite(codec: &dyn Codec) {
    let failures: Vec<String> = standard_inputs()
        .iter()
        .filter_map(|(label, data)| {
            check_roundtrip(codec, data)
                .err()
                .map(|e| format!("[{label}] {e}"))
        })
        .collect();
    assert!(
        failures.is_empty(),
        "round-trip failures:\n{}",
        failures.join("\n")
    );
}

#[test]
fn standard_inputs_roundtrip() {
    for codec in all_codecs() {
        assert_standard_suite(&codec);
    }
}

#[test]
fn ids_and_names_are_unique_and_resolvable() {
    let codecs = all_codecs();
    let ids: HashSet<u8> = codecs.iter().map(|c| c.id()).collect();
    let names: HashSet<&str> = codecs.iter().map(|c| c.name()).collect();
    assert_eq!(ids.len(), codecs.len(), "duplicate codec id");
    assert_eq!(names.len(), codecs.len(), "duplicate codec name");
    for c in &codecs {
        assert_eq!(codec_by_id(c.id()).unwrap().name(), c.name());
        assert_eq!(codec_by_name(c.name()).unwrap().id(), c.id());
    }
}

/// Inputs shaped like real data: pure noise, long runs, small alphabets, and
/// repeated chunks (which exercise match finders).
fn varied(seed: u64) -> Vec<u8> {
    let noise = pseudo_random(2 + (seed as usize * 97) % 900, seed);
    match seed % 4 {
        0 => noise,
        1 => noise
            .chunks_exact(2)
            .take(40)
            .flat_map(|c| std::iter::repeat_n(c[0], 1 + usize::from(c[1])))
            .collect(),
        2 => noise.iter().map(|b| b % 4).collect(),
        _ => noise[..noise.len().min(60)].repeat(1 + seed as usize % 50),
    }
}

#[test]
fn varied_data_roundtrips() {
    for seed in 0..24 {
        let data = varied(seed);
        for codec in all_codecs() {
            assert_eq!(check_roundtrip(&codec, &data), Ok(()), "seed {seed}");
        }
    }
}

/// Decoders must reject garbage with an error, never panic or hang.
#[test]
fn decoders_survive_garbage() {
    for seed in 0..60 {
        let data = pseudo_random(seed as usize * 11, seed);
        for codec in all_codecs() {
            let expected = (seed as usize * 67) % 4096;
            if let Ok(out) = codec.decompress(&data, expected) {
                assert!(out.len() <= expected, "{} seed {seed}", codec.name());
            }
            let mut framed = b"CMPR\0".to_vec();
            framed.push(codec.id());
            framed.extend((seed * 67 % 4096).to_le_bytes());
            framed.extend([0; 4]);
            framed.extend(&data);
            let _ = frame::decode(&framed);
        }
        let _ = frame::decode(&data);
    }
}

#[test]
fn names_and_ids_in_order() {
    let names: Vec<&str> = all_codecs().iter().map(|c| c.name()).collect();
    assert_eq!(
        names,
        [
            "store", "packbits", "rle", "huffman", "lzss", "deflate", "range0", "range1", "rans",
            "lzma", "bwt"
        ]
    );
    for (i, c) in all_codecs().iter().enumerate() {
        assert_eq!(usize::from(c.id()), i);
        assert!(!c.description().is_empty());
    }
    assert!(codec_by_name("zip").is_none());
    assert!(codec_by_name("Store").is_none());
    assert!(codec_by_id(11).is_none());
    assert_eq!(
        codec_by_name("store").unwrap().description(),
        Store.description()
    );
}

#[test]
fn bwt_is_a_codec_like_the_others() {
    assert_eq!(check_roundtrip(&Bwt, b"abc"), Ok(()));
    let c = codec_by_name("bwt").unwrap();
    assert_eq!((c.id(), c.description()), (10, Bwt.description()));
    assert_eq!(c.compress(b"banana"), Bwt.compress(b"banana"));
    assert_eq!(codec_by_id(10).unwrap().name(), "bwt");
}

#[test]
fn small_inputs_can_be_compressed() {
    for c in all_codecs() {
        assert!(c.can_compress(b""));
        assert!(c.can_compress(&[7; 70_000]));
    }
}

#[test]
fn standard_inputs_are_what_they_say() {
    let inputs = standard_inputs();
    assert_eq!(inputs.len(), 13);
    assert_eq!(inputs[0], ("empty", vec![]));
    assert_eq!(inputs[1], ("one byte", b"a".to_vec()));
    assert_eq!(inputs[2], ("two bytes", b"ab".to_vec()));
    assert_eq!(inputs[3], ("all zeros 64K", vec![0; 1 << 16]));
    assert_eq!(inputs[4], ("all 0xFF 64K", vec![0xFF; 1 << 16]));
    assert_eq!(inputs[5], ("every byte value", (0..=255).collect()));
    assert_eq!(
        inputs[6],
        (
            "every byte value x16",
            (0..=255).cycle().take(4096).collect()
        )
    );
    assert_eq!(inputs[7], ("alternating", [0xAA, 0x55].repeat(5000)));
    let text = b"It was the best of times, it was the worst of times, it was the age of \
                 wisdom, it was the age of foolishness, it was the epoch of belief. "
        .repeat(64);
    assert_eq!(inputs[8], ("english text", text));
    assert_eq!(inputs[9], ("random 1K", pseudo_random(1 << 10, 1)));
    assert_eq!(inputs[10], ("random 256K", pseudo_random(1 << 18, 2)));
    let mut v = vec![b'x'; 100_000];
    v.extend(pseudo_random(1000, 3));
    assert_eq!(inputs[11], ("long run then random", v));
    assert_eq!(
        inputs[12],
        ("just over 64K", pseudo_random((1 << 16) + 1, 4))
    );
}

#[test]
fn pseudo_random_is_xorshift() {
    let mut state = 5u64;
    let want: Vec<u8> = (0..100)
        .map(|_| {
            state ^= state << 13;
            state ^= state >> 7;
            state ^= state << 17;
            (state >> 24) as u8
        })
        .collect();
    assert_eq!(pseudo_random(100, 4), want);
    assert_eq!(pseudo_random(100, 5), want);
}
