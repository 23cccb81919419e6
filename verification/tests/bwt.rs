use cmpr_codecs::ans;
use cmpr_codecs::ans::Freqs;
use cmpr_codecs::bits::BitReader;
use cmpr_codecs::bits::BitWriter;
use cmpr_codecs::bwt::compress;
use cmpr_codecs::bwt::decompress;
use cmpr_codecs::bwt::forward;
use cmpr_codecs::bwt::inverse;
use cmpr_codecs::bwt::mtf;
use cmpr_codecs::bwt::pipeline::decode_block;
use cmpr_codecs::bwt::pipeline::encode_block;
use cmpr_codecs::bwt::pipeline::join_runs;
use cmpr_codecs::bwt::pipeline::split_runs;
use cmpr_codecs::bwt::BLOCK_SIZE;
use cmpr_codecs::codecs::Huffman;
use cmpr_codecs::testkit::pseudo_random;
use cmpr_codecs::Codec;
use cmpr_codecs::Error;

fn entropy_bits_per_byte(data: &[u8]) -> f64 {
    let mut counts = [0u64; 256];
    for &b in data {
        counts[b as usize] += 1;
    }
    let n = data.len() as f64;
    counts
        .iter()
        .filter(|&&c| c > 0)
        .map(|&c| {
            let p = c as f64 / n;
            -p * p.log2()
        })
        .sum()
}

#[test]
fn banana() {
    // Hand-derived from the sorted rotation matrix in the module docs.
    let (l, primary) = forward(b"banana");
    assert_eq!(l, b"nnbaaa");
    assert_eq!(primary, 3);
    assert_eq!(inverse(&l, primary).unwrap(), b"banana");
}

#[test]
fn edge_cases_roundtrip() {
    for data in [
        &b""[..],
        b"a",
        b"aa",
        b"aaaa",
        b"aaaaaaaaaaaaaaaaaaaaaaaaaaaaaaaa",
    ] {
        let (l, primary) = forward(data);
        assert_eq!(inverse(&l, primary).unwrap(), data, "{data:?}");
    }
}

#[test]
fn bad_primary_index_is_rejected_not_panicked() {
    let (l, primary) = forward(b"banana");
    assert!(inverse(&l, l.len() as u32).is_err());
    assert!(inverse(&l, primary + 1000).is_err());
    assert!(inverse(&[], 0).unwrap().is_empty());
}

/// Sort rotations by literally building and sorting them, for small inputs
/// where that's cheap.
fn brute_force_bwt(data: &[u8]) -> (Vec<u8>, u32) {
    let n = data.len();
    if n <= 1 {
        return (data.to_vec(), 0);
    }
    let mut rotations: Vec<(Vec<u8>, usize)> = (0..n)
        .map(|start| ((0..n).map(|j| data[(start + j) % n]).collect(), start))
        .collect();
    rotations.sort();
    let l = rotations.iter().map(|(rot, _)| rot[n - 1]).collect();
    let primary = rotations.iter().position(|(_, start)| *start == 0).unwrap();
    (l, primary as u32)
}

#[test]
fn matches_brute_force_on_small_alphabets() {
    for seed in 0..200 {
        let len = seed as usize % 40;
        let data: Vec<u8> = pseudo_random(len, seed).iter().map(|b| b % 4).collect();
        assert_eq!(forward(&data), brute_force_bwt(&data), "{data:?}");
    }
    // Periodic data: ties go to the lower position.
    for data in [&b"abab"[..], b"abcabcabc", b"aabaab"] {
        assert_eq!(forward(data), brute_force_bwt(data), "{data:?}");
        let (l, primary) = forward(data);
        assert_eq!(inverse(&l, primary).unwrap(), data);
    }
}

#[test]
fn transform_roundtrips_on_noise() {
    for seed in 0..20 {
        let data = pseudo_random(1 + 97 * seed as usize, seed);
        let (l, primary) = forward(&data);
        assert_eq!(inverse(&l, primary).unwrap(), data);
    }
}

#[test]
fn inverse_survives_garbage() {
    for seed in 0..50 {
        let l = pseudo_random(seed as usize * 5, seed);
        let primary = seed as u32 * 7;
        let r = inverse(&l, primary);
        if !l.is_empty() && primary as usize >= l.len() {
            assert_eq!(r, Err(Error::Corrupt("BWT primary index out of range")));
        } else {
            assert_eq!(r.unwrap().len(), l.len());
        }
    }
}

#[test]
fn repeats_encode_as_zero() {
    assert_eq!(mtf::encode(b"aaaa"), [b'a', 0, 0, 0]);
}

#[test]
fn first_sight_costs_its_initial_table_position() {
    // The table starts as byte values in order, so the very first
    // byte of the input always costs exactly its own value.
    assert_eq!(mtf::encode(b"z")[0], b'z');
    assert_eq!(mtf::encode(&[0])[0], 0);
}

#[test]
fn move_to_front_roundtrips() {
    for seed in 0..10 {
        let data = pseudo_random(500 * seed as usize, seed);
        assert_eq!(mtf::decode(&mtf::encode(&data)), data);
    }
    assert_eq!(mtf::encode(b"abcabc"), [97, 98, 99, 2, 2, 2]);
}

#[test]
fn split_and_join_runs_roundtrip() {
    for ranks in [
        &[][..],
        &[0][..],
        &[1, 2, 0, 0, 0, 3][..],
        &[0; 500][..],
        &[5; 20][..],
    ] {
        let (tokens, lens, bits) = split_runs(ranks);
        assert!(bits <= lens.len() as u64 * 8);
        assert_eq!(join_runs(&tokens, &lens, ranks.len()).unwrap(), ranks);
    }
}

#[test]
fn join_runs_rejects_malformed_input() {
    assert!(join_runs(&[0], &[], 5).is_err()); // no length to read
    assert!(join_runs(&[1, 1], &[], 1).is_err()); // token stream too long
    assert!(join_runs(&[1], &[], 2).is_err()); // decoded too short
}

#[test]
fn join_runs_errors_by_name() {
    assert_eq!(join_runs(&[0], &[], 5), Err(Error::UnexpectedEof));
    assert_eq!(
        join_runs(&[1, 1], &[], 1),
        Err(Error::Corrupt("BWT token stream overruns the block"))
    );
    assert_eq!(
        join_runs(&[1], &[], 2),
        Err(Error::Corrupt("BWT block decoded to the wrong length"))
    );
    // A run of 7 in a block of 5, and one of 2^63.
    assert_eq!(
        join_runs(&[0], &[0b11100], 5),
        Err(Error::Corrupt("BWT run length invalid or overruns the block"))
    );
    let mut huge = vec![0u8; 16];
    huge[7] = 0x80;
    assert_eq!(
        join_runs(&[3, 0], &huge, 5),
        Err(Error::Corrupt("BWT run length invalid or overruns the block"))
    );
}

#[test]
fn runs_become_one_token() {
    let (tokens, lens, bits) = split_runs(&[0, 0, 0, 9, 0]);
    assert_eq!(tokens, [0, 9, 0]);
    // gamma(3) is 011 from the lowest bit, gamma(1) is 1.
    assert_eq!(bits, 4);
    assert_eq!(lens, [0b1110]);
}

#[test]
fn beats_order0_entropy_on_structured_text() {
    // The BWT+MTF+RLE pipeline sees structure order-0 entropy can't:
    // repeated substrings, not just repeated bytes.
    let text = b"the quick brown fox jumps over the lazy dog. ".repeat(400);
    let packed = compress(&text);
    let ideal = entropy_bits_per_byte(&text) * text.len() as f64 / 8.0;
    assert!(
        (packed.len() as f64) < ideal * 0.5,
        "{} vs {ideal}",
        packed.len()
    );
    assert_eq!(decompress(&packed, text.len()).unwrap(), text);
}

#[test]
fn beats_huffman_on_structured_text() {
    let text = b"abcabcabcabcabcabcabcabcabcabcabcabcxyzxyzxyzxyz".repeat(200);
    let packed = compress(&text);
    assert!(packed.len() * 4 < Huffman.compress(&text).len());
}

#[test]
fn pipeline_multi_block_roundtrip() {
    let mut data = vec![b'a'; BLOCK_SIZE];
    data.extend((0..=255u8).cycle().take(BLOCK_SIZE / 3 + 17));
    let packed = compress(&data);
    assert_eq!(decompress(&packed, data.len()).unwrap(), data);
    assert!(decompress(&packed, data.len() - 1).is_err());
}

#[test]
fn pipeline_rejects_damage() {
    let data = b"to be or not to be, that is the question".repeat(20);
    let packed = compress(&data);
    assert!(decompress(&packed[..packed.len() - 1], data.len()).is_err());
    let mut long = packed.clone();
    long.push(0);
    assert_eq!(
        decompress(&long, data.len()),
        Err(Error::Corrupt("data after the last BWT block"))
    );
    assert_eq!(
        decompress(&packed, 0),
        Err(Error::Corrupt("data after the last BWT block"))
    );
    assert_eq!(
        decompress(&packed, 10),
        Err(Error::Corrupt("BWT block length invalid or larger than allowed"))
    );
    assert_eq!(decompress(&[], 5), Err(Error::UnexpectedEof));
    for seed in 0..200 {
        let _ = decompress(&pseudo_random(seed as usize, seed), 1000);
    }
}

#[test]
fn column_holds_the_same_bytes() {
    for seed in 0..10u64 {
        let data: Vec<u8> = pseudo_random(300, seed).iter().map(|b| b % 7).collect();
        let (mut column, _) = forward(&data);
        let mut bytes = data.clone();
        column.sort_unstable();
        bytes.sort_unstable();
        assert_eq!(column, bytes);
    }
}

#[test]
fn index_must_lie_in_the_column() {
    let bad = Err(Error::Corrupt("BWT primary index out of range"));
    assert_eq!(inverse(&[], 0), Ok(vec![]));
    assert_eq!(inverse(&[], 1), bad);
    assert_eq!(inverse(b"a", 0), Ok(b"a".to_vec()));
    assert_eq!(inverse(b"a", 1), bad);
    assert_eq!(inverse(b"a", 5), bad);
    assert_eq!(inverse(b"aa", 2), bad);
}

#[test]
fn block_index_must_lie_in_the_block() {
    let packed = compress(b"a");
    assert_eq!(decompress(&packed, 1), Ok(b"a".to_vec()));
    // One token and no run: the head comes before the coded token.
    let mut counts = [0u64; 256];
    counts[97] = 1;
    let coded = ans::encode(b"a", &Freqs::normalize(&counts).unwrap());
    let (head, tail) = packed.split_at(packed.len() - coded.len());
    assert_eq!(tail, coded);
    // The same head with an index of 1.
    let mut r = BitReader::new(head);
    assert_eq!(r.read_gamma(), Ok(1));
    let mut w = BitWriter::new();
    w.write_gamma(2);
    while r.bits_remaining() > 0 {
        w.write_bit(r.read_bit().unwrap());
    }
    let moved = w.finish();
    let results: Vec<_> = [head.len(), moved.len()]
        .iter()
        .map(|&k| decompress(&[&moved[..k], tail].concat(), 1))
        .collect();
    assert!(results.iter().all(|r| r.is_err()));
    assert!(results.contains(&Err(Error::Corrupt("BWT primary index out of range"))));
}

#[test]
fn pipeline_takes_its_own_length_only() {
    for data in [&b"a"[..], b"banana", b"aaaaaaaaaaaaaaaa", b"mississippi mississippi"] {
        let packed = compress(data);
        for expected in 0..data.len() + 40 {
            let r = decompress(&packed, expected);
            if expected == data.len() {
                assert_eq!(r.unwrap(), data);
            } else {
                assert!(r.is_err(), "{data:?} as {expected}");
            }
        }
        for tail in [&b"\0"[..], b"\xff", b"more"] {
            assert_eq!(
                decompress(&[&packed[..], tail].concat(), data.len()),
                Err(Error::Corrupt("data after the last BWT block"))
            );
        }
    }
}

#[test]
fn ranks_come_back_from_their_bytes() {
    for seed in 0..10 {
        let ranks = pseudo_random(500 * seed as usize, seed);
        assert_eq!(mtf::encode(&mtf::decode(&ranks)), ranks);
    }
    assert_eq!(mtf::decode(&[97, 98, 99, 2, 2, 2]), b"abcabc");
}

#[test]
fn blocks_are_read_again_within_bounds() {
    for block in [&b"a"[..], b"banana", b"abracadabra abracadabra"] {
        let mut packed = b"before".to_vec();
        encode_block(block, &mut packed);
        let n = packed.len() - 6;
        packed.extend(b"behind");
        for remaining in 0..block.len() + 3 {
            let mut out = b"kept ".to_vec();
            let r = decode_block(&packed[6..], remaining, &mut out);
            if remaining < block.len() {
                assert_eq!(
                    r,
                    Err(Error::Corrupt("BWT block length invalid or larger than allowed"))
                );
                assert_eq!(out, b"kept ");
            } else {
                assert_eq!(r, Ok(n));
                assert_eq!(out, [b"kept ", block].concat());
            }
        }
    }
}
