use cmpr_codecs::range::price_bit;
use cmpr_codecs::range::price_reverse_tree;
use cmpr_codecs::range::price_tree;
use cmpr_codecs::range::PRICES;
use cmpr_codecs::range::Decoder;
use cmpr_codecs::range::Encoder;
use cmpr_codecs::range::PRICE_ONE_BIT;
use cmpr_codecs::range::PROB_INIT;
use cmpr_codecs::Error;

/// Bits with a skewed distribution, deterministic.
fn skewed_bits(n: usize, one_in: u64) -> Vec<u32> {
    let mut s = 0x9E37_79B9_7F4A_7C15u64;
    (0..n)
        .map(|_| {
            s ^= s << 13;
            s ^= s >> 7;
            s ^= s << 17;
            u32::from(s % one_in == 0)
        })
        .collect()
}

#[test]
fn bits_roundtrip_and_stream_is_used_exactly() {
    for one_in in [1, 2, 3, 50, 1000] {
        let bits = skewed_bits(10_000, one_in);
        let mut enc = Encoder::new();
        let mut p = PROB_INIT;
        for &b in &bits {
            enc.encode_bit(&mut p, b);
        }
        let packed = enc.finish();
        let mut dec = Decoder::new(&packed).unwrap();
        let mut p = PROB_INIT;
        for &b in &bits {
            assert_eq!(dec.decode_bit(&mut p), b);
        }
        dec.finish().unwrap();
    }
}

#[test]
fn predictable_bits_cost_a_fraction_of_a_bit() {
    // 1 in 1000 bits is a 1: entropy is about 0.011 bits per bit. The
    // adaptive estimate can't get that close (the probability floor is
    // 31/2048), but it is far below Huffman's 1 bit.
    let bits = skewed_bits(100_000, 1000);
    let mut enc = Encoder::new();
    let mut p = PROB_INIT;
    for &b in &bits {
        enc.encode_bit(&mut p, b);
    }
    let packed = enc.finish();
    assert!(packed.len() * 8 < bits.len() / 20, "{} bytes", packed.len());
}

#[test]
fn direct_and_tree_roundtrip() {
    let values: Vec<u32> = (0..2000u32)
        .map(|i| i.wrapping_mul(2_654_435_761) >> 12)
        .collect();
    let mut enc = Encoder::new();
    let mut tree = vec![PROB_INIT; 1 << 8];
    for &v in &values {
        enc.encode_direct(v, 20);
        enc.encode_tree(&mut tree, 8, v & 0xFF);
    }
    let packed = enc.finish();
    let mut dec = Decoder::new(&packed).unwrap();
    let mut tree = vec![PROB_INIT; 1 << 8];
    for &v in &values {
        assert_eq!(dec.decode_direct(20), v);
        assert_eq!(dec.decode_tree(&mut tree, 8), v & 0xFF);
    }
    dec.finish().unwrap();
}

#[test]
fn carries_propagate_through_ff_runs() {
    // Always coding the unlikely bit pushes `low` up hard, producing
    // 0xFF bytes and carries into them.
    let mut enc = Encoder::new();
    let mut probs = [PROB_INIT; 4];
    let pattern = |i: usize| u32::from(i % 7 != 0);
    for i in 0..50_000 {
        enc.encode_bit(&mut probs[i % 4], pattern(i));
        enc.encode_direct(u32::MAX, 3);
    }
    let packed = enc.finish();
    let mut dec = Decoder::new(&packed).unwrap();
    let mut probs = [PROB_INIT; 4];
    for i in 0..50_000 {
        assert_eq!(dec.decode_bit(&mut probs[i % 4]), pattern(i), "bit {i}");
        assert_eq!(dec.decode_direct(3), 7);
    }
    dec.finish().unwrap();
}

#[test]
fn reverse_tree_roundtrip_and_prices() {
    let mut enc = Encoder::new();
    let mut probs = [PROB_INIT; 16];
    for v in 0..500u32 {
        enc.encode_reverse_tree(&mut probs, 4, v % 16);
    }
    let packed = enc.finish();
    let mut dec = Decoder::new(&packed).unwrap();
    let mut probs = [PROB_INIT; 16];
    for v in 0..500u32 {
        assert_eq!(dec.decode_reverse_tree(&mut probs, 4), v % 16);
    }
    dec.finish().unwrap();

    assert_eq!(price_bit(PROB_INIT, 0), PRICE_ONE_BIT);
    assert_eq!(price_bit(PROB_INIT, 1), PRICE_ONE_BIT);
    assert!(price_bit(2000, 0) < 2 && price_bit(2000, 1) > 5 * PRICE_ONE_BIT);
    assert_eq!(price_tree(&[PROB_INIT; 256], 8, 77), 8 * PRICE_ONE_BIT);
}

#[test]
fn caller_managed_probabilities_roundtrip() {
    let bits = skewed_bits(20_000, 9);
    let p0 = |i: usize| 1 + (i as u32 * 7919) % 65535;
    let mut enc = Encoder::new();
    for (i, &b) in bits.iter().enumerate() {
        enc.encode_with(p0(i), b);
    }
    let packed = enc.finish();
    let mut dec = Decoder::new(&packed).unwrap();
    for (i, &b) in bits.iter().enumerate() {
        assert_eq!(dec.decode_with(p0(i)), b);
    }
    dec.finish().unwrap();
}

#[test]
fn truncated_and_padded_streams_are_rejected() {
    let mut enc = Encoder::new();
    let mut p = PROB_INIT;
    for i in 0..1000 {
        enc.encode_bit(&mut p, i & 1);
    }
    let packed = enc.finish();

    let short = &packed[..packed.len() - 1];
    let mut dec = Decoder::new(short).unwrap();
    let mut p = PROB_INIT;
    for _ in 0..1000 {
        dec.decode_bit(&mut p);
    }
    assert_eq!(dec.finish(), Err(Error::UnexpectedEof));

    let mut long = packed.clone();
    long.push(0);
    let mut dec = Decoder::new(&long).unwrap();
    let mut p = PROB_INIT;
    for _ in 0..1000 {
        dec.decode_bit(&mut p);
    }
    assert!(dec.finish().is_err());

    assert!(Decoder::new(&[1, 2, 3, 4, 5]).is_err());
    assert!(Decoder::new(&[]).is_err());
}

#[test]
fn probabilities_move_a_32nd_of_the_way() {
    let mut enc = Encoder::default();
    let mut p = PROB_INIT;
    enc.encode_bit(&mut p, 0);
    assert_eq!(p, 1024 + 1024 / 32);
    let mut p = PROB_INIT;
    enc.encode_bit(&mut p, 1);
    assert_eq!(p, 1024 - 1024 / 32);
    // An encoder that has coded nothing still flushes five bytes.
    assert_eq!(Encoder::new().finish(), [0; 5]);
}

#[test]
fn decoder_knows_where_it_is() {
    let mut dec = Decoder::new(&[0, 0, 0, 0, 0]).unwrap();
    assert_eq!(dec.position(), 5);
    assert!(!dec.overrun());
    dec.decode_direct(30);
    assert!(dec.overrun());
    assert_eq!(dec.finish(), Err(Error::UnexpectedEof));
}

#[test]
fn prices_follow_the_logarithm() {
    for (i, &price) in PRICES.iter().enumerate() {
        let p = (i as f64 * 16.0 + 8.0).max(31.0) / 2048.0;
        let want = (-p.log2() * f64::from(PRICE_ONE_BIT)).round();
        assert_eq!(f64::from(price), want, "bucket {i}");
    }
    assert_eq!(
        price_reverse_tree(&[PROB_INIT; 16], 4, 9),
        4 * PRICE_ONE_BIT
    );
    let mut probs = [PROB_INIT; 4];
    probs[1] = 2000;
    probs[3] = 48;
    let want = price_bit(2000, 1) + price_bit(48, 0);
    assert_eq!(price_reverse_tree(&probs, 2, 1), want);
    assert_eq!(price_tree(&probs, 2, 2), want);
}

#[test]
fn any_mix_of_fields_decodes_in_order() {
    // Which kind each field is, and its value.
    let fields: Vec<(u32, u32)> = (0..3000u32)
        .map(|i| i.wrapping_mul(2_654_435_761))
        .map(|h| ((h >> 8) % 5, h >> 16))
        .collect();
    let mut enc = Encoder::new();
    let mut bits = vec![PROB_INIT; 4];
    let mut tree = vec![PROB_INIT; 1 << 6];
    let mut reverse = vec![PROB_INIT; 1 << 5];
    let mut seen = Vec::new();
    for &(kind, v) in &fields {
        match kind {
            0 => enc.encode_bit(&mut bits[(v >> 1) as usize % 4], v & 1),
            1 => enc.encode_tree(&mut tree, 6, v & 63),
            2 => enc.encode_reverse_tree(&mut reverse, 5, v & 31),
            3 => enc.encode_direct(v, 16),
            _ => enc.encode_with(1 + v % 65535, v & 1),
        }
        seen.push((bits.clone(), tree.clone(), reverse.clone()));
    }
    let packed = enc.finish();
    let mut dec = Decoder::new(&packed).unwrap();
    let mut bits = vec![PROB_INIT; 4];
    let mut tree = vec![PROB_INIT; 1 << 6];
    let mut reverse = vec![PROB_INIT; 1 << 5];
    for (&(kind, v), models) in fields.iter().zip(&seen) {
        match kind {
            0 => assert_eq!(dec.decode_bit(&mut bits[(v >> 1) as usize % 4]), v & 1),
            1 => assert_eq!(dec.decode_tree(&mut tree, 6), v & 63),
            2 => assert_eq!(dec.decode_reverse_tree(&mut reverse, 5), v & 31),
            3 => assert_eq!(dec.decode_direct(16), v),
            _ => assert_eq!(dec.decode_with(1 + v % 65535), v & 1),
        }
        assert_eq!((&bits, &tree, &reverse), (&models.0, &models.1, &models.2));
    }
    assert_eq!(dec.finish(), Ok(()));
}

#[test]
fn entry_0_of_a_tree_is_unused() {
    let mut tree = vec![PROB_INIT; 8];
    tree[0] = 0;
    let mut enc = Encoder::new();
    for v in 0..8 {
        enc.encode_tree(&mut tree, 3, v);
        enc.encode_reverse_tree(&mut tree, 3, v);
    }
    assert_eq!(tree[0], 0);
    let packed = enc.finish();
    let mut dec = Decoder::new(&packed).unwrap();
    let mut tree = vec![PROB_INIT; 8];
    tree[0] = 9999;
    for v in 0..8 {
        assert_eq!(dec.decode_tree(&mut tree, 3), v);
        assert_eq!(dec.decode_reverse_tree(&mut tree, 3), v);
    }
    assert_eq!(tree[0], 9999);
    dec.finish().unwrap();
}
