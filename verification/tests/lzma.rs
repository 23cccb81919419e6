use cmpr_codecs::lzma::compress;
use cmpr_codecs::lzma::decompress;
use cmpr_codecs::lzma::dist_slot;
use cmpr_codecs::lzma::format::Op;
use cmpr_codecs::lzma::matchfinder::match_len;
use cmpr_codecs::lzma::matchfinder::Match;
use cmpr_codecs::lzma::matchfinder::MatchFinder;
use cmpr_codecs::lzma::optimal::apply;
use cmpr_codecs::lzma::price::literal;
use cmpr_codecs::lzma::price::new_match;
use cmpr_codecs::lzma::price::rep;
use cmpr_codecs::lzma::price::short_rep;
use cmpr_codecs::lzma::price::Prices;
use cmpr_codecs::lzma::Model;
use cmpr_codecs::lzma::Options;
use cmpr_codecs::lzma::Parse;
use cmpr_codecs::lzma::Props;
use cmpr_codecs::lzma::State;
use cmpr_codecs::range::PRICE_ONE_BIT;
use cmpr_codecs::testkit::pseudo_random;
use cmpr_codecs::Error;

#[test]
fn dist_slots() {
    assert_eq!(dist_slot(0), 0);
    assert_eq!(dist_slot(3), 3);
    assert_eq!(dist_slot(4), 4);
    assert_eq!(dist_slot(5), 4);
    assert_eq!(dist_slot(6), 5);
    assert_eq!(dist_slot(127), 13);
    assert_eq!(dist_slot(128), 14);
    assert_eq!(dist_slot(u32::MAX), 63);
}

#[test]
fn props_byte() {
    assert_eq!(Props::default().to_byte(), 0x5D);
    for b in 0..225 {
        assert_eq!(Props::from_byte(b).unwrap().to_byte(), b);
    }
    assert!(Props::from_byte(225).is_err());
}

#[test]
fn state_machine_matches_the_spec() {
    // kLiteralNextStates / kMatchNextStates / kRepNextStates /
    // kShortRepNextStates from LzmaEnc.c.
    let lit = [0, 0, 0, 0, 1, 2, 3, 4, 5, 6, 4, 5];
    for (s, &want) in lit.iter().enumerate() {
        let mut st = State(s as u8);
        st.after_literal();
        assert_eq!(st.0, want, "literal from {s}");
        let (mut m, mut r, mut sr) = (State(s as u8), State(s as u8), State(s as u8));
        m.after_match();
        r.after_rep();
        sr.after_short_rep();
        let after_lit = s < 7;
        assert_eq!(m.0, if after_lit { 7 } else { 10 });
        assert_eq!(r.0, if after_lit { 8 } else { 11 });
        assert_eq!(sr.0, if after_lit { 9 } else { 11 });
    }
}

#[test]
fn match_len_counts_agreeing_bytes() {
    let data = b"abcdefghijklmnopabcdefghijklmnoXabc";
    assert_eq!(match_len(data, 0, 16, 19), 15);
    assert_eq!(match_len(data, 0, 16, 7), 7);
    assert_eq!(match_len(data, 0, 32, 3), 3);
}

#[test]
fn finds_increasing_matches_and_prefers_close_ones() {
    // "ab" close by, "abcdef" further back.
    let data = b"abcdef.......xab..abcdefgh";
    let mut mf = MatchFinder::new(data, 1 << 20, 16, 273);
    let mut out = Vec::new();
    mf.find(18, &mut out);
    assert_eq!(out, [Match { len: 2, dist: 4 }, Match { len: 6, dist: 18 }]);
}

#[test]
fn respects_the_window() {
    let mut data = b"0123456789".to_vec();
    data.extend(std::iter::repeat_n(b'-', 100));
    data.extend(b"0123456789");
    let mut out = Vec::new();
    MatchFinder::new(&data, 64, 16, 273).find(110, &mut out);
    assert!(out.is_empty(), "{out:?}");
    MatchFinder::new(&data, 128, 16, 273).find(110, &mut out);
    assert_eq!(out.last(), Some(&Match { len: 10, dist: 110 }));
}

fn text() -> Vec<u8> {
    let mut t = Vec::new();
    for i in 0..3000u32 {
        let line = format!(
            "{} the {} brown fox jumps over the {} dog, {} times.\n",
            i % 97,
            ["quick", "slow", "lazy", "sleepy"][i as usize % 4],
            ["lazy", "happy", "quick"][i as usize % 3],
            i * 7 % 13
        );
        t.extend_from_slice(line.as_bytes());
    }
    t
}

#[test]
fn optimal_beats_fast_and_roundtrips() {
    let data = text();
    let size = |parse| {
        let packed = compress(
            &data,
            Options {
                parse,
                ..Options::default()
            },
        );
        assert_eq!(decompress(&packed, data.len()).unwrap(), data, "{parse:?}");
        packed.len()
    };
    let (fast, optimal) = (size(Parse::Fast), size(Parse::Optimal));
    assert!(
        optimal * 100 < fast * 97,
        "optimal {optimal} vs fast {fast}"
    );
}

#[test]
fn long_runs_and_stretch_limits() {
    // Long runs trigger the nice_len shortcut; varied text longer than
    // OPT_LEN forces stretches to be cut at the limit.
    let mut data = vec![b'a'; 10_000];
    data.extend((0..20_000u32).map(|i| (i.wrapping_mul(2_654_435_761) >> 27) as u8 + b'a'));
    data.extend(text());
    let packed = compress(&data, Options::default());
    assert_eq!(decompress(&packed, data.len()).unwrap(), data);
}

#[test]
fn apply_mirrors_the_decoder() {
    let reps = [10, 20, 30, 40];
    let s = State::default();
    assert_eq!(
        apply(s, reps, Op::Rep { index: 2, len: 5 }).1,
        [30, 10, 20, 40]
    );
    assert_eq!(apply(s, reps, Op::Rep { index: 0, len: 5 }).1, reps);
    assert_eq!(
        apply(s, reps, Op::Match { dist: 100, len: 5 }).1,
        [99, 10, 20, 30]
    );
    assert_eq!(apply(s, reps, Op::ShortRep), (State(9), reps));
}

#[test]
fn fresh_model_prices_are_bit_counts() {
    // With every probability at 1/2, a price is 16 per coded bit.
    let m = Model::new(Props::default());
    let p = Prices::new(&m);
    let one = PRICE_ONE_BIT;
    assert_eq!(p.len(0, 2), one + 3 * one);
    assert_eq!(p.len(0, 10), 2 * one + 3 * one);
    assert_eq!(p.len(0, 273), 2 * one + 8 * one);
    // Distance 0: 6 slot bits. Distance 1000 (slot 19, 8 footer bits):
    // 6 + 4 direct + 4 align.
    assert_eq!(p.dist(0, 2), 6 * one);
    assert_eq!(p.dist(1000, 5), (6 + 4 + 4) * one);
    assert_eq!(p.dist(100, 5), (6 + 5) * one);
    let s = State::default();
    assert_eq!(literal(&m, s, 0, 0, b'x', None), 9 * one);
    assert_eq!(literal(&m, s, 0, 0, b'x', Some(b'y')), 9 * one);
    assert_eq!(short_rep(&m, s, 0), 4 * one);
    assert_eq!(rep(&m, 3, s, 0), 5 * one);
    assert_eq!(new_match(&m, s, 0), 2 * one);
}

#[test]
fn lzma_header_layout() {
    let data = b"header";
    let packed = compress(data, Options::default());
    assert_eq!(packed[0], 0x5D);
    // The dictionary is cut to the data, but no smaller than 4096.
    assert_eq!(packed[1..5], 4096u32.to_le_bytes());
    assert_eq!(packed[5..13], 6u64.to_le_bytes());
    assert_eq!(packed[13], 0);
    let big = compress(&vec![0; 5000], Options::default());
    assert_eq!(big[1..5], 8192u32.to_le_bytes());
}

#[test]
fn lzma_errors_by_name() {
    let data = b"some data, some more data";
    let packed = compress(data, Options::default());
    assert_eq!(decompress(&packed[..12], 100), Err(Error::UnexpectedEof));
    assert_eq!(decompress(&packed[..13], 100), Err(Error::UnexpectedEof));
    let mut bad = packed.clone();
    bad[0] = 225;
    assert_eq!(
        decompress(&bad, 100),
        Err(Error::Corrupt("invalid LZMA properties byte"))
    );
    assert_eq!(
        decompress(&packed, data.len() - 1),
        Err(Error::Corrupt("LZMA output larger than allowed"))
    );
    let mut bad = packed.clone();
    bad[13] = 1;
    assert_eq!(
        decompress(&bad, 100),
        Err(Error::Corrupt("range coder stream must start with 0"))
    );
    assert!(decompress(&packed[..packed.len() - 1], 100).is_err());
    let mut long = packed.clone();
    long.push(0);
    assert!(decompress(&long, 100).is_err());
}

#[test]
fn lzma_roundtrips_with_other_settings() {
    let mut data = text();
    data.extend(pseudo_random(3000, 9));
    data.truncate(40_000);
    for (depth, nice_len) in [(0, 2), (1, 8), (48, 273), (200, 1000)] {
        for parse in [Parse::Fast, Parse::Optimal] {
            let opts = Options {
                dict_size: 4096,
                depth,
                nice_len,
                parse,
            };
            let packed = compress(&data, opts);
            assert_eq!(decompress(&packed, data.len()).unwrap(), data);
        }
    }
    for parse in [Parse::Fast, Parse::Optimal] {
        let opts = Options {
            parse,
            ..Options::default()
        };
        assert_eq!(decompress(&compress(b"", opts), 0).unwrap(), b"");
    }
}

#[test]
fn lzma_decoder_survives_garbage() {
    for seed in 0..300 {
        let mut data = pseudo_random(seed as usize, seed);
        if data.len() > 13 {
            data[0] %= 225;
            data[13] = 0;
        }
        let _ = decompress(&data, 1 << 16);
    }
}
