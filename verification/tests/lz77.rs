use cmpr_codecs::lz77::copy_match;
use cmpr_codecs::lz77::parse;
use cmpr_codecs::lz77::reconstruct;
use cmpr_codecs::lz77::Params;
use cmpr_codecs::lz77::Token;
use cmpr_codecs::lz77::MAX_MATCH;
use cmpr_codecs::lz77::MIN_MATCH;
use cmpr_codecs::lz77::WINDOW;
use cmpr_codecs::testkit::pseudo_random;

fn check(data: &[u8], params: Params) -> Vec<Token> {
    let tokens = parse(data, params);
    for t in &tokens {
        if let Token::Match { len, dist } = *t {
            assert!((MIN_MATCH..=MAX_MATCH).contains(&usize::from(len)));
            assert!((1..=WINDOW).contains(&usize::from(dist)));
        }
    }
    assert_eq!(reconstruct(&tokens), data);
    tokens
}

#[test]
fn finds_repeated_word() {
    let tokens = check(b"the cat and the hat", Params::default());
    assert!(
        tokens.contains(&Token::Match { len: 4, dist: 12 }),
        "{tokens:?}"
    );
}

#[test]
fn run_becomes_overlapping_match() {
    let tokens = check(&[b'a'; 100], Params::default());
    assert_eq!(
        tokens,
        [Token::Literal(b'a'), Token::Match { len: 99, dist: 1 }]
    );
}

#[test]
fn lazy_finds_longer_match() {
    // At the final "abcdefgh", greedy grabs "abc" (3 bytes) from the
    // start. Lazy looks one byte ahead, sees "bcdefgh" (7 bytes) and
    // takes that instead.
    let data = b"abc_bcdefgh_abcdefgh";
    let greedy = check(
        data,
        Params {
            lazy_len: 0,
            ..Params::default()
        },
    );
    let lazy = check(data, Params::default());
    assert!(
        greedy.contains(&Token::Match { len: 3, dist: 12 }),
        "{greedy:?}"
    );
    assert!(lazy.contains(&Token::Match { len: 7, dist: 9 }), "{lazy:?}");
}

#[test]
fn respects_window() {
    let mut data = b"0123456789".to_vec();
    data.extend(vec![b'x'; WINDOW]);
    data.extend(b"0123456789");
    check(&data, Params::level(9));
}

#[test]
fn tokens_rebuild_noise() {
    for level in 1..=9 {
        let data: Vec<u8> = pseudo_random(5000, u64::from(level))
            .iter()
            .map(|b| b % 4)
            .collect();
        check(&data, Params::level(level));
    }
    check(b"", Params::default());
}

#[test]
fn copies_may_overlap() {
    let mut out = b"ab".to_vec();
    copy_match(&mut out, 2, 5);
    assert_eq!(out, b"abababa");
    copy_match(&mut out, 1, 0);
    assert_eq!(out.len(), 7);
    assert_eq!(Token::Literal(7).byte_len(), 1);
    assert_eq!(Token::Match { len: 9, dist: 3 }.byte_len(), 9);
}
