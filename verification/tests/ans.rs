use cmpr_codecs::ans::decode;
use cmpr_codecs::ans::encode;
use cmpr_codecs::ans::Freqs;
use cmpr_codecs::ans::LANES;
use cmpr_codecs::ans::SCALE_BITS;
use cmpr_codecs::Error;

const M: u32 = 1 << SCALE_BITS;

fn counts(data: &[u8]) -> [u64; 256] {
    let mut c = [0u64; 256];
    for &b in data {
        c[usize::from(b)] += 1;
    }
    c
}

fn roundtrip(data: &[u8]) -> Vec<u8> {
    let f = Freqs::normalize(&counts(data)).unwrap();
    let packed = encode(data, &f);
    let mut out = Vec::new();
    decode(&packed, &f, data.len(), &mut out).unwrap();
    assert_eq!(out, data);
    packed
}

fn entropy_bits_per_byte(data: &[u8]) -> f64 {
    let n = data.len() as f64;
    counts(data)
        .iter()
        .filter(|&&c| c > 0)
        .map(|&c| {
            let p = c as f64 / n;
            -p * p.log2()
        })
        .sum()
}

#[test]
fn normalize_sums_to_m_and_keeps_rare_symbols() {
    let mut c = [0u64; 256];
    c[0] = 1_000_000;
    for x in &mut c[1..] {
        *x = 1;
    }
    let f = Freqs::normalize(&c).unwrap();
    assert_eq!(f.freqs().iter().sum::<u32>(), M);
    assert!(f.freqs().iter().all(|&x| x >= 1));
    assert_eq!(f.freqs()[0], M - 255);
    assert_eq!(Freqs::normalize(&[0; 256]), None);
}

#[test]
fn roundtrips() {
    roundtrip(b"a");
    roundtrip(b"abc");
    roundtrip(&[9; 10_000]);
    roundtrip(&(0..=255).cycle().take(5000).collect::<Vec<u8>>());
    roundtrip(&b"it was the best of times, it was the worst of times".repeat(100));
}

#[test]
fn a_single_symbol_costs_nothing() {
    // Frequency M means probability 1: the state never changes.
    assert_eq!(roundtrip(&[42; 100_000]).len(), 4 * LANES);
}

#[test]
fn close_to_entropy() {
    let text = b"it was the best of times, it was the worst of times".repeat(1000);
    let ideal = entropy_bits_per_byte(&text) * text.len() as f64 / 8.0;
    let packed = roundtrip(&text).len() as f64;
    assert!(packed < ideal * 1.01, "{packed} vs {ideal}");
}

#[test]
fn corruption_is_detected() {
    let data = b"hello rANS, hello world".repeat(20);
    let f = Freqs::normalize(&counts(&data)).unwrap();
    let packed = encode(&data, &f);
    let mut out = Vec::new();
    assert!(decode(&packed[..packed.len() - 1], &f, data.len(), &mut out).is_err());
    out.clear();
    assert!(decode(&packed, &f, data.len() + 1, &mut out).is_err());
    assert!(decode(&[0xFF; 16], &f, 1, &mut out).is_err());
    let mut bad = *f.freqs();
    bad[0] += 1;
    assert!(Freqs::from_freqs(bad).is_err());
}

#[test]
fn rans_errors_by_name() {
    let f = Freqs::normalize(&counts(b"abc")).unwrap();
    let mut out = vec![1, 2];
    assert_eq!(
        decode(&[0; 15], &f, 1, &mut out),
        Err(Error::Corrupt("rANS stream too short"))
    );
    assert_eq!(
        decode(&[0; 16], &f, 1, &mut out),
        Err(Error::Corrupt("rANS state out of range"))
    );
    // Nothing is appended when the states are refused.
    assert_eq!(out, [1, 2]);
    let packed = encode(b"abc", &f);
    assert_eq!(
        decode(&packed, &f, 2, &mut out),
        Err(Error::Corrupt("rANS stream did not end cleanly"))
    );
    let mut freq = [0u32; 256];
    freq[0] = M + 1;
    assert_eq!(
        Freqs::from_freqs(freq),
        Err(Error::Corrupt("rANS frequencies exceed the total"))
    );
    freq[0] = M - 1;
    assert_eq!(
        Freqs::from_freqs(freq),
        Err(Error::Corrupt("rANS frequencies do not add up"))
    );
    freq[7] = u32::MAX;
    assert!(Freqs::from_freqs(freq).is_err());
}

#[test]
fn empty_rans_stream_is_four_idle_states() {
    let f = Freqs::normalize(&counts(b"x")).unwrap();
    let packed = encode(b"", &f);
    assert_eq!(packed, [0, 0, 1, 0].repeat(4));
    let mut out = Vec::new();
    assert_eq!(decode(&packed, &f, 0, &mut out), Ok(()));
    assert!(out.is_empty());
}

#[test]
fn one_rans_step_follows_the_formula() {
    // Two symbols with frequency 2048 each: x' = (x / f) * M + start + x % f.
    let f = Freqs::normalize(&counts(b"ab")).unwrap();
    assert_eq!(f.freqs()[97], 2048);
    assert_eq!(f.freqs()[98], 2048);
    let packed = encode(b"b", &f);
    let x = (65536 / 2048) * 4096 + 2048 + 65536 % 2048u32;
    assert_eq!(packed[..4], x.to_le_bytes());
}

#[test]
fn frequencies_follow_the_counts() {
    // A quarter and three quarters.
    let f = Freqs::normalize(&counts(b"abbb")).unwrap();
    assert_eq!(f.freqs()[97], 1024);
    assert_eq!(f.freqs()[98], 3072);
    assert_eq!(f.freqs().iter().filter(|&&x| x > 0).count(), 2);
    // Thirds round to 1365; the last of the most common gets the rest.
    let f = Freqs::normalize(&counts(b"abc")).unwrap();
    assert_eq!(f.freqs()[97..100], [1365, 1365, 1366]);
}
