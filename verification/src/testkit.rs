//! Shared round-trip checks for codecs.
//!
//! A codec is correct when `decompress(compress(x)) == x` for every `x`. The
//! hand-picked edge cases of [`standard_inputs`] put that to the test on the
//! compiled code.
use crate::codec::unpacked_by;
use crate::codec::Codec;
use crate::codecs::packbits::push_run;
use crate::codecs::packbits::repeated;
use crate::error::push_decimal;
use crate::error::push_hex;
use crate::error::Error;
use crate::frame;
use crate::frame::header_bytes;
use crate::frame::lemma_header;
use crate::frame::unframed;
use crate::frame::wrap;
use vstd::prelude::*;
use vstd::string::*;

verus! {

/// One step of the xorshift generator.
pub open spec fn scrambled(state: u64) -> u64 {
    let a = state ^ (state << 13u64);
    let b = a ^ (a >> 7u64);
    b ^ (b << 17u64)
}

/// The state after `n` steps.
pub open spec fn state_after(state: u64, n: nat) -> u64
    decreases n,
{
    if n == 0 {
        state
    } else {
        scrambled(state_after(state, (n - 1) as nat))
    }
}

/// The pseudo-random bytes for a seed.
pub open spec fn noise(len: nat, seed: u64) -> Seq<u8> {
    Seq::new(len, |i: int| (state_after(seed | 1, (i + 1) as nat) >> 24u64) as u8)
}

/// More bytes are the same ones and then others: those that an odd state
/// leads to are those that it gives as a seed. A seed counts as the next odd
/// number.
pub proof fn noise_goes_on(len: nat, more: nat, seed: u64, i: nat)
    requires
        i < more,
        state_after(seed | 1, len) % 2 == 1,
    ensures
        noise(len + more, seed).take(len as int) == noise(len, seed),
        noise(len + more, seed)[len as int + i] == noise(more, state_after(seed | 1, len))[i as int],
        noise(len, seed) == noise(len, seed | 1),
{
    let s = seed | 1;
    let t = state_after(s, len);
    assert(s | 1 == s) by (bit_vector)
        requires
            s == seed | 1,
    ;
    assert(t | 1 == t) by (bit_vector)
        requires
            t % 2 == 1,
    ;
    lemma_states_add(s, len, i + 1);
    assert(noise(len + more, seed).take(len as int) =~= noise(len, seed));
    assert(noise(len, seed) =~= noise(len, seed | 1));
}

proof fn lemma_states_add(state: u64, a: nat, b: nat)
    ensures
        state_after(state, a + b) == state_after(state_after(state, a), b),
    decreases b,
{
    if b > 0 {
        lemma_states_add(state, a, (b - 1) as nat);
    }
}

/// Deterministic pseudo-random bytes (xorshift), so failures are reproducible.
pub fn pseudo_random(len: usize, seed: u64) -> (r: Vec<u8>)
    ensures
        r@ == noise(len as nat, seed),
{
    let mut state: u64 = seed | 1;
    let mut out: Vec<u8> = Vec::with_capacity(len);
    let mut i: usize = 0;
    while i < len
        invariant
            i <= len,
            out@.len() == i,
            state == state_after(seed | 1, i as nat),
            forall|k: int| 0 <= k < i ==> #[trigger] out@[k] == noise(len as nat, seed)[k],
        decreases len - i,
    {
        let a: u64 = state ^ (state << 13u64);
        let b: u64 = a ^ (a >> 7u64);
        state = b ^ (b << 17u64);
        out.push((state >> 24u64) as u8);
        i = i + 1;
    }
    assert(out@ =~= noise(len as nat, seed));
    out
}

/// `part` over and over, `n` bytes in all.
pub open spec fn cycled(part: Seq<u8>, n: nat) -> Seq<u8> {
    Seq::new(n, |i: int| part[i % part.len() as int])
}

/// `part` over and over, `n` bytes in all.
fn cycle(part: &[u8], n: usize) -> (r: Vec<u8>)
    requires
        part@.len() > 0,
    ensures
        r@ == cycled(part@, n as nat),
{
    let mut out: Vec<u8> = Vec::with_capacity(n);
    let mut i: usize = 0;
    while i < n
        invariant
            i <= n,
            part@.len() > 0,
            out@.len() == i,
            forall|k: int| 0 <= k < i ==> #[trigger] out@[k] == cycled(part@, n as nat)[k],
        decreases n - i,
    {
        out.push(part[i % part.len()]);
        i = i + 1;
    }
    assert(out@ =~= cycled(part@, n as nat));
    out
}

/// All byte values in order.
pub open spec fn all_bytes() -> Seq<u8> {
    Seq::new(256, |i: int| i as u8)
}

fn every_byte() -> (r: Vec<u8>)
    ensures
        r@ == all_bytes(),
{
    let mut out: Vec<u8> = Vec::with_capacity(256);
    let mut i: usize = 0;
    while i < 256
        invariant
            i <= 256,
            out@ == all_bytes().take(i as int),
        decreases 256 - i,
    {
        out.push(i as u8);
        i = i + 1;
        assert(out@ =~= all_bytes().take(i as int));
    }
    assert(all_bytes().take(256) =~= all_bytes());
    out
}

/// The English sentences of the text input.
pub open spec fn sentence() -> Seq<char> {
    "It was the best of times, it was the worst of times, it was the age of wisdom, it was the age of foolishness, it was the epoch of belief. "@
}

/// The bytes of ASCII characters.
pub open spec fn ascii_bytes(s: Seq<char>) -> Seq<u8> {
    Seq::new(s.len(), |i: int| s[i] as u8)
}

/// A byte `n` times.
fn fill(b: u8, n: usize) -> (r: Vec<u8>)
    ensures
        r@ == repeated(b, n as nat),
{
    let mut out: Vec<u8> = Vec::with_capacity(n);
    push_run(&mut out, b, n);
    assert(out@ =~= repeated(b, n as nat));
    out
}

/// The text input.
pub open spec fn text() -> Seq<u8> {
    cycled(ascii_bytes(sentence()), 64 * sentence().len())
}

/// The English sentences, 64 times.
fn english_text() -> (r: Vec<u8>)
    ensures
        r@ == text(),
{
    let s: &'static str = "It was the best of times, it was the worst of times, it was the age of wisdom, it was the age of foolishness, it was the epoch of belief. ";
    proof {
        reveal_strlit(
            "It was the best of times, it was the worst of times, it was the age of wisdom, it was the age of foolishness, it was the epoch of belief. ",
        );
    }
    let bytes = s.as_bytes();
    proof {
        assert(is_ascii(s));
        is_ascii_spec_bytes(s);
        assert(bytes@ =~= ascii_bytes(sentence()));
    }
    cycle(bytes, 64 * bytes.len())
}

fn run_then_noise() -> (r: Vec<u8>)
    ensures
        r@ == repeated(120, 100_000) + noise(1000, 3),
{
    let mut r = fill(120, 100_000);
    let mut more = pseudo_random(1000, 3);
    r.append(&mut more);
    r
}

/// The name and the bytes of an edge case.
pub open spec fn standard_input(i: int) -> (Seq<char>, Seq<u8>) {
    if i == 0 {
        ("empty"@, Seq::<u8>::empty())
    } else if i == 1 {
        ("one byte"@, seq![97u8])
    } else if i == 2 {
        ("two bytes"@, seq![97u8, 98])
    } else if i == 3 {
        ("all zeros 64K"@, repeated(0, 65536))
    } else if i == 4 {
        ("all 0xFF 64K"@, repeated(255, 65536))
    } else if i == 5 {
        ("every byte value"@, all_bytes())
    } else if i == 6 {
        ("every byte value x16"@, cycled(all_bytes(), 4096))
    } else if i == 7 {
        ("alternating"@, cycled(seq![0xAAu8, 0x55], 10000))
    } else if i == 8 {
        ("english text"@, text())
    } else if i == 9 {
        ("random 1K"@, noise(1024, 1))
    } else if i == 10 {
        ("random 256K"@, noise(262144, 2))
    } else if i == 11 {
        ("long run then random"@, repeated(120, 100_000) + noise(1000, 3))
    } else {
        ("just over 64K"@, noise(65537, 4))
    }
}

/// The edge cases so far are the first ones.
spec fn inputs_so_far(r: Seq<(&'static str, Vec<u8>)>) -> bool {
    forall|i: int|
        0 <= i < r.len() ==> (#[trigger] r[i]).0@ == standard_input(i).0 && r[i].1@
            == standard_input(i).1
}

fn push_input(r: &mut Vec<(&'static str, Vec<u8>)>, name: &'static str, data: Vec<u8>)
    requires
        inputs_so_far(old(r)@),
        name@ == standard_input(old(r)@.len() as int).0,
        data@ == standard_input(old(r)@.len() as int).1,
    ensures
        final(r)@.len() == old(r)@.len() + 1,
        inputs_so_far(final(r)@),
{
    r.push((name, data));
}

/// Edge cases every codec must handle. Each has a name for error messages.
pub fn standard_inputs() -> (r: Vec<(&'static str, Vec<u8>)>)
    ensures
        r@.len() == 13,
        forall|i: int|
            0 <= i < 13 ==> (#[trigger] r@[i]).0@ == standard_input(i).0 && r@[i].1@
                == standard_input(i).1,
{
    let mut r: Vec<(&'static str, Vec<u8>)> = Vec::new();
    push_input(&mut r, "empty", Vec::new());
    let one: Vec<u8> = vec![97];
    assert(one@ =~= seq![97u8]);
    push_input(&mut r, "one byte", one);
    let two: Vec<u8> = vec![97, 98];
    assert(two@ =~= seq![97u8, 98]);
    push_input(&mut r, "two bytes", two);
    push_input(&mut r, "all zeros 64K", fill(0, 65536));
    push_input(&mut r, "all 0xFF 64K", fill(255, 65536));
    push_input(&mut r, "every byte value", every_byte());
    push_input(&mut r, "every byte value x16", cycle(&every_byte(), 4096));
    push_input(&mut r, "alternating", cycle(&[0xAA, 0x55], 10000));
    push_input(&mut r, "english text", english_text());
    push_input(&mut r, "random 1K", pseudo_random(1024, 1));
    push_input(&mut r, "random 256K", pseudo_random(262144, 2));
    push_input(&mut r, "long run then random", run_then_noise());
    push_input(&mut r, "just over 64K", pseudo_random(65537, 4));
    r
}

/// A name and what is wrong.
fn complaint(name: &str, what: &str) -> (r: String)
    ensures
        r@ == name@ + what@,
{
    let mut r = String::new();
    r.append(name);
    r.append(what);
    assert(r@ =~= name@ + what@);
    r
}

/// Where two buffers of the same length first differ.
fn first_difference(a: &[u8], b: &[u8]) -> (r: Option<usize>)
    requires
        a@.len() == b@.len(),
    ensures
        match r {
            None => a@ == b@,
            Some(i) => i < a@.len() && a@[i as int] != b@[i as int] && a@.take(i as int) == b@.take(
                i as int,
            ),
        },
{
    let mut i: usize = 0;
    while i < a.len()
        invariant
            i <= a@.len(),
            a@.len() == b@.len(),
            forall|k: int| 0 <= k < i ==> a@[k] == b@[k],
        decreases a@.len() - i,
    {
        if a[i] != b[i] {
            assert(a@.take(i as int) =~= b@.take(i as int));
            return Some(i);
        }
        i = i + 1;
    }
    assert(a@ =~= b@);
    None
}

/// What a codec with this id and name has to say for itself when it packs
/// `data` into `packed`: a frame of the two must give back the data.
pub open spec fn verdict(id: u8, name: Seq<char>, data: Seq<u8>, packed: Seq<u8>) -> Result<
    (),
    Seq<char>,
> {
    match unframed(header_bytes(id, data) + packed) {
        Err(e) => Err(name + ": frame round-trip failed: "@ + e.text()),
        Ok(out) => if out == data {
            Ok(())
        } else {
            Err(name + ": frame round-trip changed the data"@)
        },
    }
}

/// Compress then decompress `data`, and describe the first difference if the
/// result does not match. A codec that frames do not know fails there.
pub fn check_roundtrip(codec: &dyn Codec, data: &[u8]) -> (r: Result<(), String>)
    requires
        codec.accepts(data@),
    ensures
        exists|packed: Seq<u8>| #[trigger]
            codec.packs(data@, packed) && match verdict(
                codec.number(),
                codec.label(),
                data@,
                packed,
            ) {
                Ok(_) => r is Ok,
                Err(m) => r matches Err(n) && n@ == m,
            },
        codec.number() < 11 && (forall|p: Seq<u8>, n: nat| #[trigger]
            codec.unpacked(p, n) == unpacked_by(codec.number() as int, p, n)) ==> r is Ok,
        codec.number() >= 11 ==> (r matches Err(m) && m@ == codec.label()
            + ": frame round-trip failed: "@ + Error::UnknownCodec(codec.number()).text()),
{
    let name = codec.name();
    let compressed = codec.compress(data);
    let restored = match codec.decompress(&compressed, data.len()) {
        Err(e) => {
            let mut m = complaint(name, ": decompress failed on ");
            push_decimal(&mut m, data.len() as u64);
            m.append(" input bytes: ");
            m.append(e.message().as_str());
            return Err(m);
        },
        Ok(v) => v,
    };
    if restored.len() != data.len() {
        let mut m = complaint(name, ": length changed: ");
        push_decimal(&mut m, data.len() as u64);
        m.append(" bytes in, ");
        push_decimal(&mut m, restored.len() as u64);
        m.append(" bytes out");
        return Err(m);
    }
    match first_difference(data, &restored) {
        Some(i) => {
            let mut m = complaint(name, ": first difference at byte ");
            push_decimal(&mut m, i as u64);
            m.append(": expected 0x");
            push_hex(&mut m, data[i] as u32, 2);
            m.append(", got 0x");
            push_hex(&mut m, restored[i] as u32, 2);
            return Err(m);
        },
        None => {},
    }
    let framed = wrap(codec.id(), data, &compressed);
    proof {
        assert(data@.len() == data.len());
        lemma_header(framed@, codec.number(), data@);
        assert(codec.packs(data@, compressed@));
        assert(framed@ == header_bytes(codec.number(), data@) + compressed@);
        assert(codec.unpacked(compressed@, data@.len()) == Ok::<Seq<u8>, Error>(data@));
    }
    let unpacked = match frame::decode(&framed) {
        Err(e) => {
            let mut m = complaint(name, ": frame round-trip failed: ");
            m.append(e.message().as_str());
            assert(m@ =~= codec.label() + ": frame round-trip failed: "@ + e.text());
            return Err(m);
        },
        Ok(v) => v,
    };
    if unpacked.len() != data.len() || first_difference(data, &unpacked).is_some() {
        return Err(complaint(name, ": frame round-trip changed the data"));
    }
    Ok(())
}

} // verus!
