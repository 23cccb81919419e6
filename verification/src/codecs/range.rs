//! Adaptive range coding of bytes, with no context (order-0) or with the
//! previous byte as context (order-1).
//!
//! Unlike [`Huffman`](super::Huffman) there is no code table in the output.
//! Encoder and decoder start from the same "know nothing" probabilities and
//! update them the same way after every bit, so the decoder rebuilds the
//! model as it goes. That is what "adaptive" means: the statistics are free.
//!
//! Each byte is coded as 8 binary decisions down a 256-leaf tree
//! ([`crate::range::Encoder::encode_tree`]).
//!
//! - **order-0** has one tree, so it learns how common each byte is. On
//!   uniform data it lands a few percent above the order-0 entropy, where
//!   Huffman is hard to beat. Real files change as they go, and there it
//!   wins clearly because it keeps adapting: on Canterbury plus part of
//!   Silesia it is 11% smaller than Huffman, and even below the static
//!   order-0 entropy.
//! - **order-1** has one tree per previous byte (256 trees). After a `q` it
//!   learns to expect `u`; after a space, the start of a word. That breaks
//!   through the order-0 limit that Huffman is stuck at.
//!
//! Stream layout: the range coder's bytes. Empty input gives empty output.
use crate::codec::Codec;
use crate::error::same_bytes;
use crate::error::Error;
use crate::nums::lemma_pow2_values;
use crate::range;
use crate::range::close_window;
use crate::range::lemma_open;
use crate::range::tree_value_decodes;
use crate::range::lemma_tree_ok;
use crate::range::number;
use crate::range::open_window;
use crate::range::probs_ok;
use crate::range::whole;
use crate::range::Coding;
use crate::range::Decoding;
use crate::range::Prob;
use crate::range::PROB_INIT;
use vstd::arithmetic::div_mod::lemma_small_mod;
use vstd::prelude::*;

verus! {

/// Probabilities for one 8-bit tree.
const TREE: usize = 256;

/// Where the tree for the byte at `i` starts: the previous byte picks one of
/// `contexts` trees.
pub open spec fn tree_at(data: Seq<u8>, i: int, contexts: nat) -> int {
    if i == 0 {
        0
    } else {
        (data[i - 1] as int % contexts as int) * 256
    }
}

/// The model before any byte.
pub open spec fn fresh(contexts: nat) -> Seq<u16> {
    Seq::new(contexts * 256, |i: int| 1024u16)
}

/// The encoder after the first `n` bytes.
pub open spec fn coded(data: Seq<u8>, contexts: nat, n: int) -> Coding
    decreases n,
{
    if n <= 0 {
        Coding { iv: whole(), probs: fresh(contexts) }
    } else {
        coded(data, contexts, n - 1).tree(
            tree_at(data, n - 1, contexts),
            1,
            8,
            data[n - 1] as nat,
        )
    }
}

/// `packed` is the stream of `data`: the digits that the encoder ends with.
pub open spec fn is_coded(data: Seq<u8>, contexts: nat, packed: Seq<u8>) -> bool {
    if data.len() == 0 {
        packed.len() == 0
    } else {
        let end = coded(data, contexts, data.len() as int).iv;
        packed.len() == end.digits + 4 && number(packed) == end.low
    }
}

/// The next `n` bytes decoded, behind `out`.
pub open spec fn decoded(d: Decoding, out: Seq<u8>, contexts: nat, n: nat) -> (Seq<u8>, Decoding)
    decreases n,
{
    if n == 0 {
        (out, d)
    } else {
        let (v, e) = d.tree(tree_at(out, out.len() as int, contexts), 1, 8);
        decoded(e, out.push((v - 256) as u8), contexts, (n - 1) as nat)
    }
}

/// What a stream decodes to.
pub open spec fn unranged(packed: Seq<u8>, contexts: nat, expected: nat) -> Result<
    Seq<u8>,
    Error,
> {
    if expected == 0 {
        if packed.len() == 0 {
            Ok(Seq::empty())
        } else {
            Err(Error::Corrupt("data for an empty input"))
        }
    } else {
        match open_window(packed) {
            Err(e) => Err(e),
            Ok(win) => {
                let (out, d) = decoded(
                    Decoding { win, probs: fresh(contexts) },
                    Seq::empty(),
                    contexts,
                    expected,
                );
                match close_window(d.win) {
                    Err(e) => Err(e),
                    Ok(_) => Ok(out),
                }
            },
        }
    }
}

proof fn lemma_tree_at(data: Seq<u8>, i: int, contexts: nat)
    requires
        contexts > 0,
    ensures
        0 <= tree_at(data, i, contexts),
        tree_at(data, i, contexts) + 256 <= contexts * 256,
{
    if i != 0 {
        let c = data[i - 1] as nat % contexts;
        assert(c < contexts);
    }
}

proof fn lemma_coded(data: Seq<u8>, contexts: nat, n: int)
    requires
        contexts > 0,
        0 <= n <= data.len(),
    ensures
        coded(data, contexts, n).ok(),
        coded(data, contexts, n).probs.len() == contexts * 256,
        n > 0 ==> coded(data, contexts, n).iv.inside(coded(data, contexts, n - 1).iv),
    decreases n,
{
    lemma_pow2_values();
    if n > 0 {
        lemma_coded(data, contexts, n - 1);
        lemma_tree_at(data, n - 1, contexts);
        lemma_tree_ok(
            coded(data, contexts, n - 1),
            tree_at(data, n - 1, contexts),
            1,
            8,
            data[n - 1] as nat,
            0,
        );
    } else {
        assert(probs_ok(fresh(contexts)));
    }
}

/// The stream of all bytes is in every interval on the way.
proof fn lemma_holds(data: Seq<u8>, contexts: nat, n: int, s: Seq<u8>)
    requires
        contexts > 0,
        0 <= n <= data.len(),
        coded(data, contexts, data.len() as int).iv.holds(s),
    ensures
        coded(data, contexts, n).iv.holds(s),
    decreases data.len() - n,
{
    if n < data.len() {
        lemma_holds(data, contexts, n + 1, s);
        lemma_coded(data, contexts, n + 1);
    }
}

proof fn lemma_decoded(data: Seq<u8>, contexts: nat, n: int, d: Decoding, s: Seq<u8>)
    requires
        contexts > 0,
        0 <= n <= data.len(),
        coded(data, contexts, data.len() as int).iv.holds(s),
        d.follows(coded(data, contexts, n), s),
    ensures
        ({
            let (out, e) = decoded(d, data.take(n), contexts, (data.len() - n) as nat);
            out == data && e.follows(coded(data, contexts, data.len() as int), s)
        }),
    decreases data.len() - n,
{
    if n == data.len() {
        assert(data.take(n) =~= data);
    } else {
        lemma_pow2_values();
        let c = coded(data, contexts, n);
        let out = data.take(n);
        lemma_coded(data, contexts, n);
        lemma_holds(data, contexts, n + 1, s);
        lemma_tree_at(data, n, contexts);
        assert(tree_at(out, n, contexts) == tree_at(data, n, contexts));
        tree_value_decodes(d, c, tree_at(data, n, contexts), 1, 8, data[n] as nat, 0, s);
        let (v, e) = d.tree(tree_at(data, n, contexts), 1, 8);
        assert(v == 256 + data[n]);
        assert(out.push(data[n]) =~= data.take(n + 1));
        lemma_decoded(data, contexts, n + 1, e, s);
    }
}

/// A stream decodes to the data it was made of.
pub proof fn adaptive_is_lossless(data: Seq<u8>, contexts: nat, packed: Seq<u8>)
    requires
        contexts > 0,
        is_coded(data, contexts, packed),
        packed.len() <= usize::MAX,
    ensures
        unranged(packed, contexts, data.len()) == Ok::<Seq<u8>, Error>(data),
{
    if data.len() == 0 {
        assert(data =~= Seq::<u8>::empty());
    } else {
        assert(packed.take(packed.len() as int) =~= packed);
        lemma_coded(data, contexts, data.len() as int);
        any_digits_are_read(data, contexts, packed);
    }
}

/// Any digits in the interval that coding the data leads to are read as the
/// data, whoever chose them, if there are just as many as the interval has;
/// more are refused.
pub proof fn any_digits_are_read(data: Seq<u8>, contexts: nat, packed: Seq<u8>)
    requires
        contexts > 0,
        data.len() > 0,
        coded(data, contexts, data.len() as int).iv.holds(packed),
        packed.len() <= usize::MAX,
    ensures
        unranged(packed, contexts, data.len()) == if packed.len() == coded(
            data,
            contexts,
            data.len() as int,
        ).iv.digits + 4 {
            Ok::<Seq<u8>, Error>(data)
        } else {
            Err(Error::Corrupt("data after end of range coder stream"))
        },
        unranged(packed, contexts, 0) is Err,
{
    let end = coded(data, contexts, data.len() as int).iv;
    lemma_coded(data, contexts, data.len() as int);
    lemma_holds(data, contexts, 0, packed);
    lemma_open(packed);
    let win = open_window(packed)->Ok_0;
    let d = Decoding { win, probs: fresh(contexts) };
    assert(data.take(0) =~= Seq::<u8>::empty());
    lemma_decoded(data, contexts, 0, d, packed);
    let (out, e) = decoded(d, Seq::empty(), contexts, data.len());
    assert(e.win.follows(end, packed));
}

/// Each byte is coded with a tree: always the same one without contexts, and
/// with 256 contexts the one of the byte before it, the first byte with that
/// of 0. All trees start out even, and nothing else decides.
pub proof fn bytes_go_by_context(data: Seq<u8>, i: int, k: int)
    requires
        0 <= i < data.len(),
        0 <= k < 65536,
    ensures
        coded(data, 1, i + 1) == coded(data, 1, i).tree(0, 1, 8, data[i] as nat),
        coded(data, 256, i + 1) == coded(data, 256, i).tree(
            256 * (if i == 0 {
                0
            } else {
                data[i - 1] as int
            }),
            1,
            8,
            data[i] as nat,
        ),
        coded(data, 1, 0).iv == whole(),
        coded(data, 256, 0).iv == whole(),
        coded(data, 256, 0).probs.len() == 65536,
        coded(data, 256, 0).probs[k] == 1024,
        coded(data, 1, 0).probs.len() == 256,
        k < 256 ==> coded(data, 1, 0).probs[k] == 1024,
{
}

/// A stream is the low end of the interval that coding all bytes leads to,
/// and no bytes have an empty one.
pub proof fn streams_are_digits(data: Seq<u8>, contexts: nat, packed: Seq<u8>)
    ensures
        is_coded(data, contexts, packed) <==> if data.len() == 0 {
            packed.len() == 0
        } else {
            packed.len() == coded(data, contexts, data.len() as int).iv.digits + 4 && number(packed)
                == coded(data, contexts, data.len() as int).iv.low
        },
{
}

fn fresh_model(contexts: usize) -> (probs: Vec<Prob>)
    requires
        0 < contexts <= 256,
    ensures
        probs@ == fresh(contexts as nat),
        probs_ok(probs@),
{
    let probs: Vec<Prob> = vec![PROB_INIT;contexts * TREE];
    assert(probs@ =~= fresh(contexts as nat));
    probs
}

fn compress(input: &[u8], contexts: usize) -> (r: Vec<u8>)
    requires
        0 < contexts <= 256,
    ensures
        is_coded(input@, contexts as nat, r@),
        unranged(r@, contexts as nat, input@.len()) == Ok::<Seq<u8>, Error>(input@),
{
    if input.len() == 0 {
        assert(input@ =~= Seq::<u8>::empty());
        return Vec::new();
    }
    let mut probs = fresh_model(contexts);
    let mut enc = range::Encoder::with_capacity(input.len() / 2);
    let mut prev: usize = 0;
    let mut i: usize = 0;
    while i < input.len()
        invariant
            i <= input@.len(),
            0 < contexts <= 256,
            enc.wf(),
            probs_ok(probs@),
            probs@.len() == contexts * 256,
            i == 0 ==> prev == 0,
            i > 0 ==> prev == input@[i - 1],
            (Coding { iv: enc@, probs: probs@ }) == coded(input@, contexts as nat, i as int),
        decreases input@.len() - i,
    {
        proof {
            lemma_pow2_values();
            lemma_tree_at(input@, i as int, contexts as nat);
            lemma_small_mod(0, contexts as nat);
        }
        let b: u8 = input[i];
        enc.encode_tree_at(&mut probs, (prev % contexts) * TREE, 8, b as u32);
        prev = b as usize;
        i = i + 1;
    }
    let r = enc.finish();
    proof {
        assert(r@.len() == r.len());
        adaptive_is_lossless(input@, contexts as nat, r@);
    }
    r
}

fn decompress(input: &[u8], expected_len: usize, contexts: usize) -> (r: Result<Vec<u8>, Error>)
    requires
        0 < contexts <= 256,
    ensures
        same_bytes(r, unranged(input@, contexts as nat, expected_len as nat)),
        r matches Ok(out) ==> out@.len() == expected_len,
{
    if expected_len == 0 {
        return if input.len() == 0 {
            Ok(Vec::new())
        } else {
            Err(Error::Corrupt("data for an empty input"))
        };
    }
    let mut probs = fresh_model(contexts);
    let mut dec = match range::Decoder::new(input) {
        Err(e) => {
            return Err(e);
        },
        Ok(d) => d,
    };
    let mut out: Vec<u8> = Vec::new();
    let mut prev: usize = 0;
    let ghost goal = decoded(
        Decoding { win: dec@, probs: probs@ },
        Seq::empty(),
        contexts as nat,
        expected_len as nat,
    );
    assert(out@ =~= Seq::<u8>::empty());
    while out.len() < expected_len
        invariant
            out@.len() <= expected_len,
            0 < contexts <= 256,
            dec.wf(),
            probs_ok(probs@),
            probs@.len() == contexts * 256,
            out@.len() == 0 ==> prev == 0,
            out@.len() > 0 ==> prev == out@[out@.len() - 1],
            decoded(
                Decoding { win: dec@, probs: probs@ },
                out@,
                contexts as nat,
                (expected_len - out@.len()) as nat,
            ) == goal,
        decreases expected_len - out@.len(),
    {
        proof {
            lemma_pow2_values();
            lemma_tree_at(out@, out@.len() as int, contexts as nat);
            lemma_small_mod(0, contexts as nat);
        }
        let b: u8 = dec.decode_tree_at(&mut probs, (prev % contexts) * TREE, 8) as u8;
        out.push(b);
        prev = b as usize;
    }
    match dec.finish() {
        Err(e) => Err(e),
        Ok(_) => Ok(out),
    }
}

/// Order-0 adaptive range coder.
#[derive(Debug, Clone, Copy, Default)]
pub struct Range0;

impl Range0 {
    /// A stream gives back the data it was made of.
    pub proof fn lossless(&self, input: Seq<u8>, packed: Seq<u8>)
        requires
            self.packs(input, packed),
            packed.len() <= usize::MAX,
        ensures
            self.unpacked(packed, input.len()) == Ok::<Seq<u8>, Error>(input),
    {
        adaptive_is_lossless(input, 1, packed);
    }

    /// Any digits in the interval that the data leads to, with one tree for all,
    /// give the data, and with more behind them are refused.
    pub proof fn any_stream_is_read(&self, data: Seq<u8>, packed: Seq<u8>)
        requires
            data.len() > 0,
            coded(data, 1, data.len() as int).iv.holds(packed),
            packed.len() <= usize::MAX,
        ensures
            self.unpacked(packed, data.len()) == if packed.len() == coded(
                data,
                1,
                data.len() as int,
            ).iv.digits + 4 {
                Ok::<Seq<u8>, Error>(data)
            } else {
                Err(Error::Corrupt("data after end of range coder stream"))
            },
            self.packs(data, packed) ==> packed.len() == coded(
                data,
                1,
                data.len() as int,
            ).iv.digits + 4,
    {
        any_digits_are_read(data, 1, packed);
    }
}

impl Codec for Range0 {
    open spec fn number(&self) -> u8 {
        6
    }

    open spec fn label(&self) -> Seq<char> {
        "range0"@
    }

    open spec fn about(&self) -> Seq<char> {
        "Adaptive binary range coder, order-0 (no context), LZMA-style"@
    }

    open spec fn accepts(&self, input: Seq<u8>) -> bool {
        true
    }

    open spec fn packs(&self, input: Seq<u8>, packed: Seq<u8>) -> bool {
        is_coded(input, 1, packed)
    }

    open spec fn unpacked(&self, packed: Seq<u8>, expected_len: nat) -> Result<Seq<u8>, Error> {
        unranged(packed, 1, expected_len)
    }

    fn id(&self) -> (r: u8) {
        6
    }

    fn name(&self) -> (r: &'static str) {
        "range0"
    }

    fn description(&self) -> (r: &'static str) {
        "Adaptive binary range coder, order-0 (no context), LZMA-style"
    }

    fn can_compress(&self, _input: &[u8]) -> (r: bool) {
        true
    }

    fn compress(&self, input: &[u8]) -> (r: Vec<u8>) {
        compress(input, 1)
    }

    fn decompress(&self, input: &[u8], expected_len: usize) -> (r: Result<Vec<u8>, Error>) {
        decompress(input, expected_len, 1)
    }
}

/// Order-1 adaptive range coder: the previous byte picks the model.
#[derive(Debug, Clone, Copy, Default)]
pub struct Range1;

impl Range1 {
    /// A stream gives back the data it was made of.
    pub proof fn lossless(&self, input: Seq<u8>, packed: Seq<u8>)
        requires
            self.packs(input, packed),
            packed.len() <= usize::MAX,
        ensures
            self.unpacked(packed, input.len()) == Ok::<Seq<u8>, Error>(input),
    {
        adaptive_is_lossless(input, 256, packed);
    }

    /// Any digits in the interval that the data leads to, with a tree for each byte before,
    /// give the data, and with more behind them are refused.
    pub proof fn any_stream_is_read(&self, data: Seq<u8>, packed: Seq<u8>)
        requires
            data.len() > 0,
            coded(data, 256, data.len() as int).iv.holds(packed),
            packed.len() <= usize::MAX,
        ensures
            self.unpacked(packed, data.len()) == if packed.len() == coded(
                data,
                256,
                data.len() as int,
            ).iv.digits + 4 {
                Ok::<Seq<u8>, Error>(data)
            } else {
                Err(Error::Corrupt("data after end of range coder stream"))
            },
            self.packs(data, packed) ==> packed.len() == coded(
                data,
                256,
                data.len() as int,
            ).iv.digits + 4,
    {
        any_digits_are_read(data, 256, packed);
    }
}

impl Codec for Range1 {
    open spec fn number(&self) -> u8 {
        7
    }

    open spec fn label(&self) -> Seq<char> {
        "range1"@
    }

    open spec fn about(&self) -> Seq<char> {
        "Adaptive binary range coder, order-1 (previous byte as context)"@
    }

    open spec fn accepts(&self, input: Seq<u8>) -> bool {
        true
    }

    open spec fn packs(&self, input: Seq<u8>, packed: Seq<u8>) -> bool {
        is_coded(input, 256, packed)
    }

    open spec fn unpacked(&self, packed: Seq<u8>, expected_len: nat) -> Result<Seq<u8>, Error> {
        unranged(packed, 256, expected_len)
    }

    fn id(&self) -> (r: u8) {
        7
    }

    fn name(&self) -> (r: &'static str) {
        "range1"
    }

    fn description(&self) -> (r: &'static str) {
        "Adaptive binary range coder, order-1 (previous byte as context)"
    }

    fn can_compress(&self, _input: &[u8]) -> (r: bool) {
        true
    }

    fn compress(&self, input: &[u8]) -> (r: Vec<u8>) {
        compress(input, 256)
    }

    fn decompress(&self, input: &[u8], expected_len: usize) -> (r: Result<Vec<u8>, Error>) {
        decompress(input, expected_len, 256)
    }
}

} // verus!
