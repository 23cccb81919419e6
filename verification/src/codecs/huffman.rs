//! Order-0 Huffman coding of bytes.
//!
//! Counts how often each byte value occurs in the whole input, builds one
//! Huffman code from those counts, and writes every byte with it. Common
//! bytes (like `e` and space in English) get short codes, rare ones long.
//!
//! "Order-0" means each byte is coded on its own, ignoring what came before.
//! That caps how well it can do: the best possible is the order-0 entropy
//! (`cmpr entropy` shows it). Beating that needs context or matches, which
//! other codecs add.
//!
//! Stream layout (bits, LSB-first):
//!
//! ```text
//! 256 x 4 bits   code length of each byte value (0 = does not occur)
//! ...            the Huffman code of every input byte
//! ```
//!
//! The 128-byte table is a fixed cost; Deflate stores it more cleverly.
//! Empty input produces empty output.
use crate::bits::bits_of;
use crate::bits::bytes_bits;
use crate::bits::bits_roundtrip;
use crate::bits::padded;
use crate::bits::take_bits;
use crate::bits::zeros;
use crate::bits::BitReader;
use crate::bits::BitWriter;
use crate::codec::Codec;
use crate::counts::byte_counts;
use crate::counts::count_bytes;
use crate::counts::lemma_byte_counts;
use crate::error::Error;
use crate::huffman::check;
use crate::huffman::code_bits;
use crate::huffman::code_lengths;
use crate::huffman::lemma_codes_fit;
use crate::huffman::lengths::lemma_used;
use crate::huffman::lengths::lengths_are_complete;
use crate::huffman::lengths::lengths_for;
use crate::huffman::lengths_ok;
use crate::huffman::optimal::coded_size;
use crate::huffman::optimal::is_code_for;
use crate::huffman::optimal::lengths_are_optimal;
use crate::huffman::optimal::tree_fits;
use crate::huffman::symbols_roundtrip;
use crate::huffman::take_symbol;
use crate::huffman::Decoder;
use crate::huffman::Encoder;
use crate::nums::lemma_pow2_values;
use crate::huffman::lengths_small;
use crate::huffman::slots;
use vstd::prelude::*;

verus! {

/// Code lengths are stored in 4 bits, so 15 is the cap here too.
const MAX_LEN: u32 = 15;

/// The first `n` code lengths, 4 bits each.
pub open spec fn table_bits(lengths: Seq<u8>, n: nat) -> Seq<bool>
    decreases n,
{
    if n == 0 {
        Seq::empty()
    } else {
        table_bits(lengths, (n - 1) as nat) + bits_of(lengths[n - 1] as nat, 4)
    }
}

/// The codes of all bytes.
pub open spec fn codes_bits(lengths: Seq<u8>, data: Seq<u8>) -> Seq<bool>
    decreases data.len(),
{
    if data.len() == 0 {
        Seq::empty()
    } else {
        code_bits(lengths, data[0] as int) + codes_bits(lengths, data.skip(1))
    }
}

/// The code lengths for `data`.
pub open spec fn lengths_of(data: Seq<u8>) -> Seq<u8> {
    lengths_for(byte_counts(data), 15)
}

/// The table and the codes.
pub open spec fn huffman_bits(data: Seq<u8>) -> Seq<bool> {
    table_bits(lengths_of(data), 256) + codes_bits(lengths_of(data), data)
}

/// Reading `n` code lengths.
pub open spec fn take_table(s: Seq<bool>, n: nat) -> Result<(Seq<u8>, Seq<bool>), Error>
    decreases n,
{
    if n == 0 {
        Ok((Seq::empty(), s))
    } else {
        match take_table(s, (n - 1) as nat) {
            Err(e) => Err(e),
            Ok((lengths, s)) => match take_bits(s, 4) {
                Err(e) => Err(e),
                Ok((len, s)) => Ok((lengths.push(len as u8), s)),
            },
        }
    }
}

/// Reading `n` bytes by their codes, behind `out`.
pub open spec fn take_codes(lengths: Seq<u8>, s: Seq<bool>, out: Seq<u8>, n: nat) -> Result<
    Seq<u8>,
    Error,
>
    decreases n,
{
    if n == 0 {
        Ok(out)
    } else {
        match take_symbol(lengths, s) {
            Err(e) => Err(e),
            Ok((b, s)) => take_codes(lengths, s, out.push(b as u8), (n - 1) as nat),
        }
    }
}

/// What a stream decodes to.
pub open spec fn unhuffman(s: Seq<bool>, expected: nat) -> Result<Seq<u8>, Error> {
    if expected == 0 {
        Ok(Seq::empty())
    } else {
        match take_table(s, 256) {
            Err(e) => Err(e),
            Ok((lengths, s)) => if forall|i: int| 0 <= i < 256 ==> #[trigger] lengths[i] == 0 {
                Err(Error::Corrupt("huffman table is empty"))
            } else {
                match check(lengths) {
                    Err(e) => Err(e),
                    Ok(_) => take_codes(lengths, s, Seq::empty(), expected),
                }
            },
        }
    }
}

/// A table that breaks off stays broken.
proof fn lemma_table_err(s: Seq<bool>, n: nat, m: nat)
    requires
        n <= m,
        take_table(s, n) is Err,
    ensures
        take_table(s, m) == take_table(s, n),
    decreases m,
{
    if n < m {
        lemma_table_err(s, n, (m - 1) as nat);
    }
}

proof fn lemma_table(lengths: Seq<u8>, n: nat, rest: Seq<bool>)
    requires
        n <= lengths.len(),
        forall|i: int| 0 <= i < lengths.len() ==> #[trigger] lengths[i] <= 15,
    ensures
        take_table(table_bits(lengths, n) + rest, n) == Ok::<(Seq<u8>, Seq<bool>), Error>(
            (lengths.take(n as int), rest),
        ),
    decreases n,
{
    if n == 0 {
        assert(table_bits(lengths, n) + rest =~= rest);
        assert(lengths.take(0) =~= Seq::<u8>::empty());
    } else {
        lemma_pow2_values();
        let len = lengths[n - 1];
        let b = bits_of(len as nat, 4);
        assert(table_bits(lengths, n) + rest =~= table_bits(lengths, (n - 1) as nat) + (b + rest));
        lemma_table(lengths, (n - 1) as nat, b + rest);
        bits_roundtrip(len as nat, 4, rest);
        assert(lengths.take(n as int) =~= lengths.take(n - 1).push(len));
    }
}

proof fn lemma_codes(lengths: Seq<u8>, data: Seq<u8>, out: Seq<u8>, rest: Seq<bool>)
    requires
        lengths_ok(lengths),
        lengths.len() == 256,
        forall|i: int| 0 <= i < data.len() ==> lengths[(#[trigger] data[i]) as int] > 0,
    ensures
        take_codes(lengths, codes_bits(lengths, data) + rest, out, data.len()) == Ok::<
            Seq<u8>,
            Error,
        >(out + data),
    decreases data.len(),
{
    if data.len() == 0 {
        assert(out + data =~= out);
    } else {
        let b = data[0];
        let more = data.skip(1);
        let s = codes_bits(lengths, more) + rest;
        symbols_roundtrip(lengths, b as int, s);
        assert(codes_bits(lengths, data) + rest =~= code_bits(lengths, b as int) + s);
        lemma_codes(lengths, more, out.push(b), rest);
        assert(out.push(b) + more =~= out + data);
    }
}

/// The lengths form a code in which every byte of the data has a place.
proof fn lemma_lengths(data: Seq<u8>)
    requires
        0 < data.len() <= u64::MAX,
    ensures
        lengths_ok(lengths_of(data)),
        lengths_of(data).len() == 256,
        forall|i: int| 0 <= i < data.len() ==> lengths_of(data)[(#[trigger] data[i]) as int] > 0,
        crate::huffman::lengths::used(byte_counts(data)).len() <= 256,
{
    let counts = byte_counts(data);
    lemma_byte_counts(data);
    lemma_used(counts, 256);
    lemma_pow2_values();
    lengths_are_complete(counts, 15);
    let lengths = lengths_of(data);
    assert forall|i: int| 0 <= i < data.len() implies lengths[(#[trigger] data[i]) as int] > 0 by {
        assert(data.contains(data[i]));
        assert(counts[data[i] as int] > 0);
    }
}

/// The table is four bits for each byte value in order, and the codes stand
/// one behind the other.
pub proof fn streams_are_laid_out(lengths: Seq<u8>, n: nat, data: Seq<u8>, b: u8)
    ensures
        table_bits(lengths, 0) == Seq::<bool>::empty(),
        table_bits(lengths, n + 1) == table_bits(lengths, n) + bits_of(lengths[n as int] as nat, 4),
        codes_bits(lengths, Seq::empty()) == Seq::<bool>::empty(),
        codes_bits(lengths, seq![b] + data) == code_bits(lengths, b as int) + codes_bits(
            lengths,
            data,
        ),
{
    assert((seq![b] + data).skip(1) =~= data);
}

proof fn lemma_table_len(lengths: Seq<u8>, n: nat)
    ensures
        table_bits(lengths, n).len() == 4 * n,
    decreases n,
{
    if n > 0 {
        lemma_table_len(lengths, (n - 1) as nat);
        crate::bits::lemma_bits_of_len(lengths[n - 1] as nat, 4);
    }
}

proof fn lemma_size_one(counts: Seq<u64>, lengths: Seq<u8>, b: int)
    requires
        counts.len() == lengths.len(),
        0 <= b < counts.len(),
        counts[b] < u64::MAX,
    ensures
        coded_size(counts.update(b, (counts[b] + 1) as u64), lengths) == coded_size(counts, lengths)
            + lengths[b],
    decreases counts.len(),
{
    let more = counts.update(b, (counts[b] + 1) as u64);
    if b == counts.len() - 1 {
        assert(more.drop_last() =~= counts.drop_last());
        let (x, y) = (counts[b] as int, lengths[b] as int);
        assert((x + 1) * y == x * y + y) by (nonlinear_arith);
    } else {
        assert(more.drop_last() =~= counts.drop_last().update(b, (counts[b] + 1) as u64));
        assert(more.last() == counts.last());
        lemma_size_one(counts.drop_last(), lengths.drop_last(), b);
    }
}

proof fn lemma_size_none(lengths: Seq<u8>, n: nat)
    requires
        lengths.len() == n,
    ensures
        coded_size(Seq::new(n, |i: int| 0u64), lengths) == 0,
    decreases n,
{
    if n > 0 {
        let m = (n - 1) as nat;
        assert(Seq::new(n, |i: int| 0u64).drop_last() =~= Seq::new(m, |i: int| 0u64));
        lemma_size_none(lengths.drop_last(), m);
        assert(0 * lengths.last() as nat == 0);
    }
}

proof fn lemma_codes_end(lengths: Seq<u8>, data: Seq<u8>)
    requires
        data.len() > 0,
    ensures
        codes_bits(lengths, data) == codes_bits(lengths, data.drop_last()) + code_bits(
            lengths,
            data.last() as int,
        ),
    decreases data.len(),
{
    let more = data.skip(1);
    if more.len() == 0 {
        reveal_with_fuel(codes_bits, 2);
        assert(data.drop_last().len() == 0);
        assert(code_bits(lengths, data[0] as int) + Seq::<bool>::empty() =~= code_bits(
            lengths,
            data[0] as int,
        ));
        assert(Seq::<bool>::empty() + code_bits(lengths, data[0] as int) =~= code_bits(
            lengths,
            data[0] as int,
        ));
    } else {
        lemma_codes_end(lengths, more);
        assert(more.drop_last() =~= data.drop_last().skip(1));
        let (a, b, c) = (
            code_bits(lengths, data[0] as int),
            codes_bits(lengths, more.drop_last()),
            code_bits(lengths, data.last() as int),
        );
        assert(a + (b + c) =~= (a + b) + c);
    }
}

proof fn lemma_codes_len(lengths: Seq<u8>, data: Seq<u8>)
    requires
        lengths.len() == 256,
        data.len() <= u64::MAX,
    ensures
        codes_bits(lengths, data).len() == coded_size(byte_counts(data), lengths),
    decreases data.len(),
{
    if data.len() == 0 {
        lemma_size_none(lengths, 256);
    } else {
        let front = data.drop_last();
        lemma_codes_len(lengths, front);
        lemma_codes_end(lengths, data);
        lemma_byte_counts(front);
        lemma_size_one(byte_counts(front), lengths, data.last() as int);
        crate::bits::lemma_bits_of_len(
            crate::huffman::code_of(lengths, data.last() as int),
            lengths[data.last() as int] as nat,
        );
    }
}

#[derive(Debug, Clone, Copy, Default)]
pub struct Huffman;

impl Huffman {
    /// The table and the codes give back the data they were made of.
    pub proof fn lossless(&self, input: Seq<u8>, packed: Seq<u8>)
        requires
            self.packs(input, packed),
            input.len() <= u64::MAX,
        ensures
            self.unpacked(packed, input.len()) == Ok::<Seq<u8>, Error>(input),
    {
        if input.len() == 0 {
            assert(input =~= Seq::<u8>::empty());
        } else {
            lemma_lengths(input);
            let lengths = lengths_of(input);
            let w = huffman_bits(input);
            let tail = zeros(((8 - w.len() % 8) % 8) as nat);
            let codes = codes_bits(lengths, input) + tail;
            assert(w + tail =~= table_bits(lengths, 256) + codes);
            lemma_table(lengths, 256, codes);
            assert(lengths.take(256) =~= lengths);
            assert(lengths[input[0] as int] > 0);
            lemma_codes(lengths, input, Seq::empty(), tail);
            assert(Seq::<u8>::empty() + input =~= input);
        }
    }

    /// The size is that of the table and of each byte's code, and no other
    /// code would make it smaller, as long as the limit does not bite.
    pub proof fn streams_are_smallest(&self, input: Seq<u8>, packed: Seq<u8>, other: Seq<u8>)
        requires
            self.packs(input, packed),
            0 < input.len() <= u64::MAX,
        ensures
            packed.len() == (1024 + coded_size(byte_counts(input), lengths_of(input)) + 7) / 8,
            tree_fits(byte_counts(input), 15) && is_code_for(byte_counts(input), other, 15)
                ==> packed.len() <= (1024 + coded_size(byte_counts(input), other) + 7) / 8,
    {
        let lengths = lengths_of(input);
        lemma_lengths(input);
        lemma_table_len(lengths, 256);
        lemma_codes_len(lengths, input);
        assert(bytes_bits(packed).len() == 8 * packed.len());
        lemma_byte_counts(input);
        lemma_pow2_values();
        if tree_fits(byte_counts(input), 15) && is_code_for(byte_counts(input), other, 15) {
            lengths_are_optimal(byte_counts(input), 15, other);
        }
    }

    /// A stream with any table that the data can be coded with is read,
    /// whatever follows it.
    pub proof fn any_table_is_read(
        &self,
        lengths: Seq<u8>,
        data: Seq<u8>,
        packed: Seq<u8>,
        tail: Seq<bool>,
    )
        requires
            lengths.len() == 256,
            lengths_ok(lengths),
            data.len() > 0,
            forall|i: int| 0 <= i < data.len() ==> lengths[(#[trigger] data[i]) as int] > 0,
            bytes_bits(packed) == table_bits(lengths, 256) + codes_bits(lengths, data) + tail,
        ensures
            self.unpacked(packed, data.len()) == Ok::<Seq<u8>, Error>(data),
    {
        let codes = codes_bits(lengths, data) + tail;
        assert(table_bits(lengths, 256) + codes_bits(lengths, data) + tail =~= table_bits(
            lengths,
            256,
        ) + codes);
        lemma_table(lengths, 256, codes);
        assert(lengths.take(256) =~= lengths);
        assert(lengths[data[0] as int] > 0);
        lemma_codes(lengths, data, Seq::empty(), tail);
        assert(Seq::<u8>::empty() + data =~= data);
    }

    /// A table without a single code, and one with more codes than there is
    /// room for, are refused.
    pub proof fn bad_tables_are_refused(
        &self,
        lengths: Seq<u8>,
        packed: Seq<u8>,
        tail: Seq<bool>,
        expected: nat,
    )
        requires
            lengths.len() == 256,
            lengths_small(lengths),
            expected > 0,
            bytes_bits(packed) == table_bits(lengths, 256) + tail,
        ensures
            (forall|i: int| 0 <= i < 256 ==> #[trigger] lengths[i] == 0) ==> self.unpacked(
                packed,
                expected,
            ) == Err::<Seq<u8>, Error>(Error::Corrupt("huffman table is empty")),
            slots(lengths) > 32768 && (exists|i: int| 0 <= i < 256 && #[trigger] lengths[i] != 0)
                ==> self.unpacked(packed, expected) == Err::<Seq<u8>, Error>(
                Error::Corrupt("huffman code lengths over-subscribed"),
            ),
    {
        lemma_table(lengths, 256, tail);
        assert(lengths.take(256) =~= lengths);
    }
}

impl Codec for Huffman {
    open spec fn number(&self) -> u8 {
        3
    }

    open spec fn label(&self) -> Seq<char> {
        "huffman"@
    }

    open spec fn about(&self) -> Seq<char> {
        "Order-0 Huffman coding of bytes (canonical, 15-bit max)"@
    }

    open spec fn accepts(&self, input: Seq<u8>) -> bool {
        true
    }

    open spec fn packs(&self, input: Seq<u8>, packed: Seq<u8>) -> bool {
        if input.len() == 0 {
            packed.len() == 0
        } else {
            bytes_bits(packed) == padded(huffman_bits(input))
        }
    }

    open spec fn unpacked(&self, packed: Seq<u8>, expected_len: nat) -> Result<Seq<u8>, Error> {
        unhuffman(bytes_bits(packed), expected_len)
    }

    fn id(&self) -> (r: u8) {
        3
    }

    fn name(&self) -> (r: &'static str) {
        "huffman"
    }

    fn description(&self) -> (r: &'static str) {
        "Order-0 Huffman coding of bytes (canonical, 15-bit max)"
    }

    fn can_compress(&self, _input: &[u8]) -> (r: bool) {
        true
    }

    fn compress(&self, input: &[u8]) -> (r: Vec<u8>) {
        if input.len() == 0 {
            assert(input@ =~= Seq::<u8>::empty());
            return Vec::new();
        }
        let counts = count_bytes(input);
        proof {
            assert(input@.len() == input.len());
            lemma_byte_counts(input@);
            lemma_lengths(input@);
            lemma_pow2_values();
        }
        let lengths = code_lengths(&counts, MAX_LEN);
        let mut w = BitWriter::with_capacity(input.len() / 2);
        let mut i: usize = 0;
        while i < 256
            invariant
                w.wf(),
                i <= 256,
                lengths@.len() == 256,
                lengths_ok(lengths@),
                w@ == table_bits(lengths@, i as nat),
            decreases 256 - i,
        {
            proof {
                lemma_pow2_values();
                assert(lengths@[i as int] <= 15);
            }
            w.write_bits(lengths[i] as u32, 4);
            i = i + 1;
        }
        proof {
            lemma_codes_fit(lengths@);
        }
        let enc = Encoder::from_lengths(&lengths);
        let mut i: usize = 0;
        let ghost target = huffman_bits(input@);
        assert(input@.skip(0) =~= input@);
        while i < input.len()
            invariant
                w.wf(),
                enc.wf(),
                enc.lengths() == lengths@,
                lengths@.len() == 256,
                i <= input@.len(),
                forall|i: int|
                    0 <= i < input@.len() ==> lengths@[(#[trigger] input@[i]) as int] > 0,
                w@ + codes_bits(lengths@, input@.skip(i as int)) == target,
            decreases input@.len() - i,
        {
            let ghost left = input@.skip(i as int);
            let ghost was = w@;
            enc.write(&mut w, input[i] as usize);
            i = i + 1;
            assert(left.skip(1) =~= input@.skip(i as int));
            assert(w@ + codes_bits(lengths@, left.skip(1)) =~= was + codes_bits(lengths@, left));
        }
        assert(w@ =~= target);
        let out = w.finish();
        proof {
            self.lossless(input@, out@);
        }
        out
    }

    fn decompress(&self, input: &[u8], expected_len: usize) -> (r: Result<Vec<u8>, Error>) {
        if expected_len == 0 {
            return Ok(Vec::new());
        }
        let mut r = BitReader::new(input);
        let ghost start = r@;
        let mut lengths: Vec<u8> = Vec::with_capacity(256);
        let mut any: bool = false;
        assert(lengths@ =~= Seq::<u8>::empty());
        while lengths.len() < 256
            invariant
                r.wf(),
                start == bytes_bits(input@),
                lengths@.len() <= 256,
                take_table(start, lengths@.len()) == Ok::<(Seq<u8>, Seq<bool>), Error>(
                    (lengths@, r@),
                ),
                any <==> exists|i: int| 0 <= i < lengths@.len() && #[trigger] lengths@[i] != 0,
                expected_len > 0,
            decreases 256 - lengths@.len(),
        {
            proof {
                lemma_pow2_values();
            }
            let ghost was = lengths@;
            let len: u8 = match r.read_bits(4) {
                Err(e) => {
                    proof {
                        lemma_table_err(start, was.len() + 1, 256);
                    }
                    return Err(e);
                },
                Ok(len) => len as u8,
            };
            lengths.push(len);
            if len != 0 {
                any = true;
            }
            proof {
                assert(lengths@[was.len() as int] == len);
                if exists|i: int| 0 <= i < was.len() && #[trigger] was[i] != 0 {
                    let i = choose|i: int| 0 <= i < was.len() && #[trigger] was[i] != 0;
                    assert(lengths@[i] != 0);
                }
                if exists|i: int| 0 <= i < lengths@.len() && #[trigger] lengths@[i] != 0 {
                    let i = choose|i: int| 0 <= i < lengths@.len() && #[trigger] lengths@[i] != 0;
                    if i < was.len() {
                        assert(was[i] != 0);
                    }
                }
            }
        }
        if !any {
            return Err(Error::Corrupt("huffman table is empty"));
        }
        proof {
            let i = choose|i: int| 0 <= i < lengths@.len() && #[trigger] lengths@[i] != 0;
            assert(lengths@[i] != 0);
        }
        let dec = match Decoder::from_lengths(&lengths) {
            Err(e) => {
                return Err(e);
            },
            Ok(d) => d,
        };
        let mut out: Vec<u8> = Vec::new();
        let ghost target = unhuffman(start, expected_len as nat);
        assert(out@ =~= Seq::<u8>::empty());
        while out.len() < expected_len
            invariant
                r.wf(),
                dec.wf(),
                dec.lengths() == lengths@,
                lengths@.len() == 256,
                out@.len() <= expected_len,
                target == unhuffman(bytes_bits(input@), expected_len as nat),
                take_codes(lengths@, r@, out@, (expected_len - out@.len()) as nat) == target,
            decreases expected_len - out@.len(),
        {
            match dec.read(&mut r) {
                Err(e) => {
                    return Err(e);
                },
                Ok(b) => out.push(b as u8),
            }
        }
        Ok(out)
    }
}

} // verus!
