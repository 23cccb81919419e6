//! PackBits: the classic byte-oriented run-length encoding.
//!
//! Used by TIFF images and Apple's MacPaint. The output is a sequence of
//! packets, each starting with one header byte `h`:
//!
//! | header `h`  | meaning                                            |
//! |-------------|----------------------------------------------------|
//! | 0..=127     | literal: copy the next `h + 1` bytes as-is (1-128) |
//! | 129..=255   | run: repeat the next byte `257 - h` times (2-128)  |
//! | 128         | unused (rejected as corrupt)                       |
//!
//! Strength: never grows data by more than 1 byte per 128 (0.8%).
//! Weakness: a run costs 2 bytes per 128 repeats, so 1 MB of zeros still
//! takes 16 KB. The bit-level [`Rle`](super::Rle) codec fixes that.
use crate::codec::Codec;
use crate::error::Error;
use vstd::prelude::*;
use vstd::slice::slice_subrange;

verus! {

/// Longest literal or run one packet can hold.
const MAX_PACKET: usize = 128;

/// Shorter runs are cheaper to leave inside a literal packet: a 2-byte run
/// costs 2 bytes either way, but splitting a literal adds a header.
const MIN_RUN: usize = 3;

/// How many bytes from `i` on are `b`, up to `max`.
pub open spec fn same_from(data: Seq<u8>, i: int, b: u8, max: nat) -> nat
    decreases max,
{
    if max == 0 || i >= data.len() || data[i] != b {
        0
    } else {
        1 + same_from(data, i + 1, b, (max - 1) as nat)
    }
}

/// How often the byte at `i` repeats from there on, up to `max`.
pub open spec fn run_at(data: Seq<u8>, i: int, max: nat) -> nat {
    same_from(data, i, data[i], max)
}

/// A byte `n` times.
pub open spec fn repeated(b: u8, n: nat) -> Seq<u8> {
    Seq::new(n, |i: int| b)
}

proof fn lemma_same_from(data: Seq<u8>, i: int, b: u8, max: nat)
    requires
        0 <= i <= data.len(),
    ensures
        i + same_from(data, i, b, max) <= data.len(),
        same_from(data, i, b, max) <= max,
        forall|k: int| i <= k < i + same_from(data, i, b, max) ==> data[k] == b,
        same_from(data, i, b, max) < max && i + same_from(data, i, b, max) < data.len() ==> data[i
            + same_from(data, i, b, max)] != b,
    decreases max,
{
    if max > 0 && i < data.len() && data[i] == b {
        lemma_same_from(data, i + 1, b, (max - 1) as nat);
    }
}

/// A run is at least one byte, stays in the data, and holds one value.
pub proof fn lemma_run_at(data: Seq<u8>, i: int, max: nat)
    requires
        0 <= i < data.len(),
        max > 0,
    ensures
        1 <= run_at(data, i, max) <= max,
        i + run_at(data, i, max) <= data.len(),
        data.subrange(i, i + run_at(data, i, max)) == repeated(data[i], run_at(data, i, max)),
        run_at(data, i, max) < max && i + run_at(data, i, max) < data.len() ==> data[i + run_at(
            data,
            i,
            max,
        )] != data[i],
{
    lemma_same_from(data, i, data[i], max);
    let n = run_at(data, i, max);
    assert(data.subrange(i, i + n) =~= repeated(data[i], n));
}

/// `m` equal bytes in a row from `k` on.
pub open spec fn is_run(bytes: Seq<u8>, k: int, m: nat) -> bool {
    0 <= k && k + m <= bytes.len() && forall|j: int|
        k <= j < k + m ==> #[trigger] bytes[j] == bytes[k]
}

/// Nowhere are there `m` equal bytes in a row.
pub open spec fn free_of_runs(bytes: Seq<u8>, m: nat) -> bool {
    forall|k: int| !(#[trigger] is_run(bytes, k, m))
}

/// A short run behind bytes without long ones makes no long one.
pub proof fn lemma_free_of_runs(data: Seq<u8>, start: int, i: int, run: nat, m: nat)
    requires
        0 <= start <= i,
        i + run <= data.len(),
        1 <= run < m,
        free_of_runs(data.subrange(start, i), m),
        data.subrange(i, i + run) == repeated(data[i], run),
        start < i ==> data[i - 1] != data[i],
    ensures
        free_of_runs(data.subrange(start, i + run), m),
{
    let a = data.subrange(start, i);
    let b = data.subrange(start, i + run);
    assert forall|k: int| !(#[trigger] is_run(b, k, m)) by {
        if is_run(b, k, m) {
            if k + m <= a.len() {
                assert forall|j: int| k <= j < k + m implies #[trigger] a[j] == a[k] by {
                    assert(b[j] == b[k]);
                }
                assert(is_run(a, k, m));
            } else if k < a.len() {
                assert(b[a.len() - 1] == b[k]);
                assert(b[a.len() as int] == b[k]);
                assert(b[a.len() - 1] == data[i - 1]);
            }
        }
    }
}

/// Bytes as literal packets of at most 128 bytes each.
pub open spec fn literals(bytes: Seq<u8>) -> Seq<u8>
    decreases bytes.len(),
{
    if bytes.len() == 0 {
        Seq::empty()
    } else {
        let n: int = if bytes.len() < 128 {
            bytes.len() as int
        } else {
            128
        };
        seq![(n - 1) as u8] + bytes.take(n) + literals(bytes.skip(n))
    }
}

/// The packets of `input` from `start` on, with no run worth a packet
/// between `start` and `i`.
pub open spec fn packets(input: Seq<u8>, start: int, i: int) -> Seq<u8>
    decreases input.len() - i,
{
    if i < 0 || i >= input.len() {
        literals(input.subrange(start, input.len() as int))
    } else {
        proof {
            lemma_run_at(input, i, 128);
        }
        let run = run_at(input, i, 128);
        if run >= 3 {
            literals(input.subrange(start, i)) + seq![(257 - run) as u8, input[i]] + packets(
                input,
                i + run,
                i + run,
            )
        } else {
            packets(input, start, i + run)
        }
    }
}

/// What packets decode to, behind `out`.
pub open spec fn unpackbits(s: Seq<u8>, out: Seq<u8>, expected: nat) -> Result<Seq<u8>, Error>
    decreases s.len(),
{
    if s.len() == 0 {
        Ok(out)
    } else if s[0] < 128 {
        let n = s[0] as int + 1;
        if s.len() < 1 + n {
            Err(Error::UnexpectedEof)
        } else if out.len() + n > expected {
            Err(Error::Corrupt("decoded data longer than recorded size"))
        } else {
            unpackbits(s.skip(1 + n), out + s.subrange(1, 1 + n), expected)
        }
    } else if s[0] == 128 {
        Err(Error::Corrupt("packbits header 128 is unused"))
    } else {
        let n = 257 - s[0];
        if s.len() < 2 {
            Err(Error::UnexpectedEof)
        } else if out.len() + n > expected {
            Err(Error::Corrupt("decoded data longer than recorded size"))
        } else {
            unpackbits(s.skip(2), out + repeated(s[1], n as nat), expected)
        }
    }
}

proof fn lemma_literals(bytes: Seq<u8>, rest: Seq<u8>, out: Seq<u8>, expected: nat)
    requires
        out.len() + bytes.len() <= expected,
    ensures
        unpackbits(literals(bytes) + rest, out, expected) == unpackbits(
            rest,
            out + bytes,
            expected,
        ),
    decreases bytes.len(),
{
    if bytes.len() == 0 {
        assert(literals(bytes) + rest =~= rest);
        assert(out + bytes =~= out);
    } else {
        let n: int = if bytes.len() < 128 {
            bytes.len() as int
        } else {
            128
        };
        let s = literals(bytes) + rest;
        let more = literals(bytes.skip(n)) + rest;
        assert(s.skip(1 + n) =~= more);
        assert(s.subrange(1, 1 + n) =~= bytes.take(n));
        lemma_literals(bytes.skip(n), rest, out + bytes.take(n), expected);
        assert(out + bytes.take(n) + bytes.skip(n) =~= out + bytes);
    }
}

proof fn lemma_packets(input: Seq<u8>, start: int, i: int)
    requires
        0 <= start <= i <= input.len(),
    ensures
        unpackbits(packets(input, start, i), input.take(start), input.len()) == Ok::<
            Seq<u8>,
            Error,
        >(input),
    decreases input.len() - i,
{
    let out = input.take(start);
    let n = input.len() as int;
    if i == n {
        let b = input.subrange(start, n);
        lemma_literals(b, Seq::empty(), out, input.len());
        assert(literals(b) + Seq::<u8>::empty() =~= literals(b));
        assert(out + b =~= input);
    } else {
        lemma_run_at(input, i, 128);
        let run = run_at(input, i, 128);
        if run >= 3 {
            let b = input.subrange(start, i);
            let tail = packets(input, i + run, i + run);
            let s = seq![(257 - run) as u8, input[i]] + tail;
            lemma_literals(b, s, out, input.len());
            assert(literals(b) + seq![(257 - run) as u8, input[i]] + tail =~= literals(b) + s);
            assert(s.skip(2) =~= tail);
            assert(out + b + repeated(input[i], run) =~= input.take(i + run)) by {
                assert(input.take(i + run) =~= out + b + input.subrange(i, i + run));
            }
            lemma_packets(input, i + run, i + run);
        } else {
            lemma_packets(input, start, i + run);
        }
    }
}

/// The size of literal packets: one header per 128 bytes.
proof fn lemma_literals_len(bytes: Seq<u8>)
    ensures
        literals(bytes).len() == bytes.len() + (bytes.len() + 127) / 128,
    decreases bytes.len(),
{
    if bytes.len() > 0 {
        let n: int = if bytes.len() < 128 {
            bytes.len() as int
        } else {
            128
        };
        lemma_literals_len(bytes.skip(n));
    }
}

proof fn lemma_packets_len(input: Seq<u8>, start: int, i: int)
    requires
        0 <= start <= i <= input.len(),
    ensures
        128 * packets(input, start, i).len() <= 129 * (input.len() - start) + 127,
    decreases input.len() - i,
{
    if i < input.len() {
        lemma_run_at(input, i, 128);
        let run = run_at(input, i, 128);
        if run >= 3 {
            lemma_literals_len(input.subrange(start, i));
            lemma_packets_len(input, i + run, i + run);
        } else {
            lemma_packets_len(input, start, i + run);
        }
    } else {
        lemma_literals_len(input.subrange(start, input.len() as int));
    }
}

/// Data never grows by more than one byte per 128, begun.
pub proof fn growth_is_bounded(input: Seq<u8>)
    ensures
        packets(input, 0, 0).len() <= input.len() + (input.len() + 127) / 128,
{
    lemma_packets_len(input, 0, 0);
}

/// A stretch of bytes that goes into literal packets, or into one run packet.
pub ghost enum Stretch {
    Literal { bytes: Seq<u8> },
    Run { byte: u8, n: nat },
}

/// `packed` holds `bytes` in literal packets: before every 128 bytes stands
/// a header, one less than the number of bytes up to the next one.
pub open spec fn in_literals(bytes: Seq<u8>, packed: Seq<u8>) -> bool {
    &&& packed.len() == bytes.len() + (bytes.len() + 127) / 128
    &&& forall|i: int|
        #![trigger bytes[i]]
        0 <= i < bytes.len() ==> packed[129 * (i / 128) + 1 + i % 128] == bytes[i]
            && packed[129 * (i / 128)] == (if bytes.len() - 128 * (i / 128) < 128 {
            bytes.len() - 128 * (i / 128) - 1
        } else {
            127
        })
}

impl Stretch {
    /// The bytes.
    pub open spec fn bytes(self) -> Seq<u8> {
        match self {
            Stretch::Literal { bytes } => bytes,
            Stretch::Run { byte, n } => Seq::new(n, |i: int| byte),
        }
    }

    /// `packed` holds the stretch.
    pub open spec fn packs_to(self, packed: Seq<u8>) -> bool {
        match self {
            Stretch::Literal { bytes } => in_literals(bytes, packed),
            Stretch::Run { byte, n } => packed == seq![(257 - n) as u8, byte],
        }
    }

    /// No literal holds three equal bytes in a row, and a run is worth its
    /// packet and fits in it.
    pub open spec fn fair(self) -> bool {
        match self {
            Stretch::Literal { bytes } => bytes.len() > 0 && free_of_runs(bytes, 3),
            Stretch::Run { n, .. } => 3 <= n <= 128,
        }
    }

    /// The two belong apart: they are not both literals, and a run ends
    /// where its byte does unless its packet is full.
    pub open spec fn apart(self, next: Stretch) -> bool {
        &&& self is Run || next is Run
        &&& self.bytes().last() != next.bytes()[0] || (self is Run && self->n == 128)
    }
}

/// All bytes.
pub open spec fn joined(cut: Seq<Stretch>) -> Seq<u8>
    decreases cut.len(),
{
    if cut.len() == 0 {
        Seq::empty()
    } else {
        cut[0].bytes() + joined(cut.skip(1))
    }
}

/// All parts, one behind the other.
pub open spec fn glued(parts: Seq<Seq<u8>>) -> Seq<u8>
    decreases parts.len(),
{
    if parts.len() == 0 {
        Seq::empty()
    } else {
        parts[0] + glued(parts.skip(1))
    }
}

/// Each part holds its stretch.
pub open spec fn all_packed(cut: Seq<Stretch>, parts: Seq<Seq<u8>>) -> bool {
    &&& parts.len() == cut.len()
    &&& forall|i: int| 0 <= i < cut.len() ==> (#[trigger] cut[i]).packs_to(parts[i])
}

/// Every run of three or more bytes is in run packets that are as full as
/// they can be, and what lies between two of them is one stretch of literals.
pub open spec fn cut_at_runs(cut: Seq<Stretch>) -> bool {
    &&& forall|i: int| 0 <= i < cut.len() ==> (#[trigger] cut[i]).fair()
    &&& forall|i: int| 0 < i < cut.len() ==> cut[i - 1].apart(#[trigger] cut[i])
}

/// Where a byte stands in literal packets, and its header.
proof fn lemma_literal_at(bytes: Seq<u8>, i: int, k: int, j: int)
    requires
        0 <= k,
        0 <= j < 128,
        i == 128 * k + j,
        i < bytes.len(),
    ensures
        129 * k + 1 + j < literals(bytes).len(),
        literals(bytes)[129 * k + 1 + j] == bytes[i],
        literals(bytes)[129 * k] == (if bytes.len() - 128 * k < 128 {
            bytes.len() - 128 * k - 1
        } else {
            127
        }),
    decreases k,
{
    let n: int = if bytes.len() < 128 {
        bytes.len() as int
    } else {
        128
    };
    let packed = literals(bytes);
    let rest = literals(bytes.skip(n));
    assert(packed == seq![(n - 1) as u8] + bytes.take(n) + rest);
    if k == 0 {
        assert(packed[1 + i] == bytes.take(n)[i]);
    } else {
        lemma_literal_at(bytes.skip(n), i - 128, k - 1, j);
        assert(packed[129 * k] == rest[129 * (k - 1)]);
        assert(packed[129 * k + 1 + j] == rest[129 * (k - 1) + 1 + j]);
    }
}

proof fn lemma_in_literals(bytes: Seq<u8>)
    ensures
        in_literals(bytes, literals(bytes)),
{
    lemma_literals_len(bytes);
    assert forall|i: int| #![trigger bytes[i]] 0 <= i < bytes.len() implies literals(bytes)[129 * (i
        / 128) + 1 + i % 128] == bytes[i] && literals(bytes)[129 * (i / 128)] == (if bytes.len()
        - 128 * (i / 128) < 128 {
        bytes.len() - 128 * (i / 128) - 1
    } else {
        127
    }) by {
        lemma_literal_at(bytes, i, i / 128, i % 128);
    }
}

proof fn lemma_cons(s: Stretch, front: Seq<u8>, cut: Seq<Stretch>, parts: Seq<Seq<u8>>)
    requires
        s.packs_to(front),
        all_packed(cut, parts),
    ensures
        joined(seq![s] + cut) == s.bytes() + joined(cut),
        glued(seq![front] + parts) == front + glued(parts),
        all_packed(seq![s] + cut, seq![front] + parts),
        s.fair() && cut_at_runs(cut) && (cut.len() > 0 ==> s.apart(cut[0])) ==> cut_at_runs(
            seq![s] + cut,
        ),
{
    let all = seq![s] + cut;
    let both = seq![front] + parts;
    assert(all.skip(1) =~= cut);
    assert(both.skip(1) =~= parts);
    assert forall|i: int| 0 <= i < all.len() implies (#[trigger] all[i]).packs_to(both[i]) by {
        if i > 0 {
            assert(all[i] == cut[i - 1] && both[i] == parts[i - 1]);
        }
    }
    if s.fair() && cut_at_runs(cut) && (cut.len() > 0 ==> s.apart(cut[0])) {
        assert forall|i: int| 0 <= i < all.len() implies (#[trigger] all[i]).fair() by {
            if i > 0 {
                assert(all[i] == cut[i - 1]);
            }
        }
        assert forall|i: int| 0 < i < all.len() implies all[i - 1].apart(#[trigger] all[i]) by {
            assert(all[i] == cut[i - 1]);
            if i > 1 {
                assert(cut[i - 2].apart(cut[i - 1]));
            }
        }
    }
}

proof fn lemma_cut(input: Seq<u8>, start: int, i: int) -> (r: (Seq<Stretch>, Seq<Seq<u8>>))
    requires
        0 <= start <= i <= input.len(),
        free_of_runs(input.subrange(start, i), 3),
        start < i < input.len() ==> input[i - 1] != input[i],
    ensures
        joined(r.0) == input.skip(start),
        all_packed(r.0, r.1),
        glued(r.1) == packets(input, start, i),
        cut_at_runs(r.0),
        r.0.len() > 0 <==> start < input.len(),
        r.0.len() > 0 ==> r.0[0].bytes()[0] == input[start],
    decreases input.len() - i,
{
    let n = input.len() as int;
    if i == n {
        let b = input.subrange(start, n);
        assert(b =~= input.skip(start));
        if start == n {
            (Seq::empty(), Seq::empty())
        } else {
            let s = Stretch::Literal { bytes: b };
            lemma_in_literals(b);
            lemma_cons(s, literals(b), Seq::empty(), Seq::empty());
            assert(seq![s] + Seq::<Stretch>::empty() =~= seq![s]);
            assert(seq![literals(b)] + Seq::<Seq<u8>>::empty() =~= seq![literals(b)]);
            assert(literals(b) + Seq::<u8>::empty() =~= literals(b));
            assert(s.bytes() + Seq::<u8>::empty() =~= s.bytes());
            (seq![s], seq![literals(b)])
        }
    } else {
        lemma_run_at(input, i, 128);
        let run = run_at(input, i, 128);
        let end = i + run;
        if run >= 3 {
            assert(input.subrange(end, end) =~= Seq::<u8>::empty());
            let (more, parts) = lemma_cut(input, end, end);
            let r = Stretch::Run { byte: input[i], n: run };
            let packet = seq![(257 - run) as u8, input[i]];
            let after = packets(input, end, end);
            assert(r.bytes() =~= input.subrange(i, end));
            lemma_cons(r, packet, more, parts);
            let tail = seq![r] + more;
            let tail_parts = seq![packet] + parts;
            assert(r.bytes().last() == input[i]);
            assert(joined(tail) =~= input.skip(i));
            let b = input.subrange(start, i);
            assert(packets(input, start, i) =~= literals(b) + (packet + after));
            if start == i {
                assert(literals(b) + (packet + after) =~= packet + after);
                (tail, tail_parts)
            } else {
                let s = Stretch::Literal { bytes: b };
                lemma_in_literals(b);
                lemma_cons(s, literals(b), tail, tail_parts);
                assert(tail[0] == r);
                assert(b.last() == input[i - 1]);
                assert(b + input.skip(i) =~= input.skip(start));
                (seq![s] + tail, seq![literals(b)] + tail_parts)
            }
        } else {
            lemma_free_of_runs(input, start, i, run, 3);
            assert(input.subrange(i, end)[run - 1] == input[i]);
            lemma_cut(input, start, end)
        }
    }
}

/// One packet of any encoder.
pub ghost enum Packet {
    Literal { bytes: Seq<u8> },
    Run { byte: u8, n: nat },
}

impl Packet {
    /// A packet holds 1 to 128 bytes, or one byte 2 to 128 times.
    pub open spec fn ok(self) -> bool {
        match self {
            Packet::Literal { bytes } => 1 <= bytes.len() <= 128,
            Packet::Run { n, .. } => 2 <= n <= 128,
        }
    }

    /// What it stands for.
    pub open spec fn bytes(self) -> Seq<u8> {
        match self {
            Packet::Literal { bytes } => bytes,
            Packet::Run { byte, n } => Seq::new(n, |i: int| byte),
        }
    }

    /// Its header and what follows that.
    pub open spec fn coded(self) -> Seq<u8> {
        match self {
            Packet::Literal { bytes } => seq![(bytes.len() - 1) as u8] + bytes,
            Packet::Run { byte, n } => seq![(257 - n) as u8, byte],
        }
    }
}

/// What all packets stand for.
pub open spec fn packets_bytes(packets: Seq<Packet>) -> Seq<u8>
    decreases packets.len(),
{
    if packets.len() == 0 {
        Seq::empty()
    } else {
        packets[0].bytes() + packets_bytes(packets.skip(1))
    }
}

/// All packets, one behind the other.
pub open spec fn packets_coded(packets: Seq<Packet>) -> Seq<u8>
    decreases packets.len(),
{
    if packets.len() == 0 {
        Seq::empty()
    } else {
        packets[0].coded() + packets_coded(packets.skip(1))
    }
}

proof fn lemma_packet_read(packet: Packet, rest: Seq<u8>, out: Seq<u8>, expected: nat)
    requires
        packet.ok(),
    ensures
        unpackbits(packet.coded() + rest, out, expected) == if out.len() + packet.bytes().len()
            > expected {
            Err::<Seq<u8>, Error>(Error::Corrupt("decoded data longer than recorded size"))
        } else {
            unpackbits(rest, out + packet.bytes(), expected)
        },
{
    let s = packet.coded() + rest;
    match packet {
        Packet::Literal { bytes } => {
            let n = bytes.len() as int;
            assert(s.skip(1 + n) =~= rest);
            assert(s.subrange(1, 1 + n) =~= bytes);
        },
        Packet::Run { byte, n } => {
            assert(s.skip(2) =~= rest);
            assert(packet.bytes() =~= repeated(byte, n));
        },
    }
}

proof fn lemma_packets_read(packets: Seq<Packet>, rest: Seq<u8>, out: Seq<u8>, expected: nat)
    requires
        forall|i: int| 0 <= i < packets.len() ==> (#[trigger] packets[i]).ok(),
        out.len() + packets_bytes(packets).len() <= expected,
    ensures
        unpackbits(packets_coded(packets) + rest, out, expected) == unpackbits(
            rest,
            out + packets_bytes(packets),
            expected,
        ),
    decreases packets.len(),
{
    if packets.len() == 0 {
        assert(packets_coded(packets) + rest =~= rest);
        assert(out + packets_bytes(packets) =~= out);
    } else {
        let p = packets[0];
        let more = packets.skip(1);
        assert forall|i: int| 0 <= i < more.len() implies (#[trigger] more[i]).ok() by {
            assert(more[i] == packets[i + 1]);
        }
        assert(packets_coded(packets) + rest =~= p.coded() + (packets_coded(more) + rest));
        lemma_packet_read(p, packets_coded(more) + rest, out, expected);
        lemma_packets_read(more, rest, out + p.bytes(), expected);
        assert(out + p.bytes() + packets_bytes(more) =~= out + packets_bytes(packets));
    }
}

#[derive(Debug, Clone, Copy, Default)]
pub struct PackBits;

impl PackBits {
    /// Packets give back the data they were made of.
    pub proof fn lossless(&self, input: Seq<u8>, packed: Seq<u8>)
        requires
            self.packs(input, packed),
        ensures
            self.unpacked(packed, input.len()) == Ok::<Seq<u8>, Error>(input),
    {
        assert(input.take(0) =~= Seq::<u8>::empty());
        lemma_packets(input, 0, 0);
    }

    /// Every run of three or more equal bytes gets run packets, as full as
    /// they can be, and all else literal packets of 128 bytes.
    pub proof fn runs_are_found(&self, input: Seq<u8>, packed: Seq<u8>)
        requires
            self.packs(input, packed),
        ensures
            exists|cut: Seq<Stretch>, parts: Seq<Seq<u8>>| #[trigger]
                all_packed(cut, parts) && cut_at_runs(cut) && joined(cut) == input && glued(parts)
                    == packed,
    {
        assert(input.subrange(0, 0) =~= Seq::<u8>::empty());
        let (cut, parts) = lemma_cut(input, 0, 0);
        assert(input.skip(0) =~= input);
        assert(all_packed(cut, parts));
    }

    /// Any packets give back the bytes they stand for, whoever made them;
    /// more than are expected are refused.
    pub proof fn packets_are_read(&self, packets: Seq<Packet>, expected: nat)
        requires
            forall|i: int| 0 <= i < packets.len() ==> (#[trigger] packets[i]).ok(),
            packets_bytes(packets).len() <= expected,
        ensures
            self.unpacked(packets_coded(packets), expected) == Ok::<Seq<u8>, Error>(
                packets_bytes(packets),
            ),
    {
        let none = Seq::<u8>::empty();
        lemma_packets_read(packets, none, none, expected);
        assert(packets_coded(packets) + none =~= packets_coded(packets));
        assert(none + packets_bytes(packets) =~= packets_bytes(packets));
    }

    /// Behind any packets: one for more bytes than are expected is refused,
    /// and so are the unused header and a packet that is cut short.
    pub proof fn bad_packets_are_refused(
        &self,
        packets: Seq<Packet>,
        bad: Packet,
        n: int,
        rest: Seq<u8>,
        expected: nat,
    )
        requires
            forall|i: int| 0 <= i < packets.len() ==> (#[trigger] packets[i]).ok(),
            packets_bytes(packets).len() <= expected,
            bad.ok(),
            0 < n < bad.coded().len(),
        ensures
            packets_bytes(packets).len() + bad.bytes().len() > expected ==> self.unpacked(
                packets_coded(packets) + (bad.coded() + rest),
                expected,
            ) == Err::<Seq<u8>, Error>(Error::Corrupt("decoded data longer than recorded size")),
            self.unpacked(packets_coded(packets) + (seq![128u8] + rest), expected) == Err::<
                Seq<u8>,
                Error,
            >(Error::Corrupt("packbits header 128 is unused")),
            self.unpacked(packets_coded(packets) + bad.coded().take(n), expected) == Err::<
                Seq<u8>,
                Error,
            >(Error::UnexpectedEof),
    {
        let none = Seq::<u8>::empty();
        let all = packets_bytes(packets);
        assert(none + all =~= all);
        lemma_packets_read(packets, bad.coded() + rest, none, expected);
        lemma_packet_read(bad, rest, all, expected);
        lemma_packets_read(packets, seq![128u8] + rest, none, expected);
        assert((seq![128u8] + rest)[0] == 128);
        lemma_packets_read(packets, bad.coded().take(n), none, expected);
        assert(bad.coded().take(n)[0] == bad.coded()[0]);
    }
}

impl Codec for PackBits {
    open spec fn number(&self) -> u8 {
        1
    }

    open spec fn label(&self) -> Seq<char> {
        "packbits"@
    }

    open spec fn about(&self) -> Seq<char> {
        "Byte-oriented run-length encoding (TIFF PackBits)"@
    }

    open spec fn accepts(&self, input: Seq<u8>) -> bool {
        true
    }

    open spec fn packs(&self, input: Seq<u8>, packed: Seq<u8>) -> bool {
        packed == packets(input, 0, 0)
    }

    open spec fn unpacked(&self, packed: Seq<u8>, expected_len: nat) -> Result<Seq<u8>, Error> {
        unpackbits(packed, Seq::empty(), expected_len)
    }

    fn id(&self) -> (r: u8) {
        1
    }

    fn name(&self) -> (r: &'static str) {
        "packbits"
    }

    fn description(&self) -> (r: &'static str) {
        "Byte-oriented run-length encoding (TIFF PackBits)"
    }

    fn can_compress(&self, _input: &[u8]) -> (r: bool) {
        true
    }

    fn compress(&self, input: &[u8]) -> (r: Vec<u8>) {
        let mut out: Vec<u8> = Vec::with_capacity(input.len());
        let mut start: usize = 0;
        let mut i: usize = 0;
        let ghost target = packets(input@, 0, 0);
        assert(out@ + target =~= target);
        while i < input.len()
            invariant
                start <= i <= input@.len(),
                input@.len() == input.len(),
                out@ + packets(input@, start as int, i as int) == target,
            decreases input@.len() - i,
        {
            proof {
                lemma_run_at(input@, i as int, 128);
            }
            let run: usize = run_length(input, i, MAX_PACKET);
            if run >= MIN_RUN {
                let ghost was = out@;
                let ghost here = packets(input@, start as int, i as int);
                emit_literals(&mut out, input, start, i);
                out.push((257 - run) as u8);
                out.push(input[i]);
                i = i + run;
                start = i;
                assert(out@ + packets(input@, start as int, i as int) =~= was + here);
            } else {
                i = i + run;
            }
        }
        emit_literals(&mut out, input, start, input.len());
        assert(out@ =~= target);
        proof {
            self.lossless(input@, out@);
        }
        out
    }

    fn decompress(&self, input: &[u8], expected_len: usize) -> (r: Result<Vec<u8>, Error>) {
        let mut out: Vec<u8> = Vec::new();
        let mut i: usize = 0;
        let ghost target = unpackbits(input@, Seq::empty(), expected_len as nat);
        assert(input@.skip(0) =~= input@);
        assert(out@ =~= Seq::<u8>::empty());
        while i < input.len()
            invariant
                i <= input@.len(),
                input@.len() == input.len(),
                out@.len() <= expected_len,
                target == unpackbits(input@, Seq::empty(), expected_len as nat),
                unpackbits(input@.skip(i as int), out@, expected_len as nat) == target,
            decreases input@.len() - i,
        {
            let header: u8 = input[i];
            let ghost s = input@.skip(i as int);
            if header < 128 {
                let n: usize = header as usize + 1;
                if input.len() - i - 1 < n {
                    return Err(Error::UnexpectedEof);
                }
                if n > expected_len - out.len() {
                    return Err(Error::Corrupt("decoded data longer than recorded size"));
                }
                let ghost was = out@;
                out.extend_from_slice(slice_subrange(input, i + 1, i + 1 + n));
                proof {
                    assert(out@ =~= was + s.subrange(1, 1 + n));
                    assert(input@.subrange(i + 1, i + 1 + n) =~= s.subrange(1, 1 + n));
                    assert(s.skip(1 + n) =~= input@.skip(i + 1 + n));
                }
                i = i + 1 + n;
            } else if header == 128 {
                return Err(Error::Corrupt("packbits header 128 is unused"));
            } else {
                let n: usize = 257 - header as usize;
                if input.len() - i < 2 {
                    return Err(Error::UnexpectedEof);
                }
                if n > expected_len - out.len() {
                    return Err(Error::Corrupt("decoded data longer than recorded size"));
                }
                push_run(&mut out, input[i + 1], n);
                assert(s.skip(2) =~= input@.skip(i + 2));
                i = i + 2;
            }
        }
        Ok(out)
    }
}

/// Number of times the byte at `i` repeats from there on, up to `max`.
pub fn run_length(data: &[u8], i: usize, max: usize) -> (r: usize)
    requires
        i < data@.len(),
    ensures
        r == run_at(data@, i as int, max as nat),
        r <= data@.len() - i,
{
    let first: u8 = data[i];
    let mut n: usize = 0;
    while n < max && n < data.len() - i && data[i + n] == first
        invariant
            i < data@.len(),
            n <= max,
            n <= data@.len() - i,
            data@.len() == data.len(),
            n + same_from(data@, i + n, first, (max - n) as nat) == same_from(
                data@,
                i as int,
                first,
                max as nat,
            ),
        decreases max - n,
    {
        n = n + 1;
    }
    n
}

/// Append a byte `n` times.
pub fn push_run(out: &mut Vec<u8>, b: u8, n: usize)
    ensures
        final(out)@ == old(out)@ + repeated(b, n as nat),
{
    let ghost start = out@;
    let mut i: usize = 0;
    assert(out@ =~= start + repeated(b, 0));
    while i < n
        invariant
            i <= n,
            out@ == start + repeated(b, i as nat),
        decreases n - i,
    {
        out.push(b);
        i = i + 1;
        assert(out@ =~= start + repeated(b, i as nat));
    }
}

/// Write the bytes from `start` to `end` as literal packets of at most 128
/// bytes each.
fn emit_literals(out: &mut Vec<u8>, input: &[u8], start: usize, end: usize)
    requires
        start <= end <= input@.len(),
    ensures
        final(out)@ == old(out)@ + literals(input@.subrange(start as int, end as int)),
{
    let ghost target = out@ + literals(input@.subrange(start as int, end as int));
    let mut i: usize = start;
    while i < end
        invariant
            i <= end <= input@.len(),
            out@ + literals(input@.subrange(i as int, end as int)) == target,
        decreases end - i,
    {
        let n: usize = if end - i < MAX_PACKET {
            end - i
        } else {
            MAX_PACKET
        };
        let ghost was = out@;
        let ghost left = input@.subrange(i as int, end as int);
        out.push((n - 1) as u8);
        out.extend_from_slice(slice_subrange(input, i, i + n));
        proof {
            assert(left.take(n as int) =~= input@.subrange(i as int, i + n));
            assert(left.skip(n as int) =~= input@.subrange(i + n, end as int));
            assert(out@ + literals(left.skip(n as int)) =~= was + literals(left));
        }
        i = i + n;
    }
    assert(out@ =~= target);
}

} // verus!
