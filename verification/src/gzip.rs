//! The gzip file format (RFC 1952): a small header, a Deflate stream, then
//! a CRC-32 and the original size.
//!
//! ```text
//! 1F 8B  08  FLG  MTIME(4)  XFL  OS  [optional fields]  deflate...  CRC32(4)  ISIZE(4)
//! ```
//!
//! A `.gz` file may hold several of these "members" back to back; they
//! decompress to their outputs joined together.
//!
//! Reference: <https://www.rfc-editor.org/rfc/rfc1952>
use crate::bits::bytes_bits;
use crate::bits::padded;
use crate::crc32::changed_byte_is_seen;
use crate::crc32::crc32;
use crate::crc32::crc_of;
use crate::deflate::blocks::deflate_is_lossless;
use crate::deflate::blocks::deflated_bits;
use crate::deflate::deflate;
use crate::deflate::format::inflated;
use crate::deflate::format::lemma_inflated;
use crate::deflate::inflate;
use crate::error::same_bytes;
use crate::error::Error;
use crate::nums::le_bytes;
use crate::nums::le_value;
use crate::nums::lemma_le_bytes;
use crate::nums::lemma_pow2_values;
use crate::nums::push_le;
use crate::nums::read_le;
use vstd::prelude::*;
use vstd::slice::slice_subrange;

verus! {

const MAGIC: [u8; 2] = [0x1F, 0x8B];

const METHOD_DEFLATE: u8 = 8;

/// "Unknown" operating system. Keeps output identical on every platform.
const OS_UNKNOWN: u8 = 255;

/// The hint in the header on how hard the encoder tried.
pub open spec fn effort(level: u8) -> u8 {
    if level == 9 {
        2  // "maximum compression"
    } else if level <= 1 {
        4  // "fastest"
    } else {
        0
    }
}

/// The header of a member: no optional fields, no time.
pub open spec fn member_header(level: u8) -> Seq<u8> {
    seq![0x1F, 0x8B, 8, 0, 0, 0, 0, 0, effort(level), 255]
}

/// The end of a member: the CRC and the size mod 2^32.
pub open spec fn member_trailer(data: Seq<u8>) -> Seq<u8> {
    le_bytes(crc_of(data) as nat, 4) + le_bytes(data.len() % 0x1_0000_0000, 4)
}

/// `file` is the gzip file of `data` at a level.
pub open spec fn is_member(file: Seq<u8>, data: Seq<u8>, level: u8) -> bool {
    &&& file.len() >= 18
    &&& file.take(10) == member_header(level)
    &&& bytes_bits(file.subrange(10, file.len() - 8)) == padded(deflated_bits(data, level))
    &&& file.skip(file.len() - 8) == member_trailer(data)
}

/// Whether the flag worth `value` is set.
pub open spec fn has_flag(flags: u8, value: u8) -> bool {
    flags / value % 2 == 1
}

/// Where the first zero byte from `pos` on stands.
pub open spec fn zero_from(data: Seq<u8>, pos: nat) -> Option<nat>
    decreases data.len() - pos,
{
    if pos >= data.len() {
        None
    } else if data[pos as int] == 0 {
        Some(pos)
    } else {
        zero_from(data, pos + 1)
    }
}

/// The position behind a zero-terminated text at `pos`, if there is one.
pub open spec fn after_text(data: Seq<u8>, pos: nat, present: bool) -> Result<nat, Error> {
    if !present {
        Ok(pos)
    } else {
        match zero_from(data, pos) {
            None => Err(Error::UnexpectedEof),
            Some(end) => Ok(end + 1),
        }
    }
}

/// The position behind the extra field, if there is one.
pub open spec fn after_extra(data: Seq<u8>, present: bool) -> Result<nat, Error> {
    if !present {
        Ok(10)
    } else if data.len() < 12 {
        Err(Error::UnexpectedEof)
    } else {
        Ok(12 + le_value(data.subrange(10, 12)))
    }
}

/// The length of the member header that `data` starts with.
#[verifier::opaque]
pub open spec fn header_size(data: Seq<u8>) -> Result<nat, Error> {
    if data.len() < 10 {
        Err(Error::UnexpectedEof)
    } else if data[0] != 0x1F || data[1] != 0x8B {
        Err(Error::Corrupt("not a gzip file"))
    } else if data[2] != 8 {
        Err(Error::Corrupt("gzip compression method is not deflate"))
    } else if data[3] >= 32 {
        Err(Error::Corrupt("reserved gzip flags set"))
    } else {
        match after_extra(data, has_flag(data[3], 4)) {
            Err(e) => Err(e),
            Ok(pos) => match after_text(data, pos, has_flag(data[3], 8)) {
                Err(e) => Err(e),
                Ok(pos) => match after_text(data, pos, has_flag(data[3], 16)) {
                    Err(e) => Err(e),
                    Ok(pos) => {
                        let end = if has_flag(data[3], 2) {
                            pos + 2
                        } else {
                            pos
                        };
                        if end > data.len() {
                            Err(Error::UnexpectedEof)
                        } else {
                            Ok(end)
                        }
                    },
                },
            },
        }
    }
}

/// The member that `file` starts with: its data, and the length of the
/// member.
#[verifier::opaque]
pub open spec fn take_member(file: Seq<u8>, limit: nat) -> Result<(Seq<u8>, nat), Error> {
    match header_size(file) {
        Err(e) => Err(e),
        Ok(start) => match inflated(file.skip(start as int), limit) {
            Err(e) => Err(e),
            Ok((data, consumed)) => {
                let end = (start + consumed) as int;
                if end + 8 > file.len() {
                    Err(Error::UnexpectedEof)
                } else {
                    let expected = le_value(file.subrange(end, end + 4)) as u32;
                    let size = le_value(file.subrange(end + 4, end + 8));
                    if crc_of(data) != expected {
                        Err(Error::ChecksumMismatch { expected, actual: crc_of(data) })
                    } else if data.len() % 0x1_0000_0000 != size {
                        Err(Error::Corrupt("gzip size field does not match"))
                    } else {
                        Ok((data, (end + 8) as nat))
                    }
                }
            },
        },
    }
}

/// What a gzip file holds: the data of all its members, in at most `limit`
/// bytes.
pub open spec fn gunzipped(file: Seq<u8>, limit: nat) -> Result<Seq<u8>, Error>
    decreases file.len(),
{
    proof {
        lemma_take_member(file, limit);
    }
    match take_member(file, limit) {
        Err(e) => Err(e),
        Ok((data, len)) => if len == file.len() {
            Ok(data)
        } else {
            prepend(data, gunzipped(file.skip(len as int), (limit - data.len()) as nat))
        },
    }
}

/// `data` before a result.
pub open spec fn prepend(data: Seq<u8>, r: Result<Seq<u8>, Error>) -> Result<Seq<u8>, Error> {
    match r {
        Err(e) => Err(e),
        Ok(more) => Ok(data + more),
    }
}

proof fn lemma_zero_from(data: Seq<u8>, pos: nat)
    ensures
        zero_from(data, pos) matches Some(i) ==> pos <= i < data.len(),
    decreases data.len() - pos,
{
    if pos < data.len() && data[pos as int] != 0 {
        lemma_zero_from(data, pos + 1);
    }
}

proof fn lemma_header_size(data: Seq<u8>)
    ensures
        header_size(data) matches Ok(n) ==> 10 <= n <= data.len(),
{
    reveal(header_size);
    if data.len() >= 10 {
        match after_extra(data, has_flag(data[3], 4)) {
            Ok(pos) => {
                lemma_zero_from(data, pos);
                match after_text(data, pos, has_flag(data[3], 8)) {
                    Ok(pos) => lemma_zero_from(data, pos),
                    Err(_) => {},
                }
            },
            Err(_) => {},
        }
    }
}

/// A member keeps to the limit and to its file.
pub proof fn lemma_take_member(file: Seq<u8>, limit: nat)
    ensures
        take_member(file, limit) matches Ok((data, len)) ==> 18 < len <= file.len() && data.len()
            <= limit,
{
    reveal(take_member);
    lemma_header_size(file);
    match header_size(file) {
        Ok(start) => {
            lemma_inflated(file.skip(start as int), limit);
        },
        Err(_) => {},
    }
}

/// A member is read again, whatever follows it.
proof fn lemma_member_read(file: Seq<u8>, data: Seq<u8>, level: u8, tail: Seq<u8>, limit: nat)
    requires
        is_member(file, data, level),
        data.len() <= limit,
    ensures
        take_member(file + tail, limit) == Ok::<(Seq<u8>, nat), Error>((data, file.len())),
{
    members_are_standard(file, data, level);
    let (f, stream) = choose|f: Fields, stream: Seq<u8>| #[trigger]
        (f.bytes() + stream + ends(data)) == file && f.ok() && f.flags() == 0 && f.time
            == seq![0u8, 0u8, 0u8, 0u8] && f.system == 255 && f.extra_flags == (if level == 9 {
            2int
        } else if level <= 1 {
            4
        } else {
            0
        }) && bytes_bits(stream) == padded(deflated_bits(data, level));
    deflate_is_lossless(data, level, stream, ends(data) + tail, limit);
    any_member_is_read(f, stream, data, tail, limit);
}

/// The header of a member as RFC 1952 has it: ten fixed bytes, and each
/// optional field if and only if it is there.
pub ghost struct Fields {
    /// The text hint, which is no field.
    pub text: bool,
    pub time: Seq<u8>,
    pub extra_flags: u8,
    pub system: u8,
    pub extra: Option<Seq<u8>>,
    pub name: Option<Seq<u8>>,
    pub comment: Option<Seq<u8>>,
    pub check: Option<Seq<u8>>,
}

impl Fields {
    /// Four bytes of time, an extra field that has a 16-bit length, texts
    /// without a zero byte, two check bytes.
    pub open spec fn ok(self) -> bool {
        &&& self.time.len() == 4
        &&& self.extra matches Some(e) ==> e.len() < 65536
        &&& self.name matches Some(t) ==> !t.contains(0)
        &&& self.comment matches Some(t) ==> !t.contains(0)
        &&& self.check matches Some(c) ==> c.len() == 2
    }

    /// One flag for the hint and one for each field.
    #[verifier::opaque]
    pub open spec fn flags(self) -> u8 {
        ((if self.text {
            1int
        } else {
            0
        }) + (if self.check is Some {
            2int
        } else {
            0
        }) + (if self.extra is Some {
            4int
        } else {
            0
        }) + (if self.name is Some {
            8int
        } else {
            0
        }) + (if self.comment is Some {
            16int
        } else {
            0
        })) as u8
    }

    /// The fixed bytes.
    pub open spec fn fixed(self) -> Seq<u8> {
        seq![0x1F, 0x8B, 8, self.flags()] + self.time + seq![self.extra_flags, self.system]
    }

    /// The check bytes, if they are there.
    pub open spec fn check_bytes(self) -> Seq<u8> {
        match self.check {
            Some(c) => c,
            None => Seq::empty(),
        }
    }

    /// The whole header.
    pub open spec fn bytes(self) -> Seq<u8> {
        self.fixed() + extra_bytes(self.extra) + text_bytes(self.name) + text_bytes(self.comment)
            + self.check_bytes()
    }
}

/// An extra field and its length before it, if it is there.
pub open spec fn extra_bytes(extra: Option<Seq<u8>>) -> Seq<u8> {
    match extra {
        Some(e) => seq![(e.len() % 256) as u8, (e.len() / 256) as u8] + e,
        None => Seq::empty(),
    }
}

/// A text and its zero byte, if it is there.
pub open spec fn text_bytes(text: Option<Seq<u8>>) -> Seq<u8> {
    match text {
        Some(t) => t.push(0),
        None => Seq::empty(),
    }
}

/// The end of a text is where its zero byte stands.
proof fn lemma_text_end(front: Seq<u8>, text: Seq<u8>, back: Seq<u8>, at: nat)
    requires
        !text.contains(0),
        at <= text.len(),
    ensures
        zero_from(front + text.push(0) + back, front.len() + at) == Some(front.len() + text.len()),
    decreases text.len() - at,
{
    let data = front + text.push(0) + back;
    assert(data[(front.len() + at) as int] == text.push(0)[at as int]);
    if at < text.len() {
        assert(text.contains(text[at as int]));
        lemma_text_end(front, text, back, at + 1);
    }
}

proof fn lemma_flags(f: Fields)
    ensures
        has_flag(f.flags(), 2) == f.check is Some,
        has_flag(f.flags(), 4) == f.extra is Some,
        has_flag(f.flags(), 8) == f.name is Some,
        has_flag(f.flags(), 16) == f.comment is Some,
        f.flags() < 32,
{
    reveal(Fields::flags);
}

/// As far as `data` goes, it holds `part` at `pos`.
spec fn agrees(data: Seq<u8>, pos: int, part: Seq<u8>) -> bool {
    forall|i: int|
        #![trigger data[i]]
        pos <= i < data.len() && i < pos + part.len() ==> data[i] == part[i - pos]
}

/// The parts of a header stand one behind the other.
proof fn lemma_parts(f: Fields, data: Seq<u8>)
    requires
        f.ok(),
        agrees(data, 0, f.bytes()),
        data.len() >= 10,
    ensures
        agrees(data, 0, f.fixed()),
        agrees(data, 10, extra_bytes(f.extra)),
        agrees(data, (10 + extra_bytes(f.extra).len()) as int, text_bytes(f.name)),
        agrees(
            data,
            (10 + extra_bytes(f.extra).len() + text_bytes(f.name).len()) as int,
            text_bytes(f.comment),
        ),
        f.bytes().len() == 10 + extra_bytes(f.extra).len() + text_bytes(f.name).len() + text_bytes(
            f.comment,
        ).len() + f.check_bytes().len(),
{
    assert(f.fixed().len() == 10);
}

proof fn lemma_extra(data: Seq<u8>, extra: Option<Seq<u8>>)
    requires
        extra matches Some(e) ==> e.len() < 65536 && data.len() >= 12,
        agrees(data, 10, extra_bytes(extra)),
    ensures
        after_extra(data, extra is Some) == Ok::<nat, Error>(10 + extra_bytes(extra).len()),
{
    if let Some(e) = extra {
        let n = data.subrange(10, 12);
        assert(n =~= seq![(e.len() % 256) as u8, (e.len() / 256) as u8]);
        reveal_with_fuel(le_value, 3);
        assert(n.skip(1) =~= seq![(e.len() / 256) as u8]);
        assert(n.skip(1).skip(1) =~= Seq::<u8>::empty());
    }
}

/// A text is stepped over if all of it is there.
proof fn lemma_text_seen(data: Seq<u8>, text: Option<Seq<u8>>, pos: int)
    requires
        0 <= pos,
        text matches Some(t) ==> !t.contains(0),
        agrees(data, pos, text_bytes(text)),
    ensures
        after_text(data, pos as nat, text is Some) == if text is Some && data.len() < pos
            + text_bytes(text).len() {
            Err::<nat, Error>(Error::UnexpectedEof)
        } else {
            Ok((pos + text_bytes(text).len()) as nat)
        },
{
    if let Some(t) = text {
        let end = pos + t.len() + 1;
        if data.len() < end {
            assert forall|i: int| pos <= i < data.len() implies #[trigger] data[i] != 0 by {
                assert(data[i] == t[i - pos]);
                assert(t.contains(t[i - pos]));
            }
            lemma_no_zero(data, pos as nat);
        } else {
            assert(data.take(pos) + t.push(0) + data.skip(end) =~= data);
            lemma_text_end(data.take(pos), t, data.skip(end), 0);
        }
    }
}

/// What is read of a header, as far as it is there.
proof fn lemma_header_read(f: Fields, data: Seq<u8>)
    requires
        f.ok(),
        agrees(data, 0, f.bytes()),
    ensures
        header_size(data) == if data.len() < f.bytes().len() {
            Err::<nat, Error>(Error::UnexpectedEof)
        } else {
            Ok(f.bytes().len())
        },
{
    reveal(header_size);
    assert(f.fixed().len() == 10);
    if data.len() >= 10 {
        lemma_parts(f, data);
        lemma_flags(f);
        assert(data[0] == f.fixed()[0] && data[1] == f.fixed()[1]);
        assert(data[2] == f.fixed()[2] && data[3] == f.fixed()[3]);
        let p1 = (10 + extra_bytes(f.extra).len()) as int;
        let p2 = p1 + text_bytes(f.name).len();
        if f.extra is None || data.len() >= 12 {
            lemma_extra(data, f.extra);
            lemma_text_seen(data, f.name, p1);
            if f.name is None || data.len() >= p2 {
                lemma_text_seen(data, f.comment, p2);
            }
        }
    }
}

/// A header is as long as its fields, whatever follows it.
pub proof fn fields_are_skipped(f: Fields, rest: Seq<u8>)
    requires
        f.ok(),
    ensures
        header_size(f.bytes() + rest) == Ok::<nat, Error>(f.bytes().len()),
{
    lemma_header_read(f, f.bytes() + rest);
}

/// The low four bytes of a number, lowest first.
pub open spec fn four(v: nat) -> Seq<u8> {
    let m = v % 0x1_0000_0000;
    seq![
        (m % 256) as u8,
        (m / 256 % 256) as u8,
        (m / 256 / 256 % 256) as u8,
        (m / 256 / 256 / 256 % 256) as u8,
    ]
}

/// The last eight bytes of a member of `data`: its CRC and its length.
pub open spec fn ends(data: Seq<u8>) -> Seq<u8> {
    four(crc_of(data) as nat) + four(data.len())
}

proof fn lemma_four(v: nat)
    ensures
        le_bytes(v % 0x1_0000_0000, 4) == four(v),
{
    reveal_with_fuel(le_bytes, 5);
    assert(le_bytes(v % 0x1_0000_0000, 4) =~= four(v));
}

proof fn lemma_ends(data: Seq<u8>)
    ensures
        member_trailer(data) == ends(data),
{
    lemma_four(crc_of(data) as nat);
    lemma_four(data.len());
}

/// A member of any tool is read whatever optional fields it has, one by one:
/// a header with some of them, a Deflate stream, the CRC and the size of
/// what it inflates to. What follows it does not matter.
pub proof fn any_member_is_read(
    f: Fields,
    stream: Seq<u8>,
    data: Seq<u8>,
    rest: Seq<u8>,
    limit: nat,
)
    requires
        f.ok(),
        inflated(stream + (ends(data) + rest), limit) == Ok::<(Seq<u8>, nat), Error>(
            (data, stream.len()),
        ),
    ensures
        take_member(f.bytes() + stream + ends(data) + rest, limit) == Ok::<(Seq<u8>, nat), Error>(
            (data, f.bytes().len() + stream.len() + 8),
        ),
        rest.len() == 0 ==> gunzipped(f.bytes() + stream + ends(data) + rest, limit) == Ok::<
            Seq<u8>,
            Error,
        >(data),
        rest.len() > 0 ==> gunzipped(f.bytes() + stream + ends(data) + rest, limit) == prepend(
            data,
            gunzipped(rest, (limit - data.len()) as nat),
        ),
{
    let head = f.bytes();
    fields_are_skipped(f, stream + (ends(data) + rest));
    lemma_behind_header(head, stream, data, rest, limit);
}

/// A member is read behind any header.
proof fn lemma_behind_header(
    head: Seq<u8>,
    stream: Seq<u8>,
    data: Seq<u8>,
    rest: Seq<u8>,
    limit: nat,
)
    requires
        header_size(head + (stream + (ends(data) + rest))) == Ok::<nat, Error>(head.len()),
        inflated(stream + (ends(data) + rest), limit) == Ok::<(Seq<u8>, nat), Error>(
            (data, stream.len()),
        ),
    ensures
        take_member(head + stream + ends(data) + rest, limit) == Ok::<(Seq<u8>, nat), Error>(
            (data, head.len() + stream.len() + 8),
        ),
        (head + stream + ends(data) + rest).skip((head.len() + stream.len() + 8) as int) == rest,
{
    lemma_pow2_values();
    let a = four(crc_of(data) as nat);
    let b = four(data.len());
    let all = head + stream + ends(data) + rest;
    lemma_slices(head, stream, a, b, rest);
    assert(all =~= head + stream + (a + b) + rest);
    assert(stream + (ends(data) + rest) =~= stream + ((a + b) + rest));
    lemma_four(crc_of(data) as nat);
    lemma_four(data.len());
    lemma_le_bytes(crc_of(data) as nat, 4);
    lemma_le_bytes(data.len() % 0x1_0000_0000, 4);
    reveal(take_member);
}

proof fn lemma_slices(head: Seq<u8>, stream: Seq<u8>, a: Seq<u8>, b: Seq<u8>, rest: Seq<u8>)
    requires
        a.len() == 4,
        b.len() == 4,
    ensures
        ({
            let all = head + stream + (a + b) + rest;
            let end = (head.len() + stream.len()) as int;
            &&& all == head + (stream + ((a + b) + rest))
            &&& all.skip(head.len() as int) == stream + ((a + b) + rest)
            &&& all.subrange(end, end + 4) == a
            &&& all.subrange(end + 4, end + 8) == b
            &&& all.skip(end + 8) == rest
            &&& all.len() >= end + 8
        }),
{
}

/// The four bytes of the CRC `crc` and the four of the size `size` close a
/// member only if they are those of its data: another CRC is reported with
/// the right one, another size is refused.
pub proof fn trailers_are_checked(
    f: Fields,
    stream: Seq<u8>,
    data: Seq<u8>,
    crc: u32,
    size: u32,
    rest: Seq<u8>,
    limit: nat,
)
    requires
        f.ok(),
        inflated(stream + ((four(crc as nat) + four(size as nat)) + rest), limit) == Ok::<
            (Seq<u8>, nat),
            Error,
        >((data, stream.len())),
    ensures
        ({
            let r = take_member(
                f.bytes() + stream + (four(crc as nat) + four(size as nat)) + rest,
                limit,
            );
            &&& crc != crc_of(data) ==> r == Err::<(Seq<u8>, nat), Error>(
                Error::ChecksumMismatch { expected: crc, actual: crc_of(data) },
            )
            &&& crc == crc_of(data) && size != data.len() % 0x1_0000_0000 ==> r == Err::<
                (Seq<u8>, nat),
                Error,
            >(Error::Corrupt("gzip size field does not match"))
        }),
{
    let a = four(crc as nat);
    let b = four(size as nat);
    fields_are_skipped(f, stream + ((a + b) + rest));
    lemma_value_of_four(crc);
    lemma_value_of_four(size);
    lemma_trailer_read(f.bytes(), stream, data, a, b, rest, limit);
}

/// A member whose trailer is cut short is missed.
pub proof fn cut_trailers_are_missed(
    f: Fields,
    stream: Seq<u8>,
    data: Seq<u8>,
    cut: Seq<u8>,
    limit: nat,
)
    requires
        f.ok(),
        cut.len() < 8,
        inflated(stream + cut, limit) == Ok::<(Seq<u8>, nat), Error>((data, stream.len())),
    ensures
        take_member(f.bytes() + stream + cut, limit) == Err::<(Seq<u8>, nat), Error>(
            Error::UnexpectedEof,
        ),
{
    let head = f.bytes();
    fields_are_skipped(f, stream + cut);
    let all = head + stream + cut;
    assert(all =~= head + (stream + cut));
    assert(all.skip(head.len() as int) =~= stream + cut);
    reveal(take_member);
}

proof fn lemma_value_of_four(v: u32)
    ensures
        four(v as nat).len() == 4,
        le_value(four(v as nat)) == v,
{
    lemma_pow2_values();
    lemma_four(v as nat);
    lemma_le_bytes(v as nat, 4);
}

proof fn lemma_trailer_read(
    head: Seq<u8>,
    stream: Seq<u8>,
    data: Seq<u8>,
    a: Seq<u8>,
    b: Seq<u8>,
    rest: Seq<u8>,
    limit: nat,
)
    requires
        a.len() == 4,
        b.len() == 4,
        header_size(head + (stream + ((a + b) + rest))) == Ok::<nat, Error>(head.len()),
        inflated(stream + ((a + b) + rest), limit) == Ok::<(Seq<u8>, nat), Error>(
            (data, stream.len()),
        ),
    ensures
        ({
            let r = take_member(head + stream + (a + b) + rest, limit);
            let crc = le_value(a) as u32;
            &&& crc != crc_of(data) ==> r == Err::<(Seq<u8>, nat), Error>(
                Error::ChecksumMismatch { expected: crc, actual: crc_of(data) },
            )
            &&& crc == crc_of(data) && le_value(b) != data.len() % 0x1_0000_0000 ==> r == Err::<
                (Seq<u8>, nat),
                Error,
            >(Error::Corrupt("gzip size field does not match"))
        }),
{
    lemma_slices(head, stream, a, b, rest);
    reveal(take_member);
}

/// In particular, a member that holds what `deflate` makes of `data`, at any
/// level.
pub proof fn fields_are_transparent(
    f: Fields,
    data: Seq<u8>,
    level: u8,
    stream: Seq<u8>,
    limit: nat,
)
    requires
        f.ok(),
        bytes_bits(stream) == padded(deflated_bits(data, level)),
        data.len() <= limit,
    ensures
        gunzipped(f.bytes() + stream + ends(data), limit) == Ok::<Seq<u8>, Error>(data),
{
    let none = Seq::<u8>::empty();
    deflate_is_lossless(data, level, stream, ends(data) + none, limit);
    any_member_is_read(f, stream, data, none, limit);
    assert(f.bytes() + stream + ends(data) + none =~= f.bytes() + stream + ends(data));
}

/// What is written is a standard member without optional fields: the ten
/// fixed bytes, a Deflate stream of the data, its CRC and its length.
pub proof fn members_are_standard(file: Seq<u8>, data: Seq<u8>, level: u8)
    requires
        is_member(file, data, level),
    ensures
        exists|f: Fields, stream: Seq<u8>| #[trigger]
            (f.bytes() + stream + ends(data)) == file && f.ok() && f.flags() == 0 && f.time
                == seq![0u8, 0u8, 0u8, 0u8] && f.system == 255 && f.extra_flags == (if level == 9 {
                2int
            } else if level <= 1 {
                4
            } else {
                0
            }) && bytes_bits(stream) == padded(deflated_bits(data, level)),
{
    let f = Fields {
        text: false,
        time: seq![0u8, 0u8, 0u8, 0u8],
        extra_flags: effort(level),
        system: 255,
        extra: None,
        name: None,
        comment: None,
        check: None,
    };
    let n = file.len() as int;
    let stream = file.subrange(10, n - 8);
    lemma_ends(data);
    reveal(Fields::flags);
    assert(f.bytes() =~= member_header(level));
    assert(file =~= file.take(10) + stream + file.skip(n - 8));
    assert(f.bytes() + stream + ends(data) == file);
}

/// A header that is cut short is missed, and one that is not a gzip header
/// is refused, whatever follows.
pub proof fn bad_headers_are_refused(f: Fields, n: int, other: Seq<u8>, limit: nat)
    requires
        f.ok(),
        0 <= n < f.bytes().len(),
        other.len() >= 10,
    ensures
        gunzipped(f.bytes().take(n), limit) == Err::<Seq<u8>, Error>(Error::UnexpectedEof),
        other[0] != 0x1F || other[1] != 0x8B ==> gunzipped(other, limit) == Err::<Seq<u8>, Error>(
            Error::Corrupt("not a gzip file"),
        ),
        other[0] == 0x1F && other[1] == 0x8B && other[2] != 8 ==> gunzipped(other, limit) == Err::<
            Seq<u8>,
            Error,
        >(Error::Corrupt("gzip compression method is not deflate")),
        other[0] == 0x1F && other[1] == 0x8B && other[2] == 8 && other[3] >= 32 ==> gunzipped(
            other,
            limit,
        ) == Err::<Seq<u8>, Error>(Error::Corrupt("reserved gzip flags set")),
{
    reveal(take_member);
    reveal(header_size);
    lemma_header_read(f, f.bytes().take(n));
}

proof fn lemma_no_zero(data: Seq<u8>, pos: nat)
    requires
        forall|i: int| pos <= i < data.len() ==> #[trigger] data[i] != 0,
    ensures
        zero_from(data, pos) is None,
    decreases data.len() - pos,
{
    if pos < data.len() {
        lemma_no_zero(data, pos + 1);
    }
}

/// A gzip file gives back the data it was made of.
pub proof fn gzip_is_lossless(file: Seq<u8>, data: Seq<u8>, level: u8, limit: nat)
    requires
        is_member(file, data, level),
        data.len() <= limit,
    ensures
        gunzipped(file, limit) == Ok::<Seq<u8>, Error>(data),
{
    lemma_member_read(file, data, level, Seq::empty(), limit);
    assert(file + Seq::<u8>::empty() =~= file);
}

/// A member whose stream decodes to its data but for one byte is refused.
pub proof fn member_damage_is_detected(
    file: Seq<u8>,
    start: nat,
    consumed: nat,
    data: Seq<u8>,
    i: int,
    b: u8,
    limit: nat,
)
    requires
        header_size(file) == Ok::<nat, Error>(start),
        inflated(file.skip(start as int), limit) == Ok::<(Seq<u8>, nat), Error>(
            (data.update(i, b), consumed),
        ),
        start + consumed + 8 <= file.len(),
        le_value(file.subrange((start + consumed) as int, (start + consumed + 4) as int)) == crc_of(
            data,
        ),
        0 <= i < data.len(),
        b != data[i],
    ensures
        gunzipped(file, limit) == Err::<Seq<u8>, Error>(
            Error::ChecksumMismatch { expected: crc_of(data), actual: crc_of(data.update(i, b)) },
        ),
{
    reveal(take_member);
    changed_byte_is_seen(data, i, b);
}

/// Files back to back decompress to their outputs joined together.
pub proof fn members_concatenate(
    file: Seq<u8>,
    data: Seq<u8>,
    level: u8,
    more: Seq<u8>,
    limit: nat,
)
    requires
        is_member(file, data, level),
        data.len() <= limit,
        more.len() > 0,
    ensures
        gunzipped(file + more, limit) == prepend(
            data,
            gunzipped(more, (limit - data.len()) as nat),
        ),
{
    lemma_member_read(file, data, level, more, limit);
    assert((file + more).skip(file.len() as int) =~= more);
}

/// Compress `data` into a single-member gzip file.
pub fn compress(data: &[u8], level: u8) -> (r: Vec<u8>)
    requires
        level == 0 || data@.len() < u32::MAX,
    ensures
        is_member(r@, data@, level),
        forall|limit: nat|
            limit >= data@.len() ==> #[trigger] gunzipped(r@, limit) == Ok::<Seq<u8>, Error>(data@),
{
    let xfl: u8 = if level == 9 {
        2  // "maximum compression"
    } else if level <= 1 {
        4  // "fastest"
    } else {
        0
    };
    let mut out: Vec<u8> = vec![
        MAGIC[0],
        MAGIC[1],
        METHOD_DEFLATE,
        0,
        0,
        0,
        0,
        0,
        xfl,
        OS_UNKNOWN,
    ];
    assert(out@ =~= member_header(level));
    let stream = deflate(data, level);
    out.extend_from_slice(&stream);
    assert(out@ =~= member_header(level) + stream@);
    push_le(&mut out, crc32(data) as u64, 4);
    push_le(&mut out, data.len() as u64 % 0x1_0000_0000, 4);  // size mod 2^32
    proof {
        lemma_pow2_values();
        lemma_le_bytes(crc_of(data@) as nat, 4);
        lemma_le_bytes(data@.len() % 0x1_0000_0000, 4);
        let n = out@.len();
        assert(out@ =~= member_header(level) + stream@ + member_trailer(data@));
        assert(out@.take(10) =~= member_header(level));
        assert(out@.subrange(10, n - 8) =~= stream@);
        assert(out@.skip(n - 8) =~= member_trailer(data@));
        assert forall|limit: nat| limit >= data@.len() implies #[trigger] gunzipped(out@, limit)
            == Ok::<Seq<u8>, Error>(data@) by {
            gzip_is_lossless(out@, data@, level, limit);
        }
    }
    out
}

/// Decompress a gzip file (all members). Output may not exceed `limit`.
pub fn decompress(data: &[u8], limit: usize) -> (r: Result<Vec<u8>, Error>)
    ensures
        same_bytes(r, gunzipped(data@, limit as nat)),
        r matches Ok(out) ==> out@.len() <= limit,
{
    let ghost target = gunzipped(data@, limit as nat);
    let mut out: Vec<u8> = Vec::new();
    let mut pos: usize = 0;
    proof {
        assert(data@.skip(0) =~= data@);
        match target {
            Ok(d) => assert(out@ + d =~= d),
            Err(_) => {},
        }
    }
    loop
        invariant
            pos <= data@.len(),
            data@.len() == data.len(),
            out@.len() <= limit,
            target == gunzipped(data@, limit as nat),
            target == prepend(out@, gunzipped(data@.skip(pos as int), (limit - out@.len()) as nat)),
        decreases data@.len() - pos,
    {
        let file = slice_subrange(data, pos, data.len());
        let left: usize = limit - out.len();
        proof {
            assert(file@ =~= data@.skip(pos as int));
            lemma_take_member(file@, left as nat);
        }
        let (mut piece, len) = match read_member(file, left) {
            Err(e) => {
                return Err(e);
            },
            Ok(m) => m,
        };
        let ghost before = out@;
        let ghost bytes = piece@;
        out.append(&mut piece);
        if len == file.len() {
            return Ok(out);
        }
        proof {
            let rest = file@.skip(len as int);
            assert(rest =~= data@.skip(pos + len));
            match gunzipped(rest, (left - bytes.len()) as nat) {
                Ok(d) => assert(before + (bytes + d) =~= out@ + d),
                Err(_) => {},
            }
        }
        pos = pos + len;
    }
}

/// Decompress one member and return its length with it.
fn read_member(file: &[u8], limit: usize) -> (r: Result<(Vec<u8>, usize), Error>)
    ensures
        match take_member(file@, limit as nat) {
            Err(e) => r matches Err(f) && f == e,
            Ok((data, len)) => r matches Ok((d, n)) && d@ == data && n == len,
        },
{
    proof {
        reveal(take_member);
    }
    let start: usize = match header_len(file) {
        Err(e) => {
            return Err(e);
        },
        Ok(n) => n,
    };
    let stream = slice_subrange(file, start, file.len());
    proof {
        assert(stream@ =~= file@.skip(start as int));
        lemma_inflated(stream@, limit as nat);
    }
    let member = match inflate(stream, limit) {
        Err(e) => {
            return Err(e);
        },
        Ok(m) => m,
    };
    let end: usize = start + member.consumed;
    if file.len() - end < 8 {
        return Err(Error::UnexpectedEof);
    }
    proof {
        lemma_pow2_values();
    }
    let expected: u32 = read_le(file, end, 4) as u32;
    let size: u64 = read_le(file, end + 4, 4);
    let actual: u32 = crc32(&member.data);
    if actual != expected {
        return Err(Error::ChecksumMismatch { expected, actual });
    }
    if member.data.len() as u64 % 0x1_0000_0000 != size {
        return Err(Error::Corrupt("gzip size field does not match"));
    }
    Ok((member.data, end + 8))
}

/// Find the first zero byte from `pos` on.
fn find_zero(data: &[u8], pos: usize) -> (r: Option<usize>)
    ensures
        match zero_from(data@, pos as nat) {
            None => r is None,
            Some(i) => r == Some(i as usize) && pos <= i < data@.len(),
        },
{
    let mut i: usize = pos;
    while i < data.len()
        invariant
            pos <= i,
            zero_from(data@, i as nat) == zero_from(data@, pos as nat),
        decreases data@.len() - i,
    {
        if data[i] == 0 {
            return Some(i);
        }
        i = i + 1;
    }
    None
}

/// Step over a zero-terminated text.
fn skip_text(data: &[u8], pos: usize, present: bool) -> (r: Result<usize, Error>)
    ensures
        match after_text(data@, pos as nat, present) {
            Err(e) => r == Err::<usize, Error>(e),
            Ok(end) => r == Ok::<usize, Error>(end as usize) && pos <= end <= usize::MAX && (end
                == pos || end <= data@.len()),
        },
{
    if !present {
        return Ok(pos);
    }
    assert(data@.len() == data.len());
    match find_zero(data, pos) {
        None => Err(Error::UnexpectedEof),
        Some(i) => Ok(i + 1),
    }
}

/// Validate a member header and return its length.
fn header_len(data: &[u8]) -> (r: Result<usize, Error>)
    ensures
        match header_size(data@) {
            Err(e) => r == Err::<usize, Error>(e),
            Ok(n) => r == Ok::<usize, Error>(n as usize) && 10 <= n <= data@.len(),
        },
{
    reveal(header_size);
    if data.len() < 10 {
        return Err(Error::UnexpectedEof);
    }
    if data[0] != MAGIC[0] || data[1] != MAGIC[1] {
        return Err(Error::Corrupt("not a gzip file"));
    }
    if data[2] != METHOD_DEFLATE {
        return Err(Error::Corrupt("gzip compression method is not deflate"));
    }
    let flags: u8 = data[3];
    if flags >= 32 {
        return Err(Error::Corrupt("reserved gzip flags set"));
    }
    proof {
        lemma_pow2_values();
        lemma_header_size(data@);
    }
    let mut pos: usize = 10;
    if flags / 4 % 2 == 1 {
        if data.len() < 12 {
            return Err(Error::UnexpectedEof);
        }
        pos = 12 + read_le(data, 10, 2) as usize;
    }
    let name: usize = match skip_text(data, pos, flags / 8 % 2 == 1) {
        Err(e) => {
            return Err(e);
        },
        Ok(p) => p,
    };
    let comment: usize = match skip_text(data, name, flags / 16 % 2 == 1) {
        Err(e) => {
            return Err(e);
        },
        Ok(p) => p,
    };
    let check: usize = if flags / 2 % 2 == 1 {
        2
    } else {
        0
    };
    if comment > data.len() || data.len() - comment < check {
        return Err(Error::UnexpectedEof);
    }
    Ok(comment + check)
}

} // verus!
