//! What can go wrong while decoding.
use vstd::arithmetic::power::pow;
use vstd::prelude::*;
use vstd::string::*;

verus! {

/// Errors produced while decoding. Compression never fails.
#[allow(inconsistent_fields)]
#[derive(Debug, Clone, PartialEq, Eq)]
pub enum Error {
    /// Input ended before the decoder expected it to.
    UnexpectedEof,
    /// Input is malformed; the message says what was wrong.
    Corrupt(&'static str),
    /// Decoded size did not match the size recorded at compression time.
    LengthMismatch { expected: usize, actual: usize },
    /// Checksum of the decoded data did not match.
    ChecksumMismatch { expected: u32, actual: u32 },
    /// Not a frame produced by this program.
    BadMagic,
    /// Frame format version this build does not understand.
    UnsupportedVersion(u8),
    /// Frame names a codec this build does not know.
    UnknownCodec(u8),
}

/// The digit of a value below 16.
pub open spec fn digit(d: nat) -> char {
    if d < 10 {
        (('0' as nat) + d) as char
    } else {
        (('a' as nat) + d - 10) as char
    }
}

/// A number in decimal digits.
pub open spec fn decimal(n: nat) -> Seq<char>
    decreases n,
{
    if n < 10 {
        seq![digit(n)]
    } else {
        decimal(n / 10).push(digit(n % 10))
    }
}

/// The lowest `k` hexadecimal digits of a number.
pub open spec fn hex(n: nat, k: nat) -> Seq<char>
    decreases k,
{
    if k == 0 {
        Seq::empty()
    } else {
        hex(n / 16, (k - 1) as nat).push(digit(n % 16))
    }
}

/// What a digit is worth.
pub open spec fn digit_value(c: char) -> nat {
    if '0' <= c <= '9' {
        (c as nat - '0' as nat) as nat
    } else {
        (c as nat - 'a' as nat + 10) as nat
    }
}

/// The number that digits write in the given base, most significant first.
pub open spec fn number_in(base: nat, s: Seq<char>) -> nat
    decreases s.len(),
{
    if s.len() == 0 {
        0
    } else {
        base * number_in(base, s.drop_last()) + digit_value(s.last())
    }
}

/// Decimal digits write the number, without a 0 in front.
pub proof fn decimals_are_read(n: nat)
    ensures
        number_in(10, decimal(n)) == n,
        decimal(n).len() > 0,
        decimal(n)[0] == '0' <==> n == 0,
        n == 0 ==> decimal(n).len() == 1,
        forall|i: int| 0 <= i < decimal(n).len() ==> '0' <= #[trigger] decimal(n)[i] <= '9',
    decreases n,
{
    if n >= 10 {
        decimals_are_read(n / 10);
        assert(decimal(n).drop_last() =~= decimal(n / 10));
    } else {
        assert(decimal(n).drop_last() =~= Seq::<char>::empty());
        assert(number_in(10, decimal(n).drop_last()) == 0);
    }
}

/// Hexadecimal digits write the number, with as many as are asked for.
pub proof fn hex_digits_are_read(n: nat, k: nat)
    ensures
        hex(n, k).len() == k,
        n < pow(16, k) ==> number_in(16, hex(n, k)) == n,
        forall|i: int|
            0 <= i < k ==> '0' <= #[trigger] hex(n, k)[i] <= '9' || 'a' <= hex(n, k)[i] <= 'f',
    decreases k,
{
    vstd::arithmetic::power::lemma_pow0(16);
    if k > 0 {
        hex_digits_are_read(n / 16, (k - 1) as nat);
        assert(hex(n, k).drop_last() =~= hex(n / 16, (k - 1) as nat));
        assert(pow(16, k) == 16 * pow(16, (k - 1) as nat)) by {
            reveal(pow);
        }
    }
}

impl Error {
    /// What the error says.
    pub open spec fn text(&self) -> Seq<char> {
        match *self {
            Error::UnexpectedEof => "unexpected end of input"@,
            Error::Corrupt(why) => "corrupt data: "@ + why@,
            Error::LengthMismatch { expected, actual } => "expected "@ + decimal(expected as nat)
                + " bytes after decoding, got "@ + decimal(actual as nat),
            Error::ChecksumMismatch { expected, actual } => "checksum mismatch: expected "@ + hex(
                expected as nat,
                8,
            ) + ", got "@ + hex(actual as nat, 8),
            Error::BadMagic => "not a cmpr file (bad magic bytes)"@,
            Error::UnsupportedVersion(v) => "unsupported frame version "@ + decimal(v as nat),
            Error::UnknownCodec(id) => "unknown codec id "@ + decimal(id as nat),
        }
    }

    /// The error in words.
    pub fn message(&self) -> (r: String)
        ensures
            r@ == self.text(),
    {
        let mut out = String::new();
        match self {
            Error::UnexpectedEof => {
                out.append("unexpected end of input");
            },
            Error::Corrupt(why) => {
                out.append("corrupt data: ");
                out.append(why);
            },
            Error::LengthMismatch { expected, actual } => {
                out.append("expected ");
                push_decimal(&mut out, *expected as u64);
                out.append(" bytes after decoding, got ");
                push_decimal(&mut out, *actual as u64);
            },
            Error::ChecksumMismatch { expected, actual } => {
                out.append("checksum mismatch: expected ");
                push_hex(&mut out, *expected, 8);
                out.append(", got ");
                push_hex(&mut out, *actual, 8);
            },
            Error::BadMagic => {
                out.append("not a cmpr file (bad magic bytes)");
            },
            Error::UnsupportedVersion(v) => {
                out.append("unsupported frame version ");
                push_decimal(&mut out, *v as u64);
            },
            Error::UnknownCodec(id) => {
                out.append("unknown codec id ");
                push_decimal(&mut out, *id as u64);
            },
        }
        assert(out@ =~= self.text());
        out
    }
}

/// The text of a digit.
fn digit_text(d: u8) -> (r: &'static str)
    requires
        d < 16,
    ensures
        r@ == seq![digit(d as nat)],
{
    let r: &'static str = match d {
        0 => "0",
        1 => "1",
        2 => "2",
        3 => "3",
        4 => "4",
        5 => "5",
        6 => "6",
        7 => "7",
        8 => "8",
        9 => "9",
        10 => "a",
        11 => "b",
        12 => "c",
        13 => "d",
        14 => "e",
        _ => "f",
    };
    proof {
        reveal_strlit("0");
        reveal_strlit("1");
        reveal_strlit("2");
        reveal_strlit("3");
        reveal_strlit("4");
        reveal_strlit("5");
        reveal_strlit("6");
        reveal_strlit("7");
        reveal_strlit("8");
        reveal_strlit("9");
        reveal_strlit("a");
        reveal_strlit("b");
        reveal_strlit("c");
        reveal_strlit("d");
        reveal_strlit("e");
        reveal_strlit("f");
        assert(r@ =~= seq![digit(d as nat)]);
    }
    r
}

/// Append a number in decimal digits.
pub fn push_decimal(out: &mut String, n: u64)
    ensures
        final(out)@ == old(out)@ + decimal(n as nat),
    decreases n,
{
    let ghost start = out@;
    if n >= 10 {
        push_decimal(out, n / 10);
    }
    out.append(digit_text((n % 10) as u8));
    assert(out@ =~= start + decimal(n as nat));
}

/// Append the lowest `k` hexadecimal digits of a number.
pub fn push_hex(out: &mut String, n: u32, k: u32)
    ensures
        final(out)@ == old(out)@ + hex(n as nat, k as nat),
    decreases k,
{
    let ghost start = out@;
    if k > 0 {
        push_hex(out, n / 16, k - 1);
        out.append(digit_text((n % 16) as u8));
    }
    assert(out@ =~= start + hex(n as nat, k as nat));
}

/// A decoder's result agrees with its mathematical description: the same
/// bytes, or the same error.
pub open spec fn same_bytes(r: Result<Vec<u8>, Error>, s: Result<Seq<u8>, Error>) -> bool {
    match (r, s) {
        (Ok(v), Ok(t)) => v@ == t,
        (Err(e), Err(f)) => e == f,
        _ => false,
    }
}

} // verus!
