//! Any sequence of bit fields: how long it is, and that it reads back.
use crate::bits::bits_of;
use crate::bits::bits_roundtrip;
use crate::bits::bytes_bits;
use crate::bits::gamma_bits;
use crate::bits::gamma_roundtrip;
use crate::bits::ilog2;
use crate::bits::lemma_bits_of_len;
use crate::bits::padded;
use crate::bits::take_bits;
use crate::bits::take_gamma;
use crate::error::Error;
use crate::nums::lemma_pow2_values;
use vstd::arithmetic::power2::pow2;
use vstd::prelude::*;

verus! {

/// How a field is written: with `write_bits`, `write_bit`, `write_byte` or
/// `write_gamma`.
pub ghost enum Kind {
    Bits { n: nat },
    Bit,
    Byte,
    Gamma,
}

/// A number and how it is written.
pub ghost struct Field {
    pub kind: Kind,
    pub value: nat,
}

impl Field {
    /// The number can be written that way.
    pub open spec fn ok(self) -> bool {
        match self.kind {
            Kind::Bits { n } => n <= 32 && self.value < pow2(n),
            Kind::Bit => self.value < 2,
            Kind::Byte => self.value < 256,
            Kind::Gamma => 1 <= self.value <= u64::MAX,
        }
    }

    /// What is written.
    pub open spec fn bits(self) -> Seq<bool> {
        match self.kind {
            Kind::Bits { n } => bits_of(self.value, n),
            Kind::Bit => seq![self.value == 1],
            Kind::Byte => bits_of(self.value, 8),
            Kind::Gamma => gamma_bits(self.value),
        }
    }

    /// How many bits that is.
    pub open spec fn size(self) -> nat {
        match self.kind {
            Kind::Bits { n } => n,
            Kind::Bit => 1,
            Kind::Byte => 8,
            Kind::Gamma => 2 * ilog2(self.value) + 1,
        }
    }
}

/// Every field can be written.
pub open spec fn fields_ok(fields: Seq<Field>) -> bool {
    forall|i: int| 0 <= i < fields.len() ==> (#[trigger] fields[i]).ok()
}

/// What a writer holds after all fields.
pub open spec fn written(fields: Seq<Field>) -> Seq<bool>
    decreases fields.len(),
{
    if fields.len() == 0 {
        Seq::empty()
    } else {
        written(fields.drop_last()) + fields.last().bits()
    }
}

/// The sum of the fields' sizes.
pub open spec fn total_size(fields: Seq<Field>) -> nat
    decreases fields.len(),
{
    if fields.len() == 0 {
        0
    } else {
        total_size(fields.drop_last()) + fields.last().size()
    }
}

/// Reading one number from `s`: the number and what is left.
pub open spec fn take_one(kind: Kind, s: Seq<bool>) -> Result<(nat, Seq<bool>), Error> {
    match kind {
        Kind::Bits { n } => take_bits(s, n),
        Kind::Bit => take_bits(s, 1),
        Kind::Byte => take_bits(s, 8),
        Kind::Gamma => take_gamma(s),
    }
}

/// Reading numbers of these kinds, one after the other: the numbers and what
/// is left.
pub open spec fn take_all(kinds: Seq<Kind>, s: Seq<bool>) -> Result<(Seq<nat>, Seq<bool>), Error>
    decreases kinds.len(),
{
    if kinds.len() == 0 {
        Ok((Seq::empty(), s))
    } else {
        match take_all(kinds.drop_last(), s) {
            Err(e) => Err(e),
            Ok((values, rest)) => match take_one(kinds.last(), rest) {
                Err(e) => Err(e),
                Ok((v, rest)) => Ok((values.push(v), rest)),
            },
        }
    }
}

/// The kinds of the fields.
pub open spec fn kinds(fields: Seq<Field>) -> Seq<Kind> {
    fields.map_values(|f: Field| f.kind)
}

/// The numbers in the fields.
pub open spec fn values(fields: Seq<Field>) -> Seq<nat> {
    fields.map_values(|f: Field| f.value)
}

proof fn lemma_size(f: Field)
    ensures
        f.bits().len() == f.size(),
{
    match f.kind {
        Kind::Bits { n } => lemma_bits_of_len(f.value, n),
        Kind::Bit => {},
        Kind::Byte => lemma_bits_of_len(f.value, 8),
        Kind::Gamma => {
            let e = ilog2(f.value);
            lemma_bits_of_len((f.value - pow2(e)) as nat, e);
        },
    }
}

/// What is written is as long as its fields together.
pub proof fn sizes_add_up(fields: Seq<Field>)
    ensures
        written(fields).len() == total_size(fields),
    decreases fields.len(),
{
    if fields.len() > 0 {
        sizes_add_up(fields.drop_last());
        lemma_size(fields.last());
    }
}

/// The finished bytes are as many as the fields need, rounded up.
pub proof fn finished_size(fields: Seq<Field>, bytes: Seq<u8>)
    requires
        bytes_bits(bytes) == padded(written(fields)),
    ensures
        bytes.len() == (total_size(fields) + 7) / 8,
{
    sizes_add_up(fields);
    assert(bytes_bits(bytes).len() == 8 * bytes.len());
}

proof fn lemma_take_one(f: Field, rest: Seq<bool>)
    requires
        f.ok(),
    ensures
        take_one(f.kind, f.bits() + rest) == Ok::<(nat, Seq<bool>), Error>((f.value, rest)),
{
    lemma_pow2_values();
    match f.kind {
        Kind::Bits { n } => bits_roundtrip(f.value, n, rest),
        Kind::Bit => {
            reveal_with_fuel(bits_of, 2);
            assert(bits_of(f.value, 1) =~= f.bits());
            bits_roundtrip(f.value, 1, rest);
        },
        Kind::Byte => bits_roundtrip(f.value, 8, rest),
        Kind::Gamma => gamma_roundtrip(f.value, rest),
    }
}

/// Fields that were written are read again in order, whatever follows them.
pub proof fn fields_roundtrip(fields: Seq<Field>, rest: Seq<bool>)
    requires
        fields_ok(fields),
    ensures
        take_all(kinds(fields), written(fields) + rest) == Ok::<(Seq<nat>, Seq<bool>), Error>(
            (values(fields), rest),
        ),
    decreases fields.len(),
{
    if fields.len() == 0 {
        assert(written(fields) + rest =~= rest);
        assert(values(fields) =~= Seq::<nat>::empty());
    } else {
        let front = fields.drop_last();
        let last = fields.last();
        fields_roundtrip(front, last.bits() + rest);
        lemma_take_one(last, rest);
        assert(kinds(fields).drop_last() =~= kinds(front));
        assert(written(fields) + rest =~= written(front) + (last.bits() + rest));
        assert(values(front).push(last.value) =~= values(fields));
    }
}

} // verus!
