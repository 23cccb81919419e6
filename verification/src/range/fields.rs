//! Any mix of coded fields: the decoder gives them back in order and uses
//! the stream exactly.
use crate::error::Error;
use crate::nums::lemma_pow2_values;
use crate::range::bit_at_given_odds_decodes;
use crate::range::bit_decodes;
use crate::range::close_window;
use crate::range::direct_bits_decode;
use crate::range::get_direct;
use crate::range::get_with;
use crate::range::lemma_bit_ok;
use crate::range::lemma_close;
use crate::range::lemma_direct_ok;
use crate::range::lemma_open;
use crate::range::lemma_reverse_tree_ok;
use crate::range::lemma_tree_ok;
use crate::range::lemma_with_ok;
use crate::range::number;
use crate::range::open_window;
use crate::range::probs_ok;
use crate::range::put_direct;
use crate::range::put_with;
use crate::range::reverse_tree_value_decodes;
use crate::range::tree_value_decodes;
use crate::range::whole;
use crate::range::Coding;
use crate::range::Decoding;
use crate::range::Interval;
use crate::range::Window;
use vstd::arithmetic::power2::pow2;
use vstd::prelude::*;

verus! {

/// How a number is coded, and with which of several models: one adaptive
/// bit with probability `at`, a tree or a reverse tree of `n` bits, `n` bits
/// at 1/2 each, or one bit that is 0 with `p0` chances out of 65536.
pub ghost enum Kind {
    Bit { model: int, at: int },
    Tree { model: int, n: nat },
    ReverseTree { model: int, n: nat },
    Direct { n: nat },
    Odds { p0: nat },
}

/// A number and how it is coded.
pub ghost struct Field {
    pub kind: Kind,
    pub value: nat,
}

/// Every probability of every model is usable.
pub open spec fn models_ok(models: Seq<Seq<u16>>) -> bool {
    forall|m: int| 0 <= m < models.len() ==> probs_ok(#[trigger] models[m])
}

impl Field {
    /// The models have room for the field, and the field for its number.
    pub open spec fn ok(self, models: Seq<Seq<u16>>) -> bool {
        match self.kind {
            Kind::Bit { model, at } => 0 <= model < models.len() && 0 <= at < models[model].len()
                && self.value < 2,
            Kind::Tree { model, n } => 0 <= model < models.len() && pow2(n) <= models[model].len()
                && self.value < pow2(n),
            Kind::ReverseTree { model, n } => 0 <= model < models.len() && pow2(n)
                <= models[model].len() && self.value < pow2(n),
            Kind::Direct { n } => n <= 32 && self.value < pow2(n),
            Kind::Odds { p0 } => 1 <= p0 < 65536 && self.value < 2,
        }
    }
}

/// Every field can be coded with these models.
pub open spec fn fields_ok(fields: Seq<Field>, models: Seq<Seq<u16>>) -> bool {
    forall|i: int| 0 <= i < fields.len() ==> (#[trigger] fields[i]).ok(models)
}

/// An encoder together with all its models.
pub ghost struct Sender {
    pub iv: Interval,
    pub models: Seq<Seq<u16>>,
}

impl Sender {
    /// The encoder with one of its models.
    pub open spec fn coding(self, m: int) -> Coding {
        Coding { iv: self.iv, probs: self.models[m] }
    }

    /// What became of the encoder and that model.
    pub open spec fn after(self, m: int, c: Coding) -> Sender {
        Sender { iv: c.iv, models: self.models.update(m, c.probs) }
    }

    /// Code one field.
    pub open spec fn put(self, f: Field) -> Sender {
        match f.kind {
            Kind::Bit { model, at } => self.after(
                model,
                self.coding(model).bit(at, f.value == 1),
            ),
            Kind::Tree { model, n } => self.after(
                model,
                self.coding(model).tree(0, 1, n, f.value),
            ),
            Kind::ReverseTree { model, n } => self.after(
                model,
                self.coding(model).reverse_tree(0, 1, n, f.value),
            ),
            Kind::Direct { n } => Sender {
                iv: put_direct(self.iv, f.value, n),
                models: self.models,
            },
            Kind::Odds { p0 } => Sender {
                iv: put_with(self.iv, p0, f.value == 1),
                models: self.models,
            },
        }
    }

    /// Code all fields in order.
    pub open spec fn put_all(self, fields: Seq<Field>) -> Sender
        decreases fields.len(),
    {
        if fields.len() == 0 {
            self
        } else {
            self.put_all(fields.drop_last()).put(fields.last())
        }
    }

    /// Ready to code any field that `models` have room for.
    pub open spec fn ok(self, models: Seq<Seq<u16>>) -> bool {
        &&& self.iv.ok()
        &&& models_ok(self.models)
        &&& self.models.len() == models.len()
        &&& forall|m: int|
            0 <= m < models.len() ==> (#[trigger] self.models[m]).len() == models[m].len()
    }
}

/// A decoder together with all its models.
pub ghost struct Receiver {
    pub win: Window,
    pub models: Seq<Seq<u16>>,
}

impl Receiver {
    /// The decoder with one of its models.
    pub open spec fn decoding(self, m: int) -> Decoding {
        Decoding { win: self.win, probs: self.models[m] }
    }

    /// What became of the decoder and that model.
    pub open spec fn after(self, m: int, d: Decoding) -> Receiver {
        Receiver { win: d.win, models: self.models.update(m, d.probs) }
    }

    /// Decode one number.
    pub open spec fn get(self, kind: Kind) -> (nat, Receiver) {
        match kind {
            Kind::Bit { model, at } => {
                let (bit, d) = self.decoding(model).bit(at);
                (
                    if bit {
                        1nat
                    } else {
                        0nat
                    },
                    self.after(model, d),
                )
            },
            Kind::Tree { model, n } => {
                let (v, d) = self.decoding(model).tree(0, 1, n);
                ((v - pow2(n)) as nat, self.after(model, d))
            },
            Kind::ReverseTree { model, n } => {
                let (v, d) = self.decoding(model).reverse_tree(0, 1, n);
                (v, self.after(model, d))
            },
            Kind::Direct { n } => {
                let (v, win) = get_direct(self.win, 0, n);
                (v, Receiver { win, models: self.models })
            },
            Kind::Odds { p0 } => {
                let (bit, win) = get_with(self.win, p0);
                (
                    if bit {
                        1nat
                    } else {
                        0nat
                    },
                    Receiver { win, models: self.models },
                )
            },
        }
    }

    /// Decode numbers of the fields' kinds in order.
    pub open spec fn get_all(self, fields: Seq<Field>) -> (Seq<nat>, Receiver)
        decreases fields.len(),
    {
        if fields.len() == 0 {
            (Seq::empty(), self)
        } else {
            let (values, r) = self.get_all(fields.drop_last());
            let (v, r) = r.get(fields.last().kind);
            (values.push(v), r)
        }
    }

    /// This decoder is where the encoder was, with the same models.
    pub open spec fn follows(self, c: Sender, s: Seq<u8>) -> bool {
        self.win.follows(c.iv, s) && self.models == c.models
    }
}

proof fn lemma_put(c: Sender, models: Seq<Seq<u16>>, f: Field)
    requires
        c.ok(models),
        f.ok(models),
    ensures
        c.put(f).ok(models),
        c.put(f).iv.inside(c.iv),
{
    lemma_pow2_values();
    match f.kind {
        Kind::Bit { model, at } => {
            assert(c.models[model].len() == models[model].len());
            lemma_bit_ok(c.coding(model), at, f.value == 1);
        },
        Kind::Tree { model, n } => {
            assert(c.models[model].len() == models[model].len());
            lemma_tree_ok(c.coding(model), 0, 1, n, f.value, 0);
        },
        Kind::ReverseTree { model, n } => {
            assert(c.models[model].len() == models[model].len());
            lemma_reverse_tree_ok(c.coding(model), 0, 1, n, f.value, 0);
        },
        Kind::Direct { n } => lemma_direct_ok(c.iv, f.value, n),
        Kind::Odds { p0 } => lemma_with_ok(c.iv, p0, f.value == 1),
    }
}

proof fn lemma_get(r: Receiver, c: Sender, models: Seq<Seq<u16>>, f: Field, s: Seq<u8>)
    requires
        c.ok(models),
        f.ok(models),
        r.follows(c, s),
        c.put(f).iv.holds(s),
    ensures
        r.get(f.kind).0 == f.value,
        r.get(f.kind).1.follows(c.put(f), s),
{
    lemma_pow2_values();
    match f.kind {
        Kind::Bit { model, at } => {
            assert(c.models[model].len() == models[model].len());
            bit_decodes(r.decoding(model), c.coding(model), at, f.value == 1, s);
        },
        Kind::Tree { model, n } => {
            assert(c.models[model].len() == models[model].len());
            tree_value_decodes(r.decoding(model), c.coding(model), 0, 1, n, f.value, 0, s);
            vstd::arithmetic::div_mod::lemma_small_mod(f.value, pow2(n));
        },
        Kind::ReverseTree { model, n } => {
            assert(c.models[model].len() == models[model].len());
            reverse_tree_value_decodes(r.decoding(model), c.coding(model), 0, 1, n, f.value, 0, s);
            vstd::arithmetic::div_mod::lemma_small_mod(f.value, pow2(n));
        },
        Kind::Direct { n } => {
            direct_bits_decode(r.win, c.iv, f.value, n, 0, s);
            vstd::arithmetic::div_mod::lemma_small_mod(f.value, pow2(n));
        },
        Kind::Odds { p0 } => bit_at_given_odds_decodes(r.win, c.iv, p0, f.value == 1, s),
    }
}

/// The numbers in the fields.
pub open spec fn values(fields: Seq<Field>) -> Seq<nat> {
    fields.map_values(|f: Field| f.value)
}

/// Coding narrows the interval field by field.
proof fn lemma_put_all(c: Sender, fields: Seq<Field>, k: int)
    requires
        c.ok(c.models),
        fields_ok(fields, c.models),
        0 <= k <= fields.len(),
    ensures
        c.put_all(fields).ok(c.models),
        c.put_all(fields).iv.inside(c.put_all(fields.take(k)).iv),
    decreases fields.len(),
{
    if fields.len() == 0 {
        assert(fields.take(k) =~= fields);
    } else {
        let front = fields.drop_last();
        if k < fields.len() {
            lemma_put_all(c, front, k);
            assert(front.take(k) =~= fields.take(k));
        } else {
            lemma_put_all(c, front, 0);
            assert(fields.take(k) =~= fields);
        }
        let d = c.put_all(front);
        lemma_put(d, c.models, fields.last());
        assert forall|s: Seq<u8>| #[trigger] c.put_all(fields).iv.holds(s) implies c.put_all(
            fields.take(k),
        ).iv.holds(s) by {
            assert(d.iv.holds(s));
        }
    }
}

proof fn lemma_get_all(r: Receiver, c: Sender, fields: Seq<Field>, s: Seq<u8>)
    requires
        c.ok(c.models),
        fields_ok(fields, c.models),
        r.follows(c, s),
        c.put_all(fields).iv.holds(s),
    ensures
        r.get_all(fields).0 == values(fields),
        r.get_all(fields).1.follows(c.put_all(fields), s),
    decreases fields.len(),
{
    if fields.len() == 0 {
        assert(values(fields) =~= Seq::<nat>::empty());
    } else {
        let front = fields.drop_last();
        let last = fields.last();
        let d = c.put_all(front);
        lemma_put_all(c, front, 0);
        lemma_put(d, c.models, last);
        assert(d.iv.holds(s));
        lemma_get_all(r, c, front, s);
        lemma_get(r.get_all(front).1, d, c.models, last, s);
        assert(values(front).push(last.value) =~= values(fields));
    }
}

/// Whatever mix of adaptive bits, trees, reverse trees, direct bits and bits
/// at given odds was coded into a stream, the matching calls decode the same
/// numbers in order, starting from the same models. After each field the
/// models are the same on both sides, and at the end the stream is used to
/// its last byte and not beyond.
pub proof fn fields_decode(models: Seq<Seq<u16>>, fields: Seq<Field>, packed: Seq<u8>)
    requires
        models_ok(models),
        fields_ok(fields, models),
        packed.len() == (Sender { iv: whole(), models }).put_all(fields).iv.digits + 4,
        number(packed) == (Sender { iv: whole(), models }).put_all(fields).iv.low,
        packed.len() <= usize::MAX,
    ensures
        open_window(packed) matches Ok(win) && {
            &&& (Receiver { win, models }).get_all(fields).0 == values(fields)
            &&& forall|k: int|
                0 <= k <= fields.len() ==> (Receiver { win, models }).get_all(
                    #[trigger] fields.take(k),
                ).1.models == (Sender { iv: whole(), models }).put_all(fields.take(k)).models
            &&& close_window((Receiver { win, models }).get_all(fields).1.win) == Ok::<
                (),
                Error,
            >(())
        },
{
    let c = Sender { iv: whole(), models };
    let end = c.put_all(fields);
    lemma_put_all(c, fields, 0);
    assert(fields.take(0) =~= Seq::<Field>::empty());
    assert(packed.take(packed.len() as int) =~= packed);
    assert(end.iv.holds(packed));
    assert(whole().holds(packed));
    lemma_open(packed);
    let r = Receiver { win: open_window(packed)->Ok_0, models };
    lemma_get_all(r, c, fields, packed);
    lemma_close(r.get_all(fields).1.win, end.iv, packed);
    assert forall|k: int| 0 <= k <= fields.len() implies r.get_all(
        #[trigger] fields.take(k),
    ).1.models == c.put_all(fields.take(k)).models by {
        lemma_put_all(c, fields, k);
        assert(c.put_all(fields.take(k)).iv.holds(packed));
        lemma_get_all(r, c, fields.take(k), packed);
    }
}

} // verus!
