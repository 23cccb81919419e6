//! What each LZMA token would cost to code right now, in 1/16 bits.
//!
//! The optimal parser compares thousands of alternatives per position, so
//! the expensive parts (lengths and distances, which walk bit trees) are
//! read from tables. [`Prices`] snapshots them from the model; the encoder
//! refreshes it every so often as the model learns. The cheap parts (the
//! token-kind bits, and literals, whose context changes at every byte) are
//! priced directly.
use crate::lzma::dist_slot;
use crate::lzma::footer_bits_of;
use crate::lzma::format::matched_at;
use crate::lzma::len_state_of;
use crate::lzma::lemma_literal_at;
use crate::lzma::lemma_slot;
use crate::lzma::lemma_slot_base;
use crate::lzma::literal_at;
use crate::lzma::pos_state_of;
use crate::lzma::slot_base;
use crate::lzma::slot_of;
use crate::lzma::Model;
use crate::lzma::Props;
use crate::lzma::State;
use crate::lzma::ALIGN_BITS;
use crate::lzma::DIST_ALIGN;
use crate::lzma::DIST_SLOT;
use crate::lzma::DIST_SPECIAL;
use crate::lzma::IS_MATCH;
use crate::lzma::IS_REP;
use crate::lzma::IS_REP0_LONG;
use crate::lzma::IS_REP_G0;
use crate::lzma::IS_REP_G1;
use crate::lzma::IS_REP_G2;
use crate::lzma::LEN;
use crate::lzma::LEN_HIGH;
use crate::lzma::LEN_LOW;
use crate::lzma::LEN_MID;
use crate::lzma::LEN_TO_POS_STATES;
use crate::lzma::MATCH_MIN_LEN;
use crate::lzma::NUM_FULL_DISTANCES;
use crate::lzma::REP_LEN;
use crate::nums::lemma_pow2_le;
use crate::nums::lemma_pow2_values;
use crate::nums::two_to;
use crate::range::bit_at;
use crate::range::bit_price;
use crate::range::price_bit;
use crate::range::price_reverse_tree_at;
use crate::range::price_tree_at;
use crate::range::probs_ok;
use crate::range::reverse_tree_price;
use crate::range::tree_price;
use crate::range::Prob;
use crate::range::PRICE_ONE_BIT;
use vstd::arithmetic::power2::lemma_pow2_pos;
use vstd::arithmetic::power2::lemma_pow2_unfold;
use vstd::arithmetic::power2::pow2;
use vstd::prelude::*;

verus! {

/// Lengths 2..=273, as `len - 2`.
pub const LEN_SYMBOLS: usize = 272;

/// The price of a length, given as `len - 2`, with the model at `base`.
pub open spec fn len_price(probs: Seq<u16>, base: int, ps: nat, len: nat) -> nat {
    if len < 8 {
        bit_price(probs[base], false) + tree_price(probs, base + LEN_LOW + 8 * ps, 1, 3, len)
    } else if len < 16 {
        bit_price(probs[base], true) + bit_price(probs[base + 1], false) + tree_price(
            probs,
            base + LEN_MID + 8 * ps,
            1,
            3,
            (len - 8) as nat,
        )
    } else {
        bit_price(probs[base], true) + bit_price(probs[base + 1], true) + tree_price(
            probs,
            base + LEN_HIGH,
            1,
            8,
            (len - 16) as nat,
        )
    }
}

/// The price of a distance slot.
pub open spec fn slot_price(probs: Seq<u16>, ls: nat, slot: nat) -> nat {
    tree_price(probs, DIST_SLOT + 64 * ls, 1, 6, slot)
}

/// The price of a 0-based distance whose slot is modelled whole.
pub open spec fn full_dist_price(probs: Seq<u16>, ls: nat, dist: nat) -> nat {
    let slot = slot_of(dist);
    slot_price(probs, ls, slot) + if slot >= 4 {
        reverse_tree_price(
            probs,
            DIST_SPECIAL + slot_base(slot) - slot,
            1,
            footer_bits_of(slot),
            (dist - slot_base(slot)) as nat,
        )
    } else {
        0
    }
}

/// The price of a 0-based distance for a match of length `len`.
pub open spec fn dist_price(probs: Seq<u16>, dist: nat, len: nat) -> nat {
    let ls = len_state_of((len - 2) as nat);
    if dist < 128 {
        full_dist_price(probs, ls, dist)
    } else {
        let slot = slot_of(dist);
        slot_price(probs, ls, slot) + ((footer_bits_of(slot) - 4) * 16) as nat
            + reverse_tree_price(probs, DIST_ALIGN as int, 1, 4, dist % 16)
    }
}

/// The price of the low `n` bits of `byte` coded against those of `other`.
pub open spec fn matched_price(
    probs: Seq<u16>,
    base: int,
    n: nat,
    symbol: nat,
    byte: nat,
    other: nat,
    same: bool,
) -> nat
    decreases n,
{
    if n == 0 {
        0
    } else {
        let bit = (byte / pow2((n - 1) as nat)) % 2;
        let other_bit = (other / pow2((n - 1) as nat)) % 2;
        bit_price(probs[matched_at(base, symbol, other_bit, same)], bit == 1) + matched_price(
            probs,
            base,
            (n - 1) as nat,
            2 * symbol + bit,
            byte,
            other,
            same && other_bit == bit,
        )
    }
}

/// The price of a literal's bits, without the is-match bit.
pub open spec fn byte_price(probs: Seq<u16>, base: int, byte: u8, against: Option<u8>) -> nat {
    match against {
        None => tree_price(probs, base, 1, 8, byte as nat),
        Some(other) => matched_price(probs, base, 8, 1, byte as nat, other as nat, true),
    }
}

/// The price of a literal at `pos` after `prev`, coded against the byte at
/// the last distance after a match.
pub open spec fn literal_price(
    probs: Seq<u16>,
    props: Props,
    state: State,
    pos: nat,
    prev: u8,
    byte: u8,
    against: Option<u8>,
) -> nat {
    bit_price(probs[IS_MATCH + 16 * state.0 + pos_state_of(props, pos)], false) + byte_price(
        probs,
        literal_at(props, pos, prev),
        byte,
        against,
    )
}

/// The price of a one-byte repeat.
pub open spec fn short_rep_price(probs: Seq<u16>, s: int, ps: int) -> nat {
    bit_price(probs[IS_MATCH + 16 * s + ps], true) + bit_price(probs[IS_REP + s], true) + bit_price(
        probs[IS_REP_G0 + s],
        false,
    ) + bit_price(probs[IS_REP0_LONG + 16 * s + ps], false)
}

/// The price of choosing repeat distance `index`, without the length.
pub open spec fn rep_price(probs: Seq<u16>, index: int, s: int, ps: int) -> nat {
    let head = bit_price(probs[IS_MATCH + 16 * s + ps], true) + bit_price(probs[IS_REP + s], true);
    head + if index == 0 {
        bit_price(probs[IS_REP_G0 + s], false) + bit_price(
            probs[IS_REP0_LONG + 16 * s + ps],
            true,
        )
    } else if index == 1 {
        bit_price(probs[IS_REP_G0 + s], true) + bit_price(probs[IS_REP_G1 + s], false)
    } else {
        bit_price(probs[IS_REP_G0 + s], true) + bit_price(probs[IS_REP_G1 + s], true) + bit_price(
            probs[IS_REP_G2 + s],
            index == 3,
        )
    }
}

/// The price of the token-kind bits of a new match.
pub open spec fn new_match_price(probs: Seq<u16>, s: int, ps: int) -> nat {
    bit_price(probs[IS_MATCH + 16 * s + ps], true) + bit_price(probs[IS_REP + s], false)
}

/// Tables of the prices of lengths and distances, as they were when the
/// tables were last filled.
pub struct Prices {
    pos_states: usize,
    /// 272 prices for each position state.
    len: Vec<u32>,
    rep_len: Vec<u32>,
    /// 64 prices for each length state.
    dist_slot: Vec<u32>,
    /// Whole price of each distance below `NUM_FULL_DISTANCES`, for each
    /// length state.
    full_dist: Vec<u32>,
    align: Vec<u32>,
    seen: Ghost<Seq<u16>>,
}

spec fn len_table_ok(t: Seq<u32>, probs: Seq<u16>, base: int, pos_states: int, done: int) -> bool {
    &&& t.len() == 272 * pos_states
    &&& forall|i: int|
        0 <= i < done ==> (#[trigger] t[i]) as nat == len_price(
            probs,
            base,
            (i / 272) as nat,
            (i % 272) as nat,
        ) && t[i] <= 970
}

spec fn slot_table_ok(t: Seq<u32>, probs: Seq<u16>, done: int) -> bool {
    &&& t.len() == 256
    &&& forall|i: int|
        0 <= i < done ==> (#[trigger] t[i]) as nat == slot_price(
            probs,
            (i / 64) as nat,
            (i % 64) as nat,
        ) && t[i] <= 582
}

spec fn full_table_ok(t: Seq<u32>, probs: Seq<u16>, done: int) -> bool {
    &&& t.len() == 512
    &&& forall|i: int|
        0 <= i < done ==> (#[trigger] t[i]) as nat == full_dist_price(
            probs,
            (i / 128) as nat,
            (i % 128) as nat,
        ) && t[i] <= 1067
}

spec fn align_table_ok(t: Seq<u32>, probs: Seq<u16>, done: int) -> bool {
    &&& t.len() == 16
    &&& forall|i: int|
        0 <= i < done ==> (#[trigger] t[i]) as nat == reverse_tree_price(
            probs,
            DIST_ALIGN as int,
            1,
            4,
            i as nat,
        ) && t[i] <= 388
}

impl Prices {
    /// The probabilities that the tables were filled from.
    pub closed spec fn seen(&self) -> Seq<u16> {
        self.seen@
    }

    /// How many position states there are prices for.
    pub closed spec fn states(&self) -> nat {
        self.pos_states as nat
    }

    spec fn sized(&self) -> bool {
        &&& 1 <= self.pos_states <= 16
        &&& self.len@.len() == 272 * self.pos_states
        &&& self.rep_len@.len() == 272 * self.pos_states
        &&& self.dist_slot@.len() == 256
        &&& self.full_dist@.len() == 512
        &&& self.align@.len() == 16
    }

    /// The tables hold the prices.
    pub closed spec fn wf(&self) -> bool {
        &&& self.sized()
        &&& len_table_ok(
            self.len@,
            self.seen@,
            LEN as int,
            self.pos_states as int,
            272 * self.pos_states,
        )
        &&& len_table_ok(
            self.rep_len@,
            self.seen@,
            REP_LEN as int,
            self.pos_states as int,
            272 * self.pos_states,
        )
        &&& slot_table_ok(self.dist_slot@, self.seen@, 256)
        &&& full_table_ok(self.full_dist@, self.seen@, 512)
        &&& align_table_ok(self.align@, self.seen@, 16)
    }

    pub fn new(m: &Model) -> (r: Self)
        requires
            m.wf(),
        ensures
            r.wf(),
            r.seen() == m.probs@,
            r.states() == pow2(m.props.pb as nat),
    {
        proof {
            lemma_pow2_values();
            lemma_pow2_pos(m.props.pb as nat);
            lemma_pow2_le(m.props.pb as nat, 4);
        }
        let pos_states: usize = two_to(m.props.pb) as usize;
        let mut p = Self {
            pos_states,
            len: vec![0;LEN_SYMBOLS * pos_states],
            rep_len: vec![0;LEN_SYMBOLS * pos_states],
            dist_slot: vec![0;256],
            full_dist: vec![0;512],
            align: vec![0;16],
            seen: Ghost(m.probs@),
        };
        p.fill(m);
        p
    }

    /// Recompute every table from the model's current probabilities.
    pub fn update(&mut self, m: &Model)
        requires
            old(self).wf(),
            m.wf(),
        ensures
            final(self).wf(),
            final(self).seen() == m.probs@,
            final(self).states() == old(self).states(),
    {
        self.fill(m);
    }

    fn fill(&mut self, m: &Model)
        requires
            old(self).sized(),
            m.wf(),
        ensures
            final(self).wf(),
            final(self).seen() == m.probs@,
            final(self).pos_states == old(self).pos_states,
    {
        proof {
            lemma_literal_at(m.props, 0, 0);
            lemma_pow2_pos((m.props.lc + m.props.lp) as nat);
        }
        fill_len_prices(&m.probs, LEN, self.pos_states, &mut self.len);
        fill_len_prices(&m.probs, REP_LEN, self.pos_states, &mut self.rep_len);
        fill_slot_prices(&m.probs, &mut self.dist_slot);
        fill_dist_prices(&m.probs, &self.dist_slot, &mut self.full_dist);
        fill_align_prices(&m.probs, &mut self.align);
        self.seen = Ghost(m.probs@);
    }

    /// Price of the length part of a new match.
    pub fn len(&self, pos_state: usize, len: usize) -> (r: u32)
        requires
            self.wf(),
            pos_state < self.states(),
            2 <= len <= 273,
        ensures
            r == len_price(self.seen(), LEN as int, pos_state as nat, (len - 2) as nat),
            r <= 970,
    {
        let i: usize = LEN_SYMBOLS * pos_state + (len - MATCH_MIN_LEN);
        assert(i as int / 272 == pos_state && i as int % 272 == len - 2);
        self.len[i]
    }

    /// Price of the length part of a repeat match.
    pub fn rep_len(&self, pos_state: usize, len: usize) -> (r: u32)
        requires
            self.wf(),
            pos_state < self.states(),
            2 <= len <= 273,
        ensures
            r == len_price(self.seen(), REP_LEN as int, pos_state as nat, (len - 2) as nat),
            r <= 970,
    {
        let i: usize = LEN_SYMBOLS * pos_state + (len - MATCH_MIN_LEN);
        assert(i as int / 272 == pos_state && i as int % 272 == len - 2);
        self.rep_len[i]
    }

    /// Price of a 0-based distance for a match of length `len`.
    pub fn dist(&self, dist: u32, len: usize) -> (r: u32)
        requires
            self.wf(),
            2 <= len <= 273,
        ensures
            r == dist_price(self.seen(), dist as nat, len as nat),
            r <= 1386,
    {
        let ls: usize = Model::len_state((len - MATCH_MIN_LEN) as u32);
        if dist < NUM_FULL_DISTANCES {
            let i: usize = 128 * ls + dist as usize;
            assert(i as int / 128 == ls && i as int % 128 == dist);
            return self.full_dist[i];
        }
        let slot: u32 = dist_slot(dist);
        proof {
            lemma_slot(dist as nat);
            lemma_slot_base(slot as nat);
        }
        let footer_bits: u32 = slot / 2 - 1;
        let i: usize = 64 * ls + slot as usize;
        assert(i as int / 64 == ls && i as int % 64 == slot);
        self.dist_slot[i] + (footer_bits - ALIGN_BITS) * PRICE_ONE_BIT + self.align[(dist
            % 16) as usize]
    }
}

fn fill_len_prices(probs: &[Prob], base: usize, pos_states: usize, out: &mut Vec<u32>)
    requires
        probs_ok(probs@),
        base + 514 <= probs@.len(),
        pos_states <= 16,
        old(out)@.len() == 272 * pos_states,
    ensures
        len_table_ok(final(out)@, probs@, base as int, pos_states as int, 272 * pos_states),
{
    assert(probs@.len() == probs.len());
    proof {
        lemma_pow2_values();
    }
    let c0: u32 = price_bit(probs[base], 0);
    let c1: u32 = price_bit(probs[base], 1);
    let c2_0: u32 = price_bit(probs[base + 1], 0);
    let c2_1: u32 = price_bit(probs[base + 1], 1);
    let mut i: usize = 0;
    while i < LEN_SYMBOLS * pos_states
        invariant
            probs_ok(probs@),
            base + 514 <= probs@.len(),
            probs@.len() == probs.len(),
            pos_states <= 16,
            i <= 272 * pos_states,
            pow2(3) == 8,
            pow2(8) == 256,
            c0 == bit_price(probs@[base as int], false),
            c1 == bit_price(probs@[base as int], true),
            c2_0 == bit_price(probs@[base + 1], false),
            c2_1 == bit_price(probs@[base + 1], true),
            c0 <= 97,
            c1 <= 97,
            c2_0 <= 97,
            c2_1 <= 97,
            len_table_ok(out@, probs@, base as int, pos_states as int, i as int),
        decreases 272 * pos_states - i,
    {
        let ps: usize = i / LEN_SYMBOLS;
        let len: u32 = (i % LEN_SYMBOLS) as u32;
        let price: u32 = if len < 8 {
            c0 + price_tree_at(probs, base + LEN_LOW + 8 * ps, 3, len)
        } else if len < 16 {
            c1 + c2_0 + price_tree_at(probs, base + LEN_MID + 8 * ps, 3, len - 8)
        } else {
            c1 + c2_1 + price_tree_at(probs, base + LEN_HIGH, 8, len - 16)
        };
        out[i] = price;
        i = i + 1;
    }
}

fn fill_slot_prices(probs: &[Prob], out: &mut Vec<u32>)
    requires
        probs_ok(probs@),
        probs@.len() >= 1847,
        old(out)@.len() == 256,
    ensures
        slot_table_ok(final(out)@, probs@, 256),
{
    proof {
        lemma_pow2_values();
    }
    let mut i: usize = 0;
    while i < 64 * LEN_TO_POS_STATES
        invariant
            probs_ok(probs@),
            probs@.len() >= 1847,
            pow2(6) == 64,
            i <= 256,
            slot_table_ok(out@, probs@, i as int),
        decreases 256 - i,
    {
        out[i] = price_tree_at(probs, DIST_SLOT + 64 * (i / 64), 6, (i % 64) as u32);
        i = i + 1;
    }
}

fn fill_dist_prices(probs: &[Prob], slots: &Vec<u32>, out: &mut Vec<u32>)
    requires
        probs_ok(probs@),
        probs@.len() >= 1847,
        slot_table_ok(slots@, probs@, 256),
        old(out)@.len() == 512,
    ensures
        full_table_ok(final(out)@, probs@, 512),
{
    let mut i: usize = 0;
    while i < 128 * LEN_TO_POS_STATES
        invariant
            probs_ok(probs@),
            probs@.len() >= 1847,
            slot_table_ok(slots@, probs@, 256),
            i <= 512,
            full_table_ok(out@, probs@, i as int),
        decreases 512 - i,
    {
        let ls: usize = i / 128;
        let dist: u32 = (i % 128) as u32;
        let slot: u32 = dist_slot(dist);
        proof {
            if dist >= 4 {
                lemma_slot(dist as nat);
                lemma_slot_base(slot as nat);
                lemma_pow2_le(footer_bits_of(slot as nat), 5);
            }
            lemma_pow2_values();
        }
        let at: usize = 64 * ls + slot as usize;
        assert(at as int / 64 == ls && at as int % 64 == slot);
        let mut price: u32 = slots[at];
        if slot >= 4 {
            let footer_bits: u32 = slot / 2 - 1;
            let two: u64 = two_to(footer_bits);
            assert((2 + slot % 2) * two <= 96) by (nonlinear_arith)
                requires
                    slot % 2 <= 1,
                    two <= 32,
            ;
            let base: u32 = ((2 + slot % 2) as u64 * two) as u32;
            assert(base == slot_base(slot as nat));
            price = price + price_reverse_tree_at(
                probs,
                DIST_SPECIAL + (base - slot) as usize,
                footer_bits,
                dist - base,
            );
        }
        out[i] = price;
        i = i + 1;
    }
}

fn fill_align_prices(probs: &[Prob], out: &mut Vec<u32>)
    requires
        probs_ok(probs@),
        probs@.len() >= 1847,
        old(out)@.len() == 16,
    ensures
        align_table_ok(final(out)@, probs@, 16),
{
    proof {
        lemma_pow2_values();
    }
    let mut i: usize = 0;
    while i < 16
        invariant
            probs_ok(probs@),
            probs@.len() >= 1847,
            pow2(4) == 16,
            i <= 16,
            align_table_ok(out@, probs@, i as int),
        decreases 16 - i,
    {
        out[i] = price_reverse_tree_at(probs, DIST_ALIGN, ALIGN_BITS, i as u32);
        i = i + 1;
    }
}

/// Price of the bits of a literal, without the is-match bit, with the
/// probabilities at `base`.
pub fn literal_bits(m: &Model, base: usize, byte: u8, match_byte: Option<u8>) -> (r: u32)
    requires
        m.wf(),
        base + 768 <= m.probs@.len(),
    ensures
        r == byte_price(m.probs@, base as int, byte, match_byte),
        r <= 776,
{
    let probs = &m.probs;
    proof {
        lemma_pow2_values();
        assert(probs@.len() == probs.len());
    }
    let other = match match_byte {
        None => {
            return price_tree_at(probs, base, 8, byte as u32);
        },
        Some(b) => b,
    };
    let ghost target = matched_price(
        probs@,
        base as int,
        8,
        1,
        byte as nat,
        other as nat,
        true,
    );
    let mut price: u32 = 0;
    let mut symbol: usize = 1;
    let mut same: bool = true;
    let mut left: u32 = 8;
    while left > 0
        invariant
            probs_ok(probs@),
            base + 768 <= probs@.len() <= usize::MAX,
            left <= 8,
            symbol < pow2((9 - left) as nat),
            price <= 97 * (8 - left),
            price + matched_price(
                probs@,
                base as int,
                left as nat,
                symbol as nat,
                byte as nat,
                other as nat,
                same,
            ) == target,
        decreases left,
    {
        proof {
            lemma_pow2_values();
            lemma_pow2_le((9 - left) as nat, 8);
            lemma_pow2_unfold((10 - left) as nat);
        }
        left = left - 1;
        let bit: bool = bit_at(byte as u32, left);
        let other_bit: bool = bit_at(other as u32, left);
        let at: usize = if same {
            if other_bit {
                base + 512 + symbol
            } else {
                base + 256 + symbol
            }
        } else {
            base + symbol
        };
        let b: u32 = if bit {
            1
        } else {
            0
        };
        price = price + price_bit(probs[at], b);
        symbol = 2 * symbol + b as usize;
        same = same && other_bit == bit;
    }
    price
}

/// Price of the byte at `pos` as a literal, including the is-match bit.
/// `match_byte` is the byte at distance rep0 when the last token was a
/// match (literals are then coded against it), `None` otherwise.
pub fn literal(m: &Model, state: State, pos: usize, prev: u8, byte: u8, match_byte: Option<u8>) -> (
    r: u32)
    requires
        m.wf(),
        state.ok(),
    ensures
        r == literal_price(m.probs@, m.props, state, pos as nat, prev, byte, match_byte),
        r <= 873,
{
    let base: usize = m.literal_base(pos, prev);
    let at: usize = IS_MATCH + 16 * state.index() + m.pos_state(pos);
    let is_match: u32 = price_bit(m.probs[at], 0);
    is_match + literal_bits(m, base, byte, match_byte)
}

/// Price of a one-byte repeat of distance rep0.
pub fn short_rep(m: &Model, state: State, pos_state: usize) -> (r: u32)
    requires
        m.wf(),
        state.ok(),
        pos_state < 16,
    ensures
        r == short_rep_price(m.probs@, state.0 as int, pos_state as int),
        r <= 388,
{
    let s: usize = state.index();
    price_bit(m.probs[IS_MATCH + 16 * s + pos_state], 1) + price_bit(m.probs[IS_REP + s], 1)
        + price_bit(m.probs[IS_REP_G0 + s], 0) + price_bit(
        m.probs[IS_REP0_LONG + 16 * s + pos_state],
        0,
    )
}

/// Price of choosing repeat distance `index` (length not included).
pub fn rep(m: &Model, index: usize, state: State, pos_state: usize) -> (r: u32)
    requires
        m.wf(),
        state.ok(),
        pos_state < 16,
        index < 4,
    ensures
        r == rep_price(m.probs@, index as int, state.0 as int, pos_state as int),
        r <= 485,
{
    let s: usize = state.index();
    let head: u32 = price_bit(m.probs[IS_MATCH + 16 * s + pos_state], 1) + price_bit(
        m.probs[IS_REP + s],
        1,
    );
    if index == 0 {
        head + price_bit(m.probs[IS_REP_G0 + s], 0) + price_bit(
            m.probs[IS_REP0_LONG + 16 * s + pos_state],
            1,
        )
    } else if index == 1 {
        head + price_bit(m.probs[IS_REP_G0 + s], 1) + price_bit(m.probs[IS_REP_G1 + s], 0)
    } else {
        head + price_bit(m.probs[IS_REP_G0 + s], 1) + price_bit(m.probs[IS_REP_G1 + s], 1)
            + price_bit(m.probs[IS_REP_G2 + s], (index - 2) as u32)
    }
}

/// Price of the token-kind bits of a new match.
pub fn new_match(m: &Model, state: State, pos_state: usize) -> (r: u32)
    requires
        m.wf(),
        state.ok(),
        pos_state < 16,
    ensures
        r == new_match_price(m.probs@, state.0 as int, pos_state as int),
        r <= 194,
{
    let s: usize = state.index();
    price_bit(m.probs[IS_MATCH + 16 * s + pos_state], 1) + price_bit(m.probs[IS_REP + s], 0)
}

} // verus!
