//! LZMA, the method behind 7-Zip and `.xz`: LZ77 with a large window,
//! coded bit by bit with the adaptive range coder ([`crate::range`]) and
//! many small context models.
//!
//! Deflate codes LZ77 tokens with Huffman tables fixed per block. LZMA
//! instead predicts every bit of every token from what came just before it:
//!
//! - **A 12-state machine** remembers the last few token kinds (literal,
//!   match, repeated match...). "Is the next token a match?" is predicted
//!   separately for each state and for the position's low bits, so the
//!   models learn things like "after a match, a literal is likely".
//! - **Repeated distances.** The last four distances are remembered, and
//!   reusing one costs a few bits instead of a whole distance. Tables and
//!   structs, where the same stride keeps coming back, gain a lot.
//! - **Literal contexts.** A literal is predicted from the high bits of the
//!   byte before it. Right after a match it is also compared bit by bit with
//!   the byte the match would have continued with (the "match byte"),
//!   because the literal usually differs from it in only a few bits.
//! - **A large window** (16 MB here, against Deflate's 32 KB) finds repeats
//!   that are far apart.
//!
//! The stream is the classic `.lzma` format ("LZMA_Alone"), readable by
//! `xz --format=lzma`, 7-Zip and liblzma:
//!
//! | offset | size | field |
//! |---|---|---|
//! | 0 | 1 | properties: `(pb * 5 + lp) * 9 + lc` |
//! | 1 | 4 | dictionary size, little-endian |
//! | 5 | 8 | uncompressed size, little-endian (`u64::MAX` = unknown, end marker used) |
//! | 13 | .. | range-coded data |
//!
//! The format is that of the public-domain LZMA SDK by Igor Pavlov.

use crate::bits::ilog2;
use crate::bits::lemma_ilog2;
use crate::bits::lemma_ilog2_unique;
use crate::error::Error;
use crate::nums::lemma_join_bound;
use crate::nums::lemma_pow2_le;
use crate::nums::lemma_pow2_values;
use crate::nums::lemma_split_pow2;
use crate::nums::two_to;
use crate::range::probs_ok;
use crate::range::Prob;
use crate::range::PROB_INIT;
use vstd::arithmetic::power2::lemma_pow2_pos;
use vstd::arithmetic::power2::lemma_pow2_unfold;
use vstd::arithmetic::power2::pow2;
use vstd::prelude::*;

pub mod choices;
pub mod decode;
pub mod encode;
pub mod format;
pub mod found;
pub mod layout;
pub mod matchfinder;
pub mod optimal;
pub mod price;
pub mod reach;

pub use crate::lzma::decode::decompress;
pub use crate::lzma::encode::compress;
pub use crate::lzma::encode::Options;
pub use crate::lzma::encode::Parse;

verus! {

/// Size of the `.lzma` header.
pub const HEADER_LEN: usize = 13;

/// States below this follow a literal; from here on they follow a match.
pub const LIT_STATES: u8 = 7;

/// Shortest match LZMA can code.
pub const MATCH_MIN_LEN: usize = 2;

/// Longest match LZMA can code.
pub const MATCH_MAX_LEN: usize = 273;

/// Distance-slot models, chosen by match length: 2, 3, 4, 5+.
pub const LEN_TO_POS_STATES: usize = 4;

/// Slots from here on send their middle bits directly, not modelled.
pub const END_POS_MODEL_INDEX: u32 = 14;

/// Distances below this have slots that are modelled whole.
pub const NUM_FULL_DISTANCES: u32 = 128;

/// Low bits of a large distance that are modelled.
pub const ALIGN_BITS: u32 = 4;

/// Distance value that marks the end of the stream.
pub const END_MARKER_DIST: u32 = 0xFFFF_FFFF;

// Where each group of probabilities starts in the model.

/// Is the next token a match? 16 position states for each of 12 states.
pub const IS_MATCH: usize = 0;

/// Is the match a repeat? One for each state.
pub const IS_REP: usize = 192;

/// Is the repeat of another distance than the last one?
pub const IS_REP_G0: usize = 204;

/// ... than the last two?
pub const IS_REP_G1: usize = 216;

/// ... than the last three?
pub const IS_REP_G2: usize = 228;

/// Is the repeat of the last distance longer than one byte?
pub const IS_REP0_LONG: usize = 240;

/// A 6-bit tree of distance slots for each length state.
pub const DIST_SLOT: usize = 432;

/// Reverse bit trees for the low bits of distances with slots 4-13.
pub const DIST_SPECIAL: usize = 688;

/// Reverse bit tree for the lowest 4 bits of large distances.
pub const DIST_ALIGN: usize = 803;

/// Lengths of new matches.
pub const LEN: usize = 819;

/// Lengths of repeats.
pub const REP_LEN: usize = 1333;

/// `0x300` probabilities per literal context: 256 for a plain literal tree,
/// plus 2 x 256 for coding it against a match byte.
pub const LITERAL: usize = 1847;

// Within the length models, which code `len - 2` in `0..=271`:
//
// 0 + 3 bits   0-7     (per position state)
// 10 + 3 bits  8-15    (per position state)
// 11 + 8 bits  16-271

/// Short lengths, after the two choice bits.
pub const LEN_LOW: usize = 2;

/// Middle lengths.
pub const LEN_MID: usize = 130;

/// Long lengths.
pub const LEN_HIGH: usize = 258;

/// Literal context and position bits. We always write lc=3, lp=0, pb=2,
/// the LZMA defaults; the decoder accepts any valid combination.
#[derive(Debug, Clone, Copy, PartialEq, Eq)]
pub struct Props {
    /// High bits of the previous byte used as literal context (0-8).
    pub lc: u32,
    /// Low bits of the position used as literal context (0-4).
    pub lp: u32,
    /// Low bits of the position used as token context (0-4).
    pub pb: u32,
}

/// The properties that the encoder writes.
pub open spec fn default_props() -> Props {
    Props { lc: 3, lp: 0, pb: 2 }
}

impl Default for Props {
    fn default() -> (r: Self)
        ensures
            r == default_props(),
    {
        Self { lc: 3, lp: 0, pb: 2 }
    }
}

/// The properties byte.
pub open spec fn props_byte(props: Props) -> nat {
    ((props.pb * 5 + props.lp) * 9 + props.lc) as nat
}

/// The properties that a byte stands for.
pub open spec fn props_of(b: u8) -> Result<Props, Error> {
    if b >= 225 {
        Err(Error::Corrupt("invalid LZMA properties byte"))
    } else {
        Ok(Props { lc: (b % 9) as u32, lp: (b / 9 % 5) as u32, pb: (b / 45) as u32 })
    }
}

impl Props {
    /// Values that the format can express.
    pub open spec fn ok(self) -> bool {
        self.lc <= 8 && self.lp <= 4 && self.pb <= 4
    }

    /// The properties as a byte.
    pub fn to_byte(self) -> (r: u8)
        requires
            self.ok(),
        ensures
            r == props_byte(self),
            props_of(r) == Ok::<Props, Error>(self),
    {
        ((self.pb * 5 + self.lp) * 9 + self.lc) as u8
    }

    /// The properties in a byte.
    pub fn from_byte(b: u8) -> (r: Result<Self, Error>)
        ensures
            r == props_of(b),
            r matches Ok(p) ==> p.ok() && props_byte(p) == b,
    {
        if b >= 225 {
            return Err(Error::Corrupt("invalid LZMA properties byte"));
        }
        Ok(Self { lc: (b % 9) as u32, lp: (b / 9 % 5) as u32, pb: (b / 45) as u32 })
    }
}

/// The token-kind history. 0-6 mean the last token was a literal (with
/// different histories before it), 7-11 that it was some kind of match.
#[derive(Debug, Clone, Copy, PartialEq, Eq)]
pub struct State(pub u8);

impl Default for State {
    fn default() -> (r: Self)
        ensures
            r == State(0),
    {
        State(0)
    }
}

/// The state after a literal.
pub open spec fn literal_next(s: State) -> State {
    State(
        if s.0 <= 3 {
            0
        } else if s.0 <= 9 {
            (s.0 - 3) as u8
        } else {
            (s.0 - 6) as u8
        },
    )
}

/// The state after a match.
pub open spec fn match_next(s: State) -> State {
    State(
        if s.0 < 7 {
            7
        } else {
            10
        },
    )
}

/// The state after a repeat.
pub open spec fn rep_next(s: State) -> State {
    State(
        if s.0 < 7 {
            8
        } else {
            11
        },
    )
}

/// The state after a one-byte repeat.
pub open spec fn short_rep_next(s: State) -> State {
    State(
        if s.0 < 7 {
            9
        } else {
            11
        },
    )
}

impl State {
    /// The states that the machine reaches.
    pub open spec fn ok(self) -> bool {
        self.0 < 12
    }

    pub fn is_literal(self) -> (r: bool)
        ensures
            r == (self.0 < 7),
    {
        self.0 < LIT_STATES
    }

    pub fn after_literal(&mut self)
        ensures
            *final(self) == literal_next(*old(self)),
    {
        self.0 = if self.0 <= 3 {
            0
        } else if self.0 <= 9 {
            self.0 - 3
        } else {
            self.0 - 6
        };
    }

    pub fn after_match(&mut self)
        ensures
            *final(self) == match_next(*old(self)),
    {
        self.0 = if self.is_literal() {
            7
        } else {
            10
        };
    }

    pub fn after_rep(&mut self)
        ensures
            *final(self) == rep_next(*old(self)),
    {
        self.0 = if self.is_literal() {
            8
        } else {
            11
        };
    }

    pub fn after_short_rep(&mut self)
        ensures
            *final(self) == short_rep_next(*old(self)),
    {
        self.0 = if self.is_literal() {
            9
        } else {
            11
        };
    }

    pub fn index(self) -> (r: usize)
        ensures
            r == self.0,
    {
        self.0 as usize
    }
}

/// How many probabilities a model has.
pub open spec fn model_len(props: Props) -> nat {
    (1847 + 768 * pow2((props.lc + props.lp) as nat)) as nat
}

/// The probabilities of a new model.
pub open spec fn fresh(props: Props) -> Seq<u16> {
    Seq::new(model_len(props), |i: int| 1024u16)
}

/// The low bits of a position that its tokens depend on.
pub open spec fn pos_state_of(props: Props, pos: nat) -> nat {
    pos % pow2(props.pb as nat)
}

/// Where the 0x300 literal probabilities for a byte at `pos` after `prev`
/// start.
pub open spec fn literal_at(props: Props, pos: nat, prev: u8) -> int {
    let ctx = (pos % pow2(props.lp as nat)) * pow2(props.lc as nat) + prev as nat / pow2(
        (8 - props.lc) as nat,
    );
    (1847 + 768 * ctx) as int
}

pub proof fn lemma_pos_state(props: Props, pos: nat)
    requires
        props.ok(),
    ensures
        pos_state_of(props, pos) < 16,
{
    lemma_pow2_values();
    lemma_pow2_pos(props.pb as nat);
    lemma_pow2_le(props.pb as nat, 4);
}

pub proof fn lemma_literal_at(props: Props, pos: nat, prev: u8)
    requires
        props.ok(),
    ensures
        1847 <= literal_at(props, pos, prev),
        literal_at(props, pos, prev) + 768 <= model_len(props),
        model_len(props) <= 1847 + 768 * 4096,
{
    lemma_pow2_values();
    let lc = props.lc as nat;
    let lp = props.lp as nat;
    lemma_pow2_pos(lp);
    lemma_pow2_pos((8 - lc) as nat);
    lemma_split_pow2(prev as nat, (8 - lc) as nat, lc);
    lemma_join_bound(prev as nat / pow2((8 - lc) as nat), pos % pow2(lp), lc, lp);
    lemma_pow2_le(lc + lp, 12);
}

/// Every probability LZMA uses. Encoder and decoder each keep one and
/// update it identically.
#[derive(Clone)]
pub struct Model {
    pub props: Props,
    pub probs: Vec<Prob>,
}

impl Model {
    pub open spec fn wf(&self) -> bool {
        &&& self.props.ok()
        &&& self.probs@.len() == model_len(self.props)
        &&& probs_ok(self.probs@)
    }

    pub fn new(props: Props) -> (r: Self)
        requires
            props.ok(),
        ensures
            r.wf(),
            r.props == props,
            r.probs@ == fresh(props),
    {
        proof {
            lemma_literal_at(props, 0, 0);
        }
        let n: usize = LITERAL + 0x300 * two_to(props.lc + props.lp) as usize;
        let r = Self { props, probs: vec![PROB_INIT;n] };
        assert(r.probs@ =~= fresh(props));
        r
    }

    pub fn pos_state(&self, pos: usize) -> (r: usize)
        requires
            self.props.ok(),
        ensures
            r == pos_state_of(self.props, pos as nat),
            r < 16,
    {
        proof {
            lemma_pos_state(self.props, pos as nat);
        }
        (pos as u64 % two_to(self.props.pb)) as usize
    }

    /// Where the 0x300 literal probabilities for a byte at `pos` after
    /// `prev` start.
    pub fn literal_base(&self, pos: usize, prev: u8) -> (r: usize)
        requires
            self.props.ok(),
        ensures
            r == literal_at(self.props, pos as nat, prev),
            r + 768 <= model_len(self.props),
    {
        let Props { lc, lp, .. } = self.props;
        proof {
            let clc = lc as nat;
            let clp = lp as nat;
            lemma_literal_at(self.props, pos as nat, prev);
            lemma_pow2_values();
            lemma_pow2_pos(clp);
            lemma_pow2_pos((8 - clc) as nat);
            lemma_split_pow2(prev as nat, (8 - clc) as nat, clc);
            lemma_join_bound(0, pos as nat % pow2(clp), clc, clp);
            lemma_join_bound(
                prev as nat / pow2((8 - clc) as nat),
                pos as nat % pow2(clp),
                clc,
                clp,
            );
            lemma_pow2_le(clc + clp, 12);
        }
        let high: u64 = (pos as u64 % two_to(lp)) * two_to(lc);
        let ctx: u64 = high + prev as u64 / two_to(8 - lc);
        LITERAL + 0x300 * ctx as usize
    }

    /// Which models the distance slot uses, from `len - 2`.
    pub fn len_state(len: u32) -> (r: usize)
        ensures
            r == len_state_of(len as nat),
    {
        if len < 3 {
            len as usize
        } else {
            3
        }
    }
}

/// Which models the distance slot uses, from `len - 2`.
pub open spec fn len_state_of(len: nat) -> nat {
    if len < 3 {
        len
    } else {
        3
    }
}

/// Distance slot of a 0-based distance: 0-3 as is, then two slots per
/// power of two (the top two bits of the distance).
pub open spec fn slot_of(dist: nat) -> nat {
    if dist < 4 {
        dist
    } else {
        2 * ilog2(dist) + (dist / pow2((ilog2(dist) - 1) as nat)) % 2
    }
}

/// How many bits below its top two a distance of slot `slot` has.
pub open spec fn footer_bits_of(slot: nat) -> nat {
    (slot / 2 - 1) as nat
}

/// The least distance of slot `slot`.
pub open spec fn slot_base(slot: nat) -> nat {
    (2 + slot % 2) * pow2(footer_bits_of(slot))
}

/// A distance lies in its slot.
pub proof fn lemma_slot(dist: nat)
    requires
        4 <= dist < 0x1_0000_0000,
    ensures
        4 <= slot_of(dist) < 64,
        slot_base(slot_of(dist)) <= dist < slot_base(slot_of(dist)) + pow2(
            footer_bits_of(slot_of(dist)),
        ),
        slot_of(dist) < 14 <==> dist < 128,
{
    let top = ilog2(dist);
    lemma_ilog2(dist);
    lemma_pow2_values();
    if top >= 32 {
        lemma_pow2_le(32, top);
    }
    if top < 2 {
        lemma_pow2_le(top + 1, 2);
    }
    let f = (top - 1) as nat;
    lemma_pow2_unfold(top);
    lemma_pow2_unfold(top + 1);
    lemma_pow2_pos(f);
    let q = dist / pow2(f);
    let r = dist % pow2(f);
    vstd::arithmetic::div_mod::lemma_fundamental_div_mod(dist as int, pow2(f) as int);
    assert(2 <= q < 4) by (nonlinear_arith)
        requires
            2 * pow2(f) <= dist < 4 * pow2(f),
            dist == pow2(f) * q + r,
            0 <= r < pow2(f),
    ;
    assert(pow2(f) * q == q * pow2(f)) by (nonlinear_arith);
    let slot = slot_of(dist);
    assert(slot == 2 * top + q % 2);
    assert(slot / 2 == top);
    assert(slot % 2 == q % 2);
    assert(2 + slot % 2 == q);
    if top < 7 {
        lemma_pow2_le(top + 1, 7);
    } else {
        lemma_pow2_le(7, top);
    }
}

/// The least distance of a slot, and how far the slot reaches.
pub proof fn lemma_slot_base(slot: nat)
    requires
        4 <= slot < 64,
    ensures
        1 <= footer_bits_of(slot) <= 30,
        slot_base(slot) + pow2(footer_bits_of(slot)) <= 0x1_0000_0000,
        slot < 14 ==> footer_bits_of(slot) <= 5 && slot <= slot_base(slot) && slot_base(slot)
            - slot + pow2(footer_bits_of(slot)) <= 115,
        slot >= 14 ==> footer_bits_of(slot) >= 6,
{
    lemma_pow2_values();
    let f = footer_bits_of(slot);
    lemma_pow2_le(f, 30);
    vstd::arithmetic::power2::lemma2_to64();
    assert((2 + slot % 2) * pow2(f) + pow2(f) <= 4 * pow2(f)) by (nonlinear_arith)
        requires
            slot % 2 <= 1,
    ;
    if slot < 14 {
        if slot == 4 || slot == 5 {
            assert((2 + slot % 2) * pow2(f) == 2 * (2 + slot % 2)) by (nonlinear_arith)
                requires
                    pow2(f) == 2,
            ;
        } else if slot == 6 || slot == 7 {
            assert((2 + slot % 2) * pow2(f) == 4 * (2 + slot % 2)) by (nonlinear_arith)
                requires
                    pow2(f) == 4,
            ;
        } else if slot == 8 || slot == 9 {
            assert((2 + slot % 2) * pow2(f) == 8 * (2 + slot % 2)) by (nonlinear_arith)
                requires
                    pow2(f) == 8,
            ;
        } else if slot == 10 || slot == 11 {
            assert((2 + slot % 2) * pow2(f) == 16 * (2 + slot % 2)) by (nonlinear_arith)
                requires
                    pow2(f) == 16,
            ;
        } else {
            assert((2 + slot % 2) * pow2(f) == 32 * (2 + slot % 2)) by (nonlinear_arith)
                requires
                    pow2(f) == 32,
            ;
        }
    }
}

/// Distance slot of a 0-based distance.
pub fn dist_slot(dist: u32) -> (r: u32)
    ensures
        r == slot_of(dist as nat),
        r < 64,
{
    if dist < 4 {
        return dist;
    }
    let mut top: u32 = 2;
    proof {
        lemma_pow2_values();
        lemma_slot(dist as nat);
    }
    while top < 31 && two_to(top + 1) <= dist as u64
        invariant
            2 <= top <= 31,
            pow2(top as nat) <= dist,
        decreases 31 - top,
    {
        top = top + 1;
    }
    proof {
        if top == 31 {
            lemma_pow2_values();
        }
        lemma_ilog2_unique(dist as nat, top as nat);
    }
    2 * top + (dist as u64 / two_to(top - 1) % 2) as u32
}

} // verus!
