//! What an LZMA stream says: how each token is coded, and what a decoder
//! makes of a stream.
use crate::error::Error;
use crate::lz77::copied;
use crate::lz77::lemma_copied;
use crate::lz77::lemma_copied_len;
use crate::lz77::repeats;
use crate::lzma::footer_bits_of;
use crate::lzma::fresh;
use crate::lzma::len_state_of;
use crate::lzma::lemma_literal_at;
use crate::lzma::lemma_pos_state;
use crate::lzma::lemma_slot;
use crate::lzma::lemma_slot_base;
use crate::lzma::literal_at;
use crate::lzma::literal_next;
use crate::lzma::match_next;
use crate::lzma::model_len;
use crate::lzma::pos_state_of;
use crate::lzma::props_of;
use crate::lzma::rep_next;
use crate::lzma::short_rep_next;
use crate::lzma::slot_base;
use crate::lzma::slot_of;
use crate::lzma::Props;
use crate::lzma::State;
use crate::lzma::DIST_ALIGN;
use crate::lzma::DIST_SLOT;
use crate::lzma::DIST_SPECIAL;
use crate::lzma::IS_MATCH;
use crate::lzma::IS_REP;
use crate::lzma::IS_REP0_LONG;
use crate::lzma::IS_REP_G0;
use crate::lzma::IS_REP_G1;
use crate::lzma::IS_REP_G2;
use crate::lzma::LEN;
use crate::lzma::LEN_HIGH;
use crate::lzma::LEN_LOW;
use crate::lzma::LEN_MID;
use crate::lzma::REP_LEN;
use crate::nums::le_value;
use crate::nums::lemma_pow2_le;
use crate::nums::lemma_pow2_values;
use crate::range::close_window;
use crate::range::bit_decodes;
use crate::range::lemma_bit_ok;
use crate::range::direct_bits_decode;
use crate::range::lemma_close;
use crate::range::lemma_direct_ok;
use crate::range::lemma_open;
use crate::range::reverse_tree_value_decodes;
use crate::range::lemma_reverse_tree_ok;
use crate::range::lemma_top_bit;
use crate::range::tree_value_decodes;
use crate::range::lemma_tree_ok;
use crate::range::open_window;
use crate::range::whole;
use crate::range::Coding;
use crate::range::Decoding;
use vstd::arithmetic::power2::lemma_pow2_pos;
use vstd::arithmetic::power2::lemma_pow2_unfold;
use vstd::arithmetic::power2::pow2;
use vstd::prelude::*;

verus! {

/// One coded token.
#[derive(Debug, Clone, Copy, PartialEq, Eq)]
pub enum Op {
    Literal,
    /// One byte from distance `reps[0]`.
    ShortRep,
    /// `len` bytes from distance `reps[index]`.
    Rep { index: usize, len: usize },
    /// `len` bytes from a new distance (1-based).
    Match { dist: usize, len: usize },
}

impl Default for Op {
    fn default() -> (r: Self)
        ensures
            r == Op::Literal,
    {
        Op::Literal
    }
}

impl Op {
    /// How many bytes a token stands for.
    pub open spec fn span(self) -> nat {
        match self {
            Op::Literal => 1,
            Op::ShortRep => 1,
            Op::Rep { len, .. } => len as nat,
            Op::Match { len, .. } => len as nat,
        }
    }

    /// How many bytes the token stands for.
    pub fn len(self) -> (r: usize)
        ensures
            r == self.span(),
    {
        match self {
            Op::Literal => 1,
            Op::ShortRep => 1,
            Op::Rep { len, .. } => len,
            Op::Match { len, .. } => len,
        }
    }
}

/// The distances with the one at `index` moved to the front.
pub open spec fn to_front(reps: Seq<u32>, index: int) -> Seq<u32> {
    if index == 0 {
        reps
    } else if index == 1 {
        seq![reps[1], reps[0], reps[2], reps[3]]
    } else if index == 2 {
        seq![reps[2], reps[0], reps[1], reps[3]]
    } else {
        seq![reps[3], reps[0], reps[1], reps[2]]
    }
}

/// The state after a token.
pub open spec fn next_state(state: State, op: Op) -> State {
    match op {
        Op::Literal => literal_next(state),
        Op::ShortRep => short_rep_next(state),
        Op::Rep { .. } => rep_next(state),
        Op::Match { .. } => match_next(state),
    }
}

/// The last four distances (0-based) after a token.
pub open spec fn next_reps(reps: Seq<u32>, op: Op) -> Seq<u32> {
    match op {
        Op::Literal => reps,
        Op::ShortRep => reps,
        Op::Rep { index, .. } => to_front(reps, index as int),
        Op::Match { dist, .. } => seq![(dist - 1) as u32, reps[0], reps[1], reps[2]],
    }
}

/// The byte before `pos`; 0 at the start.
pub open spec fn byte_before(data: Seq<u8>, pos: int) -> u8 {
    if pos == 0 {
        0
    } else {
        data[pos - 1]
    }
}

/// The byte that the last distance continues with, after a match.
pub open spec fn byte_against(data: Seq<u8>, pos: int, state: State, reps: Seq<u32>) -> Option<u8> {
    if state.0 < 7 {
        None
    } else {
        Some(data[pos - reps[0] - 1])
    }
}

// How each part of a token is coded.

/// Code the low `n` bits of `byte` against those of `other`. While the bits
/// agree, each bit has models that also depend on the other byte's bit;
/// after the first difference it continues as a plain literal.
pub open spec fn put_matched(
    c: Coding,
    base: int,
    n: nat,
    symbol: nat,
    byte: nat,
    other: nat,
    same: bool,
) -> Coding
    decreases n,
{
    if n == 0 {
        c
    } else {
        let bit = (byte / pow2((n - 1) as nat)) % 2;
        let other_bit = (other / pow2((n - 1) as nat)) % 2;
        put_matched(
            c.bit(matched_at(base, symbol, other_bit, same), bit == 1),
            base,
            (n - 1) as nat,
            2 * symbol + bit,
            byte,
            other,
            same && other_bit == bit,
        )
    }
}

/// The probability for a bit of a literal coded against another byte.
pub open spec fn matched_at(base: int, symbol: nat, other_bit: nat, same: bool) -> int {
    if same {
        base + 256 * (1 + other_bit) + symbol
    } else {
        base + symbol
    }
}

/// Code a literal.
pub open spec fn put_literal(c: Coding, base: int, byte: u8, against: Option<u8>) -> Coding {
    match against {
        None => c.tree(base, 1, 8, byte as nat),
        Some(other) => put_matched(c, base, 8, 1, byte as nat, other as nat, true),
    }
}

/// Code a length, given as `len - 2`.
pub open spec fn put_len(c: Coding, base: int, len: nat, ps: nat) -> Coding {
    if len < 8 {
        c.bit(base, false).tree(base + LEN_LOW + 8 * ps, 1, 3, len)
    } else if len < 16 {
        c.bit(base, true).bit(base + 1, false).tree(
            base + LEN_MID + 8 * ps,
            1,
            3,
            (len - 8) as nat,
        )
    } else {
        c.bit(base, true).bit(base + 1, true).tree(base + LEN_HIGH, 1, 8, (len - 16) as nat)
    }
}

/// Code a 0-based distance for a match of `len - 2`.
pub open spec fn put_dist(c: Coding, dist: nat, len: nat) -> Coding {
    let slot = slot_of(dist);
    let c = c.tree(DIST_SLOT + 64 * len_state_of(len), 1, 6, slot);
    if slot < 4 {
        c
    } else {
        let rest = (dist - slot_base(slot)) as nat;
        let n = footer_bits_of(slot);
        if slot < 14 {
            c.reverse_tree(DIST_SPECIAL + slot_base(slot) - slot, 1, n, rest)
        } else {
            c.direct(rest / 16, (n - 4) as nat).reverse_tree(DIST_ALIGN as int, 1, 4, rest % 16)
        }
    }
}

/// Code which of the last four distances a repeat uses.
pub open spec fn put_index(c: Coding, s: nat, ps: nat, index: nat) -> Coding {
    if index == 0 {
        c.bit((IS_REP_G0 + s) as int, false).bit(IS_REP0_LONG + 16 * s + ps, true)
    } else if index == 1 {
        c.bit((IS_REP_G0 + s) as int, true).bit((IS_REP_G1 + s) as int, false)
    } else {
        c.bit((IS_REP_G0 + s) as int, true).bit((IS_REP_G1 + s) as int, true).bit(
            (IS_REP_G2 + s) as int,
            index == 3,
        )
    }
}

/// Code the token `op` for the bytes of `data` at `pos`.
pub open spec fn put_op(
    c: Coding,
    props: Props,
    state: State,
    reps: Seq<u32>,
    data: Seq<u8>,
    pos: nat,
    op: Op,
) -> Coding {
    let s = state.0 as nat;
    let ps = pos_state_of(props, pos);
    let kind = IS_MATCH + 16 * s + ps;
    match op {
        Op::Literal => put_literal(
            c.bit(kind, false),
            literal_at(props, pos, byte_before(data, pos as int)),
            data[pos as int],
            byte_against(data, pos as int, state, reps),
        ),
        Op::ShortRep => c.bit(kind, true).bit((IS_REP + s) as int, true).bit(
            (IS_REP_G0 + s) as int,
            false,
        ).bit(IS_REP0_LONG + 16 * s + ps, false),
        Op::Rep { index, len } => put_len(
            put_index(c.bit(kind, true).bit((IS_REP + s) as int, true), s, ps, index as nat),
            REP_LEN as int,
            (len - 2) as nat,
            ps,
        ),
        Op::Match { dist, len } => put_dist(
            put_len(
                c.bit(kind, true).bit((IS_REP + s) as int, false),
                LEN as int,
                (len - 2) as nat,
                ps,
            ),
            (dist - 1) as nat,
            (len - 2) as nat,
        ),
    }
}

// How each part of a token is decoded.

/// Decode `n` bits of a literal coded against `other`.
pub open spec fn get_matched(
    d: Decoding,
    base: int,
    n: nat,
    symbol: nat,
    other: nat,
    same: bool,
) -> (nat, Decoding)
    decreases n,
{
    if n == 0 {
        (symbol, d)
    } else {
        let other_bit = (other / pow2((n - 1) as nat)) % 2;
        let (b, d) = d.bit(matched_at(base, symbol, other_bit, same));
        let bit: nat = if b {
            1
        } else {
            0
        };
        get_matched(
            d,
            base,
            (n - 1) as nat,
            2 * symbol + bit,
            other,
            same && other_bit == bit,
        )
    }
}

/// Decode a literal.
pub open spec fn get_literal(d: Decoding, base: int, against: Option<u8>) -> (nat, Decoding) {
    let (symbol, d) = match against {
        None => d.tree(base, 1, 8),
        Some(other) => get_matched(d, base, 8, 1, other as nat, true),
    };
    ((symbol - 256) as nat, d)
}

/// Decode a length, as `len - 2`.
pub open spec fn get_len(d: Decoding, base: int, ps: nat) -> (nat, Decoding) {
    let (choice, d) = d.bit(base);
    if !choice {
        let (v, d) = d.tree(base + LEN_LOW + 8 * ps, 1, 3);
        ((v - 8) as nat, d)
    } else {
        let (choice2, d) = d.bit(base + 1);
        if !choice2 {
            let (v, d) = d.tree(base + LEN_MID + 8 * ps, 1, 3);
            (v, d)
        } else {
            let (v, d) = d.tree(base + LEN_HIGH, 1, 8);
            ((v - 240) as nat, d)
        }
    }
}

/// Decode a 0-based distance for a match of `len - 2`.
pub open spec fn get_dist(d: Decoding, len: nat) -> (nat, Decoding) {
    let (v, d) = d.tree(DIST_SLOT + 64 * len_state_of(len), 1, 6);
    let slot = (v - 64) as nat;
    if slot < 4 {
        (slot, d)
    } else {
        let n = footer_bits_of(slot);
        if slot < 14 {
            let (rest, d) = d.reverse_tree(DIST_SPECIAL + slot_base(slot) - slot, 1, n);
            (slot_base(slot) + rest, d)
        } else {
            let (high, d) = d.direct((n - 4) as nat);
            let (low, d) = d.reverse_tree(DIST_ALIGN as int, 1, 4);
            (slot_base(slot) + high * 16 + low, d)
        }
    }
}

/// Decode which of the last four distances a repeat uses, once it is known
/// not to be the last one.
pub open spec fn get_older_index(d: Decoding, s: nat) -> (nat, Decoding) {
    let (g1, d) = d.bit((IS_REP_G1 + s) as int);
    if !g1 {
        (1, d)
    } else {
        let (g2, d) = d.bit((IS_REP_G2 + s) as int);
        if !g2 {
            (2, d)
        } else {
            (3, d)
        }
    }
}

/// How far a decoder has come.
pub ghost struct Progress {
    pub dec: Decoding,
    pub out: Seq<u8>,
    pub state: State,
    pub reps: Seq<u32>,
}

/// Copy `len + 2` bytes from the last distance.
pub open spec fn copy_step(
    d: Decoding,
    out: Seq<u8>,
    state: State,
    reps: Seq<u32>,
    len: nat,
    limit: nat,
) -> Result<(Progress, bool), Error> {
    if reps[0] + 1 > out.len() {
        Err(Error::Corrupt("LZMA match distance before start of data"))
    } else if out.len() + len + 2 > limit {
        Err(Error::Corrupt("LZMA output larger than allowed"))
    } else {
        Ok(
            (
                Progress {
                    dec: d,
                    out: copied(out, (reps[0] + 1) as nat, len + 2),
                    state,
                    reps,
                },
                false,
            ),
        )
    }
}

/// Decode one token; with it comes whether it was the end marker.
pub open spec fn step(p: Progress, props: Props, limit: nat) -> Result<(Progress, bool), Error> {
    let pos = p.out.len();
    let s = p.state.0 as nat;
    let ps = pos_state_of(props, pos);
    let (is_match, d) = p.dec.bit(IS_MATCH + 16 * s + ps);
    if !is_match {
        if pos >= limit {
            Err(Error::Corrupt("LZMA output larger than allowed"))
        } else {
            let (byte, d) = get_literal(
                d,
                literal_at(props, pos, byte_before(p.out, pos as int)),
                byte_against(p.out, pos as int, p.state, p.reps),
            );
            Ok(
                (
                    Progress {
                        dec: d,
                        out: p.out.push(byte as u8),
                        state: literal_next(p.state),
                        reps: p.reps,
                    },
                    false,
                ),
            )
        }
    } else {
        let (is_rep, d) = d.bit((IS_REP + s) as int);
        if !is_rep {
            let (len, d) = get_len(d, LEN as int, ps);
            let (dist, d) = get_dist(d, len);
            if dist == 0xFFFF_FFFF {
                Ok(
                    (
                        Progress {
                            dec: d,
                            out: p.out,
                            state: match_next(p.state),
                            reps: p.reps,
                        },
                        true,
                    ),
                )
            } else {
                copy_step(
                    d,
                    p.out,
                    match_next(p.state),
                    seq![dist as u32, p.reps[0], p.reps[1], p.reps[2]],
                    len,
                    limit,
                )
            }
        } else {
            let (older, d) = d.bit((IS_REP_G0 + s) as int);
            if older {
                let (index, d) = get_older_index(d, s);
                let (len, d) = get_len(d, REP_LEN as int, ps);
                copy_step(
                    d,
                    p.out,
                    rep_next(p.state),
                    to_front(p.reps, index as int),
                    len,
                    limit,
                )
            } else {
                let (long, d) = d.bit(IS_REP0_LONG + 16 * s + ps);
                if long {
                    let (len, d) = get_len(d, REP_LEN as int, ps);
                    copy_step(d, p.out, rep_next(p.state), p.reps, len, limit)
                } else if p.reps[0] >= pos || pos >= limit {
                    Err(Error::Corrupt("bad LZMA short rep"))
                } else {
                    Ok(
                        (
                            Progress {
                                dec: d,
                                out: p.out.push(p.out[pos - p.reps[0] - 1]),
                                state: short_rep_next(p.state),
                                reps: p.reps,
                            },
                            false,
                        ),
                    )
                }
            }
        }
    }
}

/// Every token adds output, within the limit.
pub proof fn lemma_step_grows(p: Progress, props: Props, limit: nat)
    ensures
        step(p, props, limit) matches Ok(r) ==> !r.1 ==> p.out.len() < r.0.out.len() <= limit,
{
    if let Ok((q, false)) = step(p, props, limit) {
        let n = (q.out.len() - p.out.len()) as nat;
        assert forall|dist: nat, len: nat| #[trigger] copied(p.out, dist, len).len() == p.out.len()
            + len by {
            lemma_copied_len(p.out, dist, len);
        }
    }
}

/// Decode tokens until an end marker, or until the known size is reached
/// with the stream used up.
pub open spec fn run(p: Progress, props: Props, known: Option<nat>, limit: nat) -> Result<
    Progress,
    Error,
>
    decreases limit - p.out.len(),
{
    if known == Some(p.out.len()) && p.dec.win.pos >= p.dec.win.input.len() {
        Ok(p)
    } else if p.dec.win.pos > p.dec.win.input.len() {
        Err(Error::UnexpectedEof)
    } else {
        proof {
            lemma_step_grows(p, props, limit);
        }
        match step(p, props, limit) {
            Err(e) => Err(e),
            Ok(r) => if r.1 {
                Ok(r.0)
            } else {
                run(r.0, props, known, limit)
            },
        }
    }
}

/// Where a decoder starts.
pub open spec fn at_start(dec: Decoding) -> Progress {
    Progress { dec, out: Seq::empty(), state: State(0), reps: seq![0u32, 0u32, 0u32, 0u32] }
}

/// The size field of a header; `None` if the size is not known.
pub open spec fn known_size(input: Seq<u8>) -> Option<nat> {
    let size = le_value(input.subrange(5, 13));
    if size == u64::MAX {
        None
    } else {
        Some(size)
    }
}

/// What remains to be checked of a decoded stream.
pub open spec fn finished(q: Progress, known: Option<nat>) -> Result<Seq<u8>, Error> {
    if known is Some && known->0 != q.out.len() {
        Err(Error::Corrupt("LZMA end marker before the stated size"))
    } else {
        match close_window(q.dec.win) {
            Err(e) => Err(e),
            Ok(_) => Ok(q.out),
        }
    }
}

/// What a `.lzma` stream decodes to, in at most `limit` bytes.
pub open spec fn decoded(input: Seq<u8>, limit: nat) -> Result<Seq<u8>, Error> {
    if input.len() < 13 {
        Err(Error::UnexpectedEof)
    } else {
        match props_of(input[0]) {
            Err(e) => Err(e),
            Ok(props) => {
                let known = known_size(input);
                if known is Some && known->0 > limit {
                    Err(Error::Corrupt("LZMA output larger than allowed"))
                } else {
                    let limit = if known is Some {
                        known->0
                    } else {
                        limit
                    };
                    match open_window(input.skip(13)) {
                        Err(e) => Err(e),
                        Ok(win) => {
                            let dec = Decoding { win, probs: fresh(props) };
                            match run(at_start(dec), props, known, limit) {
                                Err(e) => Err(e),
                                Ok(q) => finished(q, known),
                            }
                        },
                    }
                }
            },
        }
    }
}

// What was coded is decoded.

/// A state and distances that tokens before `pos` can lead to.
pub open spec fn history_ok(state: State, reps: Seq<u32>, pos: nat) -> bool {
    &&& state.ok()
    &&& reps.len() == 4
    &&& state.0 >= 7 ==> reps[0] < pos
}

/// The token describes the bytes of `data` at `pos`.
pub open spec fn op_ok(data: Seq<u8>, reps: Seq<u32>, pos: nat, op: Op) -> bool {
    match op {
        Op::Literal => pos < data.len(),
        Op::ShortRep => repeats(data, pos as int, reps[0] + 1, 1),
        Op::Rep { index, len } => {
            &&& index < 4
            &&& 2 <= len <= 273
            &&& repeats(data, pos as int, reps[index as int] + 1, len as int)
        },
        Op::Match { dist, len } => {
            &&& 2 <= len <= 273
            &&& dist < u32::MAX
            &&& repeats(data, pos as int, dist as int, len as int)
        },
    }
}

/// A token leads to another such state.
pub proof fn lemma_next_ok(state: State, reps: Seq<u32>, data: Seq<u8>, pos: nat, op: Op)
    requires
        history_ok(state, reps, pos),
        op_ok(data, reps, pos, op),
    ensures
        history_ok(next_state(state, op), next_reps(reps, op), pos + op.span()),
        pos + op.span() <= data.len(),
        op.span() >= 1,
{
}

proof fn lemma_matched_ok(
    c: Coding,
    base: int,
    n: nat,
    symbol: nat,
    byte: nat,
    other: nat,
    same: bool,
    k: nat,
)
    requires
        c.ok(),
        0 <= base,
        base + 768 <= c.probs.len(),
        k + n == 8,
        symbol < pow2(k + 1),
    ensures
        put_matched(c, base, n, symbol, byte, other, same).ok(),
        put_matched(c, base, n, symbol, byte, other, same).iv.inside(c.iv),
        put_matched(c, base, n, symbol, byte, other, same).probs.len() == c.probs.len(),
    decreases n,
{
    if n > 0 {
        let bit = (byte / pow2((n - 1) as nat)) % 2;
        let other_bit = (other / pow2((n - 1) as nat)) % 2;
        let at = matched_at(base, symbol, other_bit, same);
        lemma_pow2_values();
        lemma_pow2_le(k + 1, 8);
        lemma_pow2_unfold(k + 2);
        lemma_bit_ok(c, at, bit == 1);
        let next = c.bit(at, bit == 1);
        lemma_matched_ok(
            next,
            base,
            (n - 1) as nat,
            2 * symbol + bit,
            byte,
            other,
            same && other_bit == bit,
            k + 1,
        );
        assert forall|s: Seq<u8>| #[trigger]
            put_matched(c, base, n, symbol, byte, other, same).iv.holds(s) implies c.iv.holds(
            s,
        ) by {
            assert(next.iv.holds(s));
        }
    }
}

proof fn lemma_matched_decodes(
    d: Decoding,
    c: Coding,
    base: int,
    n: nat,
    symbol: nat,
    byte: nat,
    other: nat,
    same: bool,
    k: nat,
    s: Seq<u8>,
)
    requires
        d.follows(c, s),
        c.ok(),
        0 <= base,
        base + 768 <= c.probs.len(),
        k + n == 8,
        symbol < pow2(k + 1),
        put_matched(c, base, n, symbol, byte, other, same).iv.holds(s),
    ensures
        get_matched(d, base, n, symbol, other, same).0 == symbol * pow2(n) + byte % pow2(n),
        get_matched(d, base, n, symbol, other, same).1.follows(
            put_matched(c, base, n, symbol, byte, other, same),
            s,
        ),
    decreases n,
{
    lemma_pow2_values();
    if n > 0 {
        let m = (n - 1) as nat;
        let bit = (byte / pow2(m)) % 2;
        let other_bit = (other / pow2(m)) % 2;
        let at = matched_at(base, symbol, other_bit, same);
        lemma_pow2_le(k + 1, 8);
        lemma_pow2_unfold(k + 2);
        lemma_bit_ok(c, at, bit == 1);
        let next = c.bit(at, bit == 1);
        let agree = same && other_bit == bit;
        lemma_matched_ok(next, base, m, 2 * symbol + bit, byte, other, agree, k + 1);
        assert(next.iv.holds(s));
        bit_decodes(d, c, at, bit == 1, s);
        lemma_matched_decodes(
            d.bit(at).1,
            next,
            base,
            m,
            2 * symbol + bit,
            byte,
            other,
            agree,
            k + 1,
            s,
        );
        lemma_top_bit(byte, n);
        lemma_pow2_unfold(n);
        assert((2 * symbol + bit) * pow2(m) == symbol * pow2(n) + bit * pow2(m))
            by (nonlinear_arith)
            requires
                pow2(n) == 2 * pow2(m),
        ;
    } else {
        assert(symbol * pow2(n) == symbol) by (nonlinear_arith)
            requires
                pow2(n) == 1,
        ;
    }
}

proof fn lemma_literal_ok(c: Coding, base: int, byte: u8, against: Option<u8>)
    requires
        c.ok(),
        0 <= base,
        base + 768 <= c.probs.len(),
    ensures
        put_literal(c, base, byte, against).ok(),
        put_literal(c, base, byte, against).iv.inside(c.iv),
        put_literal(c, base, byte, against).probs.len() == c.probs.len(),
{
    lemma_pow2_values();
    match against {
        None => lemma_tree_ok(c, base, 1, 8, byte as nat, 0),
        Some(other) => lemma_matched_ok(c, base, 8, 1, byte as nat, other as nat, true, 0),
    }
}

pub proof fn lemma_literal_decodes(
    d: Decoding,
    c: Coding,
    base: int,
    byte: u8,
    against: Option<u8>,
    s: Seq<u8>,
)
    requires
        d.follows(c, s),
        c.ok(),
        0 <= base,
        base + 768 <= c.probs.len(),
        put_literal(c, base, byte, against).iv.holds(s),
    ensures
        get_literal(d, base, against).0 == byte,
        get_literal(d, base, against).1.follows(put_literal(c, base, byte, against), s),
{
    lemma_pow2_values();
    assert(byte as nat % 256 == byte);
    match against {
        None => tree_value_decodes(d, c, base, 1, 8, byte as nat, 0, s),
        Some(other) => lemma_matched_decodes(
            d,
            c,
            base,
            8,
            1,
            byte as nat,
            other as nat,
            true,
            0,
            s,
        ),
    }
}

pub proof fn lemma_len_ok(c: Coding, base: int, len: nat, ps: nat)
    requires
        c.ok(),
        0 <= base,
        base + 514 <= c.probs.len(),
        ps < 16,
        len < 272,
    ensures
        put_len(c, base, len, ps).ok(),
        put_len(c, base, len, ps).iv.inside(c.iv),
        put_len(c, base, len, ps).probs.len() == c.probs.len(),
{
    lemma_pow2_values();
    lemma_bit_ok(c, base, len >= 8);
    let c1 = c.bit(base, len >= 8);
    if len < 8 {
        lemma_tree_ok(c1, base + LEN_LOW + 8 * ps, 1, 3, len, 0);
    } else {
        lemma_bit_ok(c1, base + 1, len >= 16);
        let c2 = c1.bit(base + 1, len >= 16);
        if len < 16 {
            lemma_tree_ok(c2, base + LEN_MID + 8 * ps, 1, 3, (len - 8) as nat, 0);
        } else {
            lemma_tree_ok(c2, base + LEN_HIGH, 1, 8, (len - 16) as nat, 0);
        }
    }
}

pub proof fn lemma_len_decodes(d: Decoding, c: Coding, base: int, len: nat, ps: nat, s: Seq<u8>)
    requires
        d.follows(c, s),
        c.ok(),
        0 <= base,
        base + 514 <= c.probs.len(),
        ps < 16,
        len < 272,
        put_len(c, base, len, ps).iv.holds(s),
    ensures
        get_len(d, base, ps).0 == len,
        get_len(d, base, ps).1.follows(put_len(c, base, len, ps), s),
{
    lemma_pow2_values();
    lemma_bit_ok(c, base, len >= 8);
    let c1 = c.bit(base, len >= 8);
    let d1 = d.bit(base).1;
    if len < 8 {
        let at = base + LEN_LOW + 8 * ps;
        lemma_tree_ok(c1, at, 1, 3, len, 0);
        assert(c1.iv.holds(s));
        bit_decodes(d, c, base, false, s);
        tree_value_decodes(d1, c1, at, 1, 3, len, 0, s);
    } else {
        lemma_bit_ok(c1, base + 1, len >= 16);
        let c2 = c1.bit(base + 1, len >= 16);
        let d2 = d1.bit(base + 1).1;
        if len < 16 {
            let at = base + LEN_MID + 8 * ps;
            lemma_tree_ok(c2, at, 1, 3, (len - 8) as nat, 0);
            assert(c2.iv.holds(s));
            assert(c1.iv.holds(s));
            bit_decodes(d, c, base, true, s);
            bit_decodes(d1, c1, base + 1, false, s);
            tree_value_decodes(d2, c2, at, 1, 3, (len - 8) as nat, 0, s);
        } else {
            let at = base + LEN_HIGH;
            lemma_tree_ok(c2, at, 1, 8, (len - 16) as nat, 0);
            assert(c2.iv.holds(s));
            assert(c1.iv.holds(s));
            bit_decodes(d, c, base, true, s);
            bit_decodes(d1, c1, base + 1, true, s);
            tree_value_decodes(d2, c2, at, 1, 8, (len - 16) as nat, 0, s);
        }
    }
}

pub proof fn lemma_dist_ok(c: Coding, dist: nat, len: nat)
    requires
        c.ok(),
        c.probs.len() >= 1847,
        dist < 0x1_0000_0000,
    ensures
        put_dist(c, dist, len).ok(),
        put_dist(c, dist, len).iv.inside(c.iv),
        put_dist(c, dist, len).probs.len() == c.probs.len(),
{
    lemma_pow2_values();
    let slot = slot_of(dist);
    let at = DIST_SLOT + 64 * len_state_of(len);
    lemma_tree_ok(c, at, 1, 6, slot, 0);
    let c1 = c.tree(at, 1, 6, slot);
    if dist >= 4 {
        lemma_slot(dist);
        lemma_slot_base(slot);
        let rest = (dist - slot_base(slot)) as nat;
        let n = footer_bits_of(slot);
        if slot < 14 {
            lemma_reverse_tree_ok(c1, DIST_SPECIAL + slot_base(slot) - slot, 1, n, rest, 0);
        } else {
            lemma_direct_ok(c1.iv, rest / 16, (n - 4) as nat);
            let c2 = c1.direct(rest / 16, (n - 4) as nat);
            lemma_reverse_tree_ok(c2, DIST_ALIGN as int, 1, 4, rest % 16, 0);
        }
    }
}

#[verifier::rlimit(40)]
pub proof fn lemma_dist_decodes(d: Decoding, c: Coding, dist: nat, len: nat, s: Seq<u8>)
    requires
        d.follows(c, s),
        c.ok(),
        c.probs.len() >= 1847,
        dist < 0x1_0000_0000,
        put_dist(c, dist, len).iv.holds(s),
    ensures
        get_dist(d, len).0 == dist,
        get_dist(d, len).1.follows(put_dist(c, dist, len), s),
{
    lemma_pow2_values();
    let slot = slot_of(dist);
    let at = DIST_SLOT + 64 * len_state_of(len);
    lemma_tree_ok(c, at, 1, 6, slot, 0);
    let c1 = c.tree(at, 1, 6, slot);
    let d1 = d.tree(at, 1, 6).1;
    if dist < 4 {
        tree_value_decodes(d, c, at, 1, 6, slot, 0, s);
    } else {
        lemma_slot(dist);
        lemma_slot_base(slot);
        let rest = (dist - slot_base(slot)) as nat;
        let n = footer_bits_of(slot);
        lemma_pow2_pos(n);
        vstd::arithmetic::div_mod::lemma_small_mod(rest, pow2(n));
        if slot < 14 {
            let base = DIST_SPECIAL + slot_base(slot) - slot;
            lemma_reverse_tree_ok(c1, base, 1, n, rest, 0);
            assert(c1.iv.holds(s));
            tree_value_decodes(d, c, at, 1, 6, slot, 0, s);
            reverse_tree_value_decodes(d1, c1, base, 1, n, rest, 0, s);
        } else {
            let k = (n - 4) as nat;
            lemma_direct_ok(c1.iv, rest / 16, k);
            let c2 = c1.direct(rest / 16, k);
            lemma_reverse_tree_ok(c2, DIST_ALIGN as int, 1, 4, rest % 16, 0);
            assert(c2.iv.holds(s));
            assert(c1.iv.holds(s));
            tree_value_decodes(d, c, at, 1, 6, slot, 0, s);
            direct_bits_decode(d1.win, c1.iv, rest / 16, k, 0, s);
            let d2 = d1.direct(k).1;
            reverse_tree_value_decodes(d2, c2, DIST_ALIGN as int, 1, 4, rest % 16, 0, s);
            vstd::arithmetic::power2::lemma_pow2_adds(4, k);
            assert(rest / 16 < pow2(k));
            vstd::arithmetic::div_mod::lemma_small_mod(rest / 16, pow2(k));
        }
    }
}

proof fn lemma_index_ok(c: Coding, s: nat, ps: nat, index: nat)
    requires
        c.ok(),
        c.probs.len() >= 1847,
        s < 12,
        ps < 16,
        index < 4,
    ensures
        put_index(c, s, ps, index).ok(),
        put_index(c, s, ps, index).iv.inside(c.iv),
        put_index(c, s, ps, index).probs.len() == c.probs.len(),
{
    let c1 = c.bit((IS_REP_G0 + s) as int, index > 0);
    lemma_bit_ok(c, (IS_REP_G0 + s) as int, index > 0);
    if index == 0 {
        lemma_bit_ok(c1, IS_REP0_LONG + 16 * s + ps, true);
    } else {
        lemma_bit_ok(c1, (IS_REP_G1 + s) as int, index > 1);
        let c2 = c1.bit((IS_REP_G1 + s) as int, index > 1);
        if index > 1 {
            lemma_bit_ok(c2, (IS_REP_G2 + s) as int, index == 3);
        }
    }
}

proof fn lemma_index_decodes(
    d: Decoding,
    c: Coding,
    st: nat,
    ps: nat,
    index: nat,
    s: Seq<u8>,
) -> (r: Decoding)
    requires
        d.follows(c, s),
        c.ok(),
        c.probs.len() >= 1847,
        st < 12,
        ps < 16,
        index < 4,
        put_index(c, st, ps, index).iv.holds(s),
    ensures
        r.follows(put_index(c, st, ps, index), s),
        d.bit((IS_REP_G0 + st) as int).0 == (index > 0),
        index == 0 ==> d.bit((IS_REP_G0 + st) as int).1.bit(IS_REP0_LONG + 16 * st + ps) == (
            true,
            r,
        ),
        index > 0 ==> get_older_index(d.bit((IS_REP_G0 + st) as int).1, st) == (index, r),
{
    let g0 = (IS_REP_G0 + st) as int;
    lemma_bit_ok(c, g0, index > 0);
    let c1 = c.bit(g0, index > 0);
    let d1 = d.bit(g0).1;
    if index == 0 {
        let long = IS_REP0_LONG + 16 * st + ps;
        lemma_bit_ok(c1, long, true);
        assert(c1.iv.holds(s));
        bit_decodes(d, c, g0, false, s);
        bit_decodes(d1, c1, long, true, s);
        d1.bit(long).1
    } else {
        let g1 = (IS_REP_G1 + st) as int;
        lemma_bit_ok(c1, g1, index > 1);
        let c2 = c1.bit(g1, index > 1);
        let d2 = d1.bit(g1).1;
        if index > 1 {
            let g2 = (IS_REP_G2 + st) as int;
            lemma_bit_ok(c2, g2, index == 3);
            assert(c2.iv.holds(s));
            assert(c1.iv.holds(s));
            bit_decodes(d, c, g0, true, s);
            bit_decodes(d1, c1, g1, true, s);
            bit_decodes(d2, c2, g2, index == 3, s);
            d2.bit(g2).1
        } else {
            assert(c1.iv.holds(s));
            bit_decodes(d, c, g0, true, s);
            bit_decodes(d1, c1, g1, false, s);
            d2
        }
    }
}

/// Coding a token keeps a coder usable and narrows its interval.
pub proof fn lemma_op_ok(
    c: Coding,
    props: Props,
    state: State,
    reps: Seq<u32>,
    data: Seq<u8>,
    pos: nat,
    op: Op,
)
    requires
        c.ok(),
        props.ok(),
        c.probs.len() == model_len(props),
        history_ok(state, reps, pos),
        op_ok(data, reps, pos, op),
    ensures
        put_op(c, props, state, reps, data, pos, op).ok(),
        put_op(c, props, state, reps, data, pos, op).iv.inside(c.iv),
        put_op(c, props, state, reps, data, pos, op).probs.len() == c.probs.len(),
{
    let s = state.0 as nat;
    let ps = pos_state_of(props, pos);
    let kind = IS_MATCH + 16 * s + ps;
    lemma_pos_state(props, pos);
    lemma_literal_at(props, pos, byte_before(data, pos as int));
    lemma_bit_ok(c, kind, !(op is Literal));
    let c1 = c.bit(kind, !(op is Literal));
    match op {
        Op::Literal => {
            lemma_literal_ok(
                c1,
                literal_at(props, pos, byte_before(data, pos as int)),
                data[pos as int],
                byte_against(data, pos as int, state, reps),
            );
        },
        Op::ShortRep => {
            lemma_bit_ok(c1, (IS_REP + s) as int, true);
            let c2 = c1.bit((IS_REP + s) as int, true);
            lemma_bit_ok(c2, (IS_REP_G0 + s) as int, false);
            let c3 = c2.bit((IS_REP_G0 + s) as int, false);
            lemma_bit_ok(c3, IS_REP0_LONG + 16 * s + ps, false);
        },
        Op::Rep { index, len } => {
            lemma_bit_ok(c1, (IS_REP + s) as int, true);
            let c2 = c1.bit((IS_REP + s) as int, true);
            lemma_index_ok(c2, s, ps, index as nat);
            let c3 = put_index(c2, s, ps, index as nat);
            lemma_len_ok(c3, REP_LEN as int, (len - 2) as nat, ps);
        },
        Op::Match { dist, len } => {
            lemma_bit_ok(c1, (IS_REP + s) as int, false);
            let c2 = c1.bit((IS_REP + s) as int, false);
            lemma_len_ok(c2, LEN as int, (len - 2) as nat, ps);
            let c3 = put_len(c2, LEN as int, (len - 2) as nat, ps);
            lemma_dist_ok(c3, (dist - 1) as nat, (len - 2) as nat);
        },
    }
}

/// What decoding a token must give, when the decoder follows the encoder.
pub open spec fn step_gives(
    p: Progress,
    c: Coding,
    props: Props,
    limit: nat,
    data: Seq<u8>,
    op: Op,
    s: Seq<u8>,
) -> bool {
    step(p, props, limit) matches Ok(r) && {
        &&& !r.1
        &&& r.0.out == data.take((p.out.len() + op.span()) as int)
        &&& r.0.state == next_state(p.state, op)
        &&& r.0.reps == next_reps(p.reps, op)
        &&& r.0.dec.follows(put_op(c, props, p.state, p.reps, data, p.out.len(), op), s)
    }
}

/// A decoder in the middle of a stream of the tokens of `data`.
pub open spec fn can_step(
    p: Progress,
    c: Coding,
    props: Props,
    limit: nat,
    data: Seq<u8>,
    op: Op,
    s: Seq<u8>,
) -> bool {
    &&& p.dec.follows(c, s)
    &&& c.ok()
    &&& props.ok()
    &&& c.probs.len() == model_len(props)
    &&& history_ok(p.state, p.reps, p.out.len())
    &&& p.out.len() <= data.len() <= limit
    &&& p.out == data.take(p.out.len() as int)
    &&& op_ok(data, p.reps, p.out.len(), op)
    &&& put_op(c, props, p.state, p.reps, data, p.out.len(), op).iv.holds(s)
}

proof fn lemma_literal_steps(
    p: Progress,
    c: Coding,
    props: Props,
    limit: nat,
    data: Seq<u8>,
    s: Seq<u8>,
)
    requires
        can_step(p, c, props, limit, data, Op::Literal, s),
    ensures
        step_gives(p, c, props, limit, data, Op::Literal, s),
{
    let pos = p.out.len();
    let st = p.state.0 as nat;
    let ps = pos_state_of(props, pos);
    let kind = IS_MATCH + 16 * st + ps;
    lemma_pos_state(props, pos);
    lemma_literal_at(props, pos, byte_before(data, pos as int));
    lemma_bit_ok(c, kind, false);
    let c1 = c.bit(kind, false);
    let base = literal_at(props, pos, byte_before(data, pos as int));
    let byte = data[pos as int];
    let against = byte_against(data, pos as int, p.state, p.reps);
    lemma_literal_ok(c1, base, byte, against);
    assert(c1.iv.holds(s));
    bit_decodes(p.dec, c, kind, false, s);
    lemma_literal_decodes(p.dec.bit(kind).1, c1, base, byte, against, s);
    assert(byte_before(p.out, pos as int) == byte_before(data, pos as int));
    assert(byte_against(p.out, pos as int, p.state, p.reps) == against);
    assert(p.out.push(byte) =~= data.take(pos as int + 1));
}

proof fn lemma_short_rep_steps(
    p: Progress,
    c: Coding,
    props: Props,
    limit: nat,
    data: Seq<u8>,
    s: Seq<u8>,
)
    requires
        can_step(p, c, props, limit, data, Op::ShortRep, s),
    ensures
        step_gives(p, c, props, limit, data, Op::ShortRep, s),
{
    let pos = p.out.len();
    let st = p.state.0 as nat;
    let ps = pos_state_of(props, pos);
    let kind = IS_MATCH + 16 * st + ps;
    let rep = (IS_REP + st) as int;
    let g0 = (IS_REP_G0 + st) as int;
    let long = IS_REP0_LONG + 16 * st + ps;
    lemma_pos_state(props, pos);
    lemma_bit_ok(c, kind, true);
    let c1 = c.bit(kind, true);
    lemma_bit_ok(c1, rep, true);
    let c2 = c1.bit(rep, true);
    lemma_bit_ok(c2, g0, false);
    let c3 = c2.bit(g0, false);
    lemma_bit_ok(c3, long, false);
    assert(c3.iv.holds(s));
    assert(c2.iv.holds(s));
    assert(c1.iv.holds(s));
    bit_decodes(p.dec, c, kind, true, s);
    let d1 = p.dec.bit(kind).1;
    bit_decodes(d1, c1, rep, true, s);
    let d2 = d1.bit(rep).1;
    bit_decodes(d2, c2, g0, false, s);
    let d3 = d2.bit(g0).1;
    bit_decodes(d3, c3, long, false, s);
    let dist = p.reps[0] + 1;
    assert(data[pos as int + 0] == data[pos + 0 - dist]);
    assert(p.out.push(p.out[pos - p.reps[0] - 1]) =~= data.take(pos as int + 1));
}

proof fn lemma_rep_steps(
    p: Progress,
    c: Coding,
    props: Props,
    limit: nat,
    data: Seq<u8>,
    index: usize,
    len: usize,
    s: Seq<u8>,
)
    requires
        can_step(p, c, props, limit, data, (Op::Rep { index, len }), s),
    ensures
        step_gives(p, c, props, limit, data, (Op::Rep { index, len }), s),
{
    let pos = p.out.len();
    let st = p.state.0 as nat;
    let ps = pos_state_of(props, pos);
    let kind = IS_MATCH + 16 * st + ps;
    let rep = (IS_REP + st) as int;
    lemma_pos_state(props, pos);
    lemma_literal_at(props, pos, 0);
    lemma_bit_ok(c, kind, true);
    let c1 = c.bit(kind, true);
    lemma_bit_ok(c1, rep, true);
    let c2 = c1.bit(rep, true);
    lemma_index_ok(c2, st, ps, index as nat);
    let ci = put_index(c2, st, ps, index as nat);
    lemma_len_ok(ci, REP_LEN as int, (len - 2) as nat, ps);
    assert(ci.iv.holds(s));
    assert(c2.iv.holds(s));
    assert(c1.iv.holds(s));
    bit_decodes(p.dec, c, kind, true, s);
    let d1 = p.dec.bit(kind).1;
    bit_decodes(d1, c1, rep, true, s);
    let d2 = d1.bit(rep).1;
    let d3 = lemma_index_decodes(d2, c2, st, ps, index as nat, s);
    lemma_len_decodes(d3, ci, REP_LEN as int, (len - 2) as nat, ps, s);
    lemma_copied(data, pos as int, p.reps[index as int] + 1, len as nat);
}

proof fn lemma_match_steps(
    p: Progress,
    c: Coding,
    props: Props,
    limit: nat,
    data: Seq<u8>,
    dist: usize,
    len: usize,
    s: Seq<u8>,
)
    requires
        can_step(p, c, props, limit, data, (Op::Match { dist, len }), s),
    ensures
        step_gives(p, c, props, limit, data, (Op::Match { dist, len }), s),
{
    let pos = p.out.len();
    let st = p.state.0 as nat;
    let ps = pos_state_of(props, pos);
    let kind = IS_MATCH + 16 * st + ps;
    let rep = (IS_REP + st) as int;
    let n = (len - 2) as nat;
    lemma_pos_state(props, pos);
    lemma_literal_at(props, pos, 0);
    lemma_bit_ok(c, kind, true);
    let c1 = c.bit(kind, true);
    lemma_bit_ok(c1, rep, false);
    let c2 = c1.bit(rep, false);
    lemma_len_ok(c2, LEN as int, n, ps);
    let c3 = put_len(c2, LEN as int, n, ps);
    lemma_dist_ok(c3, (dist - 1) as nat, n);
    assert(c3.iv.holds(s));
    assert(c2.iv.holds(s));
    assert(c1.iv.holds(s));
    bit_decodes(p.dec, c, kind, true, s);
    let d1 = p.dec.bit(kind).1;
    bit_decodes(d1, c1, rep, false, s);
    let d2 = d1.bit(rep).1;
    lemma_len_decodes(d2, c2, LEN as int, n, ps, s);
    let d3 = get_len(d2, LEN as int, ps).1;
    lemma_dist_decodes(d3, c3, (dist - 1) as nat, n, s);
    lemma_copied(data, pos as int, dist as int, len as nat);
}

/// A decoder that follows the encoder decodes the token that was coded and
/// still follows it.
pub proof fn lemma_op_decodes(
    p: Progress,
    c: Coding,
    props: Props,
    limit: nat,
    data: Seq<u8>,
    op: Op,
    s: Seq<u8>,
)
    requires
        can_step(p, c, props, limit, data, op, s),
    ensures
        step_gives(p, c, props, limit, data, op, s),
{
    match op {
        Op::Literal => lemma_literal_steps(p, c, props, limit, data, s),
        Op::ShortRep => lemma_short_rep_steps(p, c, props, limit, data, s),
        Op::Rep { index, len } => lemma_rep_steps(p, c, props, limit, data, index, len, s),
        Op::Match { dist, len } => lemma_match_steps(p, c, props, limit, data, dist, len, s),
    }
}

/// How far an encoder has come.
pub ghost struct Coded {
    pub c: Coding,
    pub state: State,
    pub reps: Seq<u32>,
    pub pos: nat,
}

impl Coded {
    /// The encoder after one more token.
    pub open spec fn with_op(self, props: Props, data: Seq<u8>, op: Op) -> Coded {
        Coded {
            c: put_op(self.c, props, self.state, self.reps, data, self.pos, op),
            state: next_state(self.state, op),
            reps: next_reps(self.reps, op),
            pos: self.pos + op.span(),
        }
    }
}

/// An encoder that has coded `ops`.
pub open spec fn after_ops(props: Props, data: Seq<u8>, ops: Seq<Op>) -> Coded
    decreases ops.len(),
{
    if ops.len() == 0 {
        Coded {
            c: Coding { iv: whole(), probs: fresh(props) },
            state: State(0),
            reps: seq![0u32, 0u32, 0u32, 0u32],
            pos: 0,
        }
    } else {
        after_ops(props, data, ops.drop_last()).with_op(props, data, ops.last())
    }
}

/// Each token describes the bytes of `data` at its place.
pub open spec fn ops_ok(props: Props, data: Seq<u8>, ops: Seq<Op>) -> bool
    decreases ops.len(),
{
    ops.len() > 0 ==> {
        let before = after_ops(props, data, ops.drop_last());
        &&& ops_ok(props, data, ops.drop_last())
        &&& op_ok(data, before.reps, before.pos, ops.last())
    }
}

/// An encoder that has coded such tokens can go on.
pub proof fn lemma_after_ops(props: Props, data: Seq<u8>, ops: Seq<Op>)
    requires
        props.ok(),
        ops_ok(props, data, ops),
    ensures
        after_ops(props, data, ops).c.ok(),
        after_ops(props, data, ops).c.probs.len() == model_len(props),
        after_ops(props, data, ops).pos <= data.len(),
        history_ok(
            after_ops(props, data, ops).state,
            after_ops(props, data, ops).reps,
            after_ops(props, data, ops).pos,
        ),
    decreases ops.len(),
{
    if ops.len() > 0 {
        let b = after_ops(props, data, ops.drop_last());
        lemma_after_ops(props, data, ops.drop_last());
        lemma_op_ok(b.c, props, b.state, b.reps, data, b.pos, ops.last());
        lemma_next_ok(b.state, b.reps, data, b.pos, ops.last());
    }
}

/// Later intervals lie inside earlier ones.
pub proof fn lemma_prefix_holds(props: Props, data: Seq<u8>, ops: Seq<Op>, k: int, s: Seq<u8>)
    requires
        props.ok(),
        ops_ok(props, data, ops),
        0 <= k <= ops.len(),
        after_ops(props, data, ops).c.iv.holds(s),
    ensures
        after_ops(props, data, ops.take(k)).c.iv.holds(s),
        ops_ok(props, data, ops.take(k)),
    decreases ops.len() - k,
{
    if k == ops.len() {
        assert(ops.take(k) =~= ops);
    } else {
        lemma_prefix_holds(props, data, ops, k + 1, s);
        let t = ops.take(k + 1);
        assert(t.drop_last() =~= ops.take(k));
        let b = after_ops(props, data, ops.take(k));
        lemma_after_ops(props, data, ops.take(k));
        lemma_op_ok(b.c, props, b.state, b.reps, data, b.pos, t.last());
    }
}

/// A decoder of the finished stream reaches every point that the encoder
/// passed.
proof fn lemma_run_reaches(
    props: Props,
    data: Seq<u8>,
    ops: Seq<Op>,
    k: int,
    s: Seq<u8>,
    start: Progress,
) -> (p: Progress)
    requires
        props.ok(),
        ops_ok(props, data, ops),
        0 <= k <= ops.len(),
        after_ops(props, data, ops).c.iv.holds(s),
        after_ops(props, data, ops).pos == data.len(),
        start.dec.probs == fresh(props),
        start.dec.win.follows(whole(), s),
        start == at_start(start.dec),
        s.len() == after_ops(props, data, ops).c.iv.digits + 4,
    ensures
        p.dec.follows(after_ops(props, data, ops.take(k)).c, s),
        p.out.len() == after_ops(props, data, ops.take(k)).pos,
        p.out.len() <= data.len(),
        p.out == data.take(p.out.len() as int),
        p.state == after_ops(props, data, ops.take(k)).state,
        p.reps == after_ops(props, data, ops.take(k)).reps,
        run(start, props, Some(data.len()), data.len()) == run(
            p,
            props,
            Some(data.len()),
            data.len(),
        ),
    decreases k,
{
    lemma_prefix_holds(props, data, ops, k, s);
    lemma_after_ops(props, data, ops.take(k));
    if k == 0 {
        assert(ops.take(0) =~= Seq::<Op>::empty());
        assert(data.take(0) =~= Seq::<u8>::empty());
        start
    } else {
        let q = lemma_run_reaches(props, data, ops, k - 1, s, start);
        let before = ops.take(k - 1);
        let t = ops.take(k);
        assert(t.drop_last() =~= before);
        let b = after_ops(props, data, before);
        lemma_prefix_holds(props, data, ops, k - 1, s);
        lemma_after_ops(props, data, before);
        let limit = data.len();
        lemma_op_decodes(q, b.c, props, limit, data, t.last(), s);
        lemma_next_ok(b.state, b.reps, data, b.pos, t.last());
        // The decoder has not reached the end, and has not read past it.
        assert(q.out.len() < data.len());
        step(q, props, limit)->Ok_0.0
    }
}

/// Whatever tokens an encoder chose to describe `data` with, the stream of
/// them decodes to `data`.
pub proof fn stream_is_lossless(
    props: Props,
    data: Seq<u8>,
    ops: Seq<Op>,
    stream: Seq<u8>,
    limit: nat,
)
    requires
        props.ok(),
        ops_ok(props, data, ops),
        after_ops(props, data, ops).pos == data.len(),
        data.len() <= limit,
        13 <= stream.len() <= usize::MAX,
        props_of(stream[0]) == Ok::<Props, Error>(props),
        known_size(stream) == Some(data.len()),
        after_ops(props, data, ops).c.iv.holds(stream.skip(13)),
        stream.len() == 13 + after_ops(props, data, ops).c.iv.digits + 4,
    ensures
        decoded(stream, limit) == Ok::<Seq<u8>, Error>(data),
{
    let s = stream.skip(13);
    lemma_prefix_holds(props, data, ops, 0, s);
    assert(ops.take(0) =~= Seq::<Op>::empty());
    lemma_open(s);
    let win = open_window(s)->Ok_0;
    let start = at_start(Decoding { win, probs: fresh(props) });
    let p = lemma_run_reaches(props, data, ops, ops.len() as int, s, start);
    assert(ops.take(ops.len() as int) =~= ops);
    assert(p.out =~= data);
    let end = after_ops(props, data, ops);
    lemma_close(p.dec.win, end.c.iv, s);
}

} // verus!
