//! Where every bit of a token stands in an LZMA stream, stated value by
//! value, so that a stream means the same to every LZMA tool.
use crate::bits::lemma_ilog2_unique;
use crate::error::Error;
use crate::lzma::footer_bits_of;
use crate::lzma::format::get_dist;
use crate::lzma::format::get_len;
use crate::lzma::format::get_literal;
use crate::lzma::format::lemma_dist_decodes;
use crate::lzma::format::lemma_len_decodes;
use crate::lzma::format::lemma_literal_decodes;
use crate::lzma::format::put_dist;
use crate::lzma::format::put_len;
use crate::lzma::format::put_literal;
use crate::lzma::format::put_matched;
use crate::lzma::lemma_slot;
use crate::lzma::slot_base;
use crate::lzma::slot_of;
use crate::lzma::DIST_ALIGN;
use crate::lzma::DIST_SLOT;
use crate::lzma::DIST_SPECIAL;
use crate::nums::lemma_pow2_le;
use crate::nums::lemma_pow2_values;
use crate::lzma::format::decoded;
use crate::lzma::format::known_size;
use crate::lzma::format::matched_at;
use crate::lzma::format::next_reps;
use crate::lzma::format::next_state;
use crate::lzma::format::put_op;
use crate::lzma::format::Op;
use crate::lzma::lemma_literal_at;
use crate::lzma::lemma_pos_state;
use crate::lzma::literal_at;
use crate::lzma::literal_next;
use crate::lzma::pos_state_of;
use crate::lzma::props_of;
use crate::lzma::Props;
use crate::lzma::State;
use crate::lzma::IS_MATCH;
use crate::lzma::IS_REP;
use crate::lzma::IS_REP0_LONG;
use crate::lzma::IS_REP_G0;
use crate::lzma::IS_REP_G1;
use crate::lzma::IS_REP_G2;
use crate::lzma::LEN;
use crate::lzma::LITERAL;
use crate::lzma::REP_LEN;
use crate::nums::le_digits;
use crate::nums::le_value;
use crate::nums::lemma_le_value_bound;
use crate::nums::lemma_split_pow2;
use crate::lzma::format::after_ops;
use crate::lzma::format::at_start;
use crate::lzma::format::lemma_after_ops;
use crate::lzma::format::lemma_dist_ok;
use crate::lzma::format::lemma_len_ok;
use crate::lzma::format::lemma_next_ok;
use crate::lzma::format::lemma_op_decodes;
use crate::lzma::format::lemma_prefix_holds;
use crate::lzma::format::lemma_step_grows;
use crate::lzma::format::ops_ok;
use crate::lzma::format::run;
use crate::lzma::format::step;
use crate::lzma::format::Coded;
use crate::lzma::format::Progress;
use crate::lzma::fresh;
use crate::lzma::model_len;
use crate::range::bit_decodes;
use crate::range::lemma_bit_ok;
use crate::range::lemma_close;
use crate::range::lemma_open;
use crate::range::open_window;
use crate::range::whole;
use crate::range::Coding;
use crate::range::Decoding;
use vstd::arithmetic::power2::lemma_pow2_adds;
use vstd::arithmetic::power2::lemma_pow2_pos;
use vstd::arithmetic::power2::lemma_pow2_unfold;
use vstd::arithmetic::power2::pow2;
use crate::lz77::copied;
use crate::lz77::found::copies_repeat;
use crate::lz77::lemma_copied_len;
use crate::lz77::repeats;
use vstd::prelude::*;

verus! {

/// The top two bits of a distance and the rest of it.
proof fn lemma_top_two(dist: nat, k: nat)
    requires
        2 <= k < 32,
        pow2(k) <= dist < pow2(k + 1),
    ensures
        slot_of(dist) == 2 * k + dist / pow2((k - 1) as nat) % 2,
        footer_bits_of(slot_of(dist)) == k - 1,
        slot_base(slot_of(dist)) == dist - dist % pow2((k - 1) as nat),
{
    lemma_pow2_values();
    lemma_ilog2_unique(dist, k);
    lemma_pow2_le(2, k);
    lemma_pow2_le(k + 1, 32);
    lemma_slot(dist);
    let f = (k - 1) as nat;
    let slot = slot_of(dist);
    lemma_pow2_pos(f);
    assert(slot / 2 == k);
    let base = slot_base(slot);
    let rest = (dist - base) as nat;
    let q = 2 + slot % 2;
    assert(base == q * pow2(f));
    vstd::arithmetic::div_mod::lemma_fundamental_div_mod_converse(
        dist as int,
        pow2(f) as int,
        q as int,
        rest as int,
    );
}

/// A distance of 128 or more, with its highest bit worth `2^k`: six bits of
/// slot through a tree (twice `k` and the next bit), then the bits below
/// those down to the fifth without a model and from the highest down, then
/// the lowest four through one reverse tree. The rule is the same for all of
/// them.
pub proof fn far_distances_are_laid_out(c: Coding, dist: nat, len: nat, k: nat)
    requires
        7 <= k < 32,
        pow2(k) <= dist < pow2(k + 1),
    ensures
        put_dist(c, dist, len) == c.tree(
            DIST_SLOT + 64 * (if len < 3 {
                len
            } else {
                3
            }),
            1,
            6,
            2 * k + dist / pow2((k - 1) as nat) % 2,
        ).direct(dist % pow2((k - 1) as nat) / 16, (k - 5) as nat).reverse_tree(
            DIST_ALIGN as int,
            1,
            4,
            dist % 16,
        ),
{
    lemma_pow2_values();
    lemma_top_two(dist, k);
    let f = (k - 1) as nat;
    let m = (k - 5) as nat;
    lemma_pow2_pos(f);
    lemma_pow2_adds(4, m);
    assert(dist % pow2(f) % 16 == dist % 16) by {
        lemma_pow2_pos(m);
        vstd::arithmetic::div_mod::lemma_mod_mod(dist as int, 16, pow2(m) as int);
    }
}

/// A distance from 4 to 127, with its highest bit worth `2^k`: the slot, and
/// the bits below the top two through a reverse tree of that slot.
pub proof fn near_distances_are_laid_out(c: Coding, dist: nat, len: nat, k: nat)
    requires
        2 <= k < 7,
        pow2(k) <= dist < pow2(k + 1),
    ensures
        put_dist(c, dist, len) == c.tree(
            DIST_SLOT + 64 * (if len < 3 {
                len
            } else {
                3
            }),
            1,
            6,
            2 * k + dist / pow2((k - 1) as nat) % 2,
        ).reverse_tree(
            DIST_SPECIAL + (dist - dist % pow2((k - 1) as nat)) - (2 * k + dist / pow2(
                (k - 1) as nat,
            ) % 2),
            1,
            (k - 1) as nat,
            dist % pow2((k - 1) as nat),
        ),
{
    lemma_pow2_values();
    lemma_pow2_le(2, k);
    lemma_pow2_le(k + 1, 7);
    lemma_top_two(dist, k);
}

/// A distance below 4 is its slot.
pub proof fn short_distances_are_laid_out(c: Coding, dist: nat, len: nat)
    requires
        dist < 4,
    ensures
        put_dist(c, dist, len) == c.tree(
            DIST_SLOT + 64 * (if len < 3 {
                len
            } else {
                3
            }),
            1,
            6,
            dist,
        ),
{
}

/// A distance that is laid out so is read again, and nothing else with it.
pub proof fn distances_are_read(d: Decoding, c: Coding, dist: nat, len: nat, s: Seq<u8>)
    requires
        d.follows(c, s),
        c.ok(),
        c.probs.len() >= 1847,
        dist < 0x1_0000_0000,
        put_dist(c, dist, len).iv.holds(s),
    ensures
        get_dist(d, len).0 == dist,
        get_dist(d, len).1.follows(put_dist(c, dist, len), s),
{
    lemma_dist_decodes(d, c, dist, len, s);
}

/// A length, given as `len - 2`: below 8 a 0 and three bits, below 16 a 1, a
/// 0 and three bits, otherwise two 1s and eight bits. The three bits have
/// models of their own for each position state.
pub proof fn lengths_are_laid_out(c: Coding, base: int, len: nat, ps: nat)
    ensures
        len < 8 ==> put_len(c, base, len, ps) == c.bit(base, false).tree(
            base + 2 + 8 * ps,
            1,
            3,
            len,
        ),
        8 <= len < 16 ==> put_len(c, base, len, ps) == c.bit(base, true).bit(base + 1, false).tree(
            base + 2 + 8 * (16 + ps),
            1,
            3,
            (len - 8) as nat,
        ),
        len >= 16 ==> put_len(c, base, len, ps) == c.bit(base, true).bit(base + 1, true).tree(
            base + 2 + 8 * 32,
            1,
            8,
            (len - 16) as nat,
        ),
{
}

/// A length that is laid out so is read again.
pub proof fn lengths_are_read(d: Decoding, c: Coding, base: int, len: nat, ps: nat, s: Seq<u8>)
    requires
        d.follows(c, s),
        c.ok(),
        0 <= base,
        base + 514 <= c.probs.len(),
        ps < 16,
        len < 272,
        put_len(c, base, len, ps).iv.holds(s),
    ensures
        get_len(d, base, ps).0 == len,
        get_len(d, base, ps).1.follows(put_len(c, base, len, ps), s),
{
    lemma_len_decodes(d, c, base, len, ps, s);
}

/// Bits coded one after the other, each with a probability of its own.
pub open spec fn in_order(c: Coding, at: Seq<int>, bits: Seq<bool>) -> Coding
    decreases bits.len(),
{
    if bits.len() == 0 {
        c
    } else {
        in_order(c, at.drop_last(), bits.drop_last()).bit(at.last(), bits.last())
    }
}

/// The bits of a byte, highest first.
pub open spec fn byte_bits(byte: u8) -> Seq<bool> {
    Seq::new(8, |i: int| byte as nat / pow2((7 - i) as nat) % 2 == 1)
}

/// The probabilities for the bits of a byte coded against another: bit `i`
/// goes by the bits before it, and as long as those are the same in both
/// bytes by the other byte's bit too.
pub open spec fn against(base: int, byte: u8, other: u8) -> Seq<int> {
    Seq::new(
        8,
        |i: int|
            base + pow2(i as nat) + byte as nat / pow2((8 - i) as nat) + if byte as nat / pow2(
                (8 - i) as nat,
            ) == other as nat / pow2((8 - i) as nat) {
                256 * (1 + other as nat / pow2((7 - i) as nat) % 2)
            } else {
                0
            },
    )
}

/// The bits of a number down to one place, and down to the next.
proof fn lemma_halves(v: nat, n: nat) -> (r: (nat, nat))
    requires
        n > 0,
    ensures
        r.0 == v / pow2(n),
        r.1 == v / pow2((n - 1) as nat),
        r.0 == r.1 / 2,
{
    let m = (n - 1) as nat;
    lemma_pow2_unfold(n);
    lemma_pow2_pos(m);
    assert(pow2(m) * 2 == pow2(n));
    vstd::arithmetic::div_mod::lemma_div_denominator(v as int, pow2(m) as int, 2);
    (v / pow2(n), v / pow2(m))
}

proof fn lemma_front(c: Coding, at: Seq<int>, bits: Seq<bool>)
    requires
        at.len() == bits.len(),
        bits.len() > 0,
    ensures
        in_order(c, at, bits) == in_order(c.bit(at[0], bits[0]), at.skip(1), bits.skip(1)),
    decreases bits.len(),
{
    if bits.len() == 1 {
        reveal_with_fuel(in_order, 2);
        assert(at.last() == at[0]);
    } else {
        lemma_front(c, at.drop_last(), bits.drop_last());
        assert(at.drop_last().skip(1) =~= at.skip(1).drop_last());
        assert(bits.drop_last().skip(1) =~= bits.skip(1).drop_last());
    }
}

/// The node of a tree after one more bit.
proof fn lemma_next_node(byte: nat, n: nat)
    requires
        0 < n <= 8,
    ensures
        pow2((9 - n) as nat) + byte / pow2((n - 1) as nat) == 2 * (pow2((8 - n) as nat) + byte
            / pow2(n)) + byte / pow2((n - 1) as nat) % 2,
{
    let (hi, lo) = lemma_halves(byte, n);
    lemma_pow2_unfold((9 - n) as nat);
    assert(((9 - n) as nat - 1) as nat == (8 - n) as nat);
    assert(lo == 2 * hi + lo % 2);
}

/// The first bits of two bytes are the same if all but the last are and the
/// last is.
proof fn lemma_same_bits(a: nat, b: nat, n: nat)
    requires
        0 < n,
    ensures
        a / pow2((n - 1) as nat) == b / pow2((n - 1) as nat) <==> a / pow2(n) == b / pow2(n) && a
            / pow2((n - 1) as nat) % 2 == b / pow2((n - 1) as nat) % 2,
{
    let (x, y) = lemma_halves(a, n);
    let (u, w) = lemma_halves(b, n);
    assert(y == 2 * x + y % 2);
    assert(w == 2 * u + w % 2);
}

proof fn lemma_against(
    c: Coding,
    base: int,
    n: nat,
    symbol: nat,
    byte: u8,
    other: u8,
    same: bool,
)
    requires
        n <= 8,
        symbol == pow2((8 - n) as nat) + byte as nat / pow2(n),
        same == (byte as nat / pow2(n) == other as nat / pow2(n)),
    ensures
        put_matched(c, base, n, symbol, byte as nat, other as nat, same) == in_order(
            c,
            against(base, byte, other).skip(8 - n),
            byte_bits(byte).skip(8 - n),
        ),
    decreases n,
{
    let at = against(base, byte, other).skip(8 - n);
    let bits = byte_bits(byte).skip(8 - n);
    if n > 0 {
        let m = (n - 1) as nat;
        let bit = byte as nat / pow2(m) % 2;
        let other_bit = other as nat / pow2(m) % 2;
        lemma_next_node(byte as nat, n);
        lemma_same_bits(byte as nat, other as nat, n);
        lemma_first_at(base, byte, other, n);
        assert((8 - m) as nat == (9 - n) as nat);
        lemma_against(
            c.bit(at[0], bits[0]),
            base,
            m,
            2 * symbol + bit,
            byte,
            other,
            same && other_bit == bit,
        );
        lemma_front(c, at, bits);
        assert(at.skip(1) =~= against(base, byte, other).skip(8 - m));
        assert(bits.skip(1) =~= byte_bits(byte).skip(8 - m));
    } else {
        assert(bits.len() == 0);
    }
}

proof fn lemma_matched_at(base: int, one: nat, hi: nat, bit: nat, same: bool)
    ensures
        matched_at(base, one + hi, bit, same) == base + one + hi + if same {
            256 * (1 + bit)
        } else {
            0
        },
{
}

proof fn lemma_first_at(base: int, byte: u8, other: u8, n: nat)
    requires
        0 < n <= 8,
    ensures
        against(base, byte, other).skip(8 - n)[0] == matched_at(
            base,
            pow2((8 - n) as nat) + byte as nat / pow2(n),
            other as nat / pow2((n - 1) as nat) % 2,
            byte as nat / pow2(n) == other as nat / pow2(n),
        ),
        byte_bits(byte).skip(8 - n)[0] == (byte as nat / pow2((n - 1) as nat) % 2 == 1),
{
    let i = 8 - n;
    assert(8 - i == n && 7 - i == n - 1);
    assert(against(base, byte, other).skip(8 - n)[0] == against(base, byte, other)[i]);
    let one = pow2(i as nat);
    let hi = byte as nat / pow2((8 - i) as nat);
    let there = other as nat / pow2((8 - i) as nat);
    let bit = other as nat / pow2((7 - i) as nat) % 2;
    let more = if hi == there {
        256 * (1 + bit)
    } else {
        0
    };
    assert(against(base, byte, other)[i] == base + one + hi + more);
    lemma_matched_at(base, one, hi, bit, hi == there);
    assert(byte_bits(byte).skip(8 - n)[0] == byte_bits(byte)[i]);
}

/// A literal is eight bits from the highest down: through one tree, or
/// behind a match against the byte that the match would go on with.
pub proof fn literals_are_laid_out(c: Coding, base: int, byte: u8, other: u8)
    ensures
        put_literal(c, base, byte, None) == c.tree(base, 1, 8, byte as nat),
        put_literal(c, base, byte, Some(other)) == in_order(
            c,
            against(base, byte, other),
            byte_bits(byte),
        ),
{
    lemma_pow2_values();
    lemma_against(c, base, 8, 1, byte, other, true);
    assert(against(base, byte, other).skip(0) =~= against(base, byte, other));
    assert(byte_bits(byte).skip(0) =~= byte_bits(byte));
}

/// A literal that is laid out so is read again.
pub proof fn literals_are_read(
    d: Decoding,
    c: Coding,
    base: int,
    byte: u8,
    other: Option<u8>,
    s: Seq<u8>,
)
    requires
        d.follows(c, s),
        c.ok(),
        0 <= base,
        base + 768 <= c.probs.len(),
        put_literal(c, base, byte, other).iv.holds(s),
    ensures
        get_literal(d, base, other).0 == byte,
        get_literal(d, base, other).1.follows(put_literal(c, base, byte, other), s),
{
    lemma_literal_decodes(d, c, base, byte, other, s);
}

/// Two literals share their models if and only if the low `lp` bits of their
/// positions and the high `lc` bits of the bytes before them are the same;
/// otherwise no model of one is a model of the other. Two tokens share
/// theirs if and only if the low `pb` bits of their positions are the same.
pub proof fn contexts_are_what_props_say(
    props: Props,
    pos: nat,
    prev: u8,
    pos2: nat,
    prev2: u8,
)
    requires
        props.ok(),
    ensures
        ({
            let same = pos % pow2(props.lp as nat) == pos2 % pow2(props.lp as nat) && prev as nat
                / pow2((8 - props.lc) as nat) == prev2 as nat / pow2((8 - props.lc) as nat);
            let a = literal_at(props, pos, prev);
            let b = literal_at(props, pos2, prev2);
            if same {
                a == b
            } else {
                a + 768 <= b || b + 768 <= a
            }
        }),
        pos_state_of(props, pos) == pos_state_of(props, pos2) <==> pos % pow2(props.pb as nat)
            == pos2 % pow2(props.pb as nat),
        pos_state_of(props, pos) < 16,
{
    lemma_pow2_values();
    lemma_pos_state(props, pos);
    let lc = props.lc as nat;
    let lp = props.lp as nat;
    let m = pow2(lc);
    lemma_pow2_pos((8 - lc) as nat);
    lemma_split_pow2(prev as nat, (8 - lc) as nat, lc);
    lemma_split_pow2(prev2 as nat, (8 - lc) as nat, lc);
    let p = pos % pow2(lp);
    let q = pos2 % pow2(lp);
    let x = prev as nat / pow2((8 - lc) as nat);
    let y = prev2 as nat / pow2((8 - lc) as nat);
    assert(x < m && y < m);
    if p < q {
        assert(p * m + x < q * m + y) by (nonlinear_arith)
            requires
                p + 1 <= q,
                x < m,
        ;
    } else if q < p {
        assert(q * m + y < p * m + x) by (nonlinear_arith)
            requires
                q + 1 <= p,
                y < m,
        ;
    }
}

/// No two groups of probabilities overlap, and all lie before the literals.
pub proof fn models_are_apart()
    ensures
        IS_MATCH + 12 * 16 <= IS_REP,
        IS_REP + 12 <= IS_REP_G0,
        IS_REP_G0 + 12 <= IS_REP_G1,
        IS_REP_G1 + 12 <= IS_REP_G2,
        IS_REP_G2 + 12 <= IS_REP0_LONG,
        IS_REP0_LONG + 12 * 16 <= DIST_SLOT,
        DIST_SLOT + 4 * 64 <= DIST_SPECIAL,
        // Slots 4 to 13 have 1 + 1 + 3 + 3 + ... + 31 + 31 nodes, from 1 on.
        DIST_SPECIAL + 1 + 2 * (1 + 3 + 7 + 15 + 31) <= DIST_ALIGN,
        DIST_ALIGN + 16 <= LEN,
        LEN + 2 + 2 * 16 * 8 + 256 <= REP_LEN,
        REP_LEN + 2 + 2 * 16 * 8 + 256 <= LITERAL,
        forall|props: Props, pos: nat, prev: u8|
            props.ok() ==> LITERAL <= #[trigger] literal_at(props, pos, prev),
        forall|slot: nat| 4 <= slot < 13 ==> #[trigger] slot_base(slot) - slot + pow2(
            footer_bits_of(slot),
        ) - 1 <= slot_base(slot + 1) - (slot + 1),
{
    assert forall|props: Props, pos: nat, prev: u8| props.ok() implies LITERAL
        <= #[trigger] literal_at(props, pos, prev) by {
        lemma_literal_at(props, pos, prev);
    }
    assert forall|slot: nat| 4 <= slot < 13 implies #[trigger] slot_base(slot) - slot + pow2(
        footer_bits_of(slot),
    ) - 1 <= slot_base(slot + 1) - (slot + 1) by {
        let f = footer_bits_of(slot);
        lemma_pow2_unfold(f + 1);
        let g = footer_bits_of(slot + 1);
        if slot % 2 == 0 {
            assert(g == f);
        } else {
            assert(g == f + 1);
        }
        assert((2 + slot % 2) * pow2(f) == if slot % 2 == 0 {
            2 * pow2(f)
        } else {
            3 * pow2(f)
        }) by (nonlinear_arith)
            requires
                slot % 2 == 0 || slot % 2 == 1,
        ;
        assert((2 + (slot + 1) % 2) * pow2(g) == if slot % 2 == 0 {
            3 * pow2(g)
        } else {
            2 * pow2(g)
        }) by (nonlinear_arith)
            requires
                (slot + 1) % 2 == 1 - slot % 2,
                slot % 2 == 0 || slot % 2 == 1,
        ;
    }
}

/// Each kind of token starts with bits of its own; what they mean does not
/// depend on the position but for the models.
pub proof fn tokens_are_laid_out(
    c: Coding,
    props: Props,
    state: State,
    reps: Seq<u32>,
    data: Seq<u8>,
    pos: nat,
    op: Op,
)
    ensures
        ({
            let s = state.0;
            let ps = pos_state_of(props, pos);
            let is_match = IS_MATCH + 16 * s + ps;
            let rep0_long = IS_REP0_LONG + 16 * s + ps;
            let prev = if pos == 0 {
                0
            } else {
                data[pos - 1]
            };
            put_op(c, props, state, reps, data, pos, op) == match op {
                Op::Literal => put_literal(
                    c.bit(is_match, false),
                    literal_at(props, pos, prev),
                    data[pos as int],
                    if s >= 7 {
                        Some(data[pos - reps[0] - 1])
                    } else {
                        None
                    },
                ),
                Op::Match { dist, len } => put_dist(
                    put_len(
                        c.bit(is_match, true).bit(IS_REP + s, false),
                        LEN as int,
                        (len - 2) as nat,
                        ps,
                    ),
                    (dist - 1) as nat,
                    (len - 2) as nat,
                ),
                Op::ShortRep => c.bit(is_match, true).bit(IS_REP + s, true).bit(
                    IS_REP_G0 + s,
                    false,
                ).bit(rep0_long, false),
                Op::Rep { index, len } => {
                    let c = c.bit(is_match, true).bit(IS_REP + s, true);
                    let c = if index == 0 {
                        c.bit(IS_REP_G0 + s, false).bit(rep0_long, true)
                    } else if index == 1 {
                        c.bit(IS_REP_G0 + s, true).bit(IS_REP_G1 + s, false)
                    } else if index == 2 {
                        c.bit(IS_REP_G0 + s, true).bit(IS_REP_G1 + s, true).bit(
                            IS_REP_G2 + s,
                            false,
                        )
                    } else {
                        c.bit(IS_REP_G0 + s, true).bit(IS_REP_G1 + s, true).bit(
                            IS_REP_G2 + s,
                            index == 3,
                        )
                    };
                    put_len(c, REP_LEN as int, (len - 2) as nat, ps)
                },
            }
        }),
{
}

/// What the state remembers: whether the last token was a literal, and of a
/// literal what came one or two tokens before it; three literals in a row
/// clear it. Of a match it remembers its kind and whether it followed a
/// literal.
pub proof fn states_remember(s: State, op: Op)
    requires
        s.ok(),
    ensures
        next_state(s, op).ok(),
        next_state(s, op).0 < 7 <==> op is Literal,
        s.0 < 7 && op is Match ==> next_state(s, op) == State(7),
        s.0 < 7 && op is Rep ==> next_state(s, op) == State(8),
        s.0 < 7 && op is ShortRep ==> next_state(s, op) == State(9),
        s.0 >= 7 && op is Match ==> next_state(s, op) == State(10),
        s.0 >= 7 && (op is Rep || op is ShortRep) ==> next_state(s, op) == State(11),
        ({
            let one = literal_next(s);
            let two = literal_next(one);
            let three = literal_next(two);
            &&& three == State(0)
            &&& s.0 >= 7 ==> two.0 + 3 == one.0
            &&& s == State(7) || s == State(10) ==> one == State(4)
            &&& s == State(8) || s == State(11) ==> one == State(5)
            &&& s == State(9) ==> one == State(6)
            &&& s.0 < 4 ==> one == State(0)
        }),
{
}

/// The last four distances: a match puts its own before the last three, a
/// repeat moves the one it uses to the front, and the others keep their
/// order.
pub proof fn distances_are_remembered(reps: Seq<u32>, op: Op, i: int)
    requires
        reps.len() == 4,
        0 <= i < 4,
        op matches Op::Match { dist, .. } ==> 1 <= dist <= 0x1_0000_0000,
        op matches Op::Rep { index, .. } ==> index < 4,
    ensures
        next_reps(reps, op).len() == 4,
        op is Literal || op is ShortRep ==> next_reps(reps, op) == reps,
        op matches Op::Match { dist, .. } ==> next_reps(reps, op)[i] == if i == 0 {
            dist - 1
        } else {
            reps[i - 1] as int
        },
        op matches Op::Rep { index, .. } ==> next_reps(reps, op)[i] == reps[if i == 0 {
            index as int
        } else if i <= index {
            i - 1
        } else {
            i
        }],
{
}

/// The properties byte stands for `(pb * 5 + lp) * 9 + lc` and nothing else.
pub proof fn props_are_a_byte(props: Props, b: u8)
    ensures
        props_of(b) == Ok::<Props, Error>(props) <==> props.lc < 9 && props.lp < 5 && props.pb < 5
            && b == (props.pb * 5 + props.lp) * 9 + props.lc,
        props_of(b) is Err <==> b >= 225,
{
}

/// The header is 13 bytes: the properties, four bytes that a decoder does
/// not need, and the size, lowest byte first, where eight bytes 0xFF mean
/// that it is not known.
pub proof fn headers_are_laid_out(input: Seq<u8>, dict: Seq<u8>, limit: nat)
    requires
        input.len() >= 13,
        dict.len() == 4,
    ensures
        decoded(input.take(1) + dict + input.skip(5), limit) == decoded(input, limit),
        (forall|i: int| 5 <= i < 13 ==> #[trigger] input[i] == 0xFF) <==> known_size(input) is None,
        known_size(input) matches Some(n) ==> forall|i: nat|
            i < 8 ==> #[trigger] input[5 + i as int] == n / pow2(8 * i) % 256,
{
    let other = input.take(1) + dict + input.skip(5);
    assert(other.skip(13) =~= input.skip(13));
    assert(other.subrange(5, 13) =~= input.subrange(5, 13));
    assert(other[0] == input[0]);
    let size = input.subrange(5, 13);
    lemma_le_value_bound(size);
    lemma_pow2_values();
    vstd::arithmetic::power2::lemma2_to64_rest();
    assert forall|i: nat| i < 8 implies #[trigger] input[5 + i as int] == le_value(size) / pow2(
        8 * i,
    ) % 256 by {
        assert(input[5 + i as int] == size[i as int]);
        le_digits(size, i);
    }
    if forall|i: int| 5 <= i < 13 ==> #[trigger] input[i] == 0xFF {
        let full = Seq::new(8, |i: int| 0xFFu8);
        assert(size =~= full);
        lemma_full(8);
    } else {
        let i = choose|i: int| 5 <= i < 13 && #[trigger] input[i] != 0xFF;
        if le_value(size) == u64::MAX {
            lemma_full(8);
            let full = Seq::new(8, |i: int| 0xFFu8);
            le_digits(full, (i - 5) as nat);
            le_digits(size, (i - 5) as nat);
            assert(size[i - 5] == full[i - 5]);
        }
    }
}

proof fn lemma_full(n: nat)
    ensures
        le_value(Seq::new(n, |i: int| 0xFFu8)) == pow2(8 * n) - 1,
    decreases n,
{
    lemma_pow2_values();
    let s = Seq::new(n, |i: int| 0xFFu8);
    if n > 0 {
        let m = (n - 1) as nat;
        lemma_full(m);
        assert(s.skip(1) =~= Seq::new(m, |i: int| 0xFFu8));
        lemma_pow2_adds(8, 8 * m);
    }
}

/// Coding starts in state 0, with four distances of 1 and all probabilities
/// even; every token goes on from where the one before it ended.
pub proof fn coding_goes_on(props: Props, data: Seq<u8>, ops: Seq<Op>, op: Op, i: int)
    requires
        0 <= i < model_len(props),
    ensures
        ({
            let start = after_ops(props, data, Seq::empty());
            &&& start.c.iv == whole()
            &&& start.c.probs.len() == model_len(props)
            &&& start.c.probs[i] == 1024
            &&& start.state == State(0)
            &&& start.reps == seq![0u32, 0u32, 0u32, 0u32]
            &&& start.pos == 0
        }),
        ({
            let at = after_ops(props, data, ops);
            let next = after_ops(props, data, ops.push(op));
            &&& next.c == put_op(at.c, props, at.state, at.reps, data, at.pos, op)
            &&& next.state == next_state(at.state, op)
            &&& next.reps == next_reps(at.reps, op)
            &&& next.pos == at.pos + op.span()
        }),
{
    assert(ops.push(op).drop_last() =~= ops);
}

/// A stated size is kept to, and so is the limit: a larger one is refused at
/// once, and what comes out is never longer.
pub proof fn sizes_are_kept(input: Seq<u8>, limit: nat)
    requires
        input.len() >= 13,
        props_of(input[0]) is Ok,
    ensures
        known_size(input) matches Some(n) && n > limit ==> decoded(input, limit) == Err::<
            Seq<u8>,
            Error,
        >(Error::Corrupt("LZMA output larger than allowed")),
        decoded(input, limit) matches Ok(out) ==> out.len() <= limit && (known_size(
            input,
        ) matches Some(n) ==> out.len() == n),
{
    let props = props_of(input[0])->Ok_0;
    let known = known_size(input);
    if let Ok(win) = open_window(input.skip(13)) {
        let dec = Decoding { win, probs: fresh(props) };
        lemma_run_most(
            at_start(dec),
            props,
            known,
            if known is Some {
                known->0
            } else {
                limit
            },
        );
    }
}

proof fn lemma_run_most(p: Progress, props: Props, known: Option<nat>, limit: nat)
    requires
        p.out.len() <= limit,
    ensures
        run(p, props, known, limit) matches Ok(q) ==> q.out.len() <= limit,
    decreases limit - p.out.len(),
{
    if !(known == Some(p.out.len()) && p.dec.win.pos >= p.dec.win.input.len()) && p.dec.win.pos
        <= p.dec.win.input.len() {
        lemma_step_grows(p, props, limit);
        if let Ok(r) = step(p, props, limit) {
            if !r.1 {
                lemma_run_most(r.0, props, known, limit);
            }
        }
    }
}

/// A stream of unknown size ends with a marker: a match of any length with
/// the distance after all others. Whatever tokens come before it, it decodes
/// to what they describe.
pub proof fn marked_streams_decode(
    props: Props,
    data: Seq<u8>,
    ops: Seq<Op>,
    len: nat,
    stream: Seq<u8>,
    limit: nat,
)
    requires
        props.ok(),
        ops_ok(props, data, ops),
        after_ops(props, data, ops).pos == data.len(),
        data.len() <= limit,
        len < 272,
        13 <= stream.len() <= usize::MAX,
        props_of(stream[0]) == Ok::<Props, Error>(props),
        known_size(stream) is None,
        marked(after_ops(props, data, ops), props, len).iv.holds(stream.skip(13)),
        stream.len() == 13 + marked(after_ops(props, data, ops), props, len).iv.digits + 4,
    ensures
        decoded(stream, limit) == Ok::<Seq<u8>, Error>(data),
{
    let s = stream.skip(13);
    let end = after_ops(props, data, ops);
    let m = marked(end, props, len);
    lemma_after_ops(props, data, ops);
    let st = end.state.0 as nat;
    let ps = pos_state_of(props, end.pos);
    let kind = IS_MATCH + 16 * st + ps;
    let rep = (IS_REP + st) as int;
    lemma_pos_state(props, end.pos);
    lemma_literal_at(props, end.pos, 0);
    lemma_bit_ok(end.c, kind, true);
    let c1 = end.c.bit(kind, true);
    lemma_bit_ok(c1, rep, false);
    let c2 = c1.bit(rep, false);
    lemma_len_ok(c2, LEN as int, len, ps);
    let c3 = put_len(c2, LEN as int, len, ps);
    lemma_dist_ok(c3, 0xFFFF_FFFF, len);
    assert(c3.iv.holds(s));
    assert(c2.iv.holds(s));
    assert(c1.iv.holds(s));
    assert(end.c.iv.holds(s));
    lemma_prefix_holds(props, data, ops, 0, s);
    assert(ops.take(0) =~= Seq::<Op>::empty());
    lemma_open(s);
    let win = open_window(s)->Ok_0;
    let start = at_start(Decoding { win, probs: fresh(props) });
    let p = lemma_unsized_reaches(props, data, ops, ops.len() as int, s, start, limit);
    assert(ops.take(ops.len() as int) =~= ops);
    assert(p.out =~= data);
    bit_decodes(p.dec, end.c, kind, true, s);
    let d1 = p.dec.bit(kind).1;
    bit_decodes(d1, c1, rep, false, s);
    let d2 = d1.bit(rep).1;
    lemma_len_decodes(d2, c2, LEN as int, len, ps, s);
    let d3 = get_len(d2, LEN as int, ps).1;
    lemma_dist_decodes(d3, c3, 0xFFFF_FFFF, len, s);
    let d4 = get_dist(d3, len).1;
    lemma_close(d4.win, m.iv, s);
    assert(p.dec.win.pos <= s.len());
}

/// The encoder with an end marker of a given length (less 2).
pub open spec fn marked(at: Coded, props: Props, len: nat) -> Coding {
    let s = at.state.0;
    let ps = pos_state_of(props, at.pos);
    put_dist(
        put_len(
            at.c.bit(IS_MATCH + 16 * s + ps, true).bit(IS_REP + s, false),
            LEN as int,
            len,
            ps,
        ),
        0xFFFF_FFFF,
        len,
    )
}

proof fn lemma_unsized_reaches(
    props: Props,
    data: Seq<u8>,
    ops: Seq<Op>,
    k: int,
    s: Seq<u8>,
    start: Progress,
    limit: nat,
) -> (p: Progress)
    requires
        props.ok(),
        ops_ok(props, data, ops),
        0 <= k <= ops.len(),
        after_ops(props, data, ops).c.iv.holds(s),
        data.len() <= limit,
        start.dec.probs == fresh(props),
        start.dec.win.follows(whole(), s),
        start == at_start(start.dec),
    ensures
        p.dec.follows(after_ops(props, data, ops.take(k)).c, s),
        p.out.len() == after_ops(props, data, ops.take(k)).pos,
        p.out.len() <= data.len(),
        p.out == data.take(p.out.len() as int),
        p.state == after_ops(props, data, ops.take(k)).state,
        p.reps == after_ops(props, data, ops.take(k)).reps,
        run(start, props, None, limit) == run(p, props, None, limit),
    decreases k,
{
    lemma_prefix_holds(props, data, ops, k, s);
    lemma_after_ops(props, data, ops.take(k));
    if k == 0 {
        assert(ops.take(0) =~= Seq::<Op>::empty());
        assert(data.take(0) =~= Seq::<u8>::empty());
        start
    } else {
        let q = lemma_unsized_reaches(props, data, ops, k - 1, s, start, limit);
        let before = ops.take(k - 1);
        let t = ops.take(k);
        assert(t.drop_last() =~= before);
        let b = after_ops(props, data, before);
        lemma_prefix_holds(props, data, ops, k - 1, s);
        lemma_after_ops(props, data, before);
        lemma_op_decodes(q, b.c, props, limit, data, t.last(), s);
        lemma_next_ok(b.state, b.reps, data, b.pos, t.last());
        assert(q.dec.win.pos <= s.len());
        step(q, props, limit)->Ok_0.0
    }
}

/// A token that is decoded adds one byte, or repeats what stands at its
/// distance, which lies within the output; it never changes what is there or
/// goes beyond `limit`. The end marker adds nothing.
pub proof fn tokens_add_what_is_there(p: Progress, props: Props, limit: nat)
    ensures
        match step(p, props, limit) {
            Ok((q, true)) => q.out == p.out,
            Ok((q, false)) => {
                let n = p.out.len() as int;
                &&& n < q.out.len() <= limit
                &&& q.out.take(n) == p.out
                &&& (q.out.len() == n + 1 && q.reps == p.reps) || repeats(
                    q.out,
                    n,
                    q.reps[0] + 1,
                    q.out.len() - n,
                )
            },
            Err(_) => true,
        },
{
    lemma_step_grows(p, props, limit);
    if let Ok((q, false)) = step(p, props, limit) {
        let n = p.out.len() as int;
        if q.out.len() == n + 1 && q.reps == p.reps && q.out == p.out.push(q.out[n]) {
            assert(q.out.take(n) =~= p.out);
        } else {
            let len = (q.out.len() - n) as nat;
            let dist = (q.reps[0] + 1) as nat;
            assert forall|l: nat| #[trigger] copied(p.out, dist, l).len() == n + l by {
                lemma_copied_len(p.out, dist, l);
            }
            assert(q.out == copied(p.out, dist, len));
            assert forall|i: int| 0 <= i < n + len implies #[trigger] q.out[i] == if i < n {
                p.out[i]
            } else {
                q.out[i - dist]
            } by {
                copies_repeat(p.out, dist, len, i);
            }
            assert(q.out.take(n) =~= p.out);
            assert forall|j: int| 0 <= j < len implies q.out[n + j] == #[trigger] q.out[n + j
                - dist] by {
                assert(q.out[n + j] == q.out[n + j - dist]);
            }
        }
    }
}

/// A stream is refused if its header breaks off, if its first byte is not
/// that of any properties, if it says that it holds more than is allowed, or
/// if nothing or a byte other than 0 follows the header.
pub proof fn bad_headers_are_refused(input: Seq<u8>, limit: nat)
    ensures
        input.len() < 13 ==> decoded(input, limit) == Err::<Seq<u8>, Error>(
            Error::UnexpectedEof,
        ),
        input.len() >= 13 && input[0] >= 225 ==> decoded(input, limit) == Err::<Seq<u8>, Error>(
            Error::Corrupt("invalid LZMA properties byte"),
        ),
        input.len() >= 13 && input[0] < 225 && limit < le_value(input.subrange(5, 13)) < u64::MAX
            ==> decoded(input, limit) == Err::<Seq<u8>, Error>(
            Error::Corrupt("LZMA output larger than allowed"),
        ),
        input.len() == 13 ==> decoded(input, limit) is Err,
        input.len() > 13 && input[13] != 0 ==> decoded(input, limit) is Err,
{
    if input.len() > 13 {
        assert(input.skip(13)[0] == input[13]);
    }
}

} // verus!
