//! LZMA encoder.
//!
//! Encoding has two halves: *parsing* decides which [`Op`]s describe the
//! input (literals, repeats of recent distances, new matches), and
//! [`Encoder`] codes them. Two parsers are available ([`Parse`]):
//!
//! - **Fast**: at each position, choose with rules of thumb from the LZMA
//!   SDK's fast mode (`GetOptimumFast` in `LzmaEnc.c`): repeats are cheap,
//!   so they win unless a new match is clearly longer; a match is skipped
//!   when the next position has a better one (lazy matching).
//! - **Optimal**: price every alternative in bits and pick the cheapest
//!   path through a whole stretch of input; see [`crate::lzma::optimal`].
use crate::bits::ilog2;
use crate::bits::lemma_ilog2_unique;
use crate::error::Error;
use crate::lz77::repeats;
use crate::lzma::default_props;
use crate::lzma::dist_slot;
use crate::lzma::footer_bits_of;
use crate::lzma::fresh;
use crate::lzma::format::after_ops;
use crate::lzma::format::byte_against;
use crate::lzma::format::byte_before;
use crate::lzma::format::decoded;
use crate::lzma::format::history_ok;
use crate::lzma::format::lemma_after_ops;
use crate::lzma::format::lemma_next_ok;
use crate::lzma::format::lemma_op_ok;
use crate::lzma::format::next_reps;
use crate::lzma::format::next_state;
use crate::lzma::format::op_ok;
use crate::lzma::format::ops_ok;
use crate::lzma::format::put_dist;
use crate::lzma::format::put_len;
use crate::lzma::format::put_literal;
use crate::lzma::format::put_matched;
use crate::lzma::format::put_op;
use crate::lzma::format::stream_is_lossless;
use crate::lzma::format::to_front;
use crate::lzma::format::Coded;
use crate::lzma::format::Op;
use crate::lzma::lemma_slot;
use crate::lzma::lemma_slot_base;
use crate::lzma::literal_at;
use crate::lzma::matchfinder::found_at;
use crate::lzma::matchfinder::len_against;
use crate::lzma::matchfinder::lemma_len_against;
use crate::lzma::matchfinder::match_ok;
use crate::lzma::matchfinder::matches_ok;
use crate::lzma::matchfinder::Match;
use crate::lzma::matchfinder::MatchFinder;
use crate::lzma::matchfinder::Search;
use crate::lzma::optimal;
use crate::lzma::optimal::optimal_ops;
use crate::lzma::pos_state_of;
use crate::lzma::price;
use crate::lzma::price::byte_price;
use crate::lzma::price::short_rep_price;
use crate::lzma::slot_base;
use crate::lzma::Model;
use crate::lzma::Props;
use crate::lzma::State;
use crate::lzma::ALIGN_BITS;
use crate::lzma::DIST_ALIGN;
use crate::lzma::DIST_SLOT;
use crate::lzma::DIST_SPECIAL;
use crate::lzma::END_POS_MODEL_INDEX;
use crate::lzma::HEADER_LEN;
use crate::lzma::IS_MATCH;
use crate::lzma::IS_REP;
use crate::lzma::IS_REP0_LONG;
use crate::lzma::IS_REP_G0;
use crate::lzma::IS_REP_G1;
use crate::lzma::IS_REP_G2;
use crate::lzma::LEN;
use crate::lzma::LEN_HIGH;
use crate::lzma::LEN_LOW;
use crate::lzma::LEN_MID;
use crate::lzma::MATCH_MAX_LEN;
use crate::lzma::MATCH_MIN_LEN;
use crate::lzma::REP_LEN;
use crate::nums::le_bytes;
use crate::nums::lemma_le_bytes;
use crate::nums::lemma_le_len;
use crate::nums::lemma_pow2_le;
use crate::nums::lemma_pow2_values;
use crate::nums::push_le;
use crate::nums::two_to;
use crate::range;
use crate::range::bit_at;
use crate::range::bit_price;
use crate::range::number;
use crate::range::price_bit;
use crate::range::probs_ok;
use crate::range::Coding;
use crate::range::Prob;
use vstd::arithmetic::power2::lemma_pow2_unfold;
use vstd::arithmetic::power2::pow2;
use crate::lz77::lemma_common;
use crate::lzma::matchfinder::best_of;
use vstd::prelude::*;

verus! {

/// How the encoder chooses what to code.
#[derive(Debug, Clone, Copy, PartialEq, Eq)]
pub enum Parse {
    /// Rules of thumb, one position at a time. About 3x faster.
    Fast,
    /// Cheapest path by bit prices over up to 4 KB at a time.
    Optimal,
}

/// Encoder settings.
#[derive(Debug, Clone, Copy, PartialEq, Eq)]
pub struct Options {
    /// Largest match distance, in bytes. More finds more repeats, and the
    /// decoder needs this much memory.
    pub dict_size: u32,
    /// Chain links the match finder follows per position.
    pub depth: usize,
    /// Accept a match this long without looking further. At least 2.
    pub nice_len: usize,
    pub parse: Parse,
}

/// The settings used unless others are asked for.
pub open spec fn default_options() -> Options {
    Options { dict_size: 0x100_0000, depth: 48, nice_len: 64, parse: Parse::Optimal }
}

impl Default for Options {
    fn default() -> (r: Self)
        ensures
            r == default_options(),
    {
        Self { dict_size: 0x100_0000, depth: 48, nice_len: 64, parse: Parse::Optimal }
    }
}

/// What the fast parser codes next.
#[derive(Debug, Clone, Copy, PartialEq, Eq)]
pub enum Choice {
    Literal,
    /// Reuse `reps[index]`.
    Rep { index: usize, len: usize },
    /// New match; `dist` is 1-based.
    Match { dist: usize, len: usize },
}

/// `big` is so much further than `small` that a match one byte shorter at
/// `small` is the better deal. (SDK's `ChangePair`, on 0-based distances.)
pub open spec fn is_much_further(small: int, big: int) -> bool {
    (big - 1) / 128 > small - 1
}

fn much_further(small: usize, big: usize) -> (r: bool)
    requires
        small >= 1,
        big >= 1,
    ensures
        r == is_much_further(small as int, big as int),
{
    (big - 1) / 128 > small - 1
}

/// The longest match LZMA can code at `pos`.
pub open spec fn room_at(data: Seq<u8>, pos: nat) -> nat {
    if data.len() - pos < 273 {
        (data.len() - pos) as nat
    } else {
        273
    }
}

/// The best repeat of a recent distance from `reps[i]` on: whether it is at
/// least `nice_len` long (then the search stops), its length and its index.
pub open spec fn best_rep(
    data: Seq<u8>,
    reps: Seq<u32>,
    pos: nat,
    nice_len: nat,
    i: nat,
    best: (nat, nat),
) -> (bool, nat, nat)
    decreases 4 - i,
{
    if i >= 4 {
        (false, best.0, best.1)
    } else {
        let len = len_against(data, pos, (reps[i as int] + 1) as nat, room_at(data, pos));
        if len >= nice_len {
            (true, len, i)
        } else {
            best_rep(
                data,
                reps,
                pos,
                nice_len,
                i + 1,
                if len > best.0 {
                    (len, i)
                } else {
                    best
                },
            )
        }
    }
}

/// Step down from a match to shorter ones as long as each is one byte
/// shorter and far closer. The match is the one after `matches[i]`.
pub open spec fn stepped_down(matches: Seq<Match>, i: int, len: nat, dist: nat) -> (nat, nat)
    decreases i + 1,
{
    if i < 0 || matches[i].len + 1 != len || !is_much_further(
        matches[i].dist as int,
        dist as int,
    ) {
        (len, dist)
    } else {
        stepped_down(matches, i - 1, matches[i].len as nat, matches[i].dist as nat)
    }
}

/// The match to weigh against repeats and literals; of length 1 or less if
/// there is none worth it.
pub open spec fn main_match(matches: Seq<Match>) -> (nat, nat) {
    if matches.len() == 0 {
        (0, 0)
    } else {
        let (len, dist) = stepped_down(
            matches,
            matches.len() - 2,
            matches.last().len as nat,
            matches.last().dist as nat,
        );
        // A 2-byte match far away costs more than two literals.
        if len == 2 && dist > 0x80 {
            (1, dist)
        } else {
            (len, dist)
        }
    }
}

/// Some repeat, starting at `pos` or later in `reps`, reaches `limit`.
pub open spec fn rep_reaches(
    data: Seq<u8>,
    reps: Seq<u32>,
    pos: nat,
    limit: nat,
    i: nat,
) -> bool {
    exists|j: int|
        i <= j < 4 && len_against(data, pos, (#[trigger] reps[j] + 1) as nat, limit) >= limit
}

/// The match found one byte later is better than one of `len` at `dist`.
pub open spec fn later_is_better(next: Match, len: nat, dist: nat) -> bool {
    ||| next.len >= len && next.dist < dist
    ||| next.len == len + 1 && !is_much_further(dist as int, next.dist as int)
    ||| next.len > len + 1
    ||| next.len + 1 >= len && len >= 3 && is_much_further(next.dist as int, dist as int)
}

/// What the fast parser codes at `pos`, given the matches found there and
/// one byte later.
pub open spec fn fast_choice(
    data: Seq<u8>,
    reps: Seq<u32>,
    matches: Seq<Match>,
    next: Seq<Match>,
    pos: nat,
    nice_len: nat,
) -> Choice {
    if room_at(data, pos) < 2 {
        Choice::Literal
    } else {
        let (nice, rep_len, rep_index) = best_rep(data, reps, pos, nice_len, 0, (0, 0));
        let (len, dist) = main_match(matches);
        if nice {
            Choice::Rep { index: rep_index as usize, len: rep_len as usize }
        } else if matches.len() > 0 && matches.last().len >= nice_len {
            Choice::Match {
                dist: matches.last().dist as usize,
                len: matches.last().len as usize,
            }
        } else if rep_len >= 2 && (rep_len + 1 >= len || (rep_len + 2 >= len && dist > 512) || (
        rep_len + 3 >= len && dist > 32768)) {
            Choice::Rep { index: rep_index as usize, len: rep_len as usize }
        } else if len < 2 || room_at(data, pos) <= 2 {
            Choice::Literal
        } else if next.len() > 0 && later_is_better(next.last(), len, dist) {
            Choice::Literal
        } else if rep_reaches(
            data,
            reps,
            pos + 1,
            if len - 1 < 2 {
                2
            } else {
                (len - 1) as nat
            },
            0,
        ) {
            Choice::Literal
        } else {
            Choice::Match { dist: dist as usize, len: len as usize }
        }
    }
}

/// Whether a byte goes as a one-byte repeat of the last distance: when the
/// byte there is the same and that is cheaper.
pub open spec fn literal_op(
    probs: Seq<u16>,
    props: Props,
    state: State,
    reps: Seq<u32>,
    data: Seq<u8>,
    pos: nat,
) -> Op {
    let s = state.0 as int;
    let ps = pos_state_of(props, pos) as int;
    let literal = bit_price(probs[IS_MATCH + 16 * s + ps], false) + byte_price(
        probs,
        literal_at(props, pos, byte_before(data, pos as int)),
        data[pos as int],
        byte_against(data, pos as int, state, reps),
    );
    if reps[0] + 1 <= pos && data[pos - reps[0] - 1] == data[pos as int] && short_rep_price(
        probs,
        s,
        ps,
    ) < literal {
        Op::ShortRep
    } else {
        Op::Literal
    }
}

/// The token that the fast parser codes next.
#[verifier::opaque]
pub open spec fn fast_op(
    at: Coded,
    props: Props,
    data: Seq<u8>,
    matches: Seq<Match>,
    next: Seq<Match>,
    nice_len: nat,
) -> Op {
    match fast_choice(data, at.reps, matches, next, at.pos, nice_len) {
        Choice::Literal => literal_op(at.c.probs, props, at.state, at.reps, data, at.pos),
        Choice::Rep { index, len } => Op::Rep { index, len },
        Choice::Match { dist, len } => Op::Match { dist, len },
    }
}

proof fn lemma_best_rep(
    data: Seq<u8>,
    reps: Seq<u32>,
    pos: nat,
    nice_len: nat,
    i: nat,
    best: (nat, nat),
)
    requires
        reps.len() == 4,
        pos <= data.len(),
        best.0 == 0 || (best.1 < 4 && best.0 <= 273 && repeats(
            data,
            pos as int,
            reps[best.1 as int] + 1,
            best.0 as int,
        )),
        i <= 4,
        nice_len >= 2,
    ensures
        ({
            let (nice, len, index) = best_rep(data, reps, pos, nice_len, i, best);
            &&& nice ==> len >= nice_len
            &&& len > 0 ==> index < 4 && len <= 273 && repeats(
                data,
                pos as int,
                reps[index as int] + 1,
                len as int,
            )
        }),
    decreases 4 - i,
{
    if i < 4 {
        let dist = (reps[i as int] + 1) as nat;
        let room = room_at(data, pos);
        let len = len_against(data, pos, dist, room);
        lemma_len_against(data, pos, dist, room);
        if len < nice_len {
            lemma_best_rep(
                data,
                reps,
                pos,
                nice_len,
                i + 1,
                if len > best.0 {
                    (len, i)
                } else {
                    best
                },
            );
        }
    }
}

proof fn lemma_stepped_down(
    data: Seq<u8>,
    window: nat,
    pos: nat,
    matches: Seq<Match>,
    i: int,
    m: Match,
)
    requires
        matches_ok(data, window, pos, matches),
        -1 <= i < matches.len(),
        match_ok(data, window, pos, m),
    ensures
        ({
            let (len, dist) = stepped_down(matches, i, m.len as nat, m.dist as nat);
            len <= m.len && match_ok(
                data,
                window,
                pos,
                (Match { len: len as u32, dist: dist as u32 }),
            ) && dist <= u32::MAX
        }),
    decreases i + 1,
{
    if i >= 0 && matches[i].len + 1 == m.len && is_much_further(
        matches[i].dist as int,
        m.dist as int,
    ) {
        lemma_stepped_down(data, window, pos, matches, i - 1, matches[i]);
    }
}

/// What the fast parser chooses describes the data.
proof fn lemma_fast_choice(
    data: Seq<u8>,
    window: nat,
    reps: Seq<u32>,
    matches: Seq<Match>,
    next: Seq<Match>,
    pos: nat,
    nice_len: nat,
)
    requires
        reps.len() == 4,
        pos < data.len() < u32::MAX,
        matches_ok(data, window, pos, matches),
        nice_len >= 2,
    ensures
        match fast_choice(data, reps, matches, next, pos, nice_len) {
            Choice::Literal => true,
            Choice::Rep { index, len } => op_ok(data, reps, pos, (Op::Rep { index, len })),
            Choice::Match { dist, len } => op_ok(data, reps, pos, (Op::Match { dist, len })),
        },
{
    lemma_best_rep(data, reps, pos, nice_len, 0, (0, 0));
    if matches.len() > 0 {
        assert(match_ok(data, window, pos, matches.last()));
        lemma_stepped_down(data, window, pos, matches, matches.len() - 2, matches.last());
    }
}

/// An encoder in the middle of `data`.
pub struct Encoder<'a> {
    pub data: &'a [u8],
    pub rc: range::Encoder,
    pub m: Model,
    pub state: State,
    /// Last four distances, 0-based as coded.
    pub reps: [u32; 4],
    /// The tokens coded so far.
    pub ops: Ghost<Seq<Op>>,
}

impl<'a> Encoder<'a> {
    /// The range coder and its probabilities.
    pub open spec fn coding(&self) -> Coding {
        Coding { iv: self.rc@, probs: self.m.probs@ }
    }

    /// Where the next token goes.
    pub open spec fn pos(&self) -> nat {
        after_ops(self.m.props, self.data@, self.ops@).pos
    }

    /// The parts are usable.
    pub open spec fn usable(&self) -> bool {
        &&& self.rc.wf()
        &&& self.m.wf()
        &&& self.data@.len() < u32::MAX
    }

    /// The encoder is where coding its tokens leads.
    pub open spec fn wf(&self) -> bool {
        &&& self.usable()
        &&& ops_ok(self.m.props, self.data@, self.ops@)
        &&& after_ops(self.m.props, self.data@, self.ops@) == (Coded {
            c: self.coding(),
            state: self.state,
            reps: self.reps@,
            pos: self.pos(),
        })
    }

    /// An encoder that has coded nothing.
    pub fn new(data: &'a [u8], props: Props) -> (r: Self)
        requires
            props.ok(),
            data@.len() < u32::MAX,
        ensures
            r.wf(),
            r.data@ == data@,
            r.m.props == props,
            r.ops@ == Seq::<Op>::empty(),
            r.pos() == 0,
    {
        let r = Encoder {
            data,
            rc: range::Encoder::with_capacity(data.len() / 3),
            m: Model::new(props),
            state: State(0),
            reps: [0, 0, 0, 0],
            ops: Ghost(Seq::empty()),
        };
        assert(r.reps@ =~= seq![0u32, 0u32, 0u32, 0u32]);
        r
    }

    /// The history that the coded tokens lead to.
    pub proof fn lemma_history(&self)
        requires
            self.wf(),
        ensures
            history_ok(self.state, self.reps@, self.pos()),
            self.pos() <= self.data@.len(),
            self.coding().ok(),
    {
        lemma_after_ops(self.m.props, self.data@, self.ops@);
    }

    /// Decide what to code at `pos`, given the matches found there.
    /// May search `pos + 1` into `next` (only meaningful if the choice is a
    /// literal).
    fn pick(
        &self,
        pos: usize,
        matches: &Vec<Match>,
        finder: &mut MatchFinder,
        next: &mut Vec<Match>,
        nice_len: usize,
    ) -> (r: Choice)
        requires
            old(finder).wf(),
            old(finder).search().data == self.data@,
            old(finder).position() <= pos < self.data@.len(),
            self.data@.len() < u32::MAX,
            matches_ok(self.data@, old(finder).search().window, pos as nat, matches@),
            nice_len >= 2,
        ensures
            final(finder).wf(),
            final(finder).search() == old(finder).search(),
            final(finder).position() <= pos + 1,
            r == fast_choice(
                self.data@,
                self.reps@,
                matches@,
                old(finder).search().finds((pos + 1) as nat),
                pos as nat,
                nice_len as nat,
            ),
            r is Literal ==> final(next)@ == old(finder).search().finds((pos + 1) as nat),
    {
        next.clear();
        let avail: usize = if self.data.len() - pos < MATCH_MAX_LEN {
            self.data.len() - pos
        } else {
            MATCH_MAX_LEN
        };
        if avail < MATCH_MIN_LEN {
            return self.lookahead_literal(pos, finder, next);
        }
        // The best repeat of a recent distance.
        let mut rep_len: usize = 0;
        let mut rep_index: usize = 0;
        let mut i: usize = 0;
        let ghost target = best_rep(self.data@, self.reps@, pos as nat, nice_len as nat, 0, (0, 0));
        while i < 4
            invariant
                i <= 4,
                finder.wf(),
                finder.search() == old(finder).search(),
                finder.search().data == self.data@,
                finder.position() <= pos,
                avail == room_at(self.data@, pos as nat),
                pos + 2 <= self.data@.len() < u32::MAX,
                matches_ok(self.data@, finder.search().window, pos as nat, matches@),
                nice_len >= 2,
                target == best_rep(
                    self.data@,
                    self.reps@,
                    pos as nat,
                    nice_len as nat,
                    0,
                    (0, 0),
                ),
                rep_len < nice_len,
                best_rep(
                    self.data@,
                    self.reps@,
                    pos as nat,
                    nice_len as nat,
                    i as nat,
                    (rep_len as nat, rep_index as nat),
                ) == target,
            decreases 4 - i,
        {
            let len: usize = rep_len_at(finder, pos, self.reps[i], avail);
            if len >= nice_len {
                return Choice::Rep { index: i, len };
            }
            if len > rep_len {
                rep_len = len;
                rep_index = i;
            }
            i = i + 1;
        }
        let mut main_len: usize = 0;
        let mut main_dist: usize = 0;
        if matches.len() > 0 {
            let last = matches[matches.len() - 1];
            assert(match_ok(self.data@, finder.search().window, pos as nat, matches@.last()));
            main_len = last.len as usize;
            main_dist = last.dist as usize;
            if main_len >= nice_len {
                return Choice::Match { dist: main_dist, len: main_len };
            }
            // Step down to a match one shorter if it is far closer.
            let mut k: usize = matches.len() - 1;
            let ghost stepped = stepped_down(
                matches@,
                matches@.len() - 2,
                main_len as nat,
                main_dist as nat,
            );
            while k > 0 && matches[k - 1].len as usize + 1 == main_len && much_further(
                matches[k - 1].dist as usize,
                main_dist,
            )
                invariant
                    matches_ok(self.data@, finder.search().window, pos as nat, matches@),
                    k < matches@.len(),
                    1 <= main_dist <= u32::MAX,
                    main_len <= 273,
                    finder.wf(),
                    finder.search() == old(finder).search(),
                    finder.position() <= pos,
                    stepped_down(matches@, k - 1, main_len as nat, main_dist as nat) == stepped,
                decreases k,
            {
                k = k - 1;
                assert(match_ok(self.data@, finder.search().window, pos as nat, matches@[k as int]));
                main_len = matches[k].len as usize;
                main_dist = matches[k].dist as usize;
            }
            // A 2-byte match far away costs more than two literals.
            if main_len == 2 && main_dist > 0x80 {
                main_len = 1;
            }
        }
        assert(main_match(matches@) == (main_len as nat, main_dist as nat));
        if rep_len >= MATCH_MIN_LEN && (rep_len + 1 >= main_len || (rep_len + 2 >= main_len
            && main_dist > 512) || (rep_len + 3 >= main_len && main_dist > 32768)) {
            return Choice::Rep { index: rep_index, len: rep_len };
        }
        if main_len < MATCH_MIN_LEN || avail <= 2 {
            return self.lookahead_literal(pos, finder, next);
        }
        // Lazy matching: is starting one byte later better?

        finder.find(pos + 1, next);
        if next.len() > 0 {
            let n = next[next.len() - 1];
            assert(match_ok(
                self.data@,
                finder.search().window,
                (pos + 1) as nat,
                next@[next@.len() - 1],
            ));
            let new_len: usize = n.len as usize;
            let new_dist: usize = n.dist as usize;
            if (new_len >= main_len && new_dist < main_dist) || (new_len == main_len + 1
                && !much_further(main_dist, new_dist)) || new_len > main_len + 1 || (new_len + 1
                >= main_len && main_len >= 3 && much_further(new_dist, main_dist)) {
                return Choice::Literal;
            }
        }
        // Or a repeat starting one byte later, nearly as long?

        let limit: usize = if main_len - 1 < 2 {
            2
        } else {
            main_len - 1
        };
        let mut i: usize = 0;
        while i < 4
            invariant
                i <= 4,
                finder.wf(),
                finder.search() == old(finder).search(),
                finder.search().data == self.data@,
                finder.position() <= pos + 1,
                pos + 2 <= self.data@.len() < u32::MAX,
                next@ == old(finder).search().finds((pos + 1) as nat),
                limit == if main_len - 1 < 2 {
                    2
                } else {
                    main_len - 1
                },
                rep_reaches(self.data@, self.reps@, (pos + 1) as nat, limit as nat, 0)
                    == rep_reaches(
                    self.data@,
                    self.reps@,
                    (pos + 1) as nat,
                    limit as nat,
                    i as nat,
                ),
                !rep_reaches(self.data@, self.reps@, (pos + 1) as nat, limit as nat, 0)
                    ==> fast_choice(
                    self.data@,
                    self.reps@,
                    matches@,
                    next@,
                    pos as nat,
                    nice_len as nat,
                ) == (Choice::Match { dist: main_dist, len: main_len }),
                rep_reaches(self.data@, self.reps@, (pos + 1) as nat, limit as nat, 0)
                    ==> fast_choice(
                    self.data@,
                    self.reps@,
                    matches@,
                    next@,
                    pos as nat,
                    nice_len as nat,
                ) == Choice::Literal,
            decreases 4 - i,
        {
            if rep_len_at(finder, pos + 1, self.reps[i], limit) >= limit {
                assert(rep_reaches(
                    self.data@,
                    self.reps@,
                    (pos + 1) as nat,
                    limit as nat,
                    i as nat,
                )) by {
                    assert(len_against(
                        self.data@,
                        (pos + 1) as nat,
                        (self.reps@[i as int] + 1) as nat,
                        limit as nat,
                    ) >= limit);
                }
                return Choice::Literal;
            }
            i = i + 1;
        }
        Choice::Match { dist: main_dist, len: main_len }
    }

    /// The token to code at `pos`, given the matches found there. If it is
    /// of one byte, `next` holds the matches at `pos + 1`.
    fn next_op(
        &self,
        pos: usize,
        matches: &Vec<Match>,
        finder: &mut MatchFinder,
        next: &mut Vec<Match>,
        nice_len: usize,
    ) -> (r: Op)
        requires
            self.usable(),
            history_ok(self.state, self.reps@, pos as nat),
            old(finder).wf(),
            old(finder).search().data == self.data@,
            old(finder).position() <= pos < self.data@.len(),
            matches_ok(self.data@, old(finder).search().window, pos as nat, matches@),
            nice_len >= 2,
        ensures
            final(finder).wf(),
            final(finder).search() == old(finder).search(),
            final(finder).position() <= pos + 1,
            op_ok(self.data@, self.reps@, pos as nat, r),
            forall|at: Coded|
                at.c == self.coding() && at.state == self.state && at.reps == self.reps@ && at.pos
                    == pos ==> r == #[trigger] fast_op(
                    at,
                    self.m.props,
                    self.data@,
                    matches@,
                    old(finder).search().finds((pos + 1) as nat),
                    nice_len as nat,
                ),
            r.span() == 1 ==> final(next)@ == old(finder).search().finds((pos + 1) as nat),
    {
        reveal(fast_op);
        let ghost window = finder.search().window;
        let choice = self.pick(pos, matches, finder, next, nice_len);
        proof {
            lemma_fast_choice(
                self.data@,
                window,
                self.reps@,
                matches@,
                old(finder).search().finds((pos + 1) as nat),
                pos as nat,
                nice_len as nat,
            );
        }
        match choice {
            Choice::Literal => self.literal_or_short_rep(pos),
            Choice::Rep { index, len } => Op::Rep { index, len },
            Choice::Match { dist, len } => Op::Match { dist, len },
        }
    }

    /// Choose a literal, first searching `pos + 1` so the next step can
    /// reuse it.
    fn lookahead_literal(&self, pos: usize, finder: &mut MatchFinder, next: &mut Vec<Match>) -> (r:
        Choice)
        requires
            old(finder).wf(),
            old(finder).search().data == self.data@,
            old(finder).position() <= pos < self.data@.len(),
            old(next)@ == Seq::<Match>::empty(),
        ensures
            final(finder).wf(),
            final(finder).search() == old(finder).search(),
            final(finder).position() <= pos + 1,
            r is Literal,
            final(next)@ == old(finder).search().finds((pos + 1) as nat),
    {
        if pos < self.data.len() - 1 {
            finder.find(pos + 1, next);
        } else {
            proof {
                reveal(found_at);
            }
        }
        Choice::Literal
    }

    /// Code one byte as a literal or, when the byte at distance rep0 is
    /// the same and that is cheaper, as a "short rep".
    fn literal_or_short_rep(&self, pos: usize) -> (r: Op)
        requires
            self.usable(),
            history_ok(self.state, self.reps@, pos as nat),
            pos < self.data@.len(),
        ensures
            r == literal_op(
                self.m.probs@,
                self.m.props,
                self.state,
                self.reps@,
                self.data@,
                pos as nat,
            ),
            op_ok(self.data@, self.reps@, pos as nat, r),
    {
        let byte: u8 = self.data[pos];
        let rep0: usize = self.reps[0] as usize;
        if rep0 < pos && self.data[pos - rep0 - 1] == byte {
            let ps: usize = self.m.pos_state(pos);
            let short_rep: u32 = price::short_rep(&self.m, self.state, ps);
            let is_match: u32 = price_bit(
                self.m.probs[IS_MATCH + 16 * self.state.index() + ps],
                0,
            );
            let literal: u32 = is_match + self.literal_price(pos);
            if short_rep < literal {
                return Op::ShortRep;
            }
        }
        Op::Literal
    }

    fn prev_byte(&self, pos: usize) -> (r: u8)
        requires
            pos <= self.data@.len(),
        ensures
            r == byte_before(self.data@, pos as int),
    {
        if pos == 0 {
            0
        } else {
            self.data[pos - 1]
        }
    }

    fn match_byte(&self, pos: usize) -> (r: Option<u8>)
        requires
            pos <= self.data@.len(),
            history_ok(self.state, self.reps@, pos as nat),
        ensures
            r == byte_against(self.data@, pos as int, self.state, self.reps@),
    {
        if self.state.is_literal() {
            None
        } else {
            Some(self.data[pos - self.reps[0] as usize - 1])
        }
    }

    fn literal_price(&self, pos: usize) -> (r: u32)
        requires
            self.usable(),
            pos < self.data@.len(),
            history_ok(self.state, self.reps@, pos as nat),
        ensures
            r == byte_price(
                self.m.probs@,
                literal_at(self.m.props, pos as nat, byte_before(self.data@, pos as int)),
                self.data@[pos as int],
                byte_against(self.data@, pos as int, self.state, self.reps@),
            ),
            r <= 776,
    {
        let base: usize = self.m.literal_base(pos, self.prev_byte(pos));
        price::literal_bits(&self.m, base, self.data[pos], self.match_byte(pos))
    }

    /// Code `op` at `pos`.
    pub fn emit(&mut self, pos: usize, op: Op)
        requires
            old(self).wf(),
            pos == old(self).pos(),
            op_ok(old(self).data@, old(self).reps@, pos as nat, op),
        ensures
            final(self).wf(),
            final(self).data@ == old(self).data@,
            final(self).m.props == old(self).m.props,
            final(self).ops@ == old(self).ops@.push(op),
            final(self).pos() == pos + op.span(),
            final(self).pos() <= final(self).data@.len(),
    {
        proof {
            self.lemma_history();
            lemma_op_ok(
                self.coding(),
                self.m.props,
                self.state,
                self.reps@,
                self.data@,
                pos as nat,
                op,
            );
            lemma_next_ok(self.state, self.reps@, self.data@, pos as nat, op);
        }
        match op {
            Op::Literal => self.literal(pos),
            Op::ShortRep => self.short_rep(pos),
            Op::Rep { index, len } => self.rep(pos, index, len),
            Op::Match { dist, len } => self.new_match(pos, dist, len),
        }
        self.ops = Ghost(self.ops@.push(op));
        proof {
            assert(self.ops@.drop_last() =~= old(self).ops@);
        }
    }

    /// Everything but the coder, the state and the distances is as it was.
    pub open spec fn same_task(&self, other: &Encoder) -> bool {
        &&& self.data@ == other.data@
        &&& self.m.props == other.m.props
        &&& self.ops@ == other.ops@
    }

    fn short_rep(&mut self, pos: usize)
        requires
            old(self).usable(),
            history_ok(old(self).state, old(self).reps@, pos as nat),
        ensures
            final(self).usable(),
            final(self).same_task(old(self)),
            final(self).coding() == put_op(
                old(self).coding(),
                old(self).m.props,
                old(self).state,
                old(self).reps@,
                old(self).data@,
                pos as nat,
                Op::ShortRep,
            ),
            final(self).state == next_state(old(self).state, Op::ShortRep),
            final(self).reps@ == old(self).reps@,
    {
        let s: usize = self.state.index();
        let ps: usize = self.m.pos_state(pos);
        self.rc.encode_at(&mut self.m.probs, IS_MATCH + 16 * s + ps, true);
        self.rc.encode_at(&mut self.m.probs, IS_REP + s, true);
        self.rc.encode_at(&mut self.m.probs, IS_REP_G0 + s, false);
        self.rc.encode_at(&mut self.m.probs, IS_REP0_LONG + 16 * s + ps, false);
        self.state.after_short_rep();
    }

    fn literal(&mut self, pos: usize)
        requires
            old(self).usable(),
            history_ok(old(self).state, old(self).reps@, pos as nat),
            pos < old(self).data@.len(),
        ensures
            final(self).usable(),
            final(self).same_task(old(self)),
            final(self).coding() == put_op(
                old(self).coding(),
                old(self).m.props,
                old(self).state,
                old(self).reps@,
                old(self).data@,
                pos as nat,
                Op::Literal,
            ),
            final(self).state == next_state(old(self).state, Op::Literal),
            final(self).reps@ == old(self).reps@,
    {
        let byte: u8 = self.data[pos];
        let s: usize = self.state.index();
        let ps: usize = self.m.pos_state(pos);
        self.rc.encode_at(&mut self.m.probs, IS_MATCH + 16 * s + ps, false);
        let base: usize = self.m.literal_base(pos, self.prev_byte(pos));
        proof {
            lemma_pow2_values();
        }
        match self.match_byte(pos) {
            None => {
                self.rc.encode_tree_at(&mut self.m.probs, base, 8, byte as u32);
            },
            Some(other) => {
                encode_matched(&mut self.rc, &mut self.m.probs, base, byte, other);
            },
        }
        self.state.after_literal();
    }

    fn rep(&mut self, pos: usize, index: usize, len: usize)
        requires
            old(self).usable(),
            history_ok(old(self).state, old(self).reps@, pos as nat),
            index < 4,
            2 <= len <= 273,
        ensures
            final(self).usable(),
            final(self).same_task(old(self)),
            final(self).coding() == put_op(
                old(self).coding(),
                old(self).m.props,
                old(self).state,
                old(self).reps@,
                old(self).data@,
                pos as nat,
                (Op::Rep { index, len }),
            ),
            final(self).state == next_state(old(self).state, (Op::Rep { index, len })),
            final(self).reps@ == next_reps(old(self).reps@, (Op::Rep { index, len })),
    {
        let s: usize = self.state.index();
        let ps: usize = self.m.pos_state(pos);
        self.rc.encode_at(&mut self.m.probs, IS_MATCH + 16 * s + ps, true);
        self.rc.encode_at(&mut self.m.probs, IS_REP + s, true);
        if index == 0 {
            self.rc.encode_at(&mut self.m.probs, IS_REP_G0 + s, false);
            self.rc.encode_at(&mut self.m.probs, IS_REP0_LONG + 16 * s + ps, true);
        } else {
            self.rc.encode_at(&mut self.m.probs, IS_REP_G0 + s, true);
            if index == 1 {
                self.rc.encode_at(&mut self.m.probs, IS_REP_G1 + s, false);
            } else {
                self.rc.encode_at(&mut self.m.probs, IS_REP_G1 + s, true);
                self.rc.encode_at(&mut self.m.probs, IS_REP_G2 + s, index == 3);
            }
        }
        // Move the used distance to the front.
        self.reps = moved_to_front(self.reps, index);
        encode_len(&mut self.rc, &mut self.m.probs, REP_LEN, (len - MATCH_MIN_LEN) as u32, ps);
        self.state.after_rep();
    }

    fn new_match(&mut self, pos: usize, dist: usize, len: usize)
        requires
            old(self).usable(),
            history_ok(old(self).state, old(self).reps@, pos as nat),
            1 <= dist < u32::MAX,
            2 <= len <= 273,
        ensures
            final(self).usable(),
            final(self).same_task(old(self)),
            final(self).coding() == put_op(
                old(self).coding(),
                old(self).m.props,
                old(self).state,
                old(self).reps@,
                old(self).data@,
                pos as nat,
                (Op::Match { dist, len }),
            ),
            final(self).state == next_state(old(self).state, (Op::Match { dist, len })),
            final(self).reps@ == next_reps(old(self).reps@, (Op::Match { dist, len })),
    {
        let s: usize = self.state.index();
        let ps: usize = self.m.pos_state(pos);
        self.rc.encode_at(&mut self.m.probs, IS_MATCH + 16 * s + ps, true);
        self.rc.encode_at(&mut self.m.probs, IS_REP + s, false);
        let len: u32 = (len - MATCH_MIN_LEN) as u32;
        encode_len(&mut self.rc, &mut self.m.probs, LEN, len, ps);
        let dist0: u32 = (dist - 1) as u32;
        encode_dist(&mut self.rc, &mut self.m.probs, dist0, len);
        self.reps = [dist0, self.reps[0], self.reps[1], self.reps[2]];
        proof {
            assert(self.reps@ =~= seq![
                dist0,
                old(self).reps@[0],
                old(self).reps@[1],
                old(self).reps@[2],
            ]);
        }
        self.state.after_match();
    }
}

/// Length of the match at `pos` against the 0-based distance `rep`, up to
/// `limit`.
pub fn rep_len_at(finder: &MatchFinder, pos: usize, rep: u32, limit: usize) -> (r: usize)
    requires
        pos <= finder.search().data.len(),
    ensures
        r == len_against(finder.search().data, pos as nat, (rep + 1) as nat, limit as nat),
{
    if rep as usize >= pos {
        0
    } else {
        finder.len_at(pos, rep as usize + 1, limit)
    }
}

/// The distances with the one at `index` moved to the front.
pub fn moved_to_front(r: [u32; 4], index: usize) -> (out: [u32; 4])
    requires
        index < 4,
    ensures
        out@ == to_front(r@, index as int),
{
    let out: [u32; 4] = if index == 0 {
        r
    } else if index == 1 {
        [r[1], r[0], r[2], r[3]]
    } else if index == 2 {
        [r[2], r[0], r[1], r[3]]
    } else {
        [r[3], r[0], r[1], r[2]]
    };
    assert(out@ =~= to_front(r@, index as int));
    out
}

/// Code a literal against `other`, the byte at the last distance.
fn encode_matched(
    rc: &mut range::Encoder,
    probs: &mut [Prob],
    base: usize,
    byte: u8,
    other: u8,
)
    requires
        old(rc).wf(),
        probs_ok(old(probs)@),
        base + 768 <= old(probs)@.len(),
    ensures
        final(rc).wf(),
        probs_ok(final(probs)@),
        final(probs)@.len() == old(probs)@.len(),
        (Coding { iv: final(rc)@, probs: final(probs)@ }) == put_literal(
            Coding { iv: old(rc)@, probs: old(probs)@ },
            base as int,
            byte,
            Some(other),
        ),
{
    let ghost target = put_matched(
        Coding { iv: rc@, probs: probs@ },
        base as int,
        8,
        1,
        byte as nat,
        other as nat,
        true,
    );
    let mut symbol: usize = 1;
    let mut same: bool = true;
    let mut left: u32 = 8;
    proof {
        lemma_pow2_values();
        assert(probs@.len() == probs.len());
    }
    while left > 0
        invariant
            left <= 8,
            rc.wf(),
            probs_ok(probs@),
            base + 768 <= probs@.len() <= usize::MAX,
            probs@.len() == old(probs)@.len(),
            symbol < pow2((9 - left) as nat),
            put_matched(
                Coding { iv: rc@, probs: probs@ },
                base as int,
                left as nat,
                symbol as nat,
                byte as nat,
                other as nat,
                same,
            ) == target,
        decreases left,
    {
        proof {
            lemma_pow2_values();
            lemma_pow2_le((9 - left) as nat, 8);
            lemma_pow2_unfold((10 - left) as nat);
        }
        left = left - 1;
        let bit: bool = bit_at(byte as u32, left);
        let other_bit: bool = bit_at(other as u32, left);
        let at: usize = if same {
            if other_bit {
                base + 512 + symbol
            } else {
                base + 256 + symbol
            }
        } else {
            base + symbol
        };
        rc.encode_at(probs, at, bit);
        symbol = 2 * symbol + if bit {
            1
        } else {
            0
        };
        same = same && other_bit == bit;
    }
}

/// Code a length, as `len - 2`, with the model at `base`.
fn encode_len(
    rc: &mut range::Encoder,
    probs: &mut [Prob],
    base: usize,
    len: u32,
    pos_state: usize,
)
    requires
        old(rc).wf(),
        probs_ok(old(probs)@),
        base + 514 <= old(probs)@.len(),
        pos_state < 16,
        len < 272,
    ensures
        final(rc).wf(),
        probs_ok(final(probs)@),
        final(probs)@.len() == old(probs)@.len(),
        (Coding { iv: final(rc)@, probs: final(probs)@ }) == put_len(
            Coding { iv: old(rc)@, probs: old(probs)@ },
            base as int,
            len as nat,
            pos_state as nat,
        ),
{
    proof {
        lemma_pow2_values();
        assert(probs@.len() == probs.len());
    }
    if len < 8 {
        rc.encode_at(probs, base, false);
        rc.encode_tree_at(probs, base + LEN_LOW + 8 * pos_state, 3, len);
    } else if len < 16 {
        rc.encode_at(probs, base, true);
        rc.encode_at(probs, base + 1, false);
        rc.encode_tree_at(probs, base + LEN_MID + 8 * pos_state, 3, len - 8);
    } else {
        rc.encode_at(probs, base, true);
        rc.encode_at(probs, base + 1, true);
        rc.encode_tree_at(probs, base + LEN_HIGH, 8, len - 16);
    }
}

/// Code a 0-based distance for a match of `len - 2`.
fn encode_dist(rc: &mut range::Encoder, probs: &mut [Prob], dist: u32, len: u32)
    requires
        old(rc).wf(),
        probs_ok(old(probs)@),
        old(probs)@.len() >= 1847,
    ensures
        final(rc).wf(),
        probs_ok(final(probs)@),
        final(probs)@.len() == old(probs)@.len(),
        (Coding { iv: final(rc)@, probs: final(probs)@ }) == put_dist(
            Coding { iv: old(rc)@, probs: old(probs)@ },
            dist as nat,
            len as nat,
        ),
{
    proof {
        lemma_pow2_values();
    }
    let slot: u32 = dist_slot(dist);
    rc.encode_tree_at(probs, DIST_SLOT + 64 * Model::len_state(len), 6, slot);
    if slot < 4 {
        return ;
    }
    proof {
        lemma_slot(dist as nat);
        lemma_slot_base(slot as nat);
        lemma_pow2_le(footer_bits_of(slot as nat), 30);
        vstd::arithmetic::power2::lemma2_to64();
    }
    let footer_bits: u32 = slot / 2 - 1;
    let two: u64 = two_to(footer_bits);
    assert((2 + slot % 2) * two <= 3 * 0x4000_0000) by (nonlinear_arith)
        requires
            slot % 2 <= 1,
            two <= 0x4000_0000,
    ;
    let base: u32 = ((2 + slot % 2) as u64 * two) as u32;
    assert(base == slot_base(slot as nat));
    let rest: u32 = dist - base;
    if slot < END_POS_MODEL_INDEX {
        rc.encode_reverse_tree_at(
            probs,
            DIST_SPECIAL + (base - slot) as usize,
            footer_bits,
            rest,
        );
    } else {
        rc.encode_direct(rest / 16, footer_bits - ALIGN_BITS);
        rc.encode_reverse_tree_at(probs, DIST_ALIGN, ALIGN_BITS, rest % 16);
    }
}

/// Each token is the one that the fast parser chooses at its place.
pub open spec fn fast_parsed(
    props: Props,
    data: Seq<u8>,
    finds: spec_fn(nat) -> Seq<Match>,
    nice_len: nat,
    ops: Seq<Op>,
) -> bool {
    forall|k: int|
        0 <= k < ops.len() ==> {
            let at = after_ops(props, data, ops.take(k));
            #[trigger] ops[k] == fast_op(
                at,
                props,
                data,
                finds(at.pos),
                finds(at.pos + 1),
                nice_len,
            )
        }
}

/// Where a token starts and a match of `nice_len` bytes or more is found, the
/// token is a match or repeat of at least that length.
#[verifier::opaque]
pub open spec fn takes_long(
    props: Props,
    search: Search,
    nice_len: nat,
    ops: Seq<Op>,
) -> bool {
    forall|k: int|
        0 <= k < ops.len() && best_of(
            search.finds(after_ops(props, search.data, ops.take(k)).pos),
        ) >= nice_len ==> (#[trigger] ops[k]).span() >= nice_len
}

/// One more token keeps it so.
pub proof fn lemma_takes_long(
    props: Props,
    search: Search,
    nice_len: nat,
    ops: Seq<Op>,
    op: Op,
)
    requires
        takes_long(props, search, nice_len, ops),
        best_of(search.finds(after_ops(props, search.data, ops).pos)) >= nice_len ==> op.span()
            >= nice_len,
    ensures
        takes_long(props, search, nice_len, ops.push(op)),
{
    reveal(takes_long);
    let all = ops.push(op);
    assert forall|k: int|
        0 <= k < all.len() && best_of(
            search.finds(after_ops(props, search.data, all.take(k)).pos),
        ) >= nice_len implies (#[trigger] all[k]).span() >= nice_len by {
        if k < ops.len() {
            assert(all.take(k) =~= ops.take(k));
            assert(all[k] == ops[k]);
        } else {
            assert(all.take(k) =~= ops);
        }
    }
}

/// The fast parser takes a long match or a long repeat at once.
proof fn lemma_fast_long(
    data: Seq<u8>,
    reps: Seq<u32>,
    matches: Seq<Match>,
    next: Seq<Match>,
    pos: nat,
    nice_len: nat,
    window: nat,
)
    requires
        pos < data.len() < u32::MAX,
        reps.len() == 4,
        nice_len >= 2,
        matches_ok(data, window, pos, matches),
        best_of(matches) >= nice_len,
    ensures
        fast_choice(data, reps, matches, next, pos, nice_len) matches Choice::Rep { len, .. }
            ==> len >= nice_len,
        fast_choice(data, reps, matches, next, pos, nice_len) matches Choice::Match { len, .. }
            ==> len >= nice_len,
        !(fast_choice(data, reps, matches, next, pos, nice_len) is Literal),
{
    assert(matches.len() > 0);
    assert(matches[matches.len() - 1].len >= 2);
    lemma_best_rep(data, reps, pos, nice_len, 0, (0, 0));
    lemma_best_rep_nice(data, reps, pos, nice_len, 0, (0, 0));
}

proof fn lemma_best_rep_nice(
    data: Seq<u8>,
    reps: Seq<u32>,
    pos: nat,
    nice_len: nat,
    i: nat,
    best: (nat, nat),
)
    requires
        i <= 4,
        pos <= data.len(),
    ensures
        ({
            let r = best_rep(data, reps, pos, nice_len, i, best);
            r.0 ==> nice_len <= r.1 <= 273
        }),
    decreases 4 - i,
{
    if i < 4 {
        let dist = (reps[i as int] + 1) as nat;
        let room = room_at(data, pos);
        let len = len_against(data, pos, dist, room);
        if dist <= pos {
            let limit = if room < data.len() - pos {
                room
            } else {
                (data.len() - pos) as nat
            };
            lemma_common(data, pos - dist, pos as int, limit);
        }
        if len < nice_len {
            lemma_best_rep_nice(
                data,
                reps,
                pos,
                nice_len,
                i + 1,
                if len > best.0 {
                    (len, i)
                } else {
                    best
                },
            );
        }
    }
}

/// Code everything, choosing at each position with rules of thumb.
pub fn parse_fast(enc: &mut Encoder, finder: &mut MatchFinder, nice_len: usize)
    requires
        old(enc).wf(),
        old(enc).ops@ == Seq::<Op>::empty(),
        old(finder).wf(),
        old(finder).search().data == old(enc).data@,
        old(finder).position() == 0,
        nice_len >= 2,
    ensures
        final(enc).wf(),
        final(enc).data@ == old(enc).data@,
        final(enc).m.props == old(enc).m.props,
        final(enc).pos() == final(enc).data@.len(),
        fast_parsed(
            final(enc).m.props,
            final(enc).data@,
            |pos: nat| old(finder).search().finds(pos),
            nice_len as nat,
            final(enc).ops@,
        ),
        takes_long(
            final(enc).m.props,
            old(finder).search(),
            nice_len as nat,
            final(enc).ops@,
        ),
{
    let ghost finds = |pos: nat| old(finder).search().finds(pos);
    let mut matches: Vec<Match> = Vec::new();
    let mut next_matches: Vec<Match> = Vec::new();
    // `matches` already holds the search for `pos` from a lazy look-ahead.
    let mut have_matches: bool = false;
    let mut pos: usize = 0;
    proof {
        reveal(takes_long);
    }
    while pos < enc.data.len()
        invariant
            enc.wf(),
            enc.data@ == old(enc).data@,
            enc.m.props == old(enc).m.props,
            enc.pos() == pos,
            pos <= enc.data@.len(),
            finder.wf(),
            finder.search() == old(finder).search(),
            finder.search().data == enc.data@,
            finder.position() <= pos,
            finds == |pos: nat| old(finder).search().finds(pos),
            have_matches && pos < enc.data@.len() ==> matches@ == old(finder).search().finds(pos as nat),
            nice_len >= 2,
            fast_parsed(enc.m.props, enc.data@, finds, nice_len as nat, enc.ops@),
            takes_long(enc.m.props, finder.search(), nice_len as nat, enc.ops@),
        decreases enc.data@.len() - pos,
    {
        if !have_matches {
            finder.find(pos, &mut matches);
        }
        proof {
            finder.lemma_wf();
            finder.search().lemma_finds(pos as nat);
            enc.lemma_history();
        }
        let ghost before = enc.ops@;
        let ghost found = matches@;
        let ghost reps = enc.reps@;
        let op = enc.next_op(pos, &matches, finder, &mut next_matches, nice_len);
        proof {
            let search = finder.search();
            let at = after_ops(enc.m.props, enc.data@, before);
            assert(op == fast_op(
                at,
                enc.m.props,
                enc.data@,
                found,
                search.finds((pos + 1) as nat),
                nice_len as nat,
            ));
            if best_of(found) >= nice_len {
                reveal(fast_op);
                lemma_fast_long(
                    enc.data@,
                    reps,
                    found,
                    search.finds(pos as nat + 1),
                    pos as nat,
                    nice_len as nat,
                    search.window,
                );
            }
            lemma_takes_long(enc.m.props, search, nice_len as nat, before, op);
        }
        // A token of one byte was chosen after searching pos + 1 (unless it
        // is the last byte), and that comes next.
        have_matches = op.len() == 1;
        if have_matches {
            std::mem::swap(&mut matches, &mut next_matches);
        }
        enc.emit(pos, op);
        pos = pos + op.len();
        proof {
            let all = enc.ops@;
            assert forall|k: int| 0 <= k < all.len() implies ({
                let at = after_ops(enc.m.props, enc.data@, all.take(k));
                #[trigger] all[k] == fast_op(
                    at,
                    enc.m.props,
                    enc.data@,
                    finds(at.pos),
                    finds(at.pos + 1),
                    nice_len as nat,
                )
            }) by {
                if k < before.len() {
                    assert(all.take(k) =~= before.take(k));
                    assert(all[k] == before[k]);
                } else {
                    assert(all.take(k) =~= before);
                }
            }
        }
    }
}

/// The least power of two that is at least `n`.
pub open spec fn next_power_of_two(n: nat) -> nat {
    if n <= 1 {
        1
    } else {
        pow2(ilog2((n - 1) as nat) + 1)
    }
}

/// The dictionary size for an input of `n` bytes. No point in one bigger
/// than the input; decoders allocate it.
pub open spec fn dict_size_for(dict_size: u32, n: nat) -> nat {
    let fit = next_power_of_two(n);
    let size = if fit < dict_size {
        fit
    } else {
        dict_size as nat
    };
    let capped = if size > 0x8000_0000 {
        0x8000_0000
    } else {
        size
    };
    if capped < 4096 {
        4096
    } else {
        capped
    }
}

fn pick_dict_size(dict_size: u32, n: usize) -> (r: u32)
    requires
        n < u32::MAX,
    ensures
        r == dict_size_for(dict_size, n as nat),
{
    let mut fit: u64 = 1;
    let ghost mut e: nat = 0;
    proof {
        lemma_pow2_values();
    }
    while fit < n as u64
        invariant
            n < u32::MAX,
            fit == pow2(e),
            0 < fit < 0x2_0000_0000,
            e > 0 ==> pow2((e - 1) as nat) < n,
        decreases 0x2_0000_0000 - fit,
    {
        proof {
            lemma_pow2_unfold(e + 1);
            e = e + 1;
        }
        fit = fit * 2;
    }
    proof {
        if n > 1 {
            if e == 0 {
                lemma_pow2_values();
            }
            lemma_pow2_unfold(e);
            lemma_ilog2_unique((n - 1) as nat, (e - 1) as nat);
        } else if e > 0 {
            vstd::arithmetic::power2::lemma_pow2_pos((e - 1) as nat);
        }
        assert(fit == next_power_of_two(n as nat));
    }
    let size: u64 = if fit < dict_size as u64 {
        fit
    } else {
        dict_size as u64
    };
    let capped: u64 = if size > 0x8000_0000 {
        0x8000_0000
    } else {
        size
    };
    if capped < 4096 {
        4096
    } else {
        capped as u32
    }
}

/// The search that the settings ask for.
pub open spec fn search_of(input: Seq<u8>, opts: Options) -> Search {
    Search {
        data: input,
        window: dict_size_for(opts.dict_size, input.len()),
        depth: opts.depth as nat,
        nice_len: nice_len_of(opts),
    }
}

/// The length that is accepted without looking further.
pub open spec fn nice_len_of(opts: Options) -> nat {
    if opts.nice_len < 273 {
        opts.nice_len as nat
    } else {
        273
    }
}

/// The tokens are those that the settings' parser chooses for `input`.
pub open spec fn is_parse(input: Seq<u8>, opts: Options, ops: Seq<Op>) -> bool {
    let props = default_props();
    let search = search_of(input, opts);
    &&& ops_ok(props, input, ops)
    &&& after_ops(props, input, ops).pos == input.len()
    &&& takes_long(props, search, nice_len_of(opts), ops)
    &&& match opts.parse {
        Parse::Fast => fast_parsed(
            props,
            input,
            |pos: nat| search.finds(pos),
            nice_len_of(opts),
            ops,
        ),
        Parse::Optimal => ops == optimal_ops(
            props,
            search,
            nice_len_of(opts),
            Seq::empty(),
            fresh(props),
            0,
        ),
    }
}

/// The header: properties, dictionary size, uncompressed size.
pub open spec fn header_of(input: Seq<u8>, opts: Options) -> Seq<u8> {
    seq![0x5Du8] + le_bytes(dict_size_for(opts.dict_size, input.len()), 4) + le_bytes(
        input.len(),
        8,
    )
}

/// The stream is the header and the digits that coding `ops` leads to.
pub open spec fn is_stream_of(
    input: Seq<u8>,
    opts: Options,
    ops: Seq<Op>,
    stream: Seq<u8>,
) -> bool {
    let end = after_ops(default_props(), input, ops).c.iv;
    &&& stream.len() == 13 + end.digits + 4
    &&& stream.take(13) == header_of(input, opts)
    &&& number(stream.skip(13)) == end.low
}

/// The compressed form of `input`: the stream of the tokens that the
/// settings' parser chooses.
pub open spec fn is_compressed(input: Seq<u8>, opts: Options, stream: Seq<u8>) -> bool {
    exists|ops: Seq<Op>| #[trigger]
        is_parse(input, opts, ops) && is_stream_of(input, opts, ops, stream)
}

/// Whatever the settings, the compressed form decodes to `input`.
pub proof fn compressed_is_lossless(input: Seq<u8>, opts: Options, stream: Seq<u8>, limit: nat)
    requires
        input.len() < u32::MAX,
        is_compressed(input, opts, stream),
        stream.len() <= usize::MAX,
        input.len() <= limit,
    ensures
        decoded(stream, limit) == Ok::<Seq<u8>, Error>(input),
{
    let props = default_props();
    let ops = choose|ops: Seq<Op>| #[trigger]
        is_parse(input, opts, ops) && is_stream_of(input, opts, ops, stream);
    let digits = stream.skip(13);
    lemma_after_ops(props, input, ops);
    lemma_pow2_values();
    vstd::arithmetic::power2::lemma2_to64_rest();
    lemma_le_len(dict_size_for(opts.dict_size, input.len()), 4);
    lemma_le_bytes(input.len(), 8);
    let header = header_of(input, opts);
    assert(stream.take(13)[0] == header[0]);
    assert(stream.subrange(5, 13) =~= le_bytes(input.len(), 8)) by {
        assert(stream.subrange(5, 13) =~= stream.take(13).subrange(5, 13));
        assert(header.subrange(5, 13) =~= le_bytes(input.len(), 8));
    }
    assert(digits.take(digits.len() as int) =~= digits);
    stream_is_lossless(props, input, ops, stream, limit);
}

/// Compress `input` to a `.lzma` stream with its size in the header and no
/// end marker.
pub fn compress(input: &[u8], opts: Options) -> (r: Vec<u8>)
    requires
        input@.len() < u32::MAX,
        opts.nice_len >= 2,
    ensures
        is_compressed(input@, opts, r@),
        forall|limit: nat|
            limit >= input@.len() ==> #[trigger] decoded(r@, limit) == Ok::<Seq<u8>, Error>(input@),
{
    let props = Props::default();
    let dict_size: u32 = pick_dict_size(opts.dict_size, input.len());
    let mut out: Vec<u8> = Vec::with_capacity(HEADER_LEN + input.len() / 3);
    out.push(props.to_byte());
    push_le(&mut out, dict_size as u64, 4);
    push_le(&mut out, input.len() as u64, 8);
    let ghost header = out@;
    proof {
        lemma_pow2_values();
        vstd::arithmetic::power2::lemma2_to64_rest();
        lemma_le_bytes(dict_size as nat, 4);
        lemma_le_bytes(input@.len(), 8);
        assert(header =~= header_of(input@, opts));
    }
    let mut enc = Encoder::new(input, props);
    let mut finder = MatchFinder::new(input, dict_size as usize, opts.depth, opts.nice_len);
    let nice_len: usize = if opts.nice_len < MATCH_MAX_LEN {
        opts.nice_len
    } else {
        MATCH_MAX_LEN
    };
    let ghost search = finder.search();
    assert(search == search_of(input@, opts));
    match opts.parse {
        Parse::Fast => {
            parse_fast(&mut enc, &mut finder, nice_len);
        },
        Parse::Optimal => {
            optimal::parse(&mut enc, &mut finder, nice_len);
        },
    }
    let ghost ops = enc.ops@;
    let ghost end = after_ops(props, input@, ops);
    assert(is_parse(input@, opts, ops));
    let mut body: Vec<u8> = enc.rc.finish();
    let ghost digits = body@;
    out.append(&mut body);
    proof {
        assert(out@ =~= header + digits);
        assert(out@.take(13) =~= header);
        assert(out@.skip(13) =~= digits);
        assert(is_stream_of(input@, opts, ops, out@));
        assert(out@.len() == out.len());
        assert forall|limit: nat| limit >= input@.len() implies #[trigger] decoded(out@, limit)
            == Ok::<Seq<u8>, Error>(input@) by {
            compressed_is_lossless(input@, opts, out@, limit);
        }
    }
    out
}

} // verus!
