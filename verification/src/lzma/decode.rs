//! LZMA decoder.
use crate::error::same_bytes;
use crate::error::Error;
use crate::lz77::copy_match;
use crate::lzma::footer_bits_of;
use crate::lzma::format::at_start;
use crate::lzma::format::byte_against;
use crate::lzma::format::byte_before;
use crate::lzma::format::copy_step;
use crate::lzma::format::decoded;
use crate::lzma::format::finished;
use crate::lzma::format::get_dist;
use crate::lzma::format::get_len;
use crate::lzma::format::get_literal;
use crate::lzma::format::get_matched;
use crate::lzma::format::history_ok;
use crate::lzma::format::known_size;
use crate::lzma::format::lemma_step_grows;
use crate::lzma::format::run;
use crate::lzma::format::step;
use crate::lzma::format::to_front;
use crate::lzma::format::Progress;
use crate::lzma::lemma_slot_base;
use crate::lzma::literal_at;
use crate::lzma::slot_base;
use crate::lzma::Model;
use crate::lzma::Props;
use crate::lzma::State;
use crate::lzma::ALIGN_BITS;
use crate::lzma::DIST_ALIGN;
use crate::lzma::DIST_SLOT;
use crate::lzma::DIST_SPECIAL;
use crate::lzma::END_MARKER_DIST;
use crate::lzma::END_POS_MODEL_INDEX;
use crate::lzma::HEADER_LEN;
use crate::lzma::IS_MATCH;
use crate::lzma::IS_REP;
use crate::lzma::IS_REP0_LONG;
use crate::lzma::IS_REP_G0;
use crate::lzma::IS_REP_G1;
use crate::lzma::IS_REP_G2;
use crate::lzma::LEN;
use crate::lzma::LEN_HIGH;
use crate::lzma::LEN_LOW;
use crate::lzma::LEN_MID;
use crate::lzma::MATCH_MIN_LEN;
use crate::lzma::REP_LEN;
use crate::nums::lemma_pow2_le;
use crate::nums::lemma_pow2_values;
use crate::nums::read_le;
use crate::nums::two_to;
use crate::range::bit_at;
use crate::range::probs_ok;
use crate::range::Decoder;
use crate::range::Decoding;
use crate::range::Prob;
use vstd::arithmetic::power2::lemma_pow2_unfold;
use vstd::arithmetic::power2::pow2;
use vstd::prelude::*;
use vstd::slice::slice_subrange;

verus! {

/// A decoder and the probabilities it uses.
pub open spec fn decoding(rc: Decoder, probs: Seq<u16>) -> Decoding {
    Decoding { win: rc@, probs }
}

/// A literal right after a match, coded against `match_byte`, the byte the
/// match would have continued with. While the bits agree, each bit gets
/// models that also depend on the match byte's bit; after the first
/// difference it continues as a plain literal.
fn decode_matched(rc: &mut Decoder, probs: &mut [Prob], base: usize, match_byte: u8) -> (r: u8)
    requires
        old(rc).wf(),
        probs_ok(old(probs)@),
        base + 768 <= old(probs)@.len(),
    ensures
        final(rc).wf(),
        probs_ok(final(probs)@),
        final(probs)@.len() == old(probs)@.len(),
        (r as nat, decoding(*final(rc), final(probs)@)) == get_literal(
            decoding(*old(rc), old(probs)@),
            base as int,
            Some(match_byte),
        ),
{
    let ghost target = get_matched(
        decoding(*rc, probs@),
        base as int,
        8,
        1,
        match_byte as nat,
        true,
    );
    let mut symbol: usize = 1;
    let mut same: bool = true;
    let mut left: u32 = 8;
    proof {
        lemma_pow2_values();
        assert(probs@.len() == probs.len());
    }
    while left > 0
        invariant
            left <= 8,
            rc.wf(),
            probs_ok(probs@),
            base + 768 <= probs@.len() <= usize::MAX,
            probs@.len() == old(probs)@.len(),
            pow2((8 - left) as nat) <= symbol < pow2((9 - left) as nat),
            get_matched(
                decoding(*rc, probs@),
                base as int,
                left as nat,
                symbol as nat,
                match_byte as nat,
                same,
            ) == target,
        decreases left,
    {
        proof {
            lemma_pow2_values();
            lemma_pow2_le((9 - left) as nat, 8);
            lemma_pow2_unfold((9 - left) as nat);
            lemma_pow2_unfold((10 - left) as nat);
        }
        left = left - 1;
        let match_bit: bool = bit_at(match_byte as u32, left);
        let at: usize = if same {
            if match_bit {
                base + 512 + symbol
            } else {
                base + 256 + symbol
            }
        } else {
            base + symbol
        };
        let bit: bool = rc.decode_at(probs, at);
        symbol = 2 * symbol + if bit {
            1
        } else {
            0
        };
        same = same && match_bit == bit;
    }
    proof {
        lemma_pow2_values();
    }
    (symbol - 256) as u8
}

/// Decode a length, as `len - 2`, with the model at `base`.
fn decode_len(rc: &mut Decoder, probs: &mut [Prob], base: usize, pos_state: usize) -> (r: u32)
    requires
        old(rc).wf(),
        probs_ok(old(probs)@),
        base + 514 <= old(probs)@.len(),
        pos_state < 16,
    ensures
        final(rc).wf(),
        probs_ok(final(probs)@),
        final(probs)@.len() == old(probs)@.len(),
        r < 272,
        (r as nat, decoding(*final(rc), final(probs)@)) == get_len(
            decoding(*old(rc), old(probs)@),
            base as int,
            pos_state as nat,
        ),
{
    proof {
        lemma_pow2_values();
        assert(probs@.len() == probs.len());
    }
    if !rc.decode_at(probs, base) {
        rc.decode_tree_at(probs, base + LEN_LOW + 8 * pos_state, 3)
    } else if !rc.decode_at(probs, base + 1) {
        8 + rc.decode_tree_at(probs, base + LEN_MID + 8 * pos_state, 3)
    } else {
        16 + rc.decode_tree_at(probs, base + LEN_HIGH, 8)
    }
}

/// Decode a 0-based distance for a match of `len - 2`.
fn decode_dist(rc: &mut Decoder, probs: &mut [Prob], len: u32) -> (r: u32)
    requires
        old(rc).wf(),
        probs_ok(old(probs)@),
        old(probs)@.len() >= 1847,
    ensures
        final(rc).wf(),
        probs_ok(final(probs)@),
        final(probs)@.len() == old(probs)@.len(),
        (r as nat, decoding(*final(rc), final(probs)@)) == get_dist(
            decoding(*old(rc), old(probs)@),
            len as nat,
        ),
{
    proof {
        lemma_pow2_values();
    }
    let slot: u32 = rc.decode_tree_at(probs, DIST_SLOT + 64 * Model::len_state(len), 6);
    if slot < 4 {
        return slot;
    }
    proof {
        lemma_slot_base(slot as nat);
        lemma_pow2_le(footer_bits_of(slot as nat), 30);
        vstd::arithmetic::power2::lemma2_to64();
    }
    let footer_bits: u32 = slot / 2 - 1;
    let two: u64 = two_to(footer_bits);
    assert((2 + slot % 2) * two <= 3 * 0x4000_0000) by (nonlinear_arith)
        requires
            slot % 2 <= 1,
            two <= 0x4000_0000,
    ;
    let base: u32 = ((2 + slot % 2) as u64 * two) as u32;
    assert(base == slot_base(slot as nat));
    if slot < END_POS_MODEL_INDEX {
        base + rc.decode_reverse_tree_at(
            probs,
            DIST_SPECIAL + (base - slot) as usize,
            footer_bits,
        )
    } else {
        let high: u32 = rc.decode_direct(footer_bits - ALIGN_BITS);
        proof {
            vstd::arithmetic::power2::lemma_pow2_adds(4, (footer_bits - 4) as nat);
        }
        base + high * 16 + rc.decode_reverse_tree_at(probs, DIST_ALIGN, ALIGN_BITS)
    }
}

/// A decoder at work.
struct Reader<'a> {
    rc: Decoder<'a>,
    m: Model,
    out: Vec<u8>,
    state: State,
    reps: [u32; 4],
}

impl Reader<'_> {
    spec fn progress(&self) -> Progress {
        Progress {
            dec: decoding(self.rc, self.m.probs@),
            out: self.out@,
            state: self.state,
            reps: self.reps@,
        }
    }

    spec fn wf(&self) -> bool {
        &&& self.rc.wf()
        &&& self.m.wf()
        &&& history_ok(self.state, self.reps@, self.out@.len())
    }

    /// Decode a literal.
    fn literal(&mut self) -> (r: u8)
        requires
            old(self).wf(),
        ensures
            final(self).rc.wf(),
            final(self).m.wf(),
            final(self).m.props == old(self).m.props,
            final(self).out == old(self).out,
            final(self).state == old(self).state,
            final(self).reps == old(self).reps,
            (r as nat, final(self).progress().dec) == get_literal(
                old(self).progress().dec,
                literal_at(
                    old(self).m.props,
                    old(self).out@.len(),
                    byte_before(old(self).out@, old(self).out@.len() as int),
                ),
                byte_against(
                    old(self).out@,
                    old(self).out@.len() as int,
                    old(self).state,
                    old(self).reps@,
                ),
            ),
    {
        let pos: usize = self.out.len();
        let prev: u8 = if pos == 0 {
            0
        } else {
            self.out[pos - 1]
        };
        let base: usize = self.m.literal_base(pos, prev);
        proof {
            lemma_pow2_values();
        }
        if self.state.is_literal() {
            self.rc.decode_tree_at(&mut self.m.probs, base, 8) as u8
        } else {
            let match_byte: u8 = self.out[pos - self.reps[0] as usize - 1];
            decode_matched(&mut self.rc, &mut self.m.probs, base, match_byte)
        }
    }

    /// Append `len + 2` bytes from the last distance.
    fn copy(&mut self, len: u32, limit: usize) -> (r: Result<bool, Error>)
        requires
            old(self).rc.wf(),
            old(self).m.wf(),
            old(self).state.ok(),
            len < 272,
            old(self).out@.len() <= limit,
        ensures
            final(self).m.props == old(self).m.props,
            match copy_step(
                old(self).progress().dec,
                old(self).out@,
                old(self).state,
                old(self).reps@,
                len as nat,
                limit as nat,
            ) {
                Err(e) => r == Err::<bool, Error>(e),
                Ok(q) => {
                    &&& r == Ok::<bool, Error>(q.1)
                    &&& final(self).progress() == q.0
                    &&& q.1 || final(self).wf()
                },
            },
    {
        let pos: usize = self.out.len();
        let n: usize = len as usize + MATCH_MIN_LEN;
        if self.reps[0] as usize >= pos {
            return Err(Error::Corrupt("LZMA match distance before start of data"));
        }
        if n > limit - pos {
            return Err(Error::Corrupt("LZMA output larger than allowed"));
        }
        let dist: usize = self.reps[0] as usize + 1;
        copy_match(&mut self.out, dist, n);
        Ok(false)
    }

    /// Decode one token. The result says whether it was the end marker.
    fn token(&mut self, limit: usize) -> (r: Result<bool, Error>)
        requires
            old(self).wf(),
            old(self).out@.len() <= limit,
        ensures
            final(self).m.props == old(self).m.props,
            match step(old(self).progress(), old(self).m.props, limit as nat) {
                Err(e) => r == Err::<bool, Error>(e),
                Ok(q) => {
                    &&& r == Ok::<bool, Error>(q.1)
                    &&& final(self).progress() == q.0
                    &&& q.1 || final(self).wf()
                },
            },
    {
        let pos: usize = self.out.len();
        let pos_state: usize = self.m.pos_state(pos);
        let s: usize = self.state.index();
        if !self.rc.decode_at(&mut self.m.probs, IS_MATCH + 16 * s + pos_state) {
            if pos >= limit {
                return Err(Error::Corrupt("LZMA output larger than allowed"));
            }
            let byte: u8 = self.literal();
            self.out.push(byte);
            self.state.after_literal();
            return Ok(false);
        }
        if !self.rc.decode_at(&mut self.m.probs, IS_REP + s) {
            // New distance.
            let len: u32 = decode_len(&mut self.rc, &mut self.m.probs, LEN, pos_state);
            let dist: u32 = decode_dist(&mut self.rc, &mut self.m.probs, len);
            self.state.after_match();
            if dist == END_MARKER_DIST {
                return Ok(true);
            }
            self.reps = [dist, self.reps[0], self.reps[1], self.reps[2]];
            proof {
                assert(self.reps@ =~= seq![
                    dist,
                    old(self).reps@[0],
                    old(self).reps@[1],
                    old(self).reps@[2],
                ]);
            }
            return self.copy(len, limit);
        }
        // One of the last four distances.
        if self.rc.decode_at(&mut self.m.probs, IS_REP_G0 + s) {
            let r = self.reps;
            if !self.rc.decode_at(&mut self.m.probs, IS_REP_G1 + s) {
                self.reps = [r[1], r[0], r[2], r[3]];
                assert(self.reps@ =~= to_front(r@, 1));
            } else if !self.rc.decode_at(&mut self.m.probs, IS_REP_G2 + s) {
                self.reps = [r[2], r[0], r[1], r[3]];
                assert(self.reps@ =~= to_front(r@, 2));
            } else {
                self.reps = [r[3], r[0], r[1], r[2]];
                assert(self.reps@ =~= to_front(r@, 3));
            }
        } else if !self.rc.decode_at(&mut self.m.probs, IS_REP0_LONG + 16 * s + pos_state) {
            // "Short rep": one byte from distance rep0.
            if self.reps[0] as usize >= pos || pos >= limit {
                return Err(Error::Corrupt("bad LZMA short rep"));
            }
            self.state.after_short_rep();
            let byte: u8 = self.out[pos - self.reps[0] as usize - 1];
            self.out.push(byte);
            return Ok(false);
        }
        let len: u32 = decode_len(&mut self.rc, &mut self.m.probs, REP_LEN, pos_state);
        self.state.after_rep();
        self.copy(len, limit)
    }
}

/// Decode a `.lzma` stream (header included).
///
/// Fails if the output would exceed `limit` bytes, so a small malicious
/// stream can't expand into gigabytes.
pub fn decompress(input: &[u8], limit: usize) -> (r: Result<Vec<u8>, Error>)
    ensures
        same_bytes(r, decoded(input@, limit as nat)),
        r matches Ok(out) ==> out@.len() <= limit,
{
    if input.len() < HEADER_LEN {
        return Err(Error::UnexpectedEof);
    }
    let props = match Props::from_byte(input[0]) {
        Err(e) => {
            return Err(e);
        },
        Ok(p) => p,
    };
    // Bytes 1 to 4 are the dictionary size: how far back matches may reach.
    // We keep the whole output in memory, so it only matters as a check
    // done by the distance test.
    let size: u64 = read_le(input, 5, 8);
    let known: bool = size != u64::MAX;
    let ghost known_spec = known_size(input@);
    if known && size > limit as u64 {
        return Err(Error::Corrupt("LZMA output larger than allowed"));
    }
    let end: usize = if known {
        size as usize
    } else {
        limit
    };
    let body = slice_subrange(input, HEADER_LEN, input.len());
    assert(body@ =~= input@.skip(13));
    let rc = match Decoder::new(body) {
        Err(e) => {
            return Err(e);
        },
        Ok(rc) => rc,
    };
    // Don't trust the header for a big allocation up front.
    let out: Vec<u8> = Vec::with_capacity(
        if end / 4 < input.len() {
            end
        } else {
            input.len()
        },
    );
    let mut reader = Reader { rc, m: Model::new(props), out, state: State(0), reps: [0, 0, 0, 0] };
    let ghost target = run(reader.progress(), props, known_spec, end as nat);
    proof {
        assert(reader.out@ =~= Seq::<u8>::empty());
        assert(reader.reps@ =~= seq![0u32, 0u32, 0u32, 0u32]);
        assert(reader.progress() == at_start(reader.progress().dec));
    }
    loop
        invariant_except_break
            run(reader.progress(), props, known_spec, end as nat) == target,
            reader.wf(),
        invariant
            reader.out@.len() <= end <= limit,
            reader.m.props == props,
            known == (known_spec is Some),
            known ==> known_spec->0 == size,
            input@.len() >= 13,
            decoded(input@, limit as nat) == match target {
                Err(e) => Err::<Seq<u8>, Error>(e),
                Ok(q) => finished(q, known_spec),
            },
        ensures
            target == Ok::<Progress, Error>(reader.progress()),
        decreases end - reader.out@.len(),
    {
        proof {
            lemma_step_grows(reader.progress(), props, end as nat);
        }
        if known && reader.out.len() as u64 == size {
            // An end marker may still follow a stream of known size.
            if reader.rc.exhausted() {
                break ;
            }
        }
        if reader.rc.overrun() {
            return Err(Error::UnexpectedEof);
        }
        match reader.token(end) {
            Err(e) => {
                return Err(e);
            },
            Ok(ended) => {
                if ended {
                    break ;
                }
            },
        }
    }
    if known && reader.out.len() as u64 != size {
        return Err(Error::Corrupt("LZMA end marker before the stated size"));
    }
    match reader.rc.finish() {
        Err(e) => Err(e),
        Ok(_) => Ok(reader.out),
    }
}

} // verus!
