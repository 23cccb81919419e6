//! LZ77: replace repeated strings with "go back `dist` bytes, copy `len`".
//!
//! Huffman only exploits *which bytes* are common. LZ77 exploits *repeated
//! strings*: in `"the cat and the hat"`, the second `"the "` becomes
//! `Match { len: 4, dist: 12 }`. This is where most compression of real
//! files comes from.
//!
//! [`parse`] turns input into [`Token`]s. It uses Deflate's limits (32 KB
//! window, matches of 3 to 258 bytes) so Deflate can use its output
//! directly.
//!
//! ## Finding matches quickly: hash chains
//!
//! Checking every earlier position would be far too slow. Instead we hash
//! the next 3 bytes at every position. `head[h]` holds the most recent
//! position with hash `h`, and `prev[pos]` links each position to the
//! previous one with the same hash. Walking that chain visits only
//! positions that probably start with the same 3 bytes. `max_chain` caps
//! how many we try; that is the main speed/ratio dial (the "level").
//!
//! ## Lazy matching
//!
//! Taking the first match found (greedy) is not always best. In
//! `"abcd...bcdefgh"` a short match at `a` can hide a longer one starting at
//! `b`. With lazy matching we also look one byte ahead, and if the next
//! position has a longer match we emit a literal and take that one instead.
//! zlib does the same.
use vstd::prelude::*;

pub mod found;

verus! {

/// Shortest match worth encoding.
pub const MIN_MATCH: usize = 3;

/// Longest match Deflate can encode.
pub const MAX_MATCH: usize = 258;

/// How far back matches may reach.
pub const WINDOW: usize = 32768;

const NONE: u32 = 0;

/// One step of the parse.
#[derive(Debug, Clone, Copy, PartialEq, Eq)]
pub enum Token {
    Literal(u8),
    /// Copy `len` bytes starting `dist` bytes back. `len` may exceed
    /// `dist`: the copy then overlaps itself, which is how a run like
    /// `"aaaaaaa"` becomes one literal plus `Match { len: 6, dist: 1 }`.
    Match { len: u16, dist: u16 },
}

impl Token {
    /// Number of input bytes a token stands for.
    pub open spec fn span(self) -> nat {
        match self {
            Token::Literal(_) => 1,
            Token::Match { len, .. } => len as nat,
        }
    }

    /// Number of input bytes this token stands for.
    pub fn byte_len(self) -> (r: usize)
        ensures
            r == self.span(),
    {
        match self {
            Token::Literal(_) => 1,
            Token::Match { len, .. } => len as usize,
        }
    }
}

/// Search effort. Higher levels try more candidates and compress better.
#[derive(Debug, Clone, Copy, PartialEq, Eq)]
pub struct Params {
    /// Most candidates examined per search.
    pub max_chain: usize,
    /// Stop searching once a match this long is found.
    pub nice_len: usize,
    /// Only look for a better match one byte ahead if the current match is
    /// shorter than this (0 = greedy, never look ahead).
    pub lazy_len: usize,
    /// If the current match is already this long, look ahead with a quarter
    /// of the effort.
    pub good_len: usize,
}

/// The preset of each level: good, lazy and nice length, chain limit.
pub open spec fn level_params(level: u8) -> Params {
    let (good_len, lazy_len, nice_len, max_chain): (usize, usize, usize, usize) = if level <= 1 {
        (4, 0, 8, 4)
    } else if level == 2 {
        (4, 0, 16, 8)
    } else if level == 3 {
        (4, 0, 32, 32)
    } else if level == 4 {
        (4, 4, 16, 16)
    } else if level == 5 {
        (8, 16, 32, 32)
    } else if level == 6 {
        (8, 16, 128, 128)
    } else if level == 7 {
        (8, 32, 128, 256)
    } else if level == 8 {
        (32, 128, 258, 1024)
    } else {
        (32, 258, 258, 4096)
    };
    Params { max_chain, nice_len, lazy_len, good_len }
}

impl Params {
    /// Presets for levels 1 (fastest) to 9 (smallest), modelled on zlib's.
    pub fn level(level: u8) -> (r: Self)
        ensures
            r == level_params(level),
    {
        let (good_len, lazy_len, nice_len, max_chain): (usize, usize, usize, usize) = match level {
            0 | 1 => (4, 0, 8, 4),
            2 => (4, 0, 16, 8),
            3 => (4, 0, 32, 32),
            4 => (4, 4, 16, 16),
            5 => (8, 16, 32, 32),
            6 => (8, 16, 128, 128),
            7 => (8, 32, 128, 256),
            8 => (32, 128, 258, 1024),
            _ => (32, 258, 258, 4096),
        };
        Self { max_chain, nice_len, lazy_len, good_len }
    }
}

impl Default for Params {
    fn default() -> (r: Self)
        ensures
            r == level_params(6),
    {
        Self::level(6)
    }
}

/// `out` after copying `len` bytes from `dist` back, one by one.
pub open spec fn copied(out: Seq<u8>, dist: nat, len: nat) -> Seq<u8>
    decreases len,
{
    if len == 0 {
        out
    } else {
        copied(out.push(out[out.len() - dist]), dist, (len - 1) as nat)
    }
}

/// `out` after one token.
pub open spec fn applied(out: Seq<u8>, t: Token) -> Seq<u8> {
    match t {
        Token::Literal(b) => out.push(b),
        Token::Match { len, dist } => copied(out, dist as nat, len as nat),
    }
}

/// `out` after all of `tokens`.
pub open spec fn expanded(out: Seq<u8>, tokens: Seq<Token>) -> Seq<u8>
    decreases tokens.len(),
{
    if tokens.len() == 0 {
        out
    } else {
        expanded(applied(out, tokens[0]), tokens.skip(1))
    }
}

/// A copy of `len` bytes from `dist` back stays inside `n` bytes.
pub open spec fn copy_fits(n: nat, dist: nat, len: nat) -> bool {
    dist <= n && (len > 0 ==> dist > 0)
}

/// No token reaches before the start, given `n` bytes before the first.
pub open spec fn tokens_fit(n: nat, tokens: Seq<Token>) -> bool
    decreases tokens.len(),
{
    tokens.len() > 0 ==> {
        &&& match tokens[0] {
            Token::Literal(_) => true,
            Token::Match { len, dist } => copy_fits(n, dist as nat, len as nat),
        }
        &&& tokens_fit(n + tokens[0].span(), tokens.skip(1))
    }
}

/// `len` bytes at `pos` repeat those `dist` back.
pub open spec fn repeats(data: Seq<u8>, pos: int, dist: int, len: int) -> bool {
    &&& 1 <= dist <= pos
    &&& pos + len <= data.len()
    &&& forall|j: int| 0 <= j < len ==> data[pos + j] == #[trigger] data[pos + j - dist]
}

/// `t` describes the bytes of `data` at `pos`, within Deflate's limits.
pub open spec fn token_ok(data: Seq<u8>, pos: int, t: Token) -> bool {
    match t {
        Token::Literal(b) => pos < data.len() && data[pos] == b,
        Token::Match { len, dist } => {
            &&& 3 <= len <= 258
            &&& 1 <= dist <= 32768
            &&& repeats(data, pos, dist as int, len as int)
        },
    }
}

/// `tokens` describe the rest of `data` from `pos` on.
pub open spec fn tokens_ok(data: Seq<u8>, pos: int, tokens: Seq<Token>) -> bool
    decreases tokens.len(),
{
    if tokens.len() == 0 {
        pos == data.len()
    } else {
        token_ok(data, pos, tokens[0]) && tokens_ok(
            data,
            pos + tokens[0].span(),
            tokens.skip(1),
        )
    }
}

/// Copying a repeat of known data gives the data that follows.
pub proof fn lemma_copied(data: Seq<u8>, pos: int, dist: int, len: nat)
    requires
        0 <= pos,
        repeats(data, pos, dist, len as int),
    ensures
        copied(data.take(pos), dist as nat, len) == data.take(pos + len),
    decreases len,
{
    if len > 0 {
        let out = data.take(pos);
        assert(data[pos + 0] == data[pos + 0 - dist]);
        assert(out.push(out[out.len() - dist]) =~= data.take(pos + 1));
        assert forall|j: int| 0 <= j < len - 1 implies data[pos + 1 + j] == #[trigger] data[pos + 1
            + j - dist] by {
            assert(data[pos + (j + 1)] == data[pos + (j + 1) - dist]);
        }
        lemma_copied(data, pos + 1, dist, (len - 1) as nat);
    }
}

pub proof fn lemma_copied_len(out: Seq<u8>, dist: nat, len: nat)
    ensures
        copied(out, dist, len).len() == out.len() + len,
    decreases len,
{
    if len > 0 {
        lemma_copied_len(out.push(out[out.len() - dist]), dist, (len - 1) as nat);
    }
}

/// One token of a correct parse adds the bytes it stands for.
pub proof fn lemma_applied(data: Seq<u8>, pos: int, t: Token)
    requires
        0 <= pos,
        token_ok(data, pos, t),
    ensures
        applied(data.take(pos), t) == data.take(pos + t.span()),
        pos + t.span() <= data.len(),
{
    match t {
        Token::Literal(b) => {
            assert(data.take(pos).push(b) =~= data.take(pos + 1));
        },
        Token::Match { len, dist } => {
            lemma_copied(data, pos, dist as int, len as nat);
        },
    }
}

/// Expanding a correct parse gives the data back.
pub proof fn lemma_expanded(data: Seq<u8>, pos: int, tokens: Seq<Token>)
    requires
        0 <= pos <= data.len(),
        tokens_ok(data, pos, tokens),
    ensures
        expanded(data.take(pos), tokens) == data,
        tokens_fit(pos as nat, tokens),
    decreases tokens.len(),
{
    if tokens.len() == 0 {
        assert(data.take(pos) =~= data);
    } else {
        lemma_applied(data, pos, tokens[0]);
        lemma_expanded(data, pos + tokens[0].span(), tokens.skip(1));
    }
}

/// How many bytes at `a` and `b` agree, up to `limit`.
pub open spec fn common(data: Seq<u8>, a: int, b: int, limit: nat) -> nat
    decreases limit,
{
    if limit == 0 || data[a] != data[b] {
        0
    } else {
        1 + common(data, a + 1, b + 1, (limit - 1) as nat)
    }
}

pub proof fn lemma_common(data: Seq<u8>, a: int, b: int, limit: nat)
    ensures
        common(data, a, b, limit) <= limit,
        forall|j: int| #![trigger data[b + j]] 0 <= j < common(data, a, b, limit) ==> data[a + j]
            == data[b + j],
        common(data, a, b, limit) < limit ==> data[a + common(data, a, b, limit)] != data[b
            + common(data, a, b, limit)],
    decreases limit,
{
    if limit > 0 && data[a] == data[b] {
        lemma_common(data, a + 1, b + 1, (limit - 1) as nat);
        let c = common(data, a, b, limit);
        assert forall|j: int| #![trigger data[b + j]] 0 <= j < c implies data[a + j] == data[b
            + j] by {
            if j > 0 {
                assert(data[(b + 1) + (j - 1)] == data[b + j]);
            }
        }
    }
}

/// The agreement is determined by where it ends.
pub proof fn lemma_common_is(data: Seq<u8>, a: int, b: int, limit: nat, k: nat)
    requires
        k <= limit,
        forall|j: int| #![trigger data[b + j]] 0 <= j < k ==> data[a + j] == data[b + j],
        k < limit ==> data[a + k] != data[b + k],
    ensures
        common(data, a, b, limit) == k,
{
    lemma_common(data, a, b, limit);
    let c = common(data, a, b, limit);
    if c < k {
        assert(data[b + c] == data[a + c]);
    } else if k < c {
        assert(data[b + k] == data[a + k]);
    }
}

/// Hash of the 3 bytes at `pos`: the top 15 bits of a multiplicative hash,
/// which spreads nearby values apart.
#[verifier::opaque]
pub open spec fn hash3(data: Seq<u8>, pos: int) -> nat {
    (((data[pos] * 65536 + data[pos + 1] * 256 + data[pos + 2]) * 0x9E37_79B1) % 0x1_0000_0000
        / 0x2_0000) as nat
}

/// The last position before `end` with hash `h`, plus 1; 0 if there is none.
pub open spec fn latest(data: Seq<u8>, h: nat, end: nat) -> nat
    decreases end,
{
    if end == 0 {
        0
    } else if hash3(data, end - 1) == h {
        end
    } else {
        latest(data, h, (end - 1) as nat)
    }
}

pub proof fn lemma_latest(data: Seq<u8>, h: nat, end: nat)
    ensures
        latest(data, h, end) <= end,
        latest(data, h, end) > 0 ==> hash3(data, latest(data, h, end) - 1) == h,
    decreases end,
{
    if end > 0 && hash3(data, end - 1) != h {
        lemma_latest(data, h, (end - 1) as nat);
    }
}

/// Walk the chain from `candidate` (a position plus 1) back through the
/// positions with the same hash, at most `chain` of them, keeping the first
/// match longer than all before it. Stop at one of `nice_len` or `max_len`.
pub open spec fn search(
    data: Seq<u8>,
    pos: nat,
    candidate: nat,
    chain: nat,
    nice_len: nat,
    max_len: nat,
    best: (nat, nat),
) -> (nat, nat)
    decreases chain,
{
    if candidate == 0 || chain == 0 || pos + 1 > candidate + 32768 {
        best
    } else {
        let c = (candidate - 1) as nat;
        let len = common(data, c as int, pos as int, max_len);
        if len > best.0 && (len >= nice_len || len == max_len) {
            (len, (pos - c) as nat)
        } else {
            search(
                data,
                pos,
                latest(data, hash3(data, c as int), c),
                (chain - 1) as nat,
                nice_len,
                max_len,
                if len > best.0 {
                    (len, (pos - c) as nat)
                } else {
                    best
                },
            )
        }
    }
}

/// The match that the search finds at `pos`, as `(len, dist)`; `(beat, 0)`
/// if none is longer than `beat`.
pub open spec fn best_match(data: Seq<u8>, pos: nat, max_chain: nat, nice_len: nat, beat: nat) -> (
    nat,
    nat,
) {
    let max_len = if data.len() - pos < 258 {
        (data.len() - pos) as nat
    } else {
        258
    };
    if max_len < 3 || beat >= max_len {
        (beat, 0)
    } else {
        search(
            data,
            pos,
            latest(data, hash3(data, pos as int), pos),
            max_chain,
            nice_len,
            max_len,
            (beat, 0),
        )
    }
}

/// A search result is a true match, or the value to beat.
pub open spec fn match_ok(data: Seq<u8>, pos: nat, beat: nat, m: (nat, nat)) -> bool {
    ||| m == (beat, 0nat)
    ||| {
        &&& beat < m.0 <= 258
        &&& 1 <= m.1 <= 32768
        &&& repeats(data, pos as int, m.1 as int, m.0 as int)
    }
}

proof fn lemma_search(
    data: Seq<u8>,
    pos: nat,
    candidate: nat,
    chain: nat,
    nice_len: nat,
    max_len: nat,
    best: (nat, nat),
    beat: nat,
)
    requires
        candidate <= pos,
        pos + max_len <= data.len(),
        max_len <= 258,
        match_ok(data, pos, beat, best),
        best.0 >= beat,
    ensures
        match_ok(data, pos, beat, search(data, pos, candidate, chain, nice_len, max_len, best)),
    decreases chain,
{
    if candidate == 0 || chain == 0 || pos + 1 > candidate + 32768 {
    } else {
        let c = (candidate - 1) as nat;
        let len = common(data, c as int, pos as int, max_len);
        lemma_common(data, c as int, pos as int, max_len);
        let dist = (pos - c) as nat;
        assert forall|j: int| 0 <= j < len implies data[pos + j] == #[trigger] data[pos + j
            - dist] by {
            assert(data[c + j] == data[pos + j]);
        }
        let next = if len > best.0 {
            (len, dist)
        } else {
            best
        };
        assert(match_ok(data, pos, beat, next));
        lemma_latest(data, hash3(data, c as int), c);
        if !(len > best.0 && (len >= nice_len || len == max_len)) {
            lemma_search(
                data,
                pos,
                latest(data, hash3(data, c as int), c),
                (chain - 1) as nat,
                nice_len,
                max_len,
                next,
                beat,
            );
        }
    }
}

pub proof fn lemma_best_match(data: Seq<u8>, pos: nat, max_chain: nat, nice_len: nat, beat: nat)
    requires
        pos <= data.len(),
    ensures
        match_ok(data, pos, beat, best_match(data, pos, max_chain, nice_len, beat)),
{
    let max_len = if data.len() - pos < 258 {
        (data.len() - pos) as nat
    } else {
        258
    };
    lemma_latest(data, hash3(data, pos as int), pos);
    if !(max_len < 3 || beat >= max_len) {
        lemma_search(
            data,
            pos,
            latest(data, hash3(data, pos as int), pos),
            max_chain,
            nice_len,
            max_len,
            (beat, 0),
            beat,
        );
    }
}

/// Chain limit for the look-ahead behind a match of `len`.
pub open spec fn lazy_chain(params: Params, len: nat) -> nat {
    let effort = if len >= params.good_len {
        params.max_chain / 4
    } else {
        params.max_chain
    };
    if effort < 1 {
        1
    } else {
        effort as nat
    }
}

/// The tokens for `data` from `pos` on, when `pending` is a match already
/// found there by looking ahead.
pub open spec fn parse_from(
    data: Seq<u8>,
    params: Params,
    pos: nat,
    pending: Option<(nat, nat)>,
) -> Seq<Token>
    decreases
        if pos < data.len() {
            data.len() - pos
        } else {
            0
        },
{
    if pos >= data.len() {
        Seq::empty()
    } else {
        let (len, dist) = match pending {
            Some(m) => m,
            None => best_match(data, pos, params.max_chain as nat, params.nice_len as nat, 2),
        };
        let literal = seq![Token::Literal(data[pos as int])];
        if len < 3 {
            literal + parse_from(data, params, pos + 1, None)
        } else {
            let next = best_match(
                data,
                pos + 1,
                lazy_chain(params, len),
                params.nice_len as nat,
                len,
            );
            if len < params.lazy_len && pos + 1 < data.len() && next.0 > len {
                literal + parse_from(data, params, pos + 1, Some(next))
            } else {
                seq![Token::Match { len: len as u16, dist: dist as u16 }] + parse_from(
                    data,
                    params,
                    pos + len,
                    None,
                )
            }
        }
    }
}

/// What [`parse`] returns.
pub open spec fn parsed(data: Seq<u8>, params: Params) -> Seq<Token> {
    parse_from(data, params, 0, None)
}

/// A match that the parser carries forward.
pub open spec fn pending_ok(data: Seq<u8>, pos: nat, pending: Option<(nat, nat)>) -> bool {
    pending matches Some(m) ==> {
        &&& 3 <= m.0 <= 258
        &&& 1 <= m.1 <= 32768
        &&& repeats(data, pos as int, m.1 as int, m.0 as int)
    }
}

proof fn lemma_parse_from(data: Seq<u8>, params: Params, pos: nat, pending: Option<(nat, nat)>)
    requires
        pos <= data.len(),
        pending_ok(data, pos, pending),
    ensures
        tokens_ok(data, pos as int, parse_from(data, params, pos, pending)),
    decreases data.len() - pos,
{
    if pos < data.len() {
        lemma_best_match(data, pos, params.max_chain as nat, params.nice_len as nat, 2);
        let (len, dist) = match pending {
            Some(m) => m,
            None => best_match(data, pos, params.max_chain as nat, params.nice_len as nat, 2),
        };
        let all = parse_from(data, params, pos, pending);
        if len < 3 {
            lemma_parse_from(data, params, pos + 1, None);
            assert(all.skip(1) =~= parse_from(data, params, pos + 1, None));
        } else {
            let chain = lazy_chain(params, len);
            let next = best_match(data, pos + 1, chain, params.nice_len as nat, len);
            lemma_best_match(data, pos + 1, chain, params.nice_len as nat, len);
            if len < params.lazy_len && pos + 1 < data.len() && next.0 > len {
                lemma_parse_from(data, params, pos + 1, Some(next));
                assert(all.skip(1) =~= parse_from(data, params, pos + 1, Some(next)));
            } else {
                lemma_parse_from(data, params, pos + len, None);
                assert(all.skip(1) =~= parse_from(data, params, pos + len, None));
            }
        }
    }
}

/// Whatever the parameters, the parse describes the data within Deflate's
/// limits, and expanding it gives the data back.
pub proof fn parse_is_lossless(data: Seq<u8>, params: Params)
    ensures
        tokens_ok(data, 0, parsed(data, params)),
        tokens_fit(0, parsed(data, params)),
        expanded(Seq::empty(), parsed(data, params)) == data,
{
    lemma_parse_from(data, params, 0, None);
    lemma_expanded(data, 0, parsed(data, params));
    assert(data.take(0) =~= Seq::<u8>::empty());
}

/// Hash-chain index over the input.
struct MatchFinder<'a> {
    data: &'a [u8],
    /// Most recent position (+1, so 0 means none) for each hash.
    head: Vec<u32>,
    /// Previous position (+1) with the same hash, indexed by `pos % WINDOW`.
    /// Older links are overwritten, but they are out of reach by then.
    prev: Vec<u32>,
    /// Positions below this have been added to the index.
    indexed: usize,
}

impl<'a> MatchFinder<'a> {
    /// One past the last position that has 3 bytes to hash.
    spec fn hashable(&self) -> nat {
        if self.data@.len() < 2 {
            0
        } else {
            (self.data@.len() - 2) as nat
        }
    }

    /// How many positions have been hashed.
    spec fn hashed(&self) -> nat {
        if self.indexed < self.hashable() {
            self.indexed as nat
        } else {
            self.hashable()
        }
    }

    spec fn heads_ok(&self, end: nat) -> bool {
        forall|h: int| 0 <= h < 32768 ==> (#[trigger] self.head@[h]) as nat == latest(
            self.data@,
            h as nat,
            end,
        )
    }

    spec fn links_ok(&self, end: nat) -> bool {
        forall|p: int|
            0 <= p < end && end <= p + 32768 ==> (#[trigger] self.prev@[p % 32768]) as nat
                == latest(self.data@, hash3(self.data@, p), p as nat)
    }

    /// The heads and links describe the positions hashed so far.
    spec fn wf(&self) -> bool {
        &&& self.data@.len() < u32::MAX
        &&& self.head@.len() == 32768
        &&& self.prev@.len() == 32768
        &&& self.heads_ok(self.hashed())
        &&& self.links_ok(self.hashed())
    }

    fn new(data: &'a [u8]) -> (r: Self)
        requires
            data@.len() < u32::MAX,
        ensures
            r.wf(),
            r.data@ == data@,
            r.indexed == 0,
    {
        let r = Self { data, head: vec![NONE;32768], prev: vec![NONE;WINDOW], indexed: 0 };
        assert(r.hashed() == 0);
        r
    }

    fn hash(&self, pos: usize) -> (r: usize)
        requires
            pos + 3 <= self.data@.len(),
        ensures
            r == hash3(self.data@, pos as int),
            r < 32768,
    {
        reveal(hash3);
        let d = self.data;
        let v: u64 = d[pos] as u64 * 65536 + d[pos + 1] as u64 * 256 + d[pos + 2] as u64;
        ((v * 0x9E37_79B1) % 0x1_0000_0000 / 0x2_0000) as usize
    }

    /// Add every position before `end` to the index.
    fn index_until(&mut self, end: usize)
        requires
            old(self).wf(),
        ensures
            final(self).wf(),
            final(self).data@ == old(self).data@,
            final(self).indexed == if old(self).indexed < end {
                end
            } else {
                old(self).indexed
            },
    {
        let n: usize = self.data.len();
        let last: usize = if n < 2 {
            0
        } else {
            n - 2
        };
        let stop: usize = if end < last {
            end
        } else {
            last
        };
        while self.indexed < stop
            invariant
                self.wf(),
                self.data@ == old(self).data@,
                n == self.data@.len(),
                last == self.hashable(),
                stop <= last,
                stop <= end,
                stop == end || stop == last,
                self.indexed >= old(self).indexed,
                self.indexed == old(self).indexed || self.indexed <= stop,
            decreases stop - self.indexed,
        {
            let pos: usize = self.indexed;
            let h: usize = self.hash(pos);
            let ghost prev0 = self.prev@;
            let ghost head0 = self.head@;
            let link: u32 = self.head[h];
            self.prev[pos % WINDOW] = link;
            self.head[h] = pos as u32 + 1;
            self.indexed = self.indexed + 1;
            proof {
                let p1 = pos as int + 1;
                assert(self.hashed() == p1);
                assert forall|g: int| 0 <= g < 32768 implies (#[trigger] self.head@[g]) as nat
                    == latest(self.data@, g as nat, p1 as nat) by {
                    assert(head0[g] as nat == latest(self.data@, g as nat, pos as nat));
                }
                assert forall|p: int| 0 <= p < p1 && p1 <= p + 32768 implies (
                #[trigger] self.prev@[p % 32768]) as nat == latest(
                    self.data@,
                    hash3(self.data@, p),
                    p as nat,
                ) by {
                    if p < pos {
                        assert(p % 32768 != pos as int % 32768) by {
                            assert(0 < pos - p < 32768);
                        }
                        assert(prev0[p % 32768] == self.prev@[p % 32768]);
                    }
                }
            }
        }
        if self.indexed < end {
            self.indexed = end;
        }
    }

    /// Longest match for `pos` that is longer than `beat`, as `(len, dist)`.
    /// Returns `(beat, 0)` if there is none.
    fn find(&mut self, pos: usize, max_chain: usize, nice_len: usize, beat: usize) -> (r: (
        usize,
        usize,
    ))
        requires
            old(self).wf(),
            old(self).indexed <= pos,
            pos <= old(self).data@.len(),
        ensures
            final(self).wf(),
            final(self).data@ == old(self).data@,
            final(self).indexed == pos,
            (r.0 as nat, r.1 as nat) == best_match(
                old(self).data@,
                pos as nat,
                max_chain as nat,
                nice_len as nat,
                beat as nat,
            ),
    {
        self.index_until(pos);
        let data = self.data;
        let avail: usize = data.len() - pos;
        let max_len: usize = if avail < MAX_MATCH {
            avail
        } else {
            MAX_MATCH
        };
        let mut best_len: usize = beat;
        let mut best_dist: usize = 0;
        if max_len < MIN_MATCH || best_len >= max_len {
            return (best_len, best_dist);
        }
        let h: usize = self.hash(pos);
        let mut candidate: u32 = self.head[h];
        let mut chain: usize = max_chain;
        let ghost target = best_match(
            data@,
            pos as nat,
            max_chain as nat,
            nice_len as nat,
            beat as nat,
        );
        proof {
            lemma_latest(data@, h as nat, pos as nat);
        }
        while candidate != NONE && chain > 0
            invariant_except_break
                best_len < max_len,
                search(
                    data@,
                    pos as nat,
                    candidate as nat,
                    chain as nat,
                    nice_len as nat,
                    max_len as nat,
                    (best_len as nat, best_dist as nat),
                ) == target,
            invariant
                self.wf(),
                self.data@ == data@,
                data@ == old(self).data@,
                self.indexed == pos,
                self.hashed() == pos,
                candidate <= pos,
                pos + max_len <= data@.len(),
                3 <= max_len <= 258,
            ensures
                (best_len as nat, best_dist as nat) == target,
            decreases chain,
        {
            let c: usize = candidate as usize - 1;
            let dist: usize = pos - c;
            if dist > WINDOW {
                break ;
            }
            let mut len: usize = 0;
            // Cheap early reject: a longer match must agree at `best_len`.
            if data[c + best_len] == data[pos + best_len] {
                while len < max_len && data[c + len] == data[pos + len]
                    invariant
                        data@.len() == data.len(),
                        c + max_len <= data@.len(),
                        pos + max_len <= data@.len(),
                        len <= max_len,
                        forall|j: int|
                            #![trigger data@[pos + j]]
                            0 <= j < len ==> data@[c + j] == data@[pos + j],
                    decreases max_len - len,
                {
                    len = len + 1;
                }
                proof {
                    lemma_common_is(data@, c as int, pos as int, max_len as nat, len as nat);
                }
            } else {
                proof {
                    lemma_common(data@, c as int, pos as int, max_len as nat);
                    assert(data@[pos + best_len] != data@[c + best_len]);
                }
            }
            proof {
                assert(len > best_len ==> len == common(
                    data@,
                    c as int,
                    pos as int,
                    max_len as nat,
                ));
                assert(len <= best_len ==> common(data@, c as int, pos as int, max_len as nat)
                    <= best_len);
                lemma_latest(data@, hash3(data@, c as int), c as nat);
                assert(self.prev@[c as int % 32768] as nat == latest(
                    data@,
                    hash3(data@, c as int),
                    c as nat,
                ));
            }
            if len > best_len {
                best_len = len;
                best_dist = dist;
                if len >= nice_len || len == max_len {
                    break ;
                }
            }
            candidate = self.prev[c % WINDOW];
            chain = chain - 1;
        }
        (best_len, best_dist)
    }
}

/// Split `data` into literals and back-references.
pub fn parse(data: &[u8], params: Params) -> (r: Vec<Token>)
    requires
        data@.len() < u32::MAX,
    ensures
        r@ == parsed(data@, params),
        tokens_ok(data@, 0, r@),
        tokens_fit(0, r@),
        expanded(Seq::empty(), r@) == data@,
{
    let mut finder = MatchFinder::new(data);
    let mut tokens: Vec<Token> = Vec::with_capacity(data.len() / 3);
    let mut pos: usize = 0;
    // A match already found for `pos` by the previous lazy look-ahead.
    let mut pending: Option<(usize, usize)> = None;
    let ghost target = parsed(data@, params);
    proof {
        assert(tokens@ + target =~= target);
    }
    while pos < data.len()
        invariant
            finder.wf(),
            finder.data@ == data@,
            finder.indexed <= pos,
            pos <= data@.len(),
            data@.len() < u32::MAX,
            pending_ok(
                data@,
                pos as nat,
                match pending {
                    Some(m) => Some((m.0 as nat, m.1 as nat)),
                    None => None,
                },
            ),
            tokens@ + parse_from(
                data@,
                params,
                pos as nat,
                match pending {
                    Some(m) => Some((m.0 as nat, m.1 as nat)),
                    None => None,
                },
            ) == target,
        decreases data@.len() - pos,
    {
        let ghost before = tokens@;
        proof {
            lemma_best_match(
                data@,
                pos as nat,
                params.max_chain as nat,
                params.nice_len as nat,
                2,
            );
        }
        let (len, dist): (usize, usize) = match pending {
            Some(m) => m,
            None => finder.find(pos, params.max_chain, params.nice_len, MIN_MATCH - 1),
        };
        pending = None;
        if len < MIN_MATCH {
            tokens.push(Token::Literal(data[pos]));
            pos = pos + 1;
            proof {
                assert(tokens@ + parse_from(data@, params, pos as nat, None) =~= target);
            }
            continue ;
        }
        if len < params.lazy_len && pos + 1 < data.len() {
            let effort: usize = if len >= params.good_len {
                params.max_chain / 4
            } else {
                params.max_chain
            };
            let chain: usize = if effort < 1 {
                1
            } else {
                effort
            };
            proof {
                lemma_best_match(
                    data@,
                    (pos + 1) as nat,
                    chain as nat,
                    params.nice_len as nat,
                    len as nat,
                );
            }
            let next = finder.find(pos + 1, chain, params.nice_len, len);
            if next.0 > len {
                tokens.push(Token::Literal(data[pos]));
                pos = pos + 1;
                pending = Some(next);
                proof {
                    assert(tokens@ + parse_from(
                        data@,
                        params,
                        pos as nat,
                        Some((next.0 as nat, next.1 as nat)),
                    ) =~= target);
                }
                continue ;
            }
        }
        tokens.push(Token::Match { len: len as u16, dist: dist as u16 });
        pos = pos + len;
        proof {
            assert(tokens@ + parse_from(data@, params, pos as nat, None) =~= target);
        }
    }
    proof {
        parse_is_lossless(data@, params);
        assert(tokens@ =~= target);
    }
    tokens
}

/// Rebuild the original bytes from tokens (the LZ77 decoder).
///
/// A match may not reach before the start; decoders that read tokens from
/// untrusted input check that first.
pub fn reconstruct(tokens: &[Token]) -> (r: Vec<u8>)
    requires
        tokens_fit(0, tokens@),
    ensures
        r@ == expanded(Seq::empty(), tokens@),
{
    let mut out: Vec<u8> = Vec::new();
    let mut i: usize = 0;
    proof {
        assert(tokens@.skip(0) =~= tokens@);
        assert(out@ =~= Seq::<u8>::empty());
    }
    while i < tokens.len()
        invariant
            i <= tokens@.len(),
            tokens_fit(out@.len(), tokens@.skip(i as int)),
            expanded(out@, tokens@.skip(i as int)) == expanded(Seq::empty(), tokens@),
        decreases tokens@.len() - i,
    {
        proof {
            assert(tokens@.skip(i as int).skip(1) =~= tokens@.skip(i as int + 1));
            assert(tokens@.skip(i as int)[0] == tokens@[i as int]);
        }
        match tokens[i] {
            Token::Literal(b) => {
                out.push(b);
            },
            Token::Match { len, dist } => {
                proof {
                    lemma_copied_len(out@, dist as nat, len as nat);
                }
                copy_match(&mut out, dist as usize, len as usize);
            },
        }
        i = i + 1;
    }
    out
}

/// Append `len` bytes copied from `dist` bytes back. Byte by byte, because
/// source and destination may overlap (`len > dist`).
pub fn copy_match(out: &mut Vec<u8>, dist: usize, len: usize)
    requires
        copy_fits(old(out)@.len(), dist as nat, len as nat),
    ensures
        final(out)@ == copied(old(out)@, dist as nat, len as nat),
        final(out)@.len() == old(out)@.len() + len,
{
    let ghost target = copied(out@, dist as nat, len as nat);
    let mut left: usize = len;
    while left > 0
        invariant
            left <= len,
            len > 0 ==> 0 < dist <= out@.len(),
            copied(out@, dist as nat, left as nat) == target,
            out@.len() + left == old(out)@.len() + len,
        decreases left,
    {
        let b: u8 = out[out.len() - dist];
        out.push(b);
        left = left - 1;
    }
}

} // verus!
