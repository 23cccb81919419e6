//! Match finder for LZMA: hash chains over a window of up to 4 GB.
//!
//! Like [`crate::lz77`]'s finder, but tuned for LZMA:
//!
//! - Matches can be as short as 2 bytes (worth it at small distances, since
//!   LZMA codes them cheaply), so the most recent position of each 2-byte
//!   and 3-byte string is kept in its own small table.
//! - Longer matches are found by walking a chain of earlier positions
//!   whose next 4 bytes hash the same.
//! - Every improvement found along the way is reported, not just the best,
//!   so the encoder can prefer a slightly shorter match that is much closer.
use crate::bits::ilog2;
use crate::bits::lemma_ilog2;
use crate::lz77::common;
use crate::lz77::lemma_common;
use crate::lz77::lemma_common_is;
use crate::lz77::repeats;
use crate::nums::lemma_pow2_le;
use crate::nums::lemma_pow2_values;
use crate::nums::two_to;
use vstd::arithmetic::power2::pow2;
use vstd::prelude::*;

verus! {

/// Longest match LZMA can code.
pub const MAX_LEN: usize = 273;

/// No position (positions are stored +1).
const NONE: u32 = 0;

#[derive(Debug, Clone, Copy, PartialEq, Eq)]
pub struct Match {
    pub len: u32,
    /// 1-based: 1 means the previous byte.
    pub dist: u32,
}

/// The bits of the hash of 4 bytes: big enough for an input of `n` bytes,
/// no bigger, so small inputs stay cheap.
pub open spec fn hash_bits(n: nat) -> nat {
    let bits = if n == 0 {
        0
    } else {
        ilog2(n) + 1
    };
    if bits < 10 {
        10
    } else if bits > 20 {
        20
    } else {
        bits
    }
}

/// The table index of the `width` bytes at `pos`: 2 bytes as they are, 3 or
/// 4 bytes hashed.
#[verifier::opaque]
pub open spec fn key(data: Seq<u8>, width: nat, pos: int) -> nat {
    if width == 2 {
        (data[pos] + 256 * data[pos + 1]) as nat
    } else if width == 3 {
        (((data[pos] + 256 * data[pos + 1] + 65536 * data[pos + 2]) * 0x9E37_79B1) % 0x1_0000_0000
            / 65536) as nat
    } else {
        let v = data[pos] + 256 * data[pos + 1] + 65536 * data[pos + 2] + 0x100_0000 * data[pos
            + 3];
        ((v * 0x9E37_79B1) % 0x1_0000_0000) as nat / pow2((32 - hash_bits(data.len())) as nat)
    }
}

/// The last position before `end` whose `width` bytes have index `k`, plus
/// 1; 0 if there is none.
pub open spec fn latest(data: Seq<u8>, width: nat, k: nat, end: nat) -> nat
    decreases end,
{
    if end == 0 {
        0
    } else if key(data, width, end - 1) == k {
        end
    } else {
        latest(data, width, k, (end - 1) as nat)
    }
}

proof fn lemma_latest(data: Seq<u8>, width: nat, k: nat, end: nat)
    ensures
        latest(data, width, k, end) <= end,
    decreases end,
{
    if end > 0 && key(data, width, end - 1) != k {
        lemma_latest(data, width, k, (end - 1) as nat);
    }
}

/// The longest match at `pos`, if any: as far as the data or LZMA allow.
pub open spec fn longest(data: Seq<u8>, pos: nat) -> nat {
    if pos >= data.len() {
        0
    } else if data.len() - pos < 273 {
        (data.len() - pos) as nat
    } else {
        273
    }
}

/// The longest match so far; 1 if there is none.
pub open spec fn best_of(found: Seq<Match>) -> nat {
    if found.len() == 0 {
        1
    } else {
        found.last().len as nat
    }
}

/// The matches so far and the one against `candidate` (a position plus 1),
/// if it is longer.
pub open spec fn considered(
    data: Seq<u8>,
    window: nat,
    pos: nat,
    candidate: nat,
    found: Seq<Match>,
) -> Seq<Match> {
    let c = candidate - 1;
    let len = common(data, c, pos as int, longest(data, pos));
    if pos - c <= window && len > best_of(found) {
        found.push(Match { len: len as u32, dist: (pos - c) as u32 })
    } else {
        found
    }
}

/// Walk the chain from `candidate` back through the positions with the same
/// 4-byte hash, at most `depth` of them.
pub open spec fn walked(
    data: Seq<u8>,
    window: nat,
    nice_len: nat,
    pos: nat,
    candidate: nat,
    depth: nat,
    found: Seq<Match>,
) -> Seq<Match>
    decreases depth,
{
    if depth == 0 || candidate == 0 || best_of(found) >= nice_len || best_of(found) == longest(
        data,
        pos,
    ) || pos + 1 > candidate + window {
        found
    } else {
        walked(
            data,
            window,
            nice_len,
            pos,
            latest(data, 4, key(data, 4, candidate - 1), (candidate - 1) as nat),
            (depth - 1) as nat,
            considered(data, window, pos, candidate, found),
        )
    }
}

/// The matches against the last positions with the same 2 and 3 bytes.
pub open spec fn short_found(data: Seq<u8>, window: nat, pos: nat) -> Seq<Match> {
    let c2 = latest(data, 2, key(data, 2, pos as int), pos);
    let found = if c2 != 0 {
        considered(data, window, pos, c2, Seq::empty())
    } else {
        Seq::empty()
    };
    let c3 = latest(data, 3, key(data, 3, pos as int), pos);
    if longest(data, pos) >= 3 && c3 != 0 && c3 != c2 {
        considered(data, window, pos, c3, found)
    } else {
        found
    }
}

/// What [`MatchFinder::find`] finds at `pos`.
#[verifier::opaque]
pub open spec fn found_at(data: Seq<u8>, window: nat, depth: nat, nice_len: nat, pos: nat) -> Seq<
    Match,
> {
    if longest(data, pos) < 2 {
        Seq::empty()
    } else {
        let found = short_found(data, window, pos);
        if longest(data, pos) < 4 || best_of(found) >= nice_len {
            found
        } else {
            walked(
                data,
                window,
                nice_len,
                pos,
                latest(data, 4, key(data, 4, pos as int), pos),
                depth,
                found,
            )
        }
    }
}

/// A match at `pos`: as long as the bytes agree, within the window.
pub open spec fn match_ok(data: Seq<u8>, window: nat, pos: nat, m: Match) -> bool {
    &&& 2 <= m.len <= longest(data, pos)
    &&& 1 <= m.dist <= window
    &&& repeats(data, pos as int, m.dist as int, m.len as int)
    &&& m.len == common(data, pos - m.dist, pos as int, longest(data, pos))
}

/// Matches in order of increasing length.
pub open spec fn matches_ok(data: Seq<u8>, window: nat, pos: nat, found: Seq<Match>) -> bool {
    &&& forall|i: int|
        0 <= i < found.len() ==> match_ok(data, window, pos, #[trigger] found[i])
    &&& forall|i: int, j: int|
        0 <= i < j < found.len() ==> (#[trigger] found[i]).len < (#[trigger] found[j]).len
}

proof fn lemma_considered(data: Seq<u8>, window: nat, pos: nat, candidate: nat, found: Seq<Match>)
    requires
        pos <= data.len() < u32::MAX,
        1 <= candidate <= pos,
        matches_ok(data, window, pos, found),
    ensures
        matches_ok(data, window, pos, considered(data, window, pos, candidate, found)),
{
    let c = candidate - 1;
    let limit = longest(data, pos);
    let len = common(data, c, pos as int, limit);
    lemma_common(data, c, pos as int, limit);
    if pos - c <= window && len > best_of(found) {
        let dist = pos - c;
        assert forall|j: int| 0 <= j < len implies data[pos + j] == #[trigger] data[pos + j
            - dist] by {
            assert(data[c + j] == data[pos + j]);
        }
        let m = Match { len: len as u32, dist: dist as u32 };
        assert(match_ok(data, window, pos, m));
        let all = found.push(m);
        assert forall|i: int, j: int| 0 <= i < j < all.len() implies (#[trigger] all[i]).len < (
        #[trigger] all[j]).len by {
            if j == found.len() && i < found.len() - 1 {
                assert(found[i].len < found[found.len() - 1].len);
            }
        }
    }
}

proof fn lemma_walked(
    data: Seq<u8>,
    window: nat,
    nice_len: nat,
    pos: nat,
    candidate: nat,
    depth: nat,
    found: Seq<Match>,
)
    requires
        pos <= data.len() < u32::MAX,
        candidate <= pos,
        matches_ok(data, window, pos, found),
    ensures
        matches_ok(
            data,
            window,
            pos,
            walked(data, window, nice_len, pos, candidate, depth, found),
        ),
    decreases depth,
{
    if depth == 0 || candidate == 0 || best_of(found) >= nice_len || best_of(found) == longest(
        data,
        pos,
    ) || pos + 1 > candidate + window {
    } else {
        let c = (candidate - 1) as nat;
        lemma_considered(data, window, pos, candidate, found);
        lemma_latest(data, 4, key(data, 4, c as int), c);
        lemma_walked(
            data,
            window,
            nice_len,
            pos,
            latest(data, 4, key(data, 4, c as int), c),
            (depth - 1) as nat,
            considered(data, window, pos, candidate, found),
        );
    }
}

/// What is found are true matches, each longer than the one before.
pub proof fn lemma_found_at(data: Seq<u8>, window: nat, depth: nat, nice_len: nat, pos: nat)
    requires
        pos <= data.len() < u32::MAX,
    ensures
        matches_ok(data, window, pos, found_at(data, window, depth, nice_len, pos)),
{
    reveal(found_at);
    let c2 = latest(data, 2, key(data, 2, pos as int), pos);
    let c3 = latest(data, 3, key(data, 3, pos as int), pos);
    let c4 = latest(data, 4, key(data, 4, pos as int), pos);
    lemma_latest(data, 2, key(data, 2, pos as int), pos);
    lemma_latest(data, 3, key(data, 3, pos as int), pos);
    lemma_latest(data, 4, key(data, 4, pos as int), pos);
    let none = Seq::<Match>::empty();
    if c2 != 0 {
        lemma_considered(data, window, pos, c2, none);
    }
    let f2 = if c2 != 0 {
        considered(data, window, pos, c2, none)
    } else {
        none
    };
    if c3 != 0 {
        lemma_considered(data, window, pos, c3, f2);
    }
    lemma_walked(data, window, nice_len, pos, c4, depth, short_found(data, window, pos));
}

/// What a finder searches, and how.
pub ghost struct Search {
    pub data: Seq<u8>,
    /// Largest distance allowed.
    pub window: nat,
    /// Chain links to follow.
    pub depth: nat,
    /// A match this long ends the search.
    pub nice_len: nat,
}

impl Search {
    /// What a search at `pos` finds.
    pub open spec fn finds(self, pos: nat) -> Seq<Match> {
        found_at(self.data, self.window, self.depth, self.nice_len, pos)
    }

    /// What is found are true matches, each longer than the one before.
    pub proof fn lemma_finds(self, pos: nat)
        requires
            pos <= self.data.len() < u32::MAX,
        ensures
            matches_ok(self.data, self.window, pos, self.finds(pos)),
    {
        lemma_found_at(self.data, self.window, self.depth, self.nice_len, pos);
    }
}

pub struct MatchFinder<'a> {
    data: &'a [u8],
    /// Largest distance allowed (the dictionary size).
    window: usize,
    /// Chain links to follow per search.
    depth: usize,
    /// Stop searching once a match this long is found.
    nice_len: usize,
    hash4_bits: u32,
    /// Latest position of each 2-byte string, indexed by its value.
    head2: Vec<u32>,
    /// Latest position of each hashed 3-byte string.
    head3: Vec<u32>,
    /// Latest position of each hashed 4-byte string: the chain start.
    head4: Vec<u32>,
    /// Previous position with the same 4-byte hash, at `pos % chain.len()`.
    chain: Vec<u32>,
    /// Positions below this are in the tables.
    indexed: usize,
}

/// Of the positions before `indexed`, how many have `width` bytes.
pub open spec fn keyed(n: nat, width: nat, indexed: nat) -> nat {
    if n < width {
        0
    } else if indexed < n - width + 1 {
        indexed
    } else {
        (n - width + 1) as nat
    }
}

spec fn heads_ok(data: Seq<u8>, width: nat, head: Seq<u32>, end: nat) -> bool {
    forall|k: int|
        0 <= k < head.len() ==> (#[trigger] head[k]) as nat == latest(data, width, k as nat, end)
}

spec fn links_ok(data: Seq<u8>, chain: Seq<u32>, end: nat) -> bool {
    forall|p: int|
        0 <= p < end && end <= p + chain.len() ==> (#[trigger] chain[p % (
        chain.len() as int)]) as nat == latest(data, 4, key(data, 4, p), p as nat)
}

proof fn lemma_head_update(data: Seq<u8>, width: nat, head: Seq<u32>, pos: nat)
    requires
        heads_ok(data, width, head, pos),
        pos < u32::MAX,
        key(data, width, pos as int) < head.len(),
    ensures
        heads_ok(
            data,
            width,
            head.update(key(data, width, pos as int) as int, (pos + 1) as u32),
            pos + 1,
        ),
{
}

proof fn lemma_link_update(data: Seq<u8>, chain: Seq<u32>, pos: nat, link: u32)
    requires
        links_ok(data, chain, pos),
        chain.len() > 0,
        link == latest(data, 4, key(data, 4, pos as int), pos),
    ensures
        links_ok(data, chain.update(pos as int % chain.len() as int, link), pos + 1),
{
    let n = chain.len() as int;
    let next = chain.update(pos as int % n, link);
    assert forall|p: int| 0 <= p < pos + 1 && pos + 1 <= p + n implies (#[trigger] next[p
        % n]) as nat == latest(data, 4, key(data, 4, p), p as nat) by {
        if p < pos {
            if p % n == pos as int % n {
                vstd::arithmetic::div_mod::lemma_fundamental_div_mod(p, n);
                vstd::arithmetic::div_mod::lemma_fundamental_div_mod(pos as int, n);
                let a = p / n;
                let b = pos as int / n;
                assert(pos - p == n * (b - a)) by (nonlinear_arith)
                    requires
                        pos - p == n * b - n * a,
                ;
                assert(false) by (nonlinear_arith)
                    requires
                        0 < n * (b - a) < n,
                ;
            }
            assert(chain[p % n] == next[p % n]);
        }
    }
}

impl<'a> MatchFinder<'a> {
    /// What is searched, and how.
    pub closed spec fn search(&self) -> Search {
        Search {
            data: self.data@,
            window: self.window as nat,
            depth: self.depth as nat,
            nice_len: self.nice_len as nat,
        }
    }

    /// Positions below this have been searched past.
    pub closed spec fn position(&self) -> nat {
        self.indexed as nat
    }

    /// The tables describe the positions indexed so far.
    pub closed spec fn wf(&self) -> bool {
        let n = self.data@.len();
        &&& n < u32::MAX
        &&& self.hash4_bits == hash_bits(n)
        &&& self.head2@.len() == 65536
        &&& self.head3@.len() == 65536
        &&& self.head4@.len() == pow2(hash_bits(n))
        &&& self.chain@.len() > 0
        &&& self.chain@.len() >= n || self.chain@.len() >= self.window
        &&& heads_ok(self.data@, 2, self.head2@, keyed(n, 2, self.indexed as nat))
        &&& heads_ok(self.data@, 3, self.head3@, keyed(n, 3, self.indexed as nat))
        &&& heads_ok(self.data@, 4, self.head4@, keyed(n, 4, self.indexed as nat))
        &&& links_ok(self.data@, self.chain@, keyed(n, 4, self.indexed as nat))
    }

    /// Positions fit in 32 bits.
    pub proof fn lemma_wf(&self)
        requires
            self.wf(),
        ensures
            self.search().data.len() < u32::MAX,
    {
    }

    pub fn new(data: &'a [u8], window: usize, depth: usize, nice_len: usize) -> (r: Self)
        requires
            data@.len() < u32::MAX,
        ensures
            r.wf(),
            r.search() == (Search {
                data: data@,
                window: window as nat,
                depth: depth as nat,
                nice_len: if nice_len < 273 {
                    nice_len as nat
                } else {
                    273
                },
            }),
            r.position() == 0,
    {
        let mut hash4_bits: u32 = 0;
        let mut rest: usize = data.len();
        proof {
            if data@.len() > 0 {
                lemma_ilog2(data@.len());
                lemma_pow2_values();
                if ilog2(data@.len()) >= 32 {
                    lemma_pow2_le(32, ilog2(data@.len()));
                }
            }
        }
        while rest > 0
            invariant
                data@.len() < u32::MAX,
                rest <= data@.len(),
                hash4_bits <= 32,
                rest > 0 ==> hash4_bits + ilog2(rest as nat) == ilog2(data@.len()),
                rest == 0 && data@.len() > 0 ==> hash4_bits == ilog2(data@.len()) + 1,
                rest == 0 && data@.len() == 0 ==> hash4_bits == 0,
                data@.len() > 0 ==> ilog2(data@.len()) < 32,
            decreases rest,
        {
            rest = rest / 2;
            hash4_bits = hash4_bits + 1;
        }
        let hash4_bits: u32 = if hash4_bits < 10 {
            10
        } else if hash4_bits > 20 {
            20
        } else {
            hash4_bits
        };
        let fit: usize = if window < data.len() {
            window
        } else {
            data.len()
        };
        let chain_len: usize = if fit < 1 {
            1
        } else {
            fit
        };
        proof {
            lemma_pow2_values();
            lemma_pow2_le(hash4_bits as nat, 24);
        }
        let r = Self {
            data,
            window,
            depth,
            nice_len: if nice_len < MAX_LEN {
                nice_len
            } else {
                MAX_LEN
            },
            hash4_bits,
            head2: vec![NONE;65536],
            head3: vec![NONE;65536],
            head4: vec![NONE;two_to(hash4_bits) as usize],
            chain: vec![NONE;chain_len],
            indexed: 0,
        };
        r
    }

    fn key2(&self, pos: usize) -> (r: usize)
        requires
            pos + 2 <= self.data@.len(),
        ensures
            r == key(self.data@, 2, pos as int),
            r < 65536,
    {
        reveal(key);
        self.data[pos] as usize + 256 * self.data[pos + 1] as usize
    }

    fn key3(&self, pos: usize) -> (r: usize)
        requires
            pos + 3 <= self.data@.len(),
        ensures
            r == key(self.data@, 3, pos as int),
            r < 65536,
    {
        reveal(key);
        let d = self.data;
        let v: u64 = d[pos] as u64 + 256 * d[pos + 1] as u64 + 65536 * d[pos + 2] as u64;
        (v * 0x9E37_79B1 % 0x1_0000_0000 / 65536) as usize
    }

    fn key4(&self, pos: usize) -> (r: usize)
        requires
            pos + 4 <= self.data@.len(),
            self.hash4_bits == hash_bits(self.data@.len()),
        ensures
            r == key(self.data@, 4, pos as int),
            r < pow2(hash_bits(self.data@.len())),
    {
        reveal(key);
        let d = self.data;
        let v: u64 = d[pos] as u64 + 256 * d[pos + 1] as u64 + 65536 * d[pos + 2] as u64
            + 0x100_0000 * d[pos + 3] as u64;
        let h: u64 = v * 0x9E37_79B1 % 0x1_0000_0000;
        proof {
            lemma_pow2_values();
            crate::nums::lemma_split_pow2(
                h as nat,
                (32 - self.hash4_bits) as nat,
                self.hash4_bits as nat,
            );
            lemma_pow2_le(self.hash4_bits as nat, 24);
        }
        (h / two_to(32 - self.hash4_bits)) as usize
    }

    /// Add every position before `end` to the tables.
    fn index_until(&mut self, end: usize)
        requires
            old(self).wf(),
            end <= old(self).data@.len(),
        ensures
            final(self).wf(),
            final(self).search() == old(self).search(),
            final(self).indexed == if old(self).indexed < end {
                end
            } else {
                old(self).indexed
            },
    {
        let n: usize = self.data.len();
        while self.indexed < end
            invariant
                self.wf(),
                self.search() == old(self).search(),
                n == self.data@.len(),
                end <= n,
                self.indexed >= old(self).indexed,
                self.indexed == old(self).indexed || self.indexed <= end,
            decreases end - self.indexed,
        {
            let pos: usize = self.indexed;
            let tag: u32 = pos as u32 + 1;
            if n - pos >= 4 {
                let h: usize = self.key4(pos);
                let slot: usize = pos % self.chain.len();
                let link: u32 = self.head4[h];
                proof {
                    lemma_link_update(self.data@, self.chain@, pos as nat, link);
                    lemma_head_update(self.data@, 4, self.head4@, pos as nat);
                }
                self.chain[slot] = link;
                self.head4[h] = tag;
            }
            if n - pos >= 3 {
                let h: usize = self.key3(pos);
                proof {
                    lemma_head_update(self.data@, 3, self.head3@, pos as nat);
                }
                self.head3[h] = tag;
            }
            if n - pos >= 2 {
                let h: usize = self.key2(pos);
                proof {
                    lemma_head_update(self.data@, 2, self.head2@, pos as nat);
                }
                self.head2[h] = tag;
            }
            self.indexed = self.indexed + 1;
        }
    }

    /// Add the match against `candidate` to `out` if it is longer than the
    /// last one there. False if it is out of reach.
    fn consider(&self, pos: usize, max_len: usize, candidate: u32, out: &mut Vec<Match>) -> (r:
        bool)
        requires
            self.data@.len() < u32::MAX,
            1 <= candidate <= pos <= self.data@.len(),
            max_len == longest(self.data@, pos as nat),
            max_len >= 2,
            best_of(old(out)@) <= max_len,
        ensures
            final(out)@ == considered(
                self.data@,
                self.window as nat,
                pos as nat,
                candidate as nat,
                old(out)@,
            ),
            r == (pos + 1 <= candidate + self.window),
            best_of(final(out)@) <= max_len,
    {
        let data = self.data;
        let c: usize = candidate as usize - 1;
        let dist: usize = pos - c;
        if dist > self.window {
            return false;
        }
        let best: usize = if out.len() == 0 {
            1
        } else {
            out[out.len() - 1].len as usize
        };
        proof {
            lemma_common(data@, c as int, pos as int, max_len as nat);
        }
        if best < max_len && data[c + best] == data[pos + best] {
            let len: usize = match_len(data, c, pos, max_len);
            if len > best {
                out.push(Match { len: len as u32, dist: dist as u32 });
            }
        } else if best < max_len {
            assert(data@[pos + best] != data@[c + best]);
        }
        true
    }

    /// Matches for `pos` in order of increasing length, written to `out`
    /// (cleared first). Each is the closest match found of its length.
    pub fn find(&mut self, pos: usize, out: &mut Vec<Match>)
        requires
            old(self).wf(),
            old(self).position() <= pos <= old(self).search().data.len(),
        ensures
            final(self).wf(),
            final(self).search() == old(self).search(),
            final(self).position() == pos,
            final(out)@ == old(self).search().finds(pos as nat),
            matches_ok(
                old(self).search().data,
                old(self).search().window,
                pos as nat,
                final(out)@,
            ),
    {
        out.clear();
        self.index_until(pos);
        proof {
            reveal(found_at);
            old(self).search().lemma_finds(pos as nat);
        }
        let avail: usize = self.data.len() - pos;
        let max_len: usize = if avail < MAX_LEN {
            avail
        } else {
            MAX_LEN
        };
        if max_len < 2 {
            assert(out@ =~= Seq::<Match>::empty());
            return ;
        }
        let ghost data = self.data@;
        let c2: u32 = self.head2[self.key2(pos)];
        proof {
            lemma_latest(data, 2, key(data, 2, pos as int), pos as nat);
            lemma_latest(data, 3, key(data, 3, pos as int), pos as nat);
            lemma_latest(data, 4, key(data, 4, pos as int), pos as nat);
            assert(out@ =~= Seq::<Match>::empty());
        }
        if c2 != NONE {
            self.consider(pos, max_len, c2, out);
        }
        if max_len >= 3 {
            let c3: u32 = self.head3[self.key3(pos)];
            if c3 != NONE && c3 != c2 {
                self.consider(pos, max_len, c3, out);
            }
        }
        assert(out@ == short_found(data, self.window as nat, pos as nat));
        let best: usize = if out.len() == 0 {
            1
        } else {
            out[out.len() - 1].len as usize
        };
        if max_len < 4 || best >= self.nice_len {
            return ;
        }
        let mut candidate: u32 = self.head4[self.key4(pos)];
        let mut depth: usize = self.depth;
        let ghost target = walked(
            data,
            self.window as nat,
            self.nice_len as nat,
            pos as nat,
            candidate as nat,
            depth as nat,
            out@,
        );
        assert(target == old(self).search().finds(pos as nat));
        while depth > 0 && candidate != NONE
            invariant_except_break
                walked(
                    data,
                    self.window as nat,
                    self.nice_len as nat,
                    pos as nat,
                    candidate as nat,
                    depth as nat,
                    out@,
                ) == target,
            invariant
                self.wf(),
                self.search() == old(self).search(),
                data == self.data@,
                self.indexed == pos,
                pos + 4 <= data.len(),
                candidate <= pos,
                max_len == longest(data, pos as nat),
                max_len >= 4,
                best_of(out@) <= max_len,
            ensures
                out@ == target,
            decreases depth,
        {
            let best: usize = if out.len() == 0 {
                1
            } else {
                out[out.len() - 1].len as usize
            };
            if best >= self.nice_len || best == max_len {
                break ;
            }
            if !self.consider(pos, max_len, candidate, out) {
                break ;
            }
            let c: usize = candidate as usize - 1;
            proof {
                lemma_latest(data, 4, key(data, 4, c as int), c as nat);
                assert(self.chain@[c as int % self.chain@.len() as int] as nat == latest(
                    data,
                    4,
                    key(data, 4, c as int),
                    c as nat,
                ));
            }
            candidate = self.chain[c % self.chain.len()];
            depth = depth - 1;
        }
    }

    /// Length of the match at `pos` against distance `dist` (1-based), up
    /// to `limit`.
    pub fn len_at(&self, pos: usize, dist: usize, limit: usize) -> (r: usize)
        requires
            pos <= self.search().data.len(),
            dist >= 1,
        ensures
            r == len_against(self.search().data, pos as nat, dist as nat, limit as nat),
    {
        if dist > pos {
            return 0;
        }
        let avail: usize = self.data.len() - pos;
        match_len(
            self.data,
            pos - dist,
            pos,
            if limit < avail {
                limit
            } else {
                avail
            },
        )
    }
}

/// How long the bytes at `pos` repeat those `dist` back, up to `limit`.
pub open spec fn len_against(data: Seq<u8>, pos: nat, dist: nat, limit: nat) -> nat {
    if dist > pos {
        0
    } else {
        common(
            data,
            pos - dist,
            pos as int,
            if limit < data.len() - pos {
                limit
            } else {
                (data.len() - pos) as nat
            },
        )
    }
}

/// Such a length is a true repeat.
pub proof fn lemma_len_against(data: Seq<u8>, pos: nat, dist: nat, limit: nat)
    requires
        pos <= data.len(),
        dist >= 1,
    ensures
        len_against(data, pos, dist, limit) <= limit,
        len_against(data, pos, dist, limit) > 0 ==> repeats(
            data,
            pos as int,
            dist as int,
            len_against(data, pos, dist, limit) as int,
        ),
{
    if dist <= pos {
        let n = if limit < data.len() - pos {
            limit
        } else {
            (data.len() - pos) as nat
        };
        lemma_common(data, pos - dist, pos as int, n);
        let len = common(data, pos - dist, pos as int, n);
        assert forall|j: int| 0 <= j < len implies data[pos + j] == #[trigger] data[pos + j
            - dist] by {
            assert(data[pos - dist + j] == data[pos + j]);
        }
    }
}

/// How many bytes at `a` and `b` agree, up to `limit`. Needs `a < b` and
/// `b + limit <= data.len()`.
pub fn match_len(data: &[u8], a: usize, b: usize, limit: usize) -> (r: usize)
    requires
        a <= b,
        b + limit <= data@.len(),
    ensures
        r == common(data@, a as int, b as int, limit as nat),
        r <= limit,
{
    let mut len: usize = 0;
    while len < limit && data[a + len] == data[b + len]
        invariant
            a <= b,
            b + limit <= data@.len(),
            data@.len() == data.len(),
            len <= limit,
            forall|j: int| #![trigger data@[b + j]] 0 <= j < len ==> data@[a + j] == data@[b + j],
        decreases limit - len,
    {
        len = len + 1;
    }
    proof {
        lemma_common_is(data@, a as int, b as int, limit as nat, len as nat);
    }
    len
}

} // verus!
