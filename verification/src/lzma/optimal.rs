//! Optimal parsing: the cheapest way, in bits, to code a stretch of input.
//!
//! The fast parser decides one position at a time with rules of thumb. But
//! the choices interact: taking a match changes where the next token starts,
//! which matches are available there, and which distances are cheap to
//! repeat. This parser looks at a whole stretch of input instead, as a
//! shortest-path problem:
//!
//! ```text
//! node i = "the first i bytes of the stretch are coded"
//! edge   = one token: literal (i -> i+1), repeat or match of length L (i -> i+L)
//! weight = that token's price in bits, from the current model
//! ```
//!
//! Positions are visited in order. The cheapest way to reach node `i` is
//! final once every node before it has been expanded, because edges only go
//! forward. Each node remembers how it was reached, so the winning path can
//! be traced back from the end.
//!
//! A token's price depends on the state machine and the four repeat
//! distances, which depend on the path taken so far. Each node therefore
//! carries the state and distances of the cheapest path into it. (That
//! makes this a very good heuristic rather than a true optimum, since a
//! pricier path with more useful repeat distances is dropped. The LZMA SDK
//! makes the same trade-off.)
//!
//! Keeping only the cheapest arrival at each node loses paths that are a
//! few bits dearer but keep a useful repeat distance. The most common case
//! is text where a line repeats with one character changed: match, literal,
//! then the same distance again. So, like the SDK, we also add combined
//! edges priced from the node's own distances: literal + rep0, and
//! (rep or match) + literal + rep0. On repetitive text that was the
//! difference between losing to the fast parser and beating it.
//!
//! A stretch ends where every path meets (no token from before crosses the
//! node), after 4 KB, or when a match of `nice_len` or more appears. That
//! match is then taken as is, which keeps long repetitive runs cheap to
//! encode.
//!
//! Adapted from `GetOptimum` in the LZMA SDK's `LzmaEnc.c`.
use crate::lz77::repeats;
use crate::lzma::encode::moved_to_front;
use crate::lzma::encode::rep_len_at;
use crate::lzma::encode::room_at;
use crate::lzma::encode::Encoder;
use crate::lzma::format::after_ops;
use crate::lzma::format::byte_against;
use crate::lzma::format::byte_before;
use crate::lzma::format::history_ok;
use crate::lzma::format::lemma_next_ok;
use crate::lzma::format::next_reps;
use crate::lzma::format::next_state;
use crate::lzma::format::op_ok;
use crate::lzma::format::Op;
use crate::lzma::literal_next;
use crate::lzma::matchfinder::len_against;
use crate::lzma::matchfinder::lemma_len_against;
use crate::lzma::matchfinder::match_ok;
use crate::lzma::matchfinder::matches_ok;
use crate::lzma::matchfinder::Match;
use crate::lzma::matchfinder::MatchFinder;
use crate::lzma::matchfinder::Search;
use crate::lzma::pos_state_of;
use crate::lzma::price;
use crate::lzma::price::dist_price;
use crate::lzma::price::len_price;
use crate::lzma::price::literal_price;
use crate::lzma::price::new_match_price;
use crate::lzma::price::rep_price;
use crate::lzma::price::short_rep_price;
use crate::lzma::price::Prices;
use crate::lzma::Model;
use crate::lzma::Props;
use crate::lzma::State;
use crate::lzma::LEN;
use crate::lzma::MATCH_MAX_LEN;
use crate::lzma::MATCH_MIN_LEN;
use crate::lzma::REP_LEN;
use vstd::arithmetic::power2::pow2;
use crate::lzma::choices::lemma_longest_most;
use crate::lzma::encode::lemma_takes_long;
use crate::lzma::encode::takes_long;
use crate::lzma::matchfinder::best_of;
use vstd::prelude::*;

verus! {

/// Most positions in one stretch.
pub const OPT_LEN: usize = 4096;

/// Refresh the length and distance price tables after this many tokens.
pub const PRICE_REFRESH: usize = 64;

/// The tokens on one edge.
#[derive(Debug, Clone, Copy)]
pub enum Step {
    One(Op),
    /// `first` (if any), then a literal, then rep0 for `rep_len` bytes.
    LitRep0 { first: Option<Op>, rep_len: usize },
}

impl Step {
    /// The tokens, in order.
    pub open spec fn ops(self) -> Seq<Op> {
        match self {
            Step::One(op) => seq![op],
            Step::LitRep0 { first: None, rep_len } => seq![
                Op::Literal,
                Op::Rep { index: 0, len: rep_len },
            ],
            Step::LitRep0 { first: Some(op), rep_len } => seq![
                op,
                Op::Literal,
                Op::Rep { index: 0, len: rep_len },
            ],
        }
    }
}

#[derive(Debug, Clone, Copy)]
struct Node {
    price: u32,
    /// Node this one was reached from, and with which tokens.
    prev: u32,
    step: Step,
    /// State machine and repeat distances after reaching this node on its
    /// cheapest path.
    state: State,
    reps: [u32; 4],
}

/// State and repeat distances after coding `ops`.
pub open spec fn walked(from: (State, Seq<u32>), ops: Seq<Op>) -> (State, Seq<u32>)
    decreases ops.len(),
{
    if ops.len() == 0 {
        from
    } else {
        let (state, reps) = walked(from, ops.drop_last());
        (next_state(state, ops.last()), next_reps(reps, ops.last()))
    }
}

/// How many bytes tokens stand for.
pub open spec fn span(ops: Seq<Op>) -> nat
    decreases ops.len(),
{
    if ops.len() == 0 {
        0
    } else {
        span(ops.drop_last()) + ops.last().span()
    }
}

/// The tokens describe the bytes of `data` from `pos` on.
pub open spec fn describes(
    data: Seq<u8>,
    pos: nat,
    from: (State, Seq<u32>),
    ops: Seq<Op>,
) -> bool
    decreases ops.len(),
{
    ops.len() > 0 ==> {
        &&& describes(data, pos, from, ops.drop_last())
        &&& op_ok(
            data,
            walked(from, ops.drop_last()).1,
            pos + span(ops.drop_last()),
            ops.last(),
        )
    }
}

/// One way to go on from a node: how far, at what price from the start of
/// the stretch, and with which tokens.
pub ghost struct Edge {
    pub to: nat,
    pub price: nat,
    pub step: Step,
}

/// How a node was reached. The price is `u32::MAX` until it is.
pub ghost struct Arrival {
    pub price: nat,
    pub prev: nat,
    pub step: Step,
}

/// What choosing a path depends on.
pub ghost struct Task {
    pub data: Seq<u8>,
    pub props: Props,
    /// The probabilities now.
    pub probs: Seq<u16>,
    /// The probabilities when the price tables were filled.
    pub seen: Seq<u16>,
    pub nice_len: nat,
}

impl Task {
    /// The edge "`first` (if any) from `p`, a literal, then rep0", given
    /// the state and distances at `p` and the price up to and with `first`.
    /// The literal must differ from the byte at rep0; if not, rep0 alone
    /// would have covered it.
    pub open spec fn lit_rep0(
        self,
        p: nat,
        price: nat,
        from: (State, Seq<u32>),
        first: Option<Op>,
    ) -> Option<Edge> {
        let (state, reps, n) = match first {
            Some(op) => (next_state(from.0, op), next_reps(from.1, op), op.span()),
            None => (from.0, from.1, 0),
        };
        let q = p + n;
        let rep0 = (reps[0] + 1) as nat;
        let rep_len = len_against(self.data, q + 1, rep0, room_at(self.data, q + 1));
        let ps = pos_state_of(self.props, q + 1);
        let literal = literal_price(
            self.probs,
            self.props,
            state,
            q,
            self.data[q - 1],
            self.data[q as int],
            byte_against(self.data, q as int, state, reps),
        );
        let rep = rep_price(self.probs, 0, literal_next(state).0 as int, ps as int) + len_price(
            self.seen,
            REP_LEN as int,
            ps,
            (rep_len - 2) as nat,
        );
        if q + 3 > self.data.len() || rep0 > q || self.data[q as int] == self.data[q - rep0]
            || rep_len < 2 {
            None
        } else {
            Some(
                Edge {
                    to: n + 1 + rep_len,
                    price: price + literal + rep,
                    step: Step::LitRep0 { first, rep_len: rep_len as usize },
                },
            )
        }
    }

    /// A literal, the same byte as a one-byte repeat, and a literal with
    /// rep0 behind it.
    pub open spec fn literal_edges(
        self,
        p: nat,
        price: nat,
        from: (State, Seq<u32>),
    ) -> Seq<Edge> {
        let ps = pos_state_of(self.props, p) as int;
        let rep0 = from.1[0] + 1;
        let literal = Edge {
            to: 1,
            price: price + literal_price(
                self.probs,
                self.props,
                from.0,
                p,
                byte_before(self.data, p as int),
                self.data[p as int],
                byte_against(self.data, p as int, from.0, from.1),
            ),
            step: Step::One(Op::Literal),
        };
        let short_rep = Edge {
            to: 1,
            price: price + short_rep_price(self.probs, from.0.0 as int, ps),
            step: Step::One(Op::ShortRep),
        };
        seq![literal] + (if rep0 <= p && self.data[p - rep0] == self.data[p as int] {
            seq![short_rep]
        } else {
            Seq::empty()
        }) + opt(self.lit_rep0(p, price, from, None))
    }

    /// The price of choosing repeat distance `index` at `p`.
    pub open spec fn rep_base(
        self,
        p: nat,
        price: nat,
        from: (State, Seq<u32>),
        index: nat,
    ) -> nat {
        price + rep_price(
            self.probs,
            index as int,
            from.0.0 as int,
            pos_state_of(self.props, p) as int,
        )
    }

    /// A repeat of distance `index` of length `len`.
    pub open spec fn rep_edge(
        self,
        p: nat,
        price: nat,
        from: (State, Seq<u32>),
        index: nat,
        len: nat,
    ) -> Edge {
        Edge {
            to: len,
            price: self.rep_base(p, price, from, index) + len_price(
                self.seen,
                REP_LEN as int,
                pos_state_of(self.props, p),
                (len - 2) as nat,
            ),
            step: Step::One(Op::Rep { index: index as usize, len: len as usize }),
        }
    }

    /// Repeats of distance `index`, of every length from 2 up.
    pub open spec fn rep_edges(
        self,
        p: nat,
        price: nat,
        from: (State, Seq<u32>),
        index: nat,
    ) -> Seq<Edge> {
        let len = len_against(
            self.data,
            p,
            (from.1[index as int] + 1) as nat,
            room_at(self.data, p),
        );
        if len < 2 {
            Seq::empty()
        } else {
            Seq::new(
                (len - 1) as nat,
                |j: int| self.rep_edge(p, price, from, index, (j + 2) as nat),
            ) + opt(
                self.lit_rep0(
                    p,
                    self.rep_edge(p, price, from, index, len).price,
                    from,
                    Some(Op::Rep { index: index as usize, len: len as usize }),
                ),
            )
        }
    }

    /// Repeats of the first `n` distances.
    pub open spec fn all_rep_edges(
        self,
        p: nat,
        price: nat,
        from: (State, Seq<u32>),
        n: nat,
    ) -> Seq<Edge>
        decreases n,
    {
        if n == 0 {
            Seq::empty()
        } else {
            self.all_rep_edges(p, price, from, (n - 1) as nat) + self.rep_edges(
                p,
                price,
                from,
                (n - 1) as nat,
            )
        }
    }

    /// A new match of `len` bytes at distance `dist`.
    pub open spec fn match_edge(
        self,
        p: nat,
        price: nat,
        from: (State, Seq<u32>),
        dist: nat,
        len: nat,
    ) -> Edge {
        let ps = pos_state_of(self.props, p);
        Edge {
            to: len,
            price: price + new_match_price(self.probs, from.0.0 as int, ps as int) + len_price(
                self.seen,
                LEN as int,
                ps,
                (len - 2) as nat,
            ) + dist_price(self.seen, (dist - 1) as nat, len),
            step: Step::One(Op::Match { dist: dist as usize, len: len as usize }),
        }
    }

    /// The first `n` new matches: each distance serves the lengths above
    /// the previous (closer) one's.
    pub open spec fn match_edges(
        self,
        p: nat,
        price: nat,
        from: (State, Seq<u32>),
        matches: Seq<Match>,
        n: nat,
    ) -> Seq<Edge>
        decreases n,
    {
        if n == 0 {
            Seq::empty()
        } else {
            let m = matches[n - 1];
            let least = shortest(matches, n - 1);
            self.match_edges(p, price, from, matches, (n - 1) as nat) + Seq::new(
                (m.len + 1 - least) as nat,
                |j: int|
                    self.match_edge(p, price, from, m.dist as nat, (least + j) as nat),
            ) + opt(
                self.lit_rep0(
                    p,
                    self.match_edge(p, price, from, m.dist as nat, m.len as nat).price,
                    from,
                    Some(Op::Match { dist: m.dist as usize, len: m.len as usize }),
                ),
            )
        }
    }

    /// Every way to go on from a node, in the order they are tried.
    #[verifier::opaque]
    pub open spec fn edges(
        self,
        p: nat,
        price: nat,
        from: (State, Seq<u32>),
        matches: Seq<Match>,
    ) -> Seq<Edge> {
        self.literal_edges(p, price, from) + if room_at(self.data, p) >= 2 {
            self.all_rep_edges(p, price, from, 4) + self.match_edges(
                p,
                price,
                from,
                matches,
                matches.len(),
            )
        } else {
            Seq::empty()
        }
    }

    /// The longest repeat of a recent distance from `reps[i]` on, and its
    /// index.
    pub open spec fn longest_rep(
        self,
        reps: Seq<u32>,
        pos: nat,
        i: nat,
        best: (nat, nat),
    ) -> (nat, nat)
        decreases 4 - i,
    {
        if i >= 4 {
            best
        } else {
            let len = len_against(
                self.data,
                pos,
                (reps[i as int] + 1) as nat,
                room_at(self.data, pos),
            );
            self.longest_rep(
                reps,
                pos,
                i + 1,
                if len > best.0 {
                    (len, i)
                } else {
                    best
                },
            )
        }
    }

    /// A repeat or match of at least `nice_len` at `pos`, if there is one.
    pub open spec fn long_op(self, reps: Seq<u32>, pos: nat, matches: Seq<Match>) -> Option<Op> {
        let (len, index) = self.longest_rep(reps, pos, 0, (0, 0));
        if room_at(self.data, pos) < 2 {
            None
        } else if len >= self.nice_len {
            Some(Op::Rep { index: index as usize, len: len as usize })
        } else if matches.len() > 0 && matches.last().len >= self.nice_len {
            Some(
                Op::Match {
                    dist: matches.last().dist as usize,
                    len: matches.last().len as usize,
                },
            )
        } else {
            None
        }
    }
}

/// Zero or one edge.
pub open spec fn opt(e: Option<Edge>) -> Seq<Edge> {
    match e {
        None => Seq::empty(),
        Some(e) => seq![e],
    }
}

/// The shortest length that match `k` serves.
pub open spec fn shortest(matches: Seq<Match>, k: int) -> nat {
    if k == 0 {
        2
    } else {
        (matches[k - 1].len + 1) as nat
    }
}

/// The arrivals after trying one more edge from node `cur`: it wins if it
/// is cheaper than what was known.
pub open spec fn relaxed(arrivals: Seq<Arrival>, cur: nat, e: Edge) -> Seq<Arrival> {
    let to = cur + e.to;
    let known = if arrivals.len() <= to {
        arrivals + Seq::new(
            (to + 1 - arrivals.len()) as nat,
            |i: int|
                Arrival { price: u32::MAX as nat, prev: 0, step: Step::One(Op::Literal) },
        )
    } else {
        arrivals
    };
    if e.price < known[to as int].price {
        known.update(to as int, Arrival { price: e.price, prev: cur, step: e.step })
    } else {
        known
    }
}

/// The arrivals after trying edges from node `cur`, in order.
pub open spec fn relaxed_all(arrivals: Seq<Arrival>, cur: nat, edges: Seq<Edge>) -> Seq<Arrival>
    decreases edges.len(),
{
    if edges.len() == 0 {
        arrivals
    } else {
        relaxed(relaxed_all(arrivals, cur, edges.drop_last()), cur, edges.last())
    }
}

/// Trying edges leaves every node at its cheapest: no price rises, no edge
/// leads to its node more cheaply, and a price that fell is that of an edge.
pub proof fn arrivals_are_cheapest(arrivals: Seq<Arrival>, cur: nat, edges: Seq<Edge>)
    ensures
        ({
            let out = relaxed_all(arrivals, cur, edges);
            &&& out.len() >= arrivals.len()
            &&& forall|i: int|
                0 <= i < arrivals.len() ==> (#[trigger] out[i]).price <= arrivals[i].price
            &&& forall|k: int|
                0 <= k < edges.len() && (#[trigger] edges[k]).price < u32::MAX ==> cur + edges[k].to
                    < out.len() && out[(cur + edges[k].to) as int].price <= edges[k].price
            &&& forall|i: int|
                0 <= i < out.len() ==> {
                    ||| i < arrivals.len() && #[trigger] out[i] == arrivals[i]
                    ||| out[i].price == u32::MAX
                    ||| exists|k: int|
                        0 <= k < edges.len() && i == cur + (#[trigger] edges[k]).to && out[i] == (
                        Arrival { price: edges[k].price, prev: cur, step: edges[k].step })
                }
        }),
    decreases edges.len(),
{
    let out = relaxed_all(arrivals, cur, edges);
    if edges.len() > 0 {
        let before = edges.drop_last();
        let known = relaxed_all(arrivals, cur, before);
        let e = edges.last();
        let to = (cur + e.to) as int;
        arrivals_are_cheapest(arrivals, cur, before);
        assert(out.len() >= known.len());
        assert forall|k: int|
            0 <= k < edges.len() && (#[trigger] edges[k]).price < u32::MAX implies cur + edges[k].to
            < out.len() && out[(cur + edges[k].to) as int].price <= edges[k].price by {
            if k < before.len() {
                assert(before[k] == edges[k]);
            }
        }
        assert forall|i: int| 0 <= i < out.len() implies {
            ||| i < arrivals.len() && #[trigger] out[i] == arrivals[i]
            ||| out[i].price == u32::MAX
            ||| exists|k: int|
                0 <= k < edges.len() && i == cur + (#[trigger] edges[k]).to && out[i] == (Arrival {
                    price: edges[k].price,
                    prev: cur,
                    step: edges[k].step,
                })
        } by {
            if i < known.len() && out[i] == known[i] {
                if !(i < arrivals.len() && known[i] == arrivals[i]) && known[i].price != u32::MAX {
                    let k = choose|k: int|
                        0 <= k < before.len() && i == cur + (#[trigger] before[k]).to && known[i]
                            == (Arrival { price: before[k].price, prev: cur, step: before[k].step });
                    assert(edges[k] == before[k]);
                }
            } else if i == to {
                assert(edges[edges.len() - 1] == e);
            }
        }
    }
}

/// A stretch in the making: how each node was reached, and the state and
/// distances at the nodes that have been expanded.
pub ghost struct Scan {
    pub arrivals: Seq<Arrival>,
    pub settled: Seq<(State, Seq<u32>)>,
}

/// A stretch with nothing expanded but its start.
pub open spec fn scan_start(from: (State, Seq<u32>)) -> Scan {
    Scan {
        arrivals: seq![Arrival { price: 0, prev: 0, step: Step::One(Op::Literal) }],
        settled: seq![from],
    }
}

impl Scan {
    /// The node to expand next.
    pub open spec fn cur(self) -> nat {
        (self.settled.len() - 1) as nat
    }

    /// Node `cur` expanded.
    pub open spec fn expanded(self, task: Task, pos: nat, matches: Seq<Match>) -> Scan {
        let cur = self.cur();
        Scan {
            arrivals: relaxed_all(
                self.arrivals,
                cur,
                task.edges(
                    pos + cur,
                    self.arrivals[cur as int].price,
                    self.settled[cur as int],
                    matches,
                ),
            ),
            settled: self.settled,
        }
    }

    /// The state and distances at node `i`, from those of the node it was
    /// reached from.
    pub open spec fn settling(self, i: nat) -> (State, Seq<u32>) {
        let a = self.arrivals[i as int];
        walked(self.settled[a.prev as int], a.step.ops())
    }

    /// The next node settled.
    pub open spec fn advanced(self) -> Scan {
        Scan {
            arrivals: self.arrivals,
            settled: self.settled.push(self.settling(self.settled.len())),
        }
    }

    /// Expand nodes until the stretch ends; the node where it does, and how
    /// all of them were reached. `matches` are those at the node to expand.
    pub open spec fn run(self, task: Task, search: Search, pos: nat, matches: Seq<Match>) -> (
        Scan,
        nat,
        bool,
    )
        decreases 4097 - self.settled.len(),
    {
        let s = self.expanded(task, pos, matches);
        let next = self.settled.len();
        if next + 1 == s.arrivals.len() || next >= 4096 {
            (s, next, false)
        } else {
            let t = s.advanced();
            let found = search.finds(pos + next);
            if task.long_op(t.settled[next as int].1, pos + next, found) is Some {
                (s, next, true)
            } else {
                t.run(task, search, pos, found)
            }
        }
    }

    /// The tokens of the cheapest path to node `i`.
    pub open spec fn trace(self, i: nat) -> Seq<Op>
        decreases i,
    {
        if i == 0 || self.arrivals[i as int].prev >= i {
            Seq::empty()
        } else {
            self.trace(self.arrivals[i as int].prev) + self.arrivals[i as int].step.ops()
        }
    }
}

/// The tokens for the stretch at `pos`, and whether the search at its end
/// has been made.
#[verifier::opaque]
pub open spec fn stretch_of(
    task: Task,
    search: Search,
    pos: nat,
    from: (State, Seq<u32>),
) -> (Seq<Op>, bool) {
    match task.long_op(from.1, pos, search.finds(pos)) {
        Some(op) => (seq![op], false),
        None => {
            let (s, end, carried) = scan_start(from).run(task, search, pos, search.finds(pos));
            (s.trace(end), carried)
        },
    }
}

// The tokens of a path describe the data.

proof fn lemma_describes_add(
    data: Seq<u8>,
    pos: nat,
    from: (State, Seq<u32>),
    a: Seq<Op>,
    b: Seq<Op>,
)
    requires
        describes(data, pos, from, a),
        describes(data, pos + span(a), walked(from, a), b),
    ensures
        describes(data, pos, from, a + b),
        walked(from, a + b) == walked(walked(from, a), b),
        span(a + b) == span(a) + span(b),
    decreases b.len(),
{
    if b.len() == 0 {
        assert(a + b =~= a);
    } else {
        lemma_describes_add(data, pos, from, a, b.drop_last());
        assert((a + b).drop_last() =~= a + b.drop_last());
    }
}

proof fn lemma_describes_one(data: Seq<u8>, pos: nat, from: (State, Seq<u32>), op: Op)
    requires
        op_ok(data, from.1, pos, op),
    ensures
        describes(data, pos, from, seq![op]),
        walked(from, seq![op]) == (next_state(from.0, op), next_reps(from.1, op)),
        span(seq![op]) == op.span(),
{
    reveal_with_fuel(describes, 2);
    reveal_with_fuel(walked, 2);
    reveal_with_fuel(span, 2);
    assert(seq![op].drop_last() =~= Seq::<Op>::empty());
}

proof fn lemma_describes_history(
    data: Seq<u8>,
    pos: nat,
    from: (State, Seq<u32>),
    ops: Seq<Op>,
)
    requires
        history_ok(from.0, from.1, pos),
        describes(data, pos, from, ops),
    ensures
        history_ok(walked(from, ops).0, walked(from, ops).1, pos + span(ops)),
    decreases ops.len(),
{
    if ops.len() > 0 {
        let before = ops.drop_last();
        lemma_describes_history(data, pos, from, before);
        let (state, reps) = walked(from, before);
        lemma_next_ok(state, reps, data, pos + span(before), ops.last());
    }
}

/// An edge from `p` with tokens that describe the data.
pub open spec fn edge_ok(data: Seq<u8>, p: nat, from: (State, Seq<u32>), e: Edge) -> bool {
    &&& 1 <= e.to <= 547
    &&& p + e.to <= data.len()
    &&& describes(data, p, from, e.step.ops())
    &&& span(e.step.ops()) == e.to
}

pub open spec fn edges_ok(data: Seq<u8>, p: nat, from: (State, Seq<u32>), es: Seq<Edge>) -> bool {
    forall|i: int| 0 <= i < es.len() ==> edge_ok(data, p, from, #[trigger] es[i])
}

proof fn lemma_one_ok(data: Seq<u8>, p: nat, from: (State, Seq<u32>), e: Edge, op: Op)
    requires
        history_ok(from.0, from.1, p),
        op_ok(data, from.1, p, op),
        e.step == Step::One(op),
        e.to == op.span(),
    ensures
        edge_ok(data, p, from, e),
{
    lemma_describes_one(data, p, from, op);
    lemma_next_ok(from.0, from.1, data, p, op);
}

proof fn lemma_lit_rep0_ok(
    task: Task,
    p: nat,
    price: nat,
    from: (State, Seq<u32>),
    first: Option<Op>,
)
    requires
        history_ok(from.0, from.1, p),
        p < task.data.len(),
        first matches Some(op) ==> op_ok(task.data, from.1, p, op),
    ensures
        edges_ok(task.data, p, from, opt(task.lit_rep0(p, price, from, first))),
{
    if let Some(e) = task.lit_rep0(p, price, from, first) {
        let data = task.data;
        let (mid, n, head) = match first {
            Some(op) => ((next_state(from.0, op), next_reps(from.1, op)), op.span(), seq![op]),
            None => (from, 0, Seq::<Op>::empty()),
        };
        match first {
            Some(op) => {
                lemma_describes_one(data, p, from, op);
                lemma_next_ok(from.0, from.1, data, p, op);
            },
            None => {},
        }
        let q = p + n;
        let rep0 = (mid.1[0] + 1) as nat;
        let room = room_at(data, q + 1);
        let rep_len = len_against(data, q + 1, rep0, room);
        lemma_len_against(data, q + 1, rep0, room);
        let rep = Op::Rep { index: 0, len: rep_len as usize };
        lemma_describes_one(data, q, mid, Op::Literal);
        let after = (literal_next(mid.0), mid.1);
        lemma_describes_one(data, q + 1, after, rep);
        lemma_describes_add(data, p, from, head, seq![Op::Literal]);
        let two = head + seq![Op::Literal];
        lemma_describes_add(data, p, from, two, seq![rep]);
        assert(two + seq![rep] =~= e.step.ops());
    }
}

proof fn lemma_edges_add(
    data: Seq<u8>,
    p: nat,
    from: (State, Seq<u32>),
    a: Seq<Edge>,
    b: Seq<Edge>,
)
    requires
        edges_ok(data, p, from, a),
        edges_ok(data, p, from, b),
    ensures
        edges_ok(data, p, from, a + b),
{
}

proof fn lemma_literal_edges_ok(task: Task, p: nat, price: nat, from: (State, Seq<u32>))
    requires
        history_ok(from.0, from.1, p),
        p < task.data.len(),
    ensures
        edges_ok(task.data, p, from, task.literal_edges(p, price, from)),
        task.literal_edges(p, price, from).len() > 0,
{
    let data = task.data;
    let es = task.literal_edges(p, price, from);
    lemma_one_ok(data, p, from, es[0], Op::Literal);
    let rep0 = from.1[0] + 1;
    let short = rep0 <= p && data[p - rep0] == data[p as int];
    if short {
        assert(es[1].step == Step::One(Op::ShortRep));
        lemma_one_ok(data, p, from, es[1], Op::ShortRep);
    }
    lemma_lit_rep0_ok(task, p, price, from, None);
    let tail = opt(task.lit_rep0(p, price, from, None));
    let n: int = if short {
        2
    } else {
        1
    };
    assert(es =~= es.take(n) + tail);
    assert(edges_ok(data, p, from, es.take(n)));
    lemma_edges_add(data, p, from, es.take(n), tail);
}

proof fn lemma_shorter(data: Seq<u8>, pos: int, dist: int, len: int, less: int)
    requires
        repeats(data, pos, dist, len),
        less <= len,
    ensures
        repeats(data, pos, dist, less),
{
}

proof fn lemma_rep_edges_ok(
    task: Task,
    p: nat,
    price: nat,
    from: (State, Seq<u32>),
    index: nat,
)
    requires
        history_ok(from.0, from.1, p),
        p < task.data.len(),
        index < 4,
    ensures
        edges_ok(task.data, p, from, task.rep_edges(p, price, from, index)),
{
    let data = task.data;
    let dist = (from.1[index as int] + 1) as nat;
    let room = room_at(data, p);
    let len = len_against(data, p, dist, room);
    lemma_len_against(data, p, dist, room);
    if len >= 2 {
        let lens = Seq::new(
            (len - 1) as nat,
            |j: int| task.rep_edge(p, price, from, index, (j + 2) as nat),
        );
        assert forall|j: int| 0 <= j < lens.len() implies edge_ok(
            data,
            p,
            from,
            #[trigger] lens[j],
        ) by {
            lemma_shorter(data, p as int, dist as int, len as int, j + 2);
            lemma_one_ok(
                data,
                p,
                from,
                lens[j],
                Op::Rep { index: index as usize, len: (j + 2) as usize },
            );
        }
        let op = Op::Rep { index: index as usize, len: len as usize };
        let full = task.rep_edge(p, price, from, index, len).price;
        lemma_lit_rep0_ok(task, p, full, from, Some(op));
        lemma_edges_add(data, p, from, lens, opt(task.lit_rep0(p, full, from, Some(op))));
    }
}

proof fn lemma_all_rep_edges_ok(
    task: Task,
    p: nat,
    price: nat,
    from: (State, Seq<u32>),
    n: nat,
)
    requires
        history_ok(from.0, from.1, p),
        p < task.data.len(),
        n <= 4,
    ensures
        edges_ok(task.data, p, from, task.all_rep_edges(p, price, from, n)),
    decreases n,
{
    if n > 0 {
        let m = (n - 1) as nat;
        lemma_all_rep_edges_ok(task, p, price, from, m);
        lemma_rep_edges_ok(task, p, price, from, m);
        lemma_edges_add(
            task.data,
            p,
            from,
            task.all_rep_edges(p, price, from, m),
            task.rep_edges(p, price, from, m),
        );
    }
}

proof fn lemma_match_edges_ok(
    task: Task,
    window: nat,
    p: nat,
    price: nat,
    from: (State, Seq<u32>),
    matches: Seq<Match>,
    n: nat,
)
    requires
        history_ok(from.0, from.1, p),
        p < task.data.len() < u32::MAX,
        matches_ok(task.data, window, p, matches),
        n <= matches.len(),
    ensures
        edges_ok(task.data, p, from, task.match_edges(p, price, from, matches, n)),
    decreases n,
{
    if n > 0 {
        let data = task.data;
        let m = matches[n - 1];
        assert(match_ok(data, window, p, m));
        let least = shortest(matches, n - 1);
        if n > 1 {
            assert(matches[n - 2].len < matches[n - 1].len);
            assert(match_ok(data, window, p, matches[n - 2]));
        }
        lemma_match_edges_ok(task, window, p, price, from, matches, (n - 1) as nat);
        let before = task.match_edges(p, price, from, matches, (n - 1) as nat);
        let lens = Seq::new(
            (m.len + 1 - least) as nat,
            |j: int| task.match_edge(p, price, from, m.dist as nat, (least + j) as nat),
        );
        assert forall|j: int| 0 <= j < lens.len() implies edge_ok(
            data,
            p,
            from,
            #[trigger] lens[j],
        ) by {
            lemma_shorter(data, p as int, m.dist as int, m.len as int, least + j);
            lemma_one_ok(
                data,
                p,
                from,
                lens[j],
                Op::Match { dist: m.dist as usize, len: (least + j) as usize },
            );
        }
        let op = Op::Match { dist: m.dist as usize, len: m.len as usize };
        let full = task.match_edge(p, price, from, m.dist as nat, m.len as nat).price;
        lemma_lit_rep0_ok(task, p, full, from, Some(op));
        let last = opt(task.lit_rep0(p, full, from, Some(op)));
        lemma_edges_add(data, p, from, before, lens);
        lemma_edges_add(data, p, from, before + lens, last);
    }
}

/// Every edge describes the data; the first is a literal.
proof fn lemma_edges_ok(
    task: Task,
    window: nat,
    p: nat,
    price: nat,
    from: (State, Seq<u32>),
    matches: Seq<Match>,
)
    requires
        history_ok(from.0, from.1, p),
        p < task.data.len() < u32::MAX,
        matches_ok(task.data, window, p, matches),
    ensures
        edges_ok(task.data, p, from, task.edges(p, price, from, matches)),
        task.edges(p, price, from, matches).len() > 0,
        task.edges(p, price, from, matches)[0] == task.literal_edges(p, price, from)[0],
        task.edges(p, price, from, matches)[0].to == 1,
{
    reveal(Task::edges);
    let lits = task.literal_edges(p, price, from);
    lemma_literal_edges_ok(task, p, price, from);
    if room_at(task.data, p) >= 2 {
        lemma_all_rep_edges_ok(task, p, price, from, 4);
        lemma_match_edges_ok(task, window, p, price, from, matches, matches.len());
        let reps = task.all_rep_edges(p, price, from, 4);
        let ms = task.match_edges(p, price, from, matches, matches.len());
        lemma_edges_add(task.data, p, from, reps, ms);
        lemma_edges_add(task.data, p, from, lits, reps + ms);
    } else {
        lemma_edges_add(task.data, p, from, lits, Seq::empty());
    }
}

/// A node that has been reached was reached by tokens that describe the
/// data, from an expanded node.
pub open spec fn arrival_ok(task: Task, pos: nat, scan: Scan, j: int) -> bool {
    let a = scan.arrivals[j];
    a.price < u32::MAX ==> {
        &&& a.prev < j
        &&& a.prev < scan.settled.len()
        &&& describes(task.data, pos + a.prev, scan.settled[a.prev as int], a.step.ops())
        &&& span(a.step.ops()) == j - a.prev
    }
}

impl Scan {
    /// What holds of a stretch in the making.
    pub open spec fn ok(self, task: Task, pos: nat, from: (State, Seq<u32>)) -> bool {
        &&& 1 <= self.settled.len() <= self.arrivals.len()
        &&& pos + self.arrivals.len() - 1 <= task.data.len()
        &&& history_ok(from.0, from.1, pos)
        &&& self.settled[0] == from
        &&& forall|j: int|
            0 < j < self.arrivals.len() ==> #[trigger] arrival_ok(task, pos, self, j)
        &&& forall|i: int|
            0 < i < self.settled.len() ==> (#[trigger] self.arrivals[i]).price < u32::MAX
        &&& forall|i: int|
            0 < i < self.settled.len() ==> #[trigger] self.settled[i] == self.settling(i as nat)
    }

    /// The path to a node describes the data up to it.
    proof fn lemma_trace(self, task: Task, pos: nat, from: (State, Seq<u32>), i: nat)
        requires
            self.ok(task, pos, from),
            i < self.arrivals.len(),
            i <= self.settled.len(),
            i == 0 || self.arrivals[i as int].price < u32::MAX,
        ensures
            describes(task.data, pos, from, self.trace(i)),
            span(self.trace(i)) == i,
            walked(from, self.trace(i)) == if i == 0 {
                from
            } else {
                self.settling(i)
            },
            i > 0 ==> self.trace(i).len() > 0,
        decreases i,
    {
        if i > 0 {
            assert(arrival_ok(task, pos, self, i as int));
            let a = self.arrivals[i as int];
            if a.prev > 0 {
                assert(self.arrivals[a.prev as int].price < u32::MAX);
                assert(self.settled[a.prev as int] == self.settling(a.prev));
            }
            self.lemma_trace(task, pos, from, a.prev);
            lemma_describes_add(task.data, pos, from, self.trace(a.prev), a.step.ops());
        }
    }

    /// The state and distances at a node are ones that tokens lead to.
    proof fn lemma_settled(self, task: Task, pos: nat, from: (State, Seq<u32>), i: nat)
        requires
            self.ok(task, pos, from),
            i < self.settled.len(),
        ensures
            history_ok(self.settled[i as int].0, self.settled[i as int].1, pos + i),
    {
        if i > 0 {
            assert(self.arrivals[i as int].price < u32::MAX);
            assert(self.settled[i as int] == self.settling(i));
            self.lemma_trace(task, pos, from, i);
            lemma_describes_history(task.data, pos, from, self.trace(i));
        }
    }
}

/// Trying edges changes only nodes ahead, and makes none dearer.
proof fn lemma_relaxed_all(arrivals: Seq<Arrival>, cur: nat, edges: Seq<Edge>)
    requires
        cur < arrivals.len(),
        forall|i: int| 0 <= i < edges.len() ==> (#[trigger] edges[i]).to >= 1,
    ensures
        relaxed_all(arrivals, cur, edges).len() >= arrivals.len(),
        forall|j: int|
            0 <= j <= cur ==> #[trigger] relaxed_all(arrivals, cur, edges)[j] == arrivals[j],
        edges.len() > 0 && edges[0].to == 1 ==> relaxed_all(arrivals, cur, edges).len() > cur + 1
            && relaxed_all(arrivals, cur, edges)[cur as int + 1].price <= edges[0].price,
    decreases edges.len(),
{
    if edges.len() > 0 {
        let before = edges.drop_last();
        assert forall|i: int| 0 <= i < before.len() implies (#[trigger] before[i]).to >= 1 by {
            assert(edges[i].to >= 1);
        }
        lemma_relaxed_all(arrivals, cur, before);
        assert(edges[edges.len() - 1].to >= 1);
        if before.len() > 0 {
            assert(before[0] == edges[0]);
        }
    }
}

/// A stretch stays in order when the node to expand is expanded.
proof fn lemma_expanded(
    scan: Scan,
    task: Task,
    window: nat,
    pos: nat,
    from: (State, Seq<u32>),
    matches: Seq<Match>,
)
    requires
        scan.ok(task, pos, from),
        pos + scan.cur() < task.data.len() < u32::MAX,
        matches_ok(task.data, window, pos + scan.cur(), matches),
    ensures
        scan.expanded(task, pos, matches).ok(task, pos, from),
        scan.expanded(task, pos, matches).arrivals.len() > scan.settled.len(),
{
    let cur = scan.cur();
    let p = pos + cur;
    let here = scan.settled[cur as int];
    let price = scan.arrivals[cur as int].price;
    scan.lemma_settled(task, pos, from, cur);
    lemma_edges_ok(task, window, p, price, here, matches);
    let es = task.edges(p, price, here, matches);
    let out = scan.expanded(task, pos, matches);
    assert forall|i: int| 0 <= i < es.len() implies (#[trigger] es[i]).to >= 1 by {
        assert(edge_ok(task.data, p, here, es[i]));
    }
    lemma_relaxed_all(scan.arrivals, cur, es);
    lemma_relaxed_ok(scan, task, pos, from, es);
    assert forall|i: int| 0 < i < out.settled.len() implies (#[trigger] out.arrivals[i]).price
        < u32::MAX by {
        assert(scan.arrivals[i].price < u32::MAX);
    }
    assert forall|i: int| 0 < i < out.settled.len() implies #[trigger] out.settled[i]
        == out.settling(i as nat) by {
        assert(scan.settled[i] == scan.settling(i as nat));
        assert(out.arrivals[i] == scan.arrivals[i]);
    }
}

proof fn lemma_relaxed_ok(
    scan: Scan,
    task: Task,
    pos: nat,
    from: (State, Seq<u32>),
    edges: Seq<Edge>,
)
    requires
        scan.ok(task, pos, from),
        edges_ok(
            task.data,
            pos + scan.cur(),
            scan.settled[scan.cur() as int],
            edges,
        ),
    ensures
        ({
            let out = Scan {
                arrivals: relaxed_all(scan.arrivals, scan.cur(), edges),
                settled: scan.settled,
            };
            &&& out.arrivals.len() >= scan.arrivals.len()
            &&& pos + out.arrivals.len() - 1 <= task.data.len()
            &&& forall|j: int|
                0 < j < out.arrivals.len() ==> #[trigger] arrival_ok(task, pos, out, j)
        }),
    decreases edges.len(),
{
    let cur = scan.cur();
    let out = Scan { arrivals: relaxed_all(scan.arrivals, cur, edges), settled: scan.settled };
    if edges.len() > 0 {
        let before = edges.drop_last();
        let e = edges.last();
        assert(edge_ok(task.data, pos + cur, scan.settled[cur as int], edges[edges.len() - 1]));
        assert forall|i: int| 0 <= i < before.len() implies edge_ok(
            task.data,
            pos + cur,
            scan.settled[cur as int],
            #[trigger] before[i],
        ) by {
            assert(before[i] == edges[i]);
        }
        lemma_relaxed_ok(scan, task, pos, from, before);
        let mid = Scan {
            arrivals: relaxed_all(scan.arrivals, cur, before),
            settled: scan.settled,
        };
        assert forall|j: int| 0 < j < out.arrivals.len() implies #[trigger] arrival_ok(
            task,
            pos,
            out,
            j,
        ) by {
            if j < mid.arrivals.len() {
                assert(arrival_ok(task, pos, mid, j));
            }
        }
    } else {
        assert forall|j: int| 0 < j < out.arrivals.len() implies #[trigger] arrival_ok(
            task,
            pos,
            out,
            j,
        ) by {
            assert(arrival_ok(task, pos, scan, j));
        }
    }
}

/// A stretch stays in order when the next node is settled.
proof fn lemma_advanced(scan: Scan, task: Task, pos: nat, from: (State, Seq<u32>))
    requires
        scan.ok(task, pos, from),
        scan.settled.len() < scan.arrivals.len(),
        scan.arrivals[scan.settled.len() as int].price < u32::MAX,
    ensures
        scan.advanced().ok(task, pos, from),
{
    let out = scan.advanced();
    let n = scan.settled.len();
    assert(arrival_ok(task, pos, scan, n as int));
    assert forall|j: int| 0 < j < out.arrivals.len() implies #[trigger] arrival_ok(
        task,
        pos,
        out,
        j,
    ) by {
        assert(arrival_ok(task, pos, scan, j));
    }
    assert forall|i: int| 0 < i < out.settled.len() implies #[trigger] out.settled[i]
        == out.settling(i as nat) by {
        assert(arrival_ok(task, pos, scan, i));
        if i < n {
            assert(scan.arrivals[i].price < u32::MAX);
            assert(scan.settled[i] == scan.settling(i as nat));
        }
        assert(out.settled[scan.arrivals[i].prev as int] == scan.settled[scan.arrivals[i].prev as int]);
    }
}

/// State and repeat distances after coding `op`, mirroring the encoder.
pub fn apply(state: State, reps: [u32; 4], op: Op) -> (r: (State, [u32; 4]))
    requires
        op matches Op::Rep { index, .. } ==> index < 4,
        op matches Op::Match { dist, .. } ==> 1 <= dist <= u32::MAX,
    ensures
        r.0 == next_state(state, op),
        r.1@ == next_reps(reps@, op),
{
    let mut state = state;
    match op {
        Op::Literal => {
            state.after_literal();
            (state, reps)
        },
        Op::ShortRep => {
            state.after_short_rep();
            (state, reps)
        },
        Op::Rep { index, .. } => {
            state.after_rep();
            (state, moved_to_front(reps, index))
        },
        Op::Match { dist, .. } => {
            state.after_match();
            let out: [u32; 4] = [(dist - 1) as u32, reps[0], reps[1], reps[2]];
            assert(out@ =~= next_reps(reps@, op));
            (state, out)
        },
    }
}

/// The tokens of an edge can be applied.
spec fn step_fits(step: Step) -> bool {
    forall|i: int|
        0 <= i < step.ops().len() ==> {
            &&& (#[trigger] step.ops()[i]) matches Op::Rep { index, .. } ==> index < 4
            &&& step.ops()[i] matches Op::Match { dist, .. } ==> 1 <= dist <= u32::MAX
        }
}

proof fn lemma_describes_prefix(
    data: Seq<u8>,
    pos: nat,
    from: (State, Seq<u32>),
    ops: Seq<Op>,
    k: int,
)
    requires
        describes(data, pos, from, ops),
        0 <= k <= ops.len(),
    ensures
        describes(data, pos, from, ops.take(k)),
    decreases ops.len(),
{
    if k == ops.len() {
        assert(ops.take(k) =~= ops);
    } else {
        lemma_describes_prefix(data, pos, from, ops.drop_last(), k);
        assert(ops.drop_last().take(k) =~= ops.take(k));
    }
}

proof fn lemma_step_fits(data: Seq<u8>, pos: nat, from: (State, Seq<u32>), step: Step)
    requires
        describes(data, pos, from, step.ops()),
    ensures
        step_fits(step),
{
    let ops = step.ops();
    assert forall|i: int| 0 <= i < ops.len() implies ({
        &&& (#[trigger] ops[i]) matches Op::Rep { index, .. } ==> index < 4
        &&& ops[i] matches Op::Match { dist, .. } ==> 1 <= dist <= u32::MAX
    }) by {
        lemma_describes_prefix(data, pos, from, ops, i + 1);
        assert(ops.take(i + 1).last() == ops[i]);
    }
}

/// State and repeat distances after the tokens of an edge.
fn apply_step(state: State, reps: [u32; 4], step: Step) -> (r: (State, [u32; 4]))
    requires
        step_fits(step),
    ensures
        (r.0, r.1@) == walked((state, reps@), step.ops()),
{
    let ghost from = (state, reps@);
    reveal_with_fuel(walked, 4);
    let ghost ops = step.ops();
    match step {
        Step::One(op) => {
            assert(ops[0] == op);
            assert(ops.drop_last() =~= Seq::<Op>::empty());
            apply(state, reps, op)
        },
        Step::LitRep0 { first, rep_len } => {
            let (s1, r1) = match first {
                Some(op) => {
                    assert(ops[0] == op);
                    apply(state, reps, op)
                },
                None => (state, reps),
            };
            let (s2, r2) = apply(s1, r1, Op::Literal);
            proof {
                let two = ops.drop_last();
                let one = two.drop_last();
                if first is Some {
                    assert(one.drop_last() =~= Seq::<Op>::empty());
                    assert(one.last() == first->0);
                } else {
                    assert(one =~= Seq::<Op>::empty());
                }
                assert(two.last() == Op::Literal);
                assert(ops.last() == (Op::Rep { index: 0, len: rep_len }));
            }
            apply(s2, r2, Op::Rep { index: 0, len: rep_len })
        },
    }
}

/// A repeat or match of at least `nice_len` at `pos`, if there is one.
fn long_op(
    data: &[u8],
    finder: &MatchFinder,
    pos: usize,
    reps: &[u32; 4],
    matches: &Vec<Match>,
    nice_len: usize,
    Ghost(task): Ghost<Task>,
) -> (r: Option<Op>)
    requires
        finder.wf(),
        finder.search().data == data@,
        task.data == data@,
        task.nice_len == nice_len,
        nice_len >= 2,
        pos < data@.len() < u32::MAX,
        matches_ok(data@, finder.search().window, pos as nat, matches@),
    ensures
        r == task.long_op(reps@, pos as nat, matches@),
        r matches Some(op) ==> op_ok(data@, reps@, pos as nat, op),
{
    let avail: usize = if data.len() - pos < MATCH_MAX_LEN {
        data.len() - pos
    } else {
        MATCH_MAX_LEN
    };
    if avail < MATCH_MIN_LEN {
        return None;
    }
    let mut best_len: usize = 0;
    let mut best_index: usize = 0;
    let mut i: usize = 0;
    while i < 4
        invariant
            i <= 4,
            finder.search().data == data@,
            task.data == data@,
            pos < data@.len(),
            avail == room_at(data@, pos as nat),
            best_index < 4,
            best_len > 0 ==> best_len <= 273 && repeats(
                data@,
                pos as int,
                reps@[best_index as int] + 1,
                best_len as int,
            ),
            task.longest_rep(reps@, pos as nat, 0, (0, 0)) == task.longest_rep(
                reps@,
                pos as nat,
                i as nat,
                (best_len as nat, best_index as nat),
            ),
        decreases 4 - i,
    {
        let len: usize = rep_len_at(finder, pos, reps[i], avail);
        proof {
            lemma_len_against(data@, pos as nat, (reps@[i as int] + 1) as nat, avail as nat);
        }
        if len > best_len {
            best_len = len;
            best_index = i;
        }
        i = i + 1;
    }
    if best_len >= nice_len {
        return Some(Op::Rep { index: best_index, len: best_len });
    }
    if matches.len() == 0 {
        return None;
    }
    let m = matches[matches.len() - 1];
    assert(match_ok(data@, finder.search().window, pos as nat, matches@[matches@.len() - 1]));
    if m.len as usize >= nice_len {
        Some(Op::Match { dist: m.dist as usize, len: m.len as usize })
    } else {
        None
    }
}

/// The nodes show the arrivals; what a node that was not reached holds does
/// not matter.
spec fn shows(nodes: Seq<Node>, len_end: nat, arrivals: Seq<Arrival>) -> bool {
    &&& len_end < nodes.len()
    &&& arrivals.len() == len_end + 1
    &&& forall|j: int|
        0 <= j <= len_end ==> (#[trigger] nodes[j]).price == arrivals[j].price
    &&& forall|j: int|
        0 < j <= len_end && (#[trigger] nodes[j]).price < u32::MAX ==> nodes[j].prev
            == arrivals[j].prev && nodes[j].step == arrivals[j].step
}

/// Nothing but how nodes were reached has changed.
spec fn same_settled(a: Seq<Node>, b: Seq<Node>) -> bool {
    &&& a.len() == b.len()
    &&& forall|j: int|
        0 <= j < a.len() ==> (#[trigger] a[j]).state == b[j].state && a[j].reps == b[j].reps
}

/// Try an edge from node `cur`. Returns the furthest node reached.
fn relax(
    nodes: &mut Vec<Node>,
    len_end: usize,
    cur: usize,
    to: usize,
    price: u32,
    step: Step,
    Ghost(arrivals): Ghost<Seq<Arrival>>,
) -> (r: usize)
    requires
        shows(old(nodes)@, len_end as nat, arrivals),
        cur <= u32::MAX,
        1 <= to,
        cur + to < old(nodes)@.len(),
        price < u32::MAX,
    ensures
        shows(
            final(nodes)@,
            r as nat,
            relaxed(
                arrivals,
                cur as nat,
                (Edge { to: to as nat, price: price as nat, step }),
            ),
        ),
        same_settled(final(nodes)@, old(nodes)@),
{
    assert(nodes@.len() == nodes.len());
    let to: usize = cur + to;
    let mut end: usize = len_end;
    while end < to
        invariant
            len_end <= end,
            end == len_end || end <= to,
            to < nodes@.len(),
            end < nodes@.len(),
            same_settled(nodes@, old(nodes)@),
            forall|j: int| 0 <= j <= len_end ==> #[trigger] nodes@[j] == old(nodes)@[j],
            forall|j: int| len_end < j <= end ==> (#[trigger] nodes@[j]).price == u32::MAX,
        decreases to - end,
    {
        end = end + 1;
        let mut n = nodes[end];
        n.price = u32::MAX;
        nodes[end] = n;
    }
    let ghost known = if arrivals.len() <= to {
        arrivals + Seq::new(
            (to + 1 - arrivals.len()) as nat,
            |i: int| Arrival { price: u32::MAX as nat, prev: 0, step: Step::One(Op::Literal) },
        )
    } else {
        arrivals
    };
    assert(shows(nodes@, end as nat, known));
    if price < nodes[to].price {
        let mut n = nodes[to];
        n.price = price;
        n.prev = cur as u32;
        n.step = step;
        nodes[to] = n;
    }
    end
}

/// What pricing edges needs.
struct Ctx<'a> {
    data: &'a [u8],
    m: &'a Model,
    prices: &'a Prices,
    finder: &'a MatchFinder<'a>,
    nice_len: usize,
}

impl Ctx<'_> {
    spec fn wf(&self) -> bool {
        &&& self.data@.len() < u32::MAX
        &&& self.m.wf()
        &&& self.prices.wf()
        &&& self.prices.states() == pow2(self.m.props.pb as nat)
        &&& self.finder.wf()
        &&& self.finder.search().data == self.data@
    }

    spec fn task(&self) -> Task {
        Task {
            data: self.data@,
            props: self.m.props,
            probs: self.m.probs@,
            seen: self.prices.seen(),
            nice_len: self.nice_len as nat,
        }
    }

    /// The position state of `pos`.
    fn pos_state(&self, pos: usize) -> (r: usize)
        requires
            self.wf(),
        ensures
            r == pos_state_of(self.m.props, pos as nat),
            r < 16,
            r < self.prices.states(),
    {
        proof {
            vstd::arithmetic::power2::lemma_pow2_pos(self.m.props.pb as nat);
        }
        self.m.pos_state(pos)
    }

    /// The edge "`first` (if any) from `p`, a literal, then rep0", given
    /// the state, distances and price at `p` and the price including
    /// `first`. Returns (length, price, step) if rep0 then matches at least
    /// 2 bytes.
    fn lit_rep0(&self, p: usize, price: u32, state: State, reps: [u32; 4], first: Option<Op>) -> (r:
        Option<(usize, u32, Step)>)
        requires
            self.wf(),
            p < self.data@.len(),
            history_ok(state, reps@, p as nat),
            first matches Some(op) ==> op_ok(self.data@, reps@, p as nat, op),
            price < 0x8000_0000,
        ensures
            match self.task().lit_rep0(p as nat, price as nat, (state, reps@), first) {
                None => r is None,
                Some(e) => {
                    &&& r matches Some(t)
                    &&& e == (Edge { to: t.0 as nat, price: t.1 as nat, step: t.2 })
                    &&& 1 <= t.0 <= 547
                    &&& t.1 <= price + 2328
                },
            },
    {
        let data = self.data;
        let (state, reps, first_len): (State, [u32; 4], usize) = match first {
            Some(op) => {
                proof {
                    lemma_next_ok(state, reps@, data@, p as nat, op);
                }
                let (s, r) = apply(state, reps, op);
                (s, r, op.len())
            },
            None => (state, reps, 0),
        };
        let lit_pos: usize = p + first_len;
        let rep0: usize = reps[0] as usize;
        // The literal must differ from the byte at rep0; if not, rep0 alone
        // would have covered it.
        if data.len() - lit_pos < 1 + MATCH_MIN_LEN || rep0 >= lit_pos || data[lit_pos]
            == data[lit_pos - rep0 - 1] {
            return None;
        }
        let avail: usize = if data.len() - lit_pos - 1 < MATCH_MAX_LEN {
            data.len() - lit_pos - 1
        } else {
            MATCH_MAX_LEN
        };
        let rep_len: usize = rep_len_at(self.finder, lit_pos + 1, reps[0], avail);
        if rep_len < MATCH_MIN_LEN {
            return None;
        }
        proof {
            lemma_len_against(
                data@,
                (lit_pos + 1) as nat,
                (reps@[0] + 1) as nat,
                avail as nat,
            );
        }
        let match_byte: Option<u8> = if state.is_literal() {
            None
        } else {
            Some(data[lit_pos - rep0 - 1])
        };
        let prev: u8 = data[lit_pos - 1];
        let literal: u32 = price::literal(
            self.m,
            state,
            lit_pos,
            prev,
            data[lit_pos],
            match_byte,
        );
        let mut after = state;
        after.after_literal();
        let ps: usize = self.pos_state(lit_pos + 1);
        let rep: u32 = price::rep(self.m, 0, after, ps) + self.prices.rep_len(ps, rep_len);
        Some((first_len + 1 + rep_len, price + literal + rep, Step::LitRep0 { first, rep_len }))
    }
}

/// The edges up to here have been tried.
spec fn tried(
    nodes: Seq<Node>,
    start: Seq<Node>,
    len_end: nat,
    arrivals: Seq<Arrival>,
    cur: nat,
    done: Seq<Edge>,
) -> bool {
    &&& shows(nodes, len_end, relaxed_all(arrivals, cur, done))
    &&& same_settled(nodes, start)
    &&& nodes.len() == 4644
}

proof fn lemma_tried_more(arrivals: Seq<Arrival>, cur: nat, done: Seq<Edge>, e: Edge)
    ensures
        relaxed_all(arrivals, cur, done.push(e)) == relaxed(
            relaxed_all(arrivals, cur, done),
            cur,
            e,
        ),
{
    assert(done.push(e).drop_last() =~= done);
}

impl Ctx<'_> {
    /// What expanding a node needs to know of it.
    spec fn can_expand(&self, p: usize, cur: usize, node: Node) -> bool {
        &&& self.wf()
        &&& p < self.data@.len()
        &&& cur < 4096
        &&& history_ok(node.state, node.reps@, p as nat)
        &&& node.price <= 873 * 4096
    }

    /// Try a literal, the same byte as a one-byte repeat, and a literal
    /// with rep0 behind it.
    fn expand_literal(
        &self,
        p: usize,
        cur: usize,
        node: Node,
        nodes: &mut Vec<Node>,
        len_end: usize,
        Ghost(arrivals): Ghost<Seq<Arrival>>,
    ) -> (r: usize)
        requires
            self.can_expand(p, cur, node),
            tried(old(nodes)@, old(nodes)@, len_end as nat, arrivals, cur as nat, Seq::empty()),
        ensures
            tried(
                final(nodes)@,
                old(nodes)@,
                r as nat,
                arrivals,
                cur as nat,
                self.task().literal_edges(p as nat, node.price as nat, (node.state, node.reps@)),
            ),
            self.task().literal_edges(
                p as nat,
                node.price as nat,
                (node.state, node.reps@),
            )[0].price <= node.price + 873,
    {
        let data = self.data;
        let ghost task = self.task();
        let ghost from = (node.state, node.reps@);
        let byte: u8 = data[p];
        let prev: u8 = if p == 0 {
            0
        } else {
            data[p - 1]
        };
        let rep0: usize = node.reps[0] as usize;
        let match_byte: Option<u8> = if node.state.is_literal() {
            None
        } else {
            Some(data[p - rep0 - 1])
        };
        let ghost mut done = Seq::<Edge>::empty();
        let literal: u32 = price::literal(self.m, node.state, p, prev, byte, match_byte);
        let ghost e = Edge {
            to: 1,
            price: (node.price + literal) as nat,
            step: Step::One(Op::Literal),
        };
        let mut end: usize = relax(
            nodes,
            len_end,
            cur,
            1,
            node.price + literal,
            Step::One(Op::Literal),
            Ghost(arrivals),
        );
        proof {
            lemma_tried_more(arrivals, cur as nat, done, e);
            done = done.push(e);
        }
        if rep0 < p && data[p - rep0 - 1] == byte {
            let ps: usize = self.pos_state(p);
            let short_rep: u32 = price::short_rep(self.m, node.state, ps);
            let ghost e = Edge {
                to: 1,
                price: (node.price + short_rep) as nat,
                step: Step::One(Op::ShortRep),
            };
            end = relax(
                nodes,
                end,
                cur,
                1,
                node.price + short_rep,
                Step::One(Op::ShortRep),
                Ghost(relaxed_all(arrivals, cur as nat, done)),
            );
            proof {
                lemma_tried_more(arrivals, cur as nat, done, e);
                done = done.push(e);
            }
        }
        if let Some((to, price, step)) = self.lit_rep0(
            p,
            node.price,
            node.state,
            node.reps,
            None,
        ) {
            end = relax(
                nodes,
                end,
                cur,
                to,
                price,
                step,
                Ghost(relaxed_all(arrivals, cur as nat, done)),
            );
            proof {
                let e = Edge { to: to as nat, price: price as nat, step };
                lemma_tried_more(arrivals, cur as nat, done, e);
                done = done.push(e);
            }
        }
        proof {
            assert(done =~= task.literal_edges(p as nat, node.price as nat, from));
        }
        end
    }

    /// Try repeats of one recent distance, every length.
    fn expand_rep(
        &self,
        p: usize,
        cur: usize,
        node: Node,
        index: usize,
        nodes: &mut Vec<Node>,
        len_end: usize,
        Ghost(arrivals): Ghost<Seq<Arrival>>,
        Ghost(done): Ghost<Seq<Edge>>,
    ) -> (r: usize)
        requires
            self.can_expand(p, cur, node),
            index < 4,
            tried(old(nodes)@, old(nodes)@, len_end as nat, arrivals, cur as nat, done),
        ensures
            tried(
                final(nodes)@,
                old(nodes)@,
                r as nat,
                arrivals,
                cur as nat,
                done + self.task().rep_edges(
                    p as nat,
                    node.price as nat,
                    (node.state, node.reps@),
                    index as nat,
                ),
            ),
    {
        let data = self.data;
        let ghost task = self.task();
        let ghost from = (node.state, node.reps@);
        let ghost price0 = node.price as nat;
        let avail: usize = if data.len() - p < MATCH_MAX_LEN {
            data.len() - p
        } else {
            MATCH_MAX_LEN
        };
        let len: usize = rep_len_at(self.finder, p, node.reps[index], avail);
        if len < MATCH_MIN_LEN {
            assert(done + task.rep_edges(p as nat, price0, from, index as nat) =~= done);
            return len_end;
        }
        let ghost lens = Seq::new(
            (len - 1) as nat,
            |j: int| task.rep_edge(p as nat, price0, from, index as nat, (j + 2) as nat),
        );
        proof {
            lemma_len_against(
                data@,
                p as nat,
                (node.reps@[index as int] + 1) as nat,
                avail as nat,
            );
            assert(done + lens.take(0) =~= done);
        }
        let ps: usize = self.pos_state(p);
        let base: u32 = node.price + price::rep(self.m, index, node.state, ps);
        let mut end: usize = len_end;
        let mut l: usize = MATCH_MIN_LEN;
        while l <= len
            invariant
                self.wf(),
                2 <= l <= len + 1,
                len <= 273,
                cur < 4096,
                ps < self.prices.states(),
                ps == pos_state_of(self.m.props, p as nat),
                base <= 873 * 4096 + 485,
                task == self.task(),
                base == task.rep_base(p as nat, price0, from, index as nat),
                lens == Seq::new(
                    (len - 1) as nat,
                    |j: int| task.rep_edge(p as nat, price0, from, index as nat, (j + 2) as nat),
                ),
                tried(
                    nodes@,
                    old(nodes)@,
                    end as nat,
                    arrivals,
                    cur as nat,
                    done + lens.take(l - 2),
                ),
            decreases len + 1 - l,
        {
            let op = Op::Rep { index, len: l };
            let price: u32 = base + self.prices.rep_len(ps, l);
            let ghost so_far = done + lens.take(l - 2);
            end = relax(
                nodes,
                end,
                cur,
                l,
                price,
                Step::One(op),
                Ghost(relaxed_all(arrivals, cur as nat, so_far)),
            );
            proof {
                let e = Edge { to: l as nat, price: price as nat, step: Step::One(op) };
                lemma_tried_more(arrivals, cur as nat, so_far, e);
                assert(lens[l - 2] == e);
                assert(so_far.push(e) =~= done + lens.take(l - 1));
            }
            l = l + 1;
        }
        let ghost so_far = done + lens;
        assert(done + lens.take(len - 1) =~= so_far);
        let op = Op::Rep { index, len };
        let price: u32 = base + self.prices.rep_len(ps, len);
        if let Some((to, price, step)) = self.lit_rep0(
            p,
            price,
            node.state,
            node.reps,
            Some(op),
        ) {
            end = relax(
                nodes,
                end,
                cur,
                to,
                price,
                step,
                Ghost(relaxed_all(arrivals, cur as nat, so_far)),
            );
            proof {
                let e = Edge { to: to as nat, price: price as nat, step };
                lemma_tried_more(arrivals, cur as nat, so_far, e);
                assert(so_far.push(e) =~= done + task.rep_edges(
                    p as nat,
                    price0,
                    from,
                    index as nat,
                ));
            }
        } else {
            assert(so_far =~= done + task.rep_edges(p as nat, price0, from, index as nat));
        }
        end
    }

    /// Try one new match, for the lengths above the previous (closer)
    /// one's.
    fn expand_match(
        &self,
        p: usize,
        cur: usize,
        node: Node,
        m: Match,
        least: usize,
        nodes: &mut Vec<Node>,
        len_end: usize,
        Ghost(arrivals): Ghost<Seq<Arrival>>,
        Ghost(done): Ghost<Seq<Edge>>,
    ) -> (r: usize)
        requires
            self.can_expand(p, cur, node),
            match_ok(self.data@, self.finder.search().window, p as nat, m),
            2 <= least <= m.len,
            tried(old(nodes)@, old(nodes)@, len_end as nat, arrivals, cur as nat, done),
        ensures
            tried(
                final(nodes)@,
                old(nodes)@,
                r as nat,
                arrivals,
                cur as nat,
                done + Seq::new(
                    (m.len + 1 - least) as nat,
                    |j: int|
                        self.task().match_edge(
                            p as nat,
                            node.price as nat,
                            (node.state, node.reps@),
                            m.dist as nat,
                            (least + j) as nat,
                        ),
                ) + opt(
                    self.task().lit_rep0(
                        p as nat,
                        self.task().match_edge(
                            p as nat,
                            node.price as nat,
                            (node.state, node.reps@),
                            m.dist as nat,
                            m.len as nat,
                        ).price,
                        (node.state, node.reps@),
                        Some(Op::Match { dist: m.dist as usize, len: m.len as usize }),
                    ),
                ),
            ),
    {
        let ghost task = self.task();
        let ghost from = (node.state, node.reps@);
        let ghost price0 = node.price as nat;
        let ghost lens = Seq::new(
            (m.len + 1 - least) as nat,
            |j: int| task.match_edge(p as nat, price0, from, m.dist as nat, (least + j) as nat),
        );
        let ps: usize = self.pos_state(p);
        let base: u32 = node.price + price::new_match(self.m, node.state, ps);
        let dist: usize = m.dist as usize;
        let len: usize = m.len as usize;
        let mut end: usize = len_end;
        let mut price: u32 = 0;
        let mut l: usize = least;
        assert(done + lens.take(0) =~= done);
        while l <= len
            invariant
                self.wf(),
                2 <= least <= l <= len + 1,
                len <= 273,
                len == m.len,
                dist == m.dist,
                1 <= dist <= u32::MAX,
                cur < 4096,
                ps < self.prices.states(),
                ps == pos_state_of(self.m.props, p as nat),
                base <= 873 * 4096 + 194,
                task == self.task(),
                base == price0 + new_match_price(task.probs, from.0.0 as int, ps as int),
                lens == Seq::new(
                    (m.len + 1 - least) as nat,
                    |j: int|
                        task.match_edge(p as nat, price0, from, m.dist as nat, (least + j) as nat),
                ),
                price < 0x4000_0000,
                l > least ==> price == task.match_edge(
                    p as nat,
                    price0,
                    from,
                    m.dist as nat,
                    (l - 1) as nat,
                ).price,
                tried(
                    nodes@,
                    old(nodes)@,
                    end as nat,
                    arrivals,
                    cur as nat,
                    done + lens.take(l - least),
                ),
            decreases len + 1 - l,
        {
            let op = Op::Match { dist, len: l };
            price = base + self.prices.len(ps, l) + self.prices.dist((dist - 1) as u32, l);
            let ghost so_far = done + lens.take(l - least);
            end = relax(
                nodes,
                end,
                cur,
                l,
                price,
                Step::One(op),
                Ghost(relaxed_all(arrivals, cur as nat, so_far)),
            );
            proof {
                let e = Edge { to: l as nat, price: price as nat, step: Step::One(op) };
                lemma_tried_more(arrivals, cur as nat, so_far, e);
                assert(lens[l - least] == e);
                assert(so_far.push(e) =~= done + lens.take(l - least + 1));
            }
            l = l + 1;
        }
        let ghost so_far = done + lens;
        assert(done + lens.take(l - least) =~= so_far);
        let op = Op::Match { dist, len };
        if let Some((to, full, step)) = self.lit_rep0(
            p,
            price,
            node.state,
            node.reps,
            Some(op),
        ) {
            end = relax(
                nodes,
                end,
                cur,
                to,
                full,
                step,
                Ghost(relaxed_all(arrivals, cur as nat, so_far)),
            );
            proof {
                let e = Edge { to: to as nat, price: full as nat, step };
                lemma_tried_more(arrivals, cur as nat, so_far, e);
                assert(so_far.push(e) =~= so_far + opt(
                    task.lit_rep0(p as nat, price as nat, from, Some(op)),
                ));
            }
        } else {
            assert(so_far =~= so_far + opt(
                task.lit_rep0(p as nat, price as nat, from, Some(op)),
            ));
        }
        end
    }

    /// Try every way to go on from node `cur`, which stands at `p`.
    fn expand(
        &self,
        p: usize,
        cur: usize,
        node: Node,
        matches: &Vec<Match>,
        nodes: &mut Vec<Node>,
        len_end: usize,
        Ghost(arrivals): Ghost<Seq<Arrival>>,
    ) -> (r: usize)
        requires
            self.can_expand(p, cur, node),
            matches_ok(self.data@, self.finder.search().window, p as nat, matches@),
            shows(old(nodes)@, len_end as nat, arrivals),
            old(nodes)@.len() == 4644,
            cur <= len_end,
        ensures
            tried(
                final(nodes)@,
                old(nodes)@,
                r as nat,
                arrivals,
                cur as nat,
                self.task().edges(
                    p as nat,
                    node.price as nat,
                    (node.state, node.reps@),
                    matches@,
                ),
            ),
            r > cur,
            relaxed_all(
                arrivals,
                cur as nat,
                self.task().edges(
                    p as nat,
                    node.price as nat,
                    (node.state, node.reps@),
                    matches@,
                ),
            )[cur + 1].price <= node.price + 873,
    {
        let ghost task = self.task();
        let ghost from = (node.state, node.reps@);
        let ghost price0 = node.price as nat;
        proof {
            lemma_edges_ok(
                task,
                self.finder.search().window,
                p as nat,
                price0,
                from,
                matches@,
            );
            let es = task.edges(p as nat, price0, from, matches@);
            assert forall|i: int| 0 <= i < es.len() implies (#[trigger] es[i]).to >= 1 by {
                assert(edge_ok(task.data, p as nat, from, es[i]));
            }
            lemma_relaxed_all(arrivals, cur as nat, es);
        }
        let ghost lits = task.literal_edges(p as nat, price0, from);
        let mut end: usize = self.expand_literal(
            p,
            cur,
            node,
            nodes,
            len_end,
            Ghost(arrivals),
        );
        if self.data.len() - p < MATCH_MIN_LEN {
            proof {
                reveal(Task::edges);
                assert(lits + Seq::<Edge>::empty() =~= lits);
            }
            return end;
        }
        // Repeats of the four recent distances, every length.
        let mut index: usize = 0;
        assert(lits + task.all_rep_edges(p as nat, price0, from, 0) =~= lits);
        while index < 4
            invariant
                index <= 4,
                self.can_expand(p, cur, node),
                task == self.task(),
                from == (node.state, node.reps@),
                price0 == node.price,
                tried(
                    nodes@,
                    old(nodes)@,
                    end as nat,
                    arrivals,
                    cur as nat,
                    lits + task.all_rep_edges(p as nat, price0, from, index as nat),
                ),
            decreases 4 - index,
        {
            let ghost done = lits + task.all_rep_edges(p as nat, price0, from, index as nat);
            end = self.expand_rep(
                p,
                cur,
                node,
                index,
                nodes,
                end,
                Ghost(arrivals),
                Ghost(done),
            );
            proof {
                assert(done + task.rep_edges(p as nat, price0, from, index as nat) =~= lits
                    + task.all_rep_edges(p as nat, price0, from, (index + 1) as nat));
            }
            index = index + 1;
        }
        // New matches.
        let ghost reps = lits + task.all_rep_edges(p as nat, price0, from, 4);
        let mut k: usize = 0;
        assert(reps + task.match_edges(p as nat, price0, from, matches@, 0) =~= reps);
        while k < matches.len()
            invariant
                k <= matches@.len(),
                self.can_expand(p, cur, node),
                matches_ok(self.data@, self.finder.search().window, p as nat, matches@),
                task == self.task(),
                from == (node.state, node.reps@),
                price0 == node.price,
                tried(
                    nodes@,
                    old(nodes)@,
                    end as nat,
                    arrivals,
                    cur as nat,
                    reps + task.match_edges(p as nat, price0, from, matches@, k as nat),
                ),
            decreases matches@.len() - k,
        {
            let ghost done = reps + task.match_edges(p as nat, price0, from, matches@, k as nat);
            let m = matches[k];
            proof {
                let window = self.finder.search().window;
                assert(match_ok(self.data@, window, p as nat, matches@[k as int]));
                if k > 0 {
                    assert(matches@[k - 1].len < matches@[k as int].len);
                    assert(match_ok(self.data@, window, p as nat, matches@[k - 1]));
                }
            }
            let least: usize = if k == 0 {
                MATCH_MIN_LEN
            } else {
                matches[k - 1].len as usize + 1
            };
            end = self.expand_match(
                p,
                cur,
                node,
                m,
                least,
                nodes,
                end,
                Ghost(arrivals),
                Ghost(done),
            );
            proof {
                let lens = Seq::new(
                    (m.len + 1 - least) as nat,
                    |j: int|
                        task.match_edge(p as nat, price0, from, m.dist as nat, (least + j) as nat),
                );
                let last = opt(
                    task.lit_rep0(
                        p as nat,
                        task.match_edge(
                            p as nat,
                            price0,
                            from,
                            m.dist as nat,
                            m.len as nat,
                        ).price,
                        from,
                        Some(Op::Match { dist: m.dist as usize, len: m.len as usize }),
                    ),
                );
                assert(done + lens + last =~= reps + task.match_edges(
                    p as nat,
                    price0,
                    from,
                    matches@,
                    (k + 1) as nat,
                ));
            }
            k = k + 1;
        }
        proof {
            reveal(Task::edges);
            assert(reps + task.match_edges(p as nat, price0, from, matches@, matches@.len())
                =~= task.edges(p as nat, price0, from, matches@));
        }
        end
    }
}

/// The nodes hold the states and distances that have been settled.
spec fn shows_settled(nodes: Seq<Node>, settled: Seq<(State, Seq<u32>)>) -> bool {
    &&& settled.len() <= nodes.len()
    &&& forall|i: int|
        0 <= i < settled.len() ==> (#[trigger] settled[i]) == (nodes[i].state, nodes[i].reps@)
}

/// The cheapest path to node `cur`, written to `path`.
fn trace(
    nodes: &Vec<Node>,
    cur: usize,
    path: &mut Vec<Op>,
    Ghost(scan): Ghost<Scan>,
    Ghost(task): Ghost<Task>,
    Ghost(pos): Ghost<nat>,
    Ghost(from): Ghost<(State, Seq<u32>)>,
)
    requires
        scan.ok(task, pos, from),
        cur < scan.arrivals.len(),
        cur <= scan.settled.len(),
        cur == 0 || scan.arrivals[cur as int].price < u32::MAX,
        shows(nodes@, (scan.arrivals.len() - 1) as nat, scan.arrivals),
    ensures
        final(path)@ == scan.trace(cur as nat),
{
    // The tokens, last first.
    let mut rev: Vec<Op> = Vec::new();
    let mut i: usize = cur;
    assert(rev@.reverse() =~= Seq::<Op>::empty());
    assert(scan.trace(cur as nat) + rev@.reverse() =~= scan.trace(cur as nat));
    while i > 0
        invariant
            scan.ok(task, pos, from),
            i < scan.arrivals.len(),
            i <= scan.settled.len(),
            i == 0 || scan.arrivals[i as int].price < u32::MAX,
            shows(nodes@, (scan.arrivals.len() - 1) as nat, scan.arrivals),
            scan.trace(i as nat) + rev@.reverse() == scan.trace(cur as nat),
        decreases i,
    {
        let node = nodes[i];
        let ghost before = rev@;
        let ghost prev = scan.arrivals[i as int].prev;
        proof {
            assert(arrival_ok(task, pos, scan, i as int));
            if prev > 0 {
                assert(scan.arrivals[prev as int].price < u32::MAX);
            }
        }
        match node.step {
            Step::One(op) => {
                rev.push(op);
            },
            Step::LitRep0 { first, rep_len } => {
                rev.push(Op::Rep { index: 0, len: rep_len });
                rev.push(Op::Literal);
                if let Some(op) = first {
                    rev.push(op);
                }
            },
        }
        proof {
            assert(rev@.reverse() =~= node.step.ops() + before.reverse());
            assert(scan.trace(prev) + rev@.reverse() =~= scan.trace(i as nat) + before.reverse());
        }
        i = node.prev as usize;
    }
    path.clear();
    assert(scan.trace(0) + rev@.reverse() =~= rev@.reverse());
    assert(path@ + rev@.reverse() =~= rev@.reverse());
    while rev.len() > 0
        invariant
            path@ + rev@.reverse() == scan.trace(cur as nat),
        decreases rev@.len(),
    {
        let ghost p0 = path@;
        let ghost r0 = rev@;
        let op = rev.pop();
        if let Some(op) = op {
            path.push(op);
            assert(path@ + rev@.reverse() =~= p0 + r0.reverse());
        }
    }
    assert(path@ + rev@.reverse() =~= path@);
}

/// Between `from` and `to` no match of `nice_len` bytes is found.
#[verifier::opaque]
spec fn quiet(search: Search, nice_len: nat, from: nat, to: nat) -> bool {
    forall|p: nat| from < p < to ==> best_of(#[trigger] search.finds(p)) < nice_len
}

proof fn lemma_quiet(search: Search, nice_len: nat, from: nat, to: nat)
    requires
        quiet(search, nice_len, from, to),
        best_of(search.finds(to)) < nice_len,
    ensures
        quiet(search, nice_len, from, to + 1),
{
    reveal(quiet);
}

/// A long match is taken where there is one.
proof fn lemma_long_op(task: Task, reps: Seq<u32>, pos: nat, matches: Seq<Match>, window: nat)
    requires
        pos < task.data.len() < u32::MAX,
        task.nice_len >= 2,
        matches_ok(task.data, window, pos, matches),
    ensures
        match task.long_op(reps, pos, matches) {
            Some(op) => op.span() >= task.nice_len,
            None => best_of(matches) < task.nice_len,
        },
{
    lemma_longest_most(task, reps, pos, 0, (0, 0));
    if matches.len() > 0 {
        assert(matches[matches.len() - 1].len >= 2);
    }
}

/// The first tokens of several stand for no more than all.
proof fn lemma_span_take(ops: Seq<Op>, k: int)
    requires
        0 <= k <= ops.len(),
    ensures
        span(ops.take(k)) <= span(ops),
    decreases ops.len(),
{
    if k == ops.len() {
        assert(ops.take(k) =~= ops);
    } else {
        lemma_span_take(ops.drop_last(), k);
        assert(ops.drop_last().take(k) =~= ops.take(k));
    }
}

/// Of the tokens of a stretch only the first can start where a long match is
/// found.
proof fn lemma_path_long(search: Search, nice_len: nat, start: nat, path: Seq<Op>, k: int)
    requires
        0 <= k < path.len(),
        path[k].span() > 0,
        k > 0 ==> span(path.take(k)) > 0,
        best_of(search.finds(start)) >= nice_len ==> path[0].span() >= nice_len,
        path.len() > 1 ==> quiet(search, nice_len, start, start + span(path)),
    ensures
        best_of(search.finds(start + span(path.take(k)))) >= nice_len ==> path[k].span()
            >= nice_len,
{
    reveal(quiet);
    lemma_span_take(path, k + 1);
    let t = path.take(k + 1);
    assert(t.drop_last() =~= path.take(k));
    assert(t.last() == path[k]);
    if k == 0 {
        assert(path.take(0) =~= Seq::<Op>::empty());
        assert(start + span(path.take(0)) == start);
    }
}

/// Find the cheapest ops for the stretch starting at `pos` and put them in
/// `path`. `matches` holds the matches at `pos`. Returns true if it now
/// holds the matches at the end of the stretch.
fn stretch(
    enc: &Encoder,
    prices: &Prices,
    finder: &mut MatchFinder,
    pos: usize,
    matches: &mut Vec<Match>,
    nodes: &mut Vec<Node>,
    path: &mut Vec<Op>,
    nice_len: usize,
    Ghost(task): Ghost<Task>,
) -> (r: bool)
    requires
        enc.wf(),
        pos == enc.pos(),
        pos < enc.data@.len(),
        prices.wf(),
        prices.states() == pow2(enc.m.props.pb as nat),
        old(finder).wf(),
        old(finder).search().data == enc.data@,
        old(finder).position() <= pos,
        old(matches)@ == old(finder).search().finds(pos as nat),
        old(nodes)@.len() == 4644,
        nice_len >= 2,
        task == (Task {
            data: enc.data@,
            props: enc.m.props,
            probs: enc.m.probs@,
            seen: prices.seen(),
            nice_len: nice_len as nat,
        }),
    ensures
        final(finder).wf(),
        final(finder).search() == old(finder).search(),
        final(nodes)@.len() == 4644,
        (final(path)@, r) == stretch_of(
            task,
            old(finder).search(),
            pos as nat,
            (enc.state, enc.reps@),
        ),
        describes(enc.data@, pos as nat, (enc.state, enc.reps@), final(path)@),
        final(path)@.len() > 0,
        final(finder).position() <= pos + span(final(path)@),
        best_of(old(matches)@) >= nice_len ==> final(path)@[0].span() >= nice_len,
        final(path)@.len() > 1 ==> quiet(
            old(finder).search(),
            nice_len as nat,
            pos as nat,
            pos as nat + span(final(path)@),
        ),
        r ==> final(matches)@ == old(finder).search().finds(pos as nat + span(final(path)@)),
{
    reveal(stretch_of);
    let data = enc.data;
    let ghost search = finder.search();
    let ghost from = (enc.state, enc.reps@);
    proof {
        enc.lemma_history();
        search.lemma_finds(pos as nat);
    }
    // A long enough repeat or match at the start: take it, no search.
    if let Some(op) = long_op(data, finder, pos, &enc.reps, matches, nice_len, Ghost(task)) {
        path.clear();
        path.push(op);
        proof {
            lemma_long_op(task, from.1, pos as nat, matches@, search.window);
            lemma_describes_one(data@, pos as nat, from, op);
            assert(path@ =~= seq![op]);
        }
        return false;
    }
    nodes[0] = Node {
        price: 0,
        prev: 0,
        step: Step::One(Op::Literal),
        state: enc.state,
        reps: enc.reps,
    };
    // Nodes 1..=len_end have been reached.
    let mut len_end: usize = 0;
    let mut cur: usize = 0;
    let mut carried: bool = false;
    let ghost mut scan = scan_start(from);
    let ghost target = scan.run(task, search, pos as nat, matches@);
    proof {
        assert(scan.ok(task, pos as nat, from));
        lemma_long_op(task, from.1, pos as nat, matches@, search.window);
        reveal(quiet);
    }
    loop
        invariant_except_break
            quiet(search, nice_len as nat, pos as nat, (pos + cur + 1) as nat),
            scan.run(task, search, pos as nat, matches@) == target,
            scan.settled.len() == cur + 1,
            cur == 0 || cur < len_end,
            cur < 4096,
            nodes@[cur as int].price <= 873 * cur,
            !carried,
            matches_ok(data@, search.window, (pos + cur) as nat, matches@),
            finder.position() <= pos + cur,
            pos + cur < data@.len(),
        invariant
            enc.wf(),
            enc.data@ == data@,
            finder.wf(),
            finder.search() == search,
            search == old(finder).search(),
            search.data == data@,
            data@.len() < u32::MAX,
            prices.wf(),
            prices.states() == pow2(enc.m.props.pb as nat),
            nice_len >= 2,
            nodes@.len() == 4644,
            task == (Task {
                data: data@,
                props: enc.m.props,
                probs: enc.m.probs@,
                seen: prices.seen(),
                nice_len: nice_len as nat,
            }),
            scan.ok(task, pos as nat, from),
            shows(nodes@, len_end as nat, scan.arrivals),
            shows_settled(nodes@, scan.settled),
            quiet(search, nice_len as nat, pos as nat, (pos + cur) as nat),
        ensures
            target == (scan, cur as nat, carried),
            cur > 0,
            cur == scan.settled.len(),
            cur <= len_end,
            scan.arrivals[cur as int].price < u32::MAX,
            finder.position() <= pos + cur,
            carried ==> matches@ == search.finds((pos + cur) as nat),
        decreases 4096 - cur,
    {
        let p: usize = pos + cur;
        let node = nodes[cur];
        let ghost expanded = scan.expanded(task, pos as nat, matches@);
        proof {
            assert(scan.settled[cur as int] == (node.state, node.reps@));
            scan.lemma_settled(task, pos as nat, from, cur as nat);
            lemma_expanded(scan, task, search.window, pos as nat, from, matches@);
        }
        let ctx = Ctx { data, m: &enc.m, prices, finder: &*finder, nice_len };
        let ghost before = nodes@;
        len_end = ctx.expand(p, cur, node, matches, nodes, len_end, Ghost(scan.arrivals));
        proof {
            scan = expanded;
            assert forall|i: int| 0 <= i < scan.settled.len() implies (#[trigger] scan.settled[i])
                == (nodes@[i].state, nodes@[i].reps@) by {
                assert(nodes@[i].state == before[i].state);
            }
        }
        cur = cur + 1;
        if cur == len_end || cur >= OPT_LEN {
            break ;
        }
        let mut next = nodes[cur];
        proof {
            assert(arrival_ok(task, pos as nat, scan, cur as int));
            let prev = scan.arrivals[cur as int].prev;
            lemma_step_fits(data@, pos as nat + prev, scan.settled[prev as int], next.step);
            lemma_advanced(scan, task, pos as nat, from);
        }
        let source = nodes[next.prev as usize];
        let (state, reps) = apply_step(source.state, source.reps, next.step);
        next.state = state;
        next.reps = reps;
        let ghost before = nodes@;
        nodes[cur] = next;
        let ghost ahead = scan.advanced();
        proof {
            assert(scan.settled[next.prev as int] == (source.state, source.reps@));
            assert(ahead.settled[cur as int] == (state, reps@));
            assert forall|i: int| 0 <= i < ahead.settled.len() implies (#[trigger] ahead.settled[i])
                == (nodes@[i].state, nodes@[i].reps@) by {
                if i < cur {
                    assert(scan.settled[i] == (before[i].state, before[i].reps@));
                }
            }
            assert(shows(nodes@, len_end as nat, scan.arrivals)) by {
                assert forall|j: int| 0 <= j <= len_end implies (#[trigger] nodes@[j]).price
                    == scan.arrivals[j].price by {
                    assert(before[j].price == scan.arrivals[j].price);
                }
                assert forall|j: int|
                    0 < j <= len_end && (#[trigger] nodes@[j]).price < u32::MAX implies nodes@[j].prev
                    == scan.arrivals[j].prev && nodes@[j].step == scan.arrivals[j].step by {
                    assert(before[j].price == scan.arrivals[j].price);
                }
            }
            ahead.lemma_settled(task, pos as nat, from, cur as nat);
        }
        finder.find(pos + cur, matches);
        if long_op(data, finder, pos + cur, &reps, matches, nice_len, Ghost(task)).is_some() {
            // Stop here; the next stretch starts with it.
            carried = true;
            assert(shows_settled(nodes@, scan.settled)) by {
                assert forall|i: int| 0 <= i < scan.settled.len() implies (
                #[trigger] scan.settled[i]) == (nodes@[i].state, nodes@[i].reps@) by {
                    assert(ahead.settled[i] == scan.settled[i]);
                }
            }
            break ;
        }
        proof {
            lemma_long_op(task, reps@, (pos + cur) as nat, matches@, search.window);
            lemma_quiet(search, nice_len as nat, pos as nat, (pos + cur) as nat);
            scan = ahead;
        }
    }
    trace(nodes, cur, path, Ghost(scan), Ghost(task), Ghost(pos as nat), Ghost(from));
    proof {
        scan.lemma_trace(task, pos as nat, from, cur as nat);
    }
    carried
}

/// The tokens that the optimal parser codes after `ops`, all in all:
/// stretch by stretch, with the price tables refreshed at a stretch's start
/// once enough tokens have been coded.
pub open spec fn optimal_ops(
    props: Props,
    search: Search,
    nice_len: nat,
    ops: Seq<Op>,
    seen: Seq<u16>,
    since_refresh: nat,
) -> Seq<Op>
    decreases
        if after_ops(props, search.data, ops).pos < search.data.len() {
            search.data.len() - after_ops(props, search.data, ops).pos
        } else {
            0
        },
{
    let at = after_ops(props, search.data, ops);
    if at.pos >= search.data.len() {
        ops
    } else {
        let stale = since_refresh >= 64;
        let seen = if stale {
            at.c.probs
        } else {
            seen
        };
        let task = Task { data: search.data, props, probs: at.c.probs, seen, nice_len };
        let path = stretch_of(task, search, at.pos, (at.state, at.reps)).0;
        if after_ops(props, search.data, ops + path).pos <= at.pos {
            ops
        } else {
            optimal_ops(
                props,
                search,
                nice_len,
                ops + path,
                seen,
                if stale {
                    path.len()
                } else {
                    since_refresh + path.len()
                },
            )
        }
    }
}

/// Code everything, along the cheapest path of each stretch.
pub fn parse(enc: &mut Encoder, finder: &mut MatchFinder, nice_len: usize)
    requires
        old(enc).wf(),
        old(enc).ops@ == Seq::<Op>::empty(),
        old(finder).wf(),
        old(finder).search().data == old(enc).data@,
        old(finder).position() == 0,
        nice_len >= 2,
    ensures
        final(enc).wf(),
        final(enc).data@ == old(enc).data@,
        final(enc).m.props == old(enc).m.props,
        final(enc).pos() == final(enc).data@.len(),
        final(enc).ops@ == optimal_ops(
            old(enc).m.props,
            old(finder).search(),
            nice_len as nat,
            Seq::empty(),
            old(enc).m.probs@,
            0,
        ),
        takes_long(
            old(enc).m.props,
            old(finder).search(),
            nice_len as nat,
            final(enc).ops@,
        ),
{
    let ghost props = enc.m.props;
    let ghost search = finder.search();
    let ghost target = optimal_ops(
        props,
        search,
        nice_len as nat,
        Seq::empty(),
        enc.m.probs@,
        0,
    );
    let mut prices = Prices::new(&enc.m);
    let mut since_refresh: usize = 0;
    // Room for the longest edge (match + literal + rep) past the last node.
    let blank = Node {
        price: 0,
        prev: 0,
        step: Step::One(Op::Literal),
        state: State(0),
        reps: [0, 0, 0, 0],
    };
    let mut nodes: Vec<Node> = Vec::new();
    while nodes.len() < OPT_LEN + 2 * MATCH_MAX_LEN + 2
        invariant
            nodes@.len() <= 4644,
        decreases 4644 - nodes@.len(),
    {
        nodes.push(blank);
    }
    let mut matches: Vec<Match> = Vec::new();
    let mut path: Vec<Op> = Vec::new();
    // `matches` already holds the search for `pos`.
    let mut have_matches: bool = false;
    let mut pos: usize = 0;
    proof {
        reveal(takes_long);
    }
    while pos < enc.data.len()
        invariant
            enc.wf(),
            enc.data@ == old(enc).data@,
            enc.m.props == props,
            enc.pos() == pos,
            pos <= enc.data@.len(),
            prices.wf(),
            prices.states() == pow2(props.pb as nat),
            since_refresh <= pos,
            finder.wf(),
            finder.search() == search,
            search.data == enc.data@,
            finder.position() <= pos,
            nodes@.len() == 4644,
            have_matches ==> matches@ == search.finds(pos as nat),
            nice_len >= 2,
            optimal_ops(
                props,
                search,
                nice_len as nat,
                enc.ops@,
                prices.seen(),
                since_refresh as nat,
            ) == target,
            takes_long(props, search, nice_len as nat, enc.ops@),
        decreases enc.data@.len() - pos,
    {
        let ghost before = enc.ops@;
        let ghost seen0 = prices.seen();
        let ghost since0 = since_refresh as nat;
        if since_refresh >= PRICE_REFRESH {
            prices.update(&enc.m);
            since_refresh = 0;
        }
        if !have_matches {
            finder.find(pos, &mut matches);
        }
        let ghost task = Task {
            data: enc.data@,
            props,
            probs: enc.m.probs@,
            seen: prices.seen(),
            nice_len: nice_len as nat,
        };
        let ghost from = (enc.state, enc.reps@);
        let ghost found = matches@;
        have_matches = stretch(
            enc,
            &prices,
            finder,
            pos,
            &mut matches,
            &mut nodes,
            &mut path,
            nice_len,
            Ghost(task),
        );
        let ghost start = pos as nat;
        let ghost since1 = since_refresh as nat;
        let mut k: usize = 0;
        proof {
            assert(path@.take(0) =~= Seq::<Op>::empty());
            assert(before + path@.take(0) =~= before);
        }
        while k < path.len()
            invariant
                k <= path@.len(),
                enc.wf(),
                enc.data@ == old(enc).data@,
                enc.m.props == props,
                enc.pos() == pos,
                pos <= enc.data@.len(),
                since_refresh == since1 + k,
                since_refresh <= pos,
                describes(enc.data@, start, from, path@),
                pos == start + span(path@.take(k as int)),
                (enc.state, enc.reps@) == walked(from, path@.take(k as int)),
                enc.ops@ == before + path@.take(k as int),
                k > 0 ==> pos > start,
                takes_long(props, search, nice_len as nat, enc.ops@),
                found == search.finds(start),
                best_of(found) >= nice_len ==> path@[0].span() >= nice_len,
                path@.len() > 1 ==> quiet(
                    search,
                    nice_len as nat,
                    start,
                    start + span(path@),
                ),
                search.data == enc.data@,
            decreases path@.len() - k,
        {
            let op = path[k];
            proof {
                let t = path@.take(k + 1);
                lemma_describes_prefix(enc.data@, start, from, path@, k + 1);
                assert(t.drop_last() =~= path@.take(k as int));
                assert(t.last() == op);
                enc.lemma_history();
                lemma_next_ok(enc.state, enc.reps@, enc.data@, pos as nat, op);
                assert((before + path@.take(k as int)).push(op) =~= before + t);
                assert((before + t).drop_last() =~= before + path@.take(k as int));
                lemma_path_long(search, nice_len as nat, start, path@, k as int);
                lemma_takes_long(props, search, nice_len as nat, enc.ops@, op);
            }
            enc.emit(pos, op);
            pos = pos + op.len();
            since_refresh = since_refresh + 1;
            k = k + 1;
        }
        proof {
            assert(path@.take(k as int) =~= path@);
            assert(after_ops(props, search.data, before).pos == start);
        }
    }
}

} // verus!
