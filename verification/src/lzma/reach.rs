//! No match reaches further back than the dictionary that the header
//! announces.
use crate::lzma::Props;
use crate::lzma::State;
use crate::lzma::default_props;
use crate::lzma::encode::Choice;
use crate::lzma::encode::Options;
use crate::lzma::encode::Parse;
use crate::lzma::encode::dict_size_for;
use crate::lzma::encode::fast_choice;
use crate::lzma::encode::fast_op;
use crate::lzma::encode::is_parse;
use crate::lzma::encode::nice_len_of;
use crate::lzma::encode::room_at;
use crate::lzma::encode::search_of;
use crate::lzma::encode::stepped_down;
use crate::lzma::format::Op;
use crate::lzma::format::after_ops;
use crate::lzma::fresh;
use crate::lzma::matchfinder::Match;
use crate::lzma::matchfinder::Search;
use crate::lzma::matchfinder::found_at;
use crate::lzma::matchfinder::len_against;
use crate::lzma::optimal::Arrival;
use crate::lzma::optimal::Edge;
use crate::lzma::optimal::Scan;
use crate::lzma::optimal::Step;
use crate::lzma::optimal::Task;
use crate::lzma::optimal::opt;
use crate::lzma::optimal::optimal_ops;
use crate::lzma::optimal::relaxed_all;
use crate::lzma::optimal::scan_start;
use crate::lzma::optimal::shortest;
use crate::lzma::optimal::stretch_of;
use vstd::prelude::*;

verus! {

/// A new match reaches no further back than `window`.
pub open spec fn near(window: nat, op: Op) -> bool {
    match op {
        Op::Match { dist, .. } => dist <= window,
        _ => true,
    }
}

/// No token reaches further back than `window`.
pub open spec fn all_near(window: nat, ops: Seq<Op>) -> bool {
    forall|k: int| 0 <= k < ops.len() ==> near(window, #[trigger] ops[k])
}

spec fn matches_near(window: nat, matches: Seq<Match>) -> bool {
    forall|k: int| 0 <= k < matches.len() ==> (#[trigger] matches[k]).dist <= window
}

/// A search keeps to its window.
proof fn lemma_finds_near(search: Search, pos: nat)
    requires
        search.data.len() < u32::MAX,
    ensures
        matches_near(search.window, search.finds(pos)),
{
    if pos <= search.data.len() {
        search.lemma_finds(pos);
    } else {
        reveal(found_at);
    }
}

// The fast parser.

proof fn lemma_stepped_near(window: nat, matches: Seq<Match>, i: int, len: nat, dist: nat)
    requires
        matches_near(window, matches),
        i < matches.len(),
        dist <= window,
        dist <= u32::MAX,
    ensures
        stepped_down(matches, i, len, dist).1 <= window,
        stepped_down(matches, i, len, dist).1 <= u32::MAX,
    decreases i + 1,
{
    if i >= 0 {
        lemma_stepped_near(window, matches, i - 1, matches[i].len as nat, matches[i].dist as nat);
    }
}

proof fn lemma_fast_near(
    window: nat,
    data: Seq<u8>,
    reps: Seq<u32>,
    matches: Seq<Match>,
    next: Seq<Match>,
    pos: nat,
    nice_len: nat,
)
    requires
        matches_near(window, matches),
    ensures
        fast_choice(data, reps, matches, next, pos, nice_len) matches Choice::Match { dist, .. }
            ==> dist <= window,
{
    if matches.len() > 0 {
        assert(matches[matches.len() - 1].dist <= window);
        lemma_stepped_near(
            window,
            matches,
            matches.len() - 2,
            matches.last().len as nat,
            matches.last().dist as nat,
        );
    }
}

// The optimal parser.

spec fn edges_near(window: nat, es: Seq<Edge>) -> bool {
    forall|i: int| 0 <= i < es.len() ==> all_near(window, (#[trigger] es[i]).step.ops())
}

spec fn arrivals_near(window: nat, arrivals: Seq<Arrival>) -> bool {
    forall|i: int|
        0 <= i < arrivals.len() ==> all_near(window, (#[trigger] arrivals[i]).step.ops())
}

proof fn lemma_edges_join(window: nat, a: Seq<Edge>, b: Seq<Edge>)
    requires
        edges_near(window, a),
        edges_near(window, b),
    ensures
        edges_near(window, a + b),
{
    assert forall|i: int| 0 <= i < (a + b).len() implies all_near(
        window,
        (#[trigger] (a + b)[i]).step.ops(),
    ) by {
        if i < a.len() {
            assert((a + b)[i] == a[i]);
        } else {
            assert((a + b)[i] == b[i - a.len()]);
        }
    }
}

proof fn lemma_lit_rep0_near(
    window: nat,
    task: Task,
    p: nat,
    price: nat,
    from: (State, Seq<u32>),
    first: Option<Op>,
)
    requires
        first matches Some(op) ==> near(window, op),
    ensures
        edges_near(window, opt(task.lit_rep0(p, price, from, first))),
{
}

proof fn lemma_rep_edges_near(
    window: nat,
    task: Task,
    p: nat,
    price: nat,
    from: (State, Seq<u32>),
    n: nat,
)
    ensures
        edges_near(window, task.all_rep_edges(p, price, from, n)),
    decreases n,
{
    if n > 0 {
        let index = (n - 1) as nat;
        lemma_rep_edges_near(window, task, p, price, from, index);
        let es = task.rep_edges(p, price, from, index);
        assert(edges_near(window, es)) by {
            if es.len() > 0 {
                let len = len_against(
                    task.data,
                    p,
                    (from.1[index as int] + 1) as nat,
                    room_at(task.data, p),
                );
                let op = Op::Rep { index: index as usize, len: len as usize };
                let own = Seq::new(
                    (len - 1) as nat,
                    |j: int| task.rep_edge(p, price, from, index, (j + 2) as nat),
                );
                let tail = task.lit_rep0(
                    p,
                    task.rep_edge(p, price, from, index, len).price,
                    from,
                    Some(op),
                );
                lemma_lit_rep0_near(
                    window,
                    task,
                    p,
                    task.rep_edge(p, price, from, index, len).price,
                    from,
                    Some(op),
                );
                lemma_edges_join(window, own, opt(tail));
            }
        }
        lemma_edges_join(window, task.all_rep_edges(p, price, from, index), es);
    }
}

proof fn lemma_match_edges_near(
    window: nat,
    task: Task,
    p: nat,
    price: nat,
    from: (State, Seq<u32>),
    matches: Seq<Match>,
    n: nat,
)
    requires
        matches_near(window, matches),
        n <= matches.len(),
    ensures
        edges_near(window, task.match_edges(p, price, from, matches, n)),
    decreases n,
{
    if n > 0 {
        let m = matches[n - 1];
        let least = shortest(matches, n - 1);
        let before = task.match_edges(p, price, from, matches, (n - 1) as nat);
        lemma_match_edges_near(window, task, p, price, from, matches, (n - 1) as nat);
        let own = Seq::new(
            (m.len + 1 - least) as nat,
            |j: int| task.match_edge(p, price, from, m.dist as nat, (least + j) as nat),
        );
        let op = Op::Match { dist: m.dist as usize, len: m.len as usize };
        let at = task.match_edge(p, price, from, m.dist as nat, m.len as nat).price;
        lemma_lit_rep0_near(window, task, p, at, from, Some(op));
        lemma_edges_join(window, before, own);
        lemma_edges_join(window, before + own, opt(task.lit_rep0(p, at, from, Some(op))));
    }
}

proof fn lemma_edges_near(
    window: nat,
    task: Task,
    p: nat,
    price: nat,
    from: (State, Seq<u32>),
    matches: Seq<Match>,
)
    requires
        matches_near(window, matches),
    ensures
        edges_near(window, task.edges(p, price, from, matches)),
{
    reveal(Task::edges);
    let first = task.literal_edges(p, price, from);
    assert(edges_near(window, first)) by {
        lemma_lit_rep0_near(window, task, p, price, from, None);
        let tail = opt(task.lit_rep0(p, price, from, None));
        let own = first.take(first.len() - tail.len());
        assert(first =~= own + tail);
        lemma_edges_join(window, own, tail);
    }
    let reps = task.all_rep_edges(p, price, from, 4);
    let found = task.match_edges(p, price, from, matches, matches.len());
    lemma_rep_edges_near(window, task, p, price, from, 4);
    lemma_match_edges_near(window, task, p, price, from, matches, matches.len());
    lemma_edges_join(window, reps, found);
    lemma_edges_join(window, first, reps + found);
    assert(first + Seq::<Edge>::empty() =~= first);
}

proof fn lemma_relaxed_near(window: nat, arrivals: Seq<Arrival>, cur: nat, edges: Seq<Edge>)
    requires
        arrivals_near(window, arrivals),
        edges_near(window, edges),
    ensures
        arrivals_near(window, relaxed_all(arrivals, cur, edges)),
    decreases edges.len(),
{
    if edges.len() > 0 {
        let before = edges.drop_last();
        assert(edges_near(window, before)) by {
            assert forall|i: int| 0 <= i < before.len() implies all_near(
                window,
                (#[trigger] before[i]).step.ops(),
            ) by {
                assert(before[i] == edges[i]);
            }
        }
        lemma_relaxed_near(window, arrivals, cur, before);
        let known = relaxed_all(arrivals, cur, before);
        let out = relaxed_all(arrivals, cur, edges);
        let e = edges[edges.len() - 1];
        assert(all_near(window, e.step.ops()));
        assert(all_near(window, Step::One(Op::Literal).ops()));
        assert forall|i: int| 0 <= i < out.len() implies all_near(
            window,
            (#[trigger] out[i]).step.ops(),
        ) by {
            if i < known.len() {
                assert(all_near(window, known[i].step.ops()));
            }
        }
    }
}

/// Every edge that was tried has a node to lead to.
proof fn lemma_relaxed_reaches(arrivals: Seq<Arrival>, cur: nat, edges: Seq<Edge>)
    ensures
        edges.len() > 0 ==> relaxed_all(arrivals, cur, edges).len() > cur + edges[0].to,
    decreases edges.len(),
{
    if edges.len() > 0 {
        let before = edges.drop_last();
        lemma_relaxed_reaches(arrivals, cur, before);
        if before.len() > 0 {
            assert(before[0] == edges[0]);
        }
    }
}

proof fn lemma_run_near(
    window: nat,
    scan: Scan,
    task: Task,
    search: Search,
    pos: nat,
    matches: Seq<Match>,
)
    requires
        search.window == window,
        search.data.len() < u32::MAX,
        matches_near(window, matches),
        arrivals_near(window, scan.arrivals),
        scan.settled.len() > 0,
    ensures
        ({
            let (s, end, carried) = scan.run(task, search, pos, matches);
            arrivals_near(window, s.arrivals) && end < s.arrivals.len()
        }),
    decreases 4097 - scan.settled.len(),
{
    let cur = scan.cur();
    let es = task.edges(
        pos + cur,
        scan.arrivals[cur as int].price,
        scan.settled[cur as int],
        matches,
    );
    lemma_edges_near(
        window,
        task,
        pos + cur,
        scan.arrivals[cur as int].price,
        scan.settled[cur as int],
        matches,
    );
    lemma_relaxed_near(window, scan.arrivals, cur, es);
    assert(es.len() > 0 && es[0].to == 1) by {
        reveal(Task::edges);
    }
    lemma_relaxed_reaches(scan.arrivals, cur, es);
    let s = scan.expanded(task, pos, matches);
    let next = scan.settled.len();
    if !(next + 1 == s.arrivals.len() || next >= 4096) {
        let found = search.finds(pos + next);
        lemma_finds_near(search, pos + next);
        lemma_run_near(window, s.advanced(), task, search, pos, found);
    }
}

proof fn lemma_trace_near(window: nat, scan: Scan, i: nat)
    requires
        arrivals_near(window, scan.arrivals),
        i < scan.arrivals.len(),
    ensures
        all_near(window, scan.trace(i)),
    decreases i,
{
    if i > 0 && scan.arrivals[i as int].prev < i {
        lemma_trace_near(window, scan, scan.arrivals[i as int].prev);
        assert(all_near(window, scan.arrivals[i as int].step.ops()));
    }
}

/// The tokens of a stretch.
proof fn lemma_stretch_near(task: Task, search: Search, pos: nat, from: (State, Seq<u32>))
    requires
        search.data.len() < u32::MAX,
    ensures
        all_near(search.window, stretch_of(task, search, pos, from).0),
{
    reveal(stretch_of);
    let found = search.finds(pos);
    lemma_finds_near(search, pos);
    match task.long_op(from.1, pos, found) {
        Some(op) => {
            if found.len() > 0 {
                assert(found[found.len() - 1].dist <= search.window);
            }
        },
        None => {
            let start = scan_start(from);
            lemma_run_near(search.window, start, task, search, pos, found);
            let (s, end, carried) = start.run(task, search, pos, found);
            lemma_trace_near(search.window, s, end);
        },
    }
}

proof fn lemma_optimal_near(
    props: Props,
    search: Search,
    nice_len: nat,
    ops: Seq<Op>,
    seen: Seq<u16>,
    since_refresh: nat,
)
    requires
        search.data.len() < u32::MAX,
        all_near(search.window, ops),
    ensures
        all_near(
            search.window,
            optimal_ops(props, search, nice_len, ops, seen, since_refresh),
        ),
    decreases
        if after_ops(props, search.data, ops).pos < search.data.len() {
            search.data.len() - after_ops(props, search.data, ops).pos
        } else {
            0
        },
{
    let at = after_ops(props, search.data, ops);
    if at.pos < search.data.len() {
        let stale = since_refresh >= 64;
        let now = if stale {
            at.c.probs
        } else {
            seen
        };
        let task = Task { data: search.data, props, probs: at.c.probs, seen: now, nice_len };
        let path = stretch_of(task, search, at.pos, (at.state, at.reps)).0;
        lemma_stretch_near(task, search, at.pos, (at.state, at.reps));
        if after_ops(props, search.data, ops + path).pos > at.pos {
            lemma_optimal_near(
                props,
                search,
                nice_len,
                ops + path,
                now,
                if stale {
                    path.len()
                } else {
                    since_refresh + path.len()
                },
            );
        }
    }
}

/// A decoder that keeps as many bytes as the header announces can follow
/// every match.
pub proof fn matches_stay_in_dictionary(input: Seq<u8>, opts: Options, ops: Seq<Op>)
    requires
        input.len() < u32::MAX,
        is_parse(input, opts, ops),
    ensures
        all_near(dict_size_for(opts.dict_size, input.len()), ops),
{
    let props = default_props();
    let search = search_of(input, opts);
    match opts.parse {
        Parse::Fast => {
            assert forall|k: int| 0 <= k < ops.len() implies near(
                search.window,
                #[trigger] ops[k],
            ) by {
                reveal(fast_op);
                let at = after_ops(props, input, ops.take(k));
                let found = search.finds(at.pos);
                lemma_finds_near(search, at.pos);
                lemma_fast_near(
                    search.window,
                    input,
                    at.reps,
                    found,
                    search.finds(at.pos + 1),
                    at.pos,
                    nice_len_of(opts),
                );
            }
        },
        Parse::Optimal => {
            lemma_optimal_near(
                props,
                search,
                nice_len_of(opts),
                Seq::empty(),
                fresh(props),
                0,
            );
        },
    }
}

} // verus!
