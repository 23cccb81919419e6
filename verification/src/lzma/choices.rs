//! What the parsers must not pass over, and the settings they work with.
use crate::bits::lemma_ilog2;
use crate::lz77::lemma_common;
use crate::lzma::encode::best_rep;
use crate::lzma::encode::default_options;
use crate::lzma::encode::dict_size_for;
use crate::lzma::encode::fast_choice;
use crate::lzma::encode::main_match;
use crate::lzma::encode::next_power_of_two;
use crate::lzma::encode::rep_reaches;
use crate::lzma::encode::room_at;
use crate::lzma::encode::stepped_down;
use crate::lzma::format::Op;
use crate::lzma::matchfinder::best_of;
use crate::lzma::matchfinder::len_against;
use crate::lzma::matchfinder::Match;
use crate::lzma::matchfinder::Search;
use crate::lzma::optimal::opt;
use crate::lzma::optimal::shortest;
use crate::lzma::optimal::stretch_of;
use crate::lzma::optimal::Edge;
use crate::lzma::optimal::Step;
use crate::lzma::optimal::Task;
use crate::lzma::State;
use crate::nums::lemma_pow2_values;
use crate::lzma::default_props;
use crate::lzma::encode::is_parse;
use crate::lzma::encode::nice_len_of;
use crate::lzma::encode::search_of;
use crate::lzma::encode::takes_long;
use crate::lzma::encode::Options;
use crate::lzma::found::repeat_at;
use crate::lzma::found::repeats_are_found;
use crate::lzma::found::sharing;
use crate::lzma::format::after_ops;
use crate::lzma::matchfinder::key;
use vstd::arithmetic::power2::lemma_pow2_pos;
use vstd::arithmetic::power2::lemma_pow2_unfold;
use vstd::prelude::*;

verus! {

/// One of the ways to go on takes these tokens to `to`.
pub open spec fn offered(edges: Seq<Edge>, to: nat, step: Step) -> bool {
    exists|k: int| 0 <= k < edges.len() && (#[trigger] edges[k]).to == to && edges[k].step == step
}

proof fn lemma_offered(a: Seq<Edge>, b: Seq<Edge>, to: nat, step: Step)
    requires
        offered(a, to, step) || offered(b, to, step),
    ensures
        offered(a + b, to, step),
{
    if offered(a, to, step) {
        let k = choose|k: int|
            0 <= k < a.len() && (#[trigger] a[k]).to == to && a[k].step == step;
        assert((a + b)[k] == a[k]);
    } else {
        let k = choose|k: int|
            0 <= k < b.len() && (#[trigger] b[k]).to == to && b[k].step == step;
        assert((a + b)[a.len() + k] == b[k]);
    }
}

proof fn lemma_rep_offered(
    task: Task,
    p: nat,
    price: nat,
    from: (State, Seq<u32>),
    n: nat,
    index: nat,
    len: nat,
)
    requires
        index < n <= 4,
        2 <= len <= len_against(
            task.data,
            p,
            (from.1[index as int] + 1) as nat,
            room_at(task.data, p),
        ),
    ensures
        offered(
            task.all_rep_edges(p, price, from, n),
            len,
            Step::One(Op::Rep { index: index as usize, len: len as usize }),
        ),
    decreases n,
{
    let step = Step::One(Op::Rep { index: index as usize, len: len as usize });
    let before = task.all_rep_edges(p, price, from, (n - 1) as nat);
    let here = task.rep_edges(p, price, from, (n - 1) as nat);
    if index == n - 1 {
        let most = len_against(
            task.data,
            p,
            (from.1[index as int] + 1) as nat,
            room_at(task.data, p),
        );
        let plain = Seq::new(
            (most - 1) as nat,
            |j: int| task.rep_edge(p, price, from, index, (j + 2) as nat),
        );
        assert(plain[len - 2] == task.rep_edge(p, price, from, index, len));
        assert(offered(plain, len, step));
        lemma_offered(
            plain,
            opt(
                task.lit_rep0(
                    p,
                    task.rep_edge(p, price, from, index, most).price,
                    from,
                    Some(Op::Rep { index: index as usize, len: most as usize }),
                ),
            ),
            len,
            step,
        );
    } else {
        lemma_rep_offered(task, p, price, from, (n - 1) as nat, index, len);
    }
    lemma_offered(before, here, len, step);
}

proof fn lemma_match_offered(
    task: Task,
    p: nat,
    price: nat,
    from: (State, Seq<u32>),
    matches: Seq<Match>,
    n: nat,
    k: nat,
    len: nat,
)
    requires
        k < n <= matches.len(),
        shortest(matches, k as int) <= len <= matches[k as int].len,
    ensures
        offered(
            task.match_edges(p, price, from, matches, n),
            len,
            Step::One(Op::Match { dist: matches[k as int].dist as usize, len: len as usize }),
        ),
    decreases n,
{
    let step = Step::One(
        Op::Match { dist: matches[k as int].dist as usize, len: len as usize },
    );
    let before = task.match_edges(p, price, from, matches, (n - 1) as nat);
    let m = matches[n - 1];
    let least = shortest(matches, n - 1);
    let plain = Seq::new(
        (m.len + 1 - least) as nat,
        |j: int| task.match_edge(p, price, from, m.dist as nat, (least + j) as nat),
    );
    let more = opt(
        task.lit_rep0(
            p,
            task.match_edge(p, price, from, m.dist as nat, m.len as nat).price,
            from,
            Some(Op::Match { dist: m.dist as usize, len: m.len as usize }),
        ),
    );
    if k == n - 1 {
        assert(plain[len - least] == task.match_edge(p, price, from, m.dist as nat, len));
        assert(offered(plain, len, step));
    } else {
        lemma_match_offered(task, p, price, from, matches, (n - 1) as nat, k, len);
    }
    lemma_offered(before, plain, len, step);
    lemma_offered(before + plain, more, len, step);
}

/// The optimal parser weighs every way to go on: a literal, each recent
/// distance at every length it repeats for, and of the matches found each
/// length with the nearest distance that reaches it. Which of them is taken
/// only the prices decide.
pub proof fn all_ways_are_weighed(
    task: Task,
    p: nat,
    price: nat,
    from: (State, Seq<u32>),
    matches: Seq<Match>,
    index: nat,
    k: nat,
    len: nat,
)
    ensures
        offered(task.edges(p, price, from, matches), 1, Step::One(Op::Literal)),
        index < 4 && 2 <= len <= len_against(
            task.data,
            p,
            (from.1[index as int] + 1) as nat,
            room_at(task.data, p),
        ) && room_at(task.data, p) >= 2 ==> offered(
            task.edges(p, price, from, matches),
            len,
            Step::One(Op::Rep { index: index as usize, len: len as usize }),
        ),
        k < matches.len() && 2 <= len <= matches[k as int].len && (k > 0 ==> matches[k - 1].len
            < len) && room_at(task.data, p) >= 2 ==> offered(
            task.edges(p, price, from, matches),
            len,
            Step::One(Op::Match { dist: matches[k as int].dist as usize, len: len as usize }),
        ),
{
    reveal(Task::edges);
    let lits = task.literal_edges(p, price, from);
    let reps = task.all_rep_edges(p, price, from, 4);
    let new = task.match_edges(p, price, from, matches, matches.len());
    let rest = if room_at(task.data, p) >= 2 {
        reps + new
    } else {
        Seq::empty()
    };
    assert(lits[0].to == 1 && lits[0].step == Step::One(Op::Literal));
    assert(offered(lits, 1, Step::One(Op::Literal)));
    lemma_offered(lits, rest, 1, Step::One(Op::Literal));
    if index < 4 && 2 <= len <= len_against(
        task.data,
        p,
        (from.1[index as int] + 1) as nat,
        room_at(task.data, p),
    ) && room_at(task.data, p) >= 2 {
        let step = Step::One(Op::Rep { index: index as usize, len: len as usize });
        lemma_rep_offered(task, p, price, from, 4, index, len);
        lemma_offered(reps, new, len, step);
        lemma_offered(lits, rest, len, step);
    }
    if k < matches.len() && 2 <= len <= matches[k as int].len && (k > 0 ==> matches[k - 1].len
        < len) && room_at(task.data, p) >= 2 {
        let step = Step::One(
            Op::Match { dist: matches[k as int].dist as usize, len: len as usize },
        );
        lemma_match_offered(task, p, price, from, matches, matches.len(), k, len);
        lemma_offered(reps, new, len, step);
        lemma_offered(lits, rest, len, step);
    }
}

proof fn lemma_longest_rep(task: Task, reps: Seq<u32>, pos: nat, i: nat, best: (nat, nat))
    requires
        i <= 4,
    ensures
        task.longest_rep(reps, pos, i, best).0 >= best.0,
        forall|j: int|
            i <= j < 4 ==> task.longest_rep(reps, pos, i, best).0 >= len_against(
                task.data,
                pos,
                (#[trigger] reps[j] + 1) as nat,
                room_at(task.data, pos),
            ),
    decreases 4 - i,
{
    if i < 4 {
        let len = len_against(
            task.data,
            pos,
            (reps[i as int] + 1) as nat,
            room_at(task.data, pos),
        );
        lemma_longest_rep(
            task,
            reps,
            pos,
            i + 1,
            if len > best.0 {
                (len, i)
            } else {
                best
            },
        );
    }
}

/// A long repeat is taken at once: where a recent distance repeats for
/// `nice_len` bytes, or a match that long is found, the next token is one of
/// at least that length.
pub proof fn long_repeats_are_taken(
    task: Task,
    search: Search,
    pos: nat,
    from: (State, Seq<u32>),
    i: int,
)
    requires
        task.nice_len >= 2,
        room_at(task.data, pos) >= 2,
        0 <= i < 4,
        best_of(search.finds(pos)) >= task.nice_len || len_against(
            task.data,
            pos,
            (from.1[i] + 1) as nat,
            room_at(task.data, pos),
        ) >= task.nice_len,
        pos <= task.data.len(),
        best_of(search.finds(pos)) <= 273,
    ensures
        stretch_of(task, search, pos, from).0.len() == 1,
        stretch_of(task, search, pos, from).0[0].span() >= task.nice_len,
        stretch_of(task, search, pos, from).0[0] is Rep || stretch_of(
            task,
            search,
            pos,
            from,
        ).0[0] is Match,
{
    reveal(stretch_of);
    lemma_longest_rep(task, from.1, pos, 0, (0, 0));
    assert(from.1[i] == from.1[i]);
    lemma_longest_most(task, from.1, pos, 0, (0, 0));
}

pub proof fn lemma_longest_most(task: Task, reps: Seq<u32>, pos: nat, i: nat, best: (nat, nat))
    requires
        i <= 4,
        best.0 <= 273,
        pos <= task.data.len(),
    ensures
        task.longest_rep(reps, pos, i, best).0 <= 273,
    decreases 4 - i,
{
    if i < 4 {
        let dist = (reps[i as int] + 1) as nat;
        let room = room_at(task.data, pos);
        let len = len_against(task.data, pos, dist, room);
        if dist <= pos {
            let limit = if room < task.data.len() - pos {
                room
            } else {
                (task.data.len() - pos) as nat
            };
            lemma_common(task.data, pos - dist, pos as int, limit);
        }
        lemma_longest_most(
            task,
            reps,
            pos,
            i + 1,
            if len > best.0 {
                (len, i)
            } else {
                best
            },
        );
    }
}

/// A match is given up for a shorter one only if that is one byte shorter and
/// more than 128 times nearer, again and again.
pub proof fn matches_step_down(matches: Seq<Match>, i: int, len: nat, dist: nat)
    requires
        i < matches.len(),
        dist > 0,
        forall|k: int| 0 <= k < matches.len() ==> (#[trigger] matches[k]).dist > 0,
    ensures
        ({
            let r = stepped_down(matches, i, len, dist);
            &&& r.0 <= len
            &&& r == (len, dist) || (exists|k: int|
                0 <= k <= i && r.0 == (#[trigger] matches[k]).len && r.1 == matches[k].dist)
            &&& r == (len, dist) || (r.0 < len && 128 * r.1 < dist)
        }),
    decreases i + 1,
{
    if i < 0 || matches[i].len + 1 != len {
    } else if (dist - 1) / 128 > matches[i].dist - 1 {
        let d = matches[i].dist as nat;
        matches_step_down(matches, i - 1, matches[i].len as nat, d);
        let r = stepped_down(matches, i - 1, matches[i].len as nat, d);
        assert(128 * d < dist);
        if r == (matches[i].len as nat, d) {
            assert(0 <= i <= i && r.0 == matches[i].len && r.1 == matches[i].dist);
        }
    }
}

/// The fast parser leaves a match of three or more bytes for a literal only
/// for something nearly as good one byte later: a match at most one byte
/// shorter, or a repeat of a recent distance.
pub proof fn literals_have_a_reason(
    data: Seq<u8>,
    reps: Seq<u32>,
    matches: Seq<Match>,
    next: Seq<Match>,
    pos: nat,
    nice_len: nat,
)
    requires
        room_at(data, pos) > 2,
        fast_choice(data, reps, matches, next, pos, nice_len) is Literal,
        main_match(matches).0 >= 3,
    ensures
        ({
            let len = main_match(matches).0;
            ||| next.len() > 0 && next.last().len + 1 >= len
            ||| rep_reaches(data, reps, pos + 1, (len - 1) as nat, 0)
        }),
        matches.last().len < nice_len,
        !best_rep(data, reps, pos, nice_len, 0, (0, 0)).0,
{
}

/// The dictionary reaches as far as was asked for, or all of the input; it is
/// never larger than what was asked for but for the least that the format
/// knows, and never twice the input.
pub proof fn dictionaries_fit(dict_size: u32, n: nat)
    requires
        n < u32::MAX,
    ensures
        dict_size <= 0x8000_0000 ==> dict_size_for(dict_size, n) >= dict_size || dict_size_for(
            dict_size,
            n,
        ) >= n,
        4096 <= dict_size_for(dict_size, n) <= 0x8000_0000,
        dict_size_for(dict_size, n) <= dict_size || dict_size_for(dict_size, n) == 4096,
        dict_size_for(dict_size, n) < 2 * n || dict_size_for(dict_size, n) == 4096,
{
    lemma_pow2_values();
    let fit = next_power_of_two(n);
    if n > 1 {
        let m = (n - 1) as nat;
        lemma_ilog2(m);
        let e = crate::bits::ilog2(m);
        lemma_pow2_unfold(e + 1);
        lemma_pow2_pos(e);
        assert(fit >= n && fit < 2 * n);
    }
}

/// Unless told otherwise the encoder looks 16 MB back, follows 48 links, takes
/// a match of 64 bytes at once and weighs its choices.
pub proof fn defaults_are_as_told()
    ensures
        default_options().dict_size == 16 * 1024 * 1024,
        default_options().depth == 48,
        default_options().nice_len == 64,
        default_options().parse is Optimal,
{
}

/// Whatever the parser, a token never starts at a long repeat and passes over
/// it: where `nice_len` bytes or more stand again that began at `c` in the
/// dictionary, with fewer than `depth` positions in between that share their
/// index, the token stands for `nice_len` bytes or more.
pub proof fn long_repeats_are_used(
    input: Seq<u8>,
    opts: Options,
    ops: Seq<Op>,
    k: int,
    c: nat,
    len: nat,
)
    requires
        is_parse(input, opts, ops),
        0 <= k < ops.len(),
        ({
            let p = after_ops(default_props(), input, ops.take(k)).pos as int;
            &&& repeat_at(
                input,
                dict_size_for(opts.dict_size, input.len()),
                p,
                c as int,
                len as int,
            )
            &&& sharing(input, 4, key(input, 4, p), c as int + 1, p) < opts.depth
        }),
        len >= 4,
        len >= nice_len_of(opts),
    ensures
        ops[k].span() >= nice_len_of(opts),
{
    let search = search_of(input, opts);
    let p = after_ops(default_props(), input, ops.take(k)).pos;
    repeats_are_found(input, search.window, search.depth, search.nice_len, p, c, len);
    reveal(takes_long);
}

} // verus!
