//! Directed graphs over `0..n` and the depth-first search for cycles.
//!
//! `g[v]` lists the vertices that `v` depends on.

use vstd::prelude::*;

verus! {

/// Every edge leads to a vertex of the graph.
pub open spec fn in_range(g: Seq<Seq<int>>) -> bool {
    forall|v: int, k: int|
        0 <= v < g.len() && 0 <= k < g[v].len() ==> 0 <= #[trigger] g[v][k] < g.len()
}

/// `v` depends on `u`.
pub open spec fn edge(g: Seq<Seq<int>>, v: int, u: int) -> bool {
    0 <= v < g.len() && g[v].contains(u)
}

/// Each vertex of `walk` depends on the one behind it.
pub open spec fn is_walk(g: Seq<Seq<int>>, walk: Seq<int>) -> bool {
    forall|i: int| 0 <= i < walk.len() - 1 ==> edge(g, #[trigger] walk[i], walk[i + 1])
}

/// A walk of at least one edge that comes back to where it started.
pub open spec fn is_cycle(g: Seq<Seq<int>>, walk: Seq<int>) -> bool {
    &&& walk.len() >= 2
    &&& is_walk(g, walk)
    &&& walk[0] == walk.last()
}

/// Some walk comes back to where it started.
pub open spec fn has_cycle(g: Seq<Seq<int>>) -> bool {
    exists|walk: Seq<int>| is_cycle(g, walk)
}

/// Some walk leads from `v` back to `v`.
pub open spec fn on_cycle(g: Seq<Seq<int>>, v: int) -> bool {
    exists|walk: Seq<int>| #[trigger] is_cycle(g, walk) && walk[0] == v
}

/// What a depth-first search has found so far: the vertices it has left, in the
/// order in which it left them, and the vertices that it met again on the path
/// it was following.
#[verifier::ext_equal]
pub struct Search {
    pub done: Seq<int>,
    pub reports: Seq<int>,
}

/// The search entering `v` at the end of `path`.
pub open spec fn visit(g: Seq<Seq<int>>, v: int, s: Search, path: Seq<int>) -> Search
    decreases g.len() - path.len(), 0nat,
{
    if path.contains(v) {
        Search { reports: s.reports.push(v), ..s }
    } else if s.done.contains(v) || path.len() >= g.len() {
        s
    } else {
        let after = visit_first(g, v, g[v].len(), s, path.push(v));
        Search { done: after.done.push(v), ..after }
    }
}

/// The search going through the first `k` dependencies of `v`.
pub open spec fn visit_first(
    g: Seq<Seq<int>>,
    v: int,
    k: nat,
    s: Search,
    path: Seq<int>,
) -> Search
    decreases g.len() - path.len(), k + 1,
{
    if k == 0 {
        s
    } else {
        let before = visit_first(g, v, (k - 1) as nat, s, path);
        visit(g, g[v][k - 1], before, path)
    }
}

/// The search started from each of the first `k` vertices in turn.
pub open spec fn search(g: Seq<Seq<int>>, k: nat) -> Search
    decreases k,
{
    if k == 0 {
        Search { done: Seq::empty(), reports: Seq::empty() }
    } else {
        visit(g, k - 1, search(g, (k - 1) as nat), Seq::empty())
    }
}

/// Every dependency of a vertex of `done` stands before it.
pub open spec fn ordered(g: Seq<Seq<int>>, done: Seq<int>) -> bool {
    &&& forall|i: int| 0 <= i < done.len() ==> 0 <= #[trigger] done[i] < g.len()
    &&& forall|i: int, u: int|
        0 <= i < done.len() && #[trigger] edge(g, done[i], u) ==> done.take(i).contains(u)
}

proof fn lemma_ordered_push(g: Seq<Seq<int>>, done: Seq<int>, v: int)
    requires
        ordered(g, done),
        0 <= v < g.len(),
        forall|u: int| edge(g, v, u) ==> done.contains(u),
    ensures
        ordered(g, done.push(v)),
{
    let after = done.push(v);
    assert forall|i: int, u: int|
        0 <= i < after.len() && #[trigger] edge(g, after[i], u) implies after.take(i).contains(
        u,
    ) by {
        if i < done.len() {
            assert(edge(g, done[i], u));
            assert(after.take(i) =~= done.take(i));
        } else {
            assert(after.take(i) =~= done);
        }
    }
}

/// The path that the search follows: it stays in the graph and does not meet
/// itself.
pub open spec fn live(g: Seq<Seq<int>>, path: Seq<int>) -> bool {
    &&& path.no_duplicates()
    &&& forall|i: int| 0 <= i < path.len() ==> 0 <= #[trigger] path[i] < g.len()
}

proof fn lemma_live_len(g: Seq<Seq<int>>, path: Seq<int>)
    requires
        live(g, path),
    ensures
        path.len() <= g.len(),
{
    path.unique_seq_to_set();
    let all = Set::new(|i: int| 0 <= i < g.len());
    vstd::set_lib::lemma_int_range(0, g.len() as int);
    assert(all =~= vstd::set_lib::set_int_range(0, g.len() as int));
    assert(path.to_set().subset_of(all));
    vstd::set_lib::lemma_len_subset(path.to_set(), all);
}

proof fn lemma_live_push(g: Seq<Seq<int>>, path: Seq<int>, v: int)
    requires
        live(g, path),
        0 <= v < g.len(),
        !path.contains(v),
    ensures
        live(g, path.push(v)),
        path.len() < g.len(),
{
    let longer = path.push(v);
    assert forall|i: int, j: int|
        0 <= i < longer.len() && 0 <= j < longer.len() && i != j implies longer[i] != longer[j] by {
        if i == path.len() {
            assert(path.contains(path[j]));
        } else if j == path.len() {
            assert(path.contains(path[i]));
        }
    }
    lemma_live_len(g, longer);
}

/// What one visit adds: reports are only added, and while none is added the
/// vertices left stay in dependency order and `v` becomes one of them.
pub open spec fn extends(g: Seq<Seq<int>>, before: Search, after: Search) -> bool {
    &&& before.reports.len() <= after.reports.len()
    &&& before.reports =~= after.reports.take(before.reports.len() as int)
    &&& after.reports.len() == before.reports.len() && ordered(g, before.done) ==> {
        &&& ordered(g, after.done)
        &&& forall|u: int| before.done.contains(u) ==> after.done.contains(u)
    }
}

proof fn lemma_visit(g: Seq<Seq<int>>, v: int, s: Search, path: Seq<int>)
    requires
        in_range(g),
        0 <= v < g.len(),
        live(g, path),
    ensures
        extends(g, s, visit(g, v, s, path)),
        visit(g, v, s, path).reports.len() == s.reports.len() && ordered(g, s.done) ==> visit(
            g,
            v,
            s,
            path,
        ).done.contains(v),
    decreases g.len() - path.len(), 0nat,
{
    if path.contains(v) {
    } else if s.done.contains(v) {
    } else {
        lemma_live_push(g, path, v);
        lemma_visit_first(g, v, g[v].len(), s, path.push(v));
        let after = visit_first(g, v, g[v].len(), s, path.push(v));
        let end = visit(g, v, s, path);
        assert(end.done[end.done.len() - 1] == v);
        if after.reports.len() == s.reports.len() && ordered(g, s.done) {
            assert forall|u: int| edge(g, v, u) implies after.done.contains(u) by {
                let k = choose|k: int| 0 <= k < g[v].len() && g[v][k] == u;
                assert(after.done.contains(g[v][k]));
            }
            lemma_ordered_push(g, after.done, v);
            assert forall|u: int| s.done.contains(u) implies end.done.contains(u) by {
                assert(after.done.contains(u));
                let i = choose|i: int| 0 <= i < after.done.len() && after.done[i] == u;
                assert(end.done[i] == u);
            }
        }
    }
}

proof fn lemma_visit_first(g: Seq<Seq<int>>, v: int, k: nat, s: Search, path: Seq<int>)
    requires
        in_range(g),
        0 <= v < g.len(),
        k <= g[v].len(),
        live(g, path),
    ensures
        extends(g, s, visit_first(g, v, k, s, path)),
        visit_first(g, v, k, s, path).reports.len() == s.reports.len() && ordered(g, s.done) ==> (
        forall|i: int|
            0 <= i < k ==> visit_first(g, v, k, s, path).done.contains(#[trigger] g[v][i])),
    decreases g.len() - path.len(), k + 1,
{
    if k > 0 {
        let before = visit_first(g, v, (k - 1) as nat, s, path);
        lemma_visit_first(g, v, (k - 1) as nat, s, path);
        lemma_visit(g, g[v][k - 1], before, path);
        let after = visit_first(g, v, k, s, path);
        assert(after.reports.take(s.reports.len() as int) =~= s.reports);
    }
}

proof fn lemma_search(g: Seq<Seq<int>>, k: nat)
    requires
        in_range(g),
        k <= g.len(),
    ensures
        search(g, k).reports.len() == 0 ==> {
            &&& ordered(g, search(g, k).done)
            &&& forall|v: int| 0 <= v < k ==> search(g, k).done.contains(v)
        },
    decreases k,
{
    if k > 0 {
        lemma_search(g, (k - 1) as nat);
        lemma_visit(g, k - 1, search(g, (k - 1) as nat), Seq::empty());
    }
}

/// Every vertex of a list lies on a cycle.
spec fn all_on_cycles(g: Seq<Seq<int>>, reports: Seq<int>) -> bool {
    forall|i: int|
        0 <= i < reports.len() ==> 0 <= #[trigger] reports[i] < g.len() && on_cycle(g, reports[i])
}

proof fn lemma_visit_cycles(g: Seq<Seq<int>>, v: int, s: Search, path: Seq<int>)
    requires
        in_range(g),
        0 <= v < g.len(),
        live(g, path),
        is_walk(g, path.push(v)),
        all_on_cycles(g, s.reports),
    ensures
        all_on_cycles(g, visit(g, v, s, path).reports),
    decreases g.len() - path.len(), 0nat,
{
    if path.contains(v) {
        let i = choose|i: int| 0 <= i < path.len() && path[i] == v;
        let whole = path.push(v);
        let walk = whole.subrange(i, whole.len() as int);
        assert forall|j: int| 0 <= j < walk.len() - 1 implies edge(
            g,
            #[trigger] walk[j],
            walk[j + 1],
        ) by {
            assert(edge(g, whole[i + j], whole[i + j + 1]));
        }
        assert(is_cycle(g, walk) && walk[0] == v);
    } else if s.done.contains(v) {
    } else {
        lemma_live_push(g, path, v);
        lemma_visit_first_cycles(g, v, g[v].len(), s, path.push(v));
    }
}

proof fn lemma_visit_first_cycles(g: Seq<Seq<int>>, v: int, k: nat, s: Search, path: Seq<int>)
    requires
        in_range(g),
        0 <= v < g.len(),
        k <= g[v].len(),
        live(g, path),
        path.len() > 0,
        path.last() == v,
        is_walk(g, path),
        all_on_cycles(g, s.reports),
    ensures
        all_on_cycles(g, visit_first(g, v, k, s, path).reports),
    decreases g.len() - path.len(), k + 1,
{
    if k > 0 {
        let before = visit_first(g, v, (k - 1) as nat, s, path);
        lemma_visit_first_cycles(g, v, (k - 1) as nat, s, path);
        let u = g[v][k - 1];
        let longer = path.push(u);
        assert forall|j: int| 0 <= j < longer.len() - 1 implies edge(
            g,
            #[trigger] longer[j],
            longer[j + 1],
        ) by {
            if j < path.len() - 1 {
                assert(edge(g, path[j], path[j + 1]));
            } else {
                assert(g[v].contains(u));
            }
        }
        lemma_visit_cycles(g, u, before, path);
    }
}

proof fn lemma_search_cycles(g: Seq<Seq<int>>, k: nat)
    requires
        in_range(g),
        k <= g.len(),
    ensures
        all_on_cycles(g, search(g, k).reports),
    decreases k,
{
    if k > 0 {
        lemma_search_cycles(g, (k - 1) as nat);
        lemma_visit_cycles(g, k - 1, search(g, (k - 1) as nat), Seq::empty());
    }
}

/// The first position of `v` in an order of the vertices.
pub open spec fn rank(done: Seq<int>, v: int) -> int
    decreases done.len(),
{
    if done.len() == 0 {
        0
    } else if done.drop_last().contains(v) {
        rank(done.drop_last(), v)
    } else {
        done.len() - 1
    }
}

proof fn lemma_rank(done: Seq<int>, v: int)
    requires
        done.contains(v),
    ensures
        0 <= rank(done, v) < done.len(),
        done[rank(done, v)] == v,
    decreases done.len(),
{
    if done.drop_last().contains(v) {
        lemma_rank(done.drop_last(), v);
    } else {
        let i = choose|i: int| 0 <= i < done.len() && done[i] == v;
        if i < done.len() - 1 {
            assert(done.drop_last()[i] == v);
        }
    }
}

proof fn lemma_rank_first(done: Seq<int>, v: int, i: int)
    requires
        0 <= i <= done.len(),
        done.take(i).contains(v),
    ensures
        rank(done, v) < i,
    decreases done.len(),
{
    let j = choose|j: int| 0 <= j < i && done.take(i)[j] == v;
    if i == done.len() {
        assert(done[j] == v);
        assert(done.contains(v));
        lemma_rank(done, v);
    } else {
        assert(done.drop_last()[j] == v);
        assert(done.drop_last().take(i) =~= done.take(i));
        lemma_rank_first(done.drop_last(), v, i);
    }
}

/// An order of all the vertices in which dependencies come first.
pub open spec fn is_order(g: Seq<Seq<int>>, done: Seq<int>) -> bool {
    &&& ordered(g, done)
    &&& forall|v: int| 0 <= v < g.len() ==> done.contains(v)
}

/// In an order of the graph, what a vertex depends on ranks before it.
pub proof fn lemma_rank_descends(g: Seq<Seq<int>>, done: Seq<int>, v: int, u: int)
    requires
        is_order(g, done),
        edge(g, v, u),
    ensures
        0 <= rank(done, u) < rank(done, v),
        rank(done, v) < done.len(),
{
    assert(done.contains(v));
    lemma_rank(done, v);
    let i = rank(done, v);
    assert(edge(g, done[i], u));
    lemma_rank_first(done, u, i);
    let j = choose|j: int| 0 <= j < i && done.take(i)[j] == u;
    assert(done[j] == u);
    lemma_rank(done, u);
}

proof fn lemma_walk_descends(g: Seq<Seq<int>>, done: Seq<int>, walk: Seq<int>, i: int)
    requires
        is_order(g, done),
        is_walk(g, walk),
        1 <= i < walk.len(),
    ensures
        rank(done, walk[i]) < rank(done, walk[0]),
    decreases i,
{
    assert(edge(g, walk[i - 1], walk[i - 1 + 1]));
    lemma_rank_descends(g, done, walk[i - 1], walk[i]);
    if i > 1 {
        lemma_walk_descends(g, done, walk, i - 1);
    }
}

/// The search reports nothing exactly where the graph has no cycle, and every
/// vertex that it reports lies on one.
pub proof fn law_search_finds_cycles(g: Seq<Seq<int>>)
    requires
        in_range(g),
    ensures
        search(g, g.len()).reports.len() == 0 <==> !has_cycle(g),
        forall|i: int|
            0 <= i < search(g, g.len()).reports.len() ==> 0 <= #[trigger] search(
                g,
                g.len(),
            ).reports[i] < g.len() && on_cycle(g, search(g, g.len()).reports[i]),
{
    let s = search(g, g.len());
    lemma_search(g, g.len());
    lemma_search_cycles(g, g.len());
    if s.reports.len() > 0 {
        assert(on_cycle(g, s.reports[0]));
    } else if has_cycle(g) {
        let walk = choose|walk: Seq<int>| is_cycle(g, walk);
        lemma_walk_descends(g, s.done, walk, walk.len() - 1);
    }
}

/// Every dependency of a vertex that the search has left stands before it, or was
/// reported.
spec fn ordered_but_for_reports(g: Seq<Seq<int>>, s: Search) -> bool {
    forall|i: int, u: int|
        0 <= i < s.done.len() && #[trigger] edge(g, s.done[i], u) ==> s.done.take(i).contains(u)
            || s.reports.contains(u)
}

/// The search has gone on from one state to another.
spec fn goes_on(before: Search, after: Search) -> bool {
    before.done.is_prefix_of(after.done) && before.reports.is_prefix_of(after.reports)
}

proof fn lemma_goes_on(before: Search, after: Search, u: int)
    requires
        goes_on(before, after),
    ensures
        before.done.contains(u) ==> after.done.contains(u),
        before.reports.contains(u) ==> after.reports.contains(u),
{
    if before.done.contains(u) {
        let i = before.done.index_of(u);
        assert(after.done[i] == u);
    }
    if before.reports.contains(u) {
        let i = before.reports.index_of(u);
        assert(after.reports[i] == u);
    }
}

proof fn lemma_visit_meets(g: Seq<Seq<int>>, v: int, s: Search, path: Seq<int>)
    requires
        in_range(g),
        0 <= v < g.len(),
        live(g, path),
        ordered_but_for_reports(g, s),
    ensures
        ordered_but_for_reports(g, visit(g, v, s, path)),
        goes_on(s, visit(g, v, s, path)),
        !path.contains(v) ==> visit(g, v, s, path).done.contains(v),
        path.contains(v) ==> visit(g, v, s, path).reports.contains(v),
    decreases g.len() - path.len(), 0nat,
{
    let end = visit(g, v, s, path);
    if path.contains(v) {
        assert(end.reports[s.reports.len() as int] == v);
        assert forall|i: int, u: int|
            0 <= i < end.done.len() && #[trigger] edge(g, end.done[i], u) implies end.done.take(
            i,
        ).contains(u) || end.reports.contains(u) by {
            assert(edge(g, s.done[i], u));
            lemma_goes_on(s, end, u);
        }
    } else {
        lemma_live_push(g, path, v);
        if !s.done.contains(v) {
            lemma_visit_first_meets(g, v, g[v].len(), s, path.push(v));
            let after = visit_first(g, v, g[v].len(), s, path.push(v));
            assert(end.done[after.done.len() as int] == v);
            assert forall|i: int, u: int|
                0 <= i < end.done.len() && #[trigger] edge(g, end.done[i], u) implies end.done.take(
                i,
            ).contains(u) || end.reports.contains(u) by {
                if i < after.done.len() {
                    assert(edge(g, after.done[i], u));
                    assert(end.done.take(i) =~= after.done.take(i));
                } else {
                    assert(end.done.take(i) =~= after.done);
                    let k = choose|k: int| 0 <= k < g[v].len() && g[v][k] == u;
                    assert(after.done.contains(g[v][k]) || after.reports.contains(g[v][k]));
                }
            }
        }
    }
}

proof fn lemma_visit_first_meets(g: Seq<Seq<int>>, v: int, k: nat, s: Search, path: Seq<int>)
    requires
        in_range(g),
        0 <= v < g.len(),
        k <= g[v].len(),
        live(g, path),
        ordered_but_for_reports(g, s),
    ensures
        ordered_but_for_reports(g, visit_first(g, v, k, s, path)),
        goes_on(s, visit_first(g, v, k, s, path)),
        forall|i: int|
            0 <= i < k ==> visit_first(g, v, k, s, path).done.contains(#[trigger] g[v][i])
                || visit_first(g, v, k, s, path).reports.contains(g[v][i]),
    decreases g.len() - path.len(), k + 1,
{
    if k > 0 {
        let before = visit_first(g, v, (k - 1) as nat, s, path);
        let after = visit_first(g, v, k, s, path);
        lemma_visit_first_meets(g, v, (k - 1) as nat, s, path);
        lemma_visit_meets(g, g[v][k - 1], before, path);
        assert forall|i: int| 0 <= i < k implies after.done.contains(#[trigger] g[v][i])
            || after.reports.contains(g[v][i]) by {
            if i < k - 1 {
                assert(before.done.contains(g[v][i]) || before.reports.contains(g[v][i]));
                lemma_goes_on(before, after, g[v][i]);
            }
        }
    }
}

proof fn lemma_search_meets(g: Seq<Seq<int>>, k: nat)
    requires
        in_range(g),
        k <= g.len(),
    ensures
        ordered_but_for_reports(g, search(g, k)),
        forall|v: int| 0 <= v < k ==> search(g, k).done.contains(v),
    decreases k,
{
    if k > 0 {
        let before = search(g, (k - 1) as nat);
        lemma_search_meets(g, (k - 1) as nat);
        lemma_visit_meets(g, k - 1, before, Seq::empty());
        assert forall|v: int| 0 <= v < k implies search(g, k).done.contains(v) by {
            lemma_goes_on(before, search(g, k), v);
        }
    }
}

proof fn lemma_unreported_walk_descends(g: Seq<Seq<int>>, s: Search, walk: Seq<int>, i: int)
    requires
        in_range(g),
        ordered_but_for_reports(g, s),
        forall|v: int| 0 <= v < g.len() ==> s.done.contains(v),
        is_walk(g, walk),
        forall|a: int| 0 <= a < walk.len() ==> !s.reports.contains(#[trigger] walk[a]),
        1 <= i < walk.len(),
    ensures
        rank(s.done, walk[i]) < rank(s.done, walk[0]),
    decreases i,
{
    let v = walk[i - 1];
    let u = walk[i - 1 + 1];
    assert(edge(g, walk[i - 1], walk[i - 1 + 1]));
    lemma_rank(s.done, v);
    let r = rank(s.done, v);
    assert(edge(g, s.done[r], u));
    lemma_rank_first(s.done, u, r);
    if i > 1 {
        lemma_unreported_walk_descends(g, s, walk, i - 1);
    }
}

/// No cycle escapes the search: each leads through a vertex that it reports.
pub proof fn law_search_meets_every_cycle(g: Seq<Seq<int>>, walk: Seq<int>) -> (i: int)
    requires
        in_range(g),
        is_cycle(g, walk),
    ensures
        0 <= i < walk.len(),
        search(g, g.len()).reports.contains(walk[i]),
{
    let s = search(g, g.len());
    lemma_search_meets(g, g.len());
    if forall|a: int| 0 <= a < walk.len() ==> !s.reports.contains(#[trigger] walk[a]) {
        lemma_unreported_walk_descends(g, s, walk, walk.len() - 1);
    }
    choose|a: int| 0 <= a < walk.len() && s.reports.contains(#[trigger] walk[a])
}

/// How often `u` occurs in a list.
pub open spec fn occurrences(s: Seq<int>, u: int) -> nat
    decreases s.len(),
{
    if s.len() == 0 {
        0
    } else {
        occurrences(s.drop_last(), u) + if s.last() == u {
            1nat
        } else {
            0
        }
    }
}

/// How often the first `n` vertices, but for those in `entered`, depend on `u`.
pub open spec fn dependents(g: Seq<Seq<int>>, n: nat, entered: Set<int>, u: int) -> nat
    decreases n,
{
    if n == 0 {
        0
    } else {
        dependents(g, (n - 1) as nat, entered, u) + if entered.contains(n - 1) {
            0
        } else {
            occurrences(g[n - 1], u)
        }
    }
}

proof fn lemma_occurrences_push(s: Seq<int>, v: int, u: int)
    ensures
        occurrences(s.push(v), u) == occurrences(s, u) + if v == u {
            1nat
        } else {
            0
        },
{
    assert(s.push(v).drop_last() =~= s);
}

proof fn lemma_dependents_enter(g: Seq<Seq<int>>, n: nat, entered: Set<int>, v: int, u: int)
    requires
        !entered.contains(v),
    ensures
        dependents(g, n, entered, u) == dependents(g, n, entered.insert(v), u) + if 0 <= v < n {
            occurrences(g[v], u)
        } else {
            0
        },
    decreases n,
{
    if n > 0 {
        lemma_dependents_enter(g, (n - 1) as nat, entered, v, u);
    }
}

/// What the search may still report of `u`, and what it has: the vertices that it
/// has not entered yet depend on `u` so often.
spec fn reported_or_open(g: Seq<Seq<int>>, s: Search, path: Seq<int>, u: int) -> nat {
    occurrences(s.reports, u) + dependents(g, g.len(), s.done.to_set().union(path.to_set()), u)
}

proof fn lemma_visit_counts(g: Seq<Seq<int>>, v: int, s: Search, path: Seq<int>, u: int)
    requires
        in_range(g),
        0 <= v < g.len(),
        live(g, path),
    ensures
        reported_or_open(g, visit(g, v, s, path), path, u) <= reported_or_open(g, s, path, u)
            + if v == u {
            1int
        } else {
            0
        },
        !path.contains(v) ==> reported_or_open(g, visit(g, v, s, path), path, u)
            <= reported_or_open(g, s, path, u),
    decreases g.len() - path.len(), 0nat,
{
    let end = visit(g, v, s, path);
    if path.contains(v) {
        lemma_occurrences_push(s.reports, v, u);
    } else {
        lemma_live_push(g, path, v);
        if !s.done.contains(v) {
            let longer = path.push(v);
            let after = visit_first(g, v, g[v].len(), s, longer);
            lemma_visit_first_counts(g, v, g[v].len(), s, longer, u);
            let entered = s.done.to_set().union(path.to_set());
            assert(s.done.to_set().union(longer.to_set()) =~= entered.insert(v)) by {
                lemma_push_contains(path, v);
            }
            lemma_dependents_enter(g, g.len(), entered, v, u);
            assert(end.done.to_set().union(path.to_set()) =~= after.done.to_set().union(
                longer.to_set(),
            )) by {
                lemma_push_contains(path, v);
                lemma_push_contains(after.done, v);
            }
            assert(g[v].take(g[v].len() as int) =~= g[v]);
        }
    }
}

proof fn lemma_visit_first_counts(
    g: Seq<Seq<int>>,
    v: int,
    k: nat,
    s: Search,
    path: Seq<int>,
    u: int,
)
    requires
        in_range(g),
        0 <= v < g.len(),
        k <= g[v].len(),
        live(g, path),
    ensures
        reported_or_open(g, visit_first(g, v, k, s, path), path, u) <= reported_or_open(
            g,
            s,
            path,
            u,
        ) + occurrences(g[v].take(k as int), u),
    decreases g.len() - path.len(), k + 1,
{
    if k > 0 {
        let before = visit_first(g, v, (k - 1) as nat, s, path);
        lemma_visit_first_counts(g, v, (k - 1) as nat, s, path, u);
        lemma_visit_counts(g, g[v][k - 1], before, path, u);
        lemma_occurrences_push(g[v].take(k - 1), g[v][k - 1], u);
        assert(g[v].take(k as int) =~= g[v].take(k - 1).push(g[v][k - 1]));
    }
}

proof fn lemma_search_counts(g: Seq<Seq<int>>, k: nat, u: int)
    requires
        in_range(g),
        k <= g.len(),
    ensures
        reported_or_open(g, search(g, k), Seq::empty(), u) <= dependents(
            g,
            g.len(),
            Set::empty(),
            u,
        ),
    decreases k,
{
    if k > 0 {
        lemma_search_counts(g, (k - 1) as nat, u);
        lemma_visit_counts(g, k - 1, search(g, (k - 1) as nat), Seq::empty(), u);
    } else {
        assert(Seq::<int>::empty().to_set().union(Seq::<int>::empty().to_set())
            =~= Set::<int>::empty());
    }
}

/// The search reports no vertex more often than vertices depend on it.
pub proof fn law_search_reports_each_dependency_once(g: Seq<Seq<int>>, u: int)
    requires
        in_range(g),
    ensures
        occurrences(search(g, g.len()).reports, u) <= dependents(g, g.len(), Set::empty(), u),
{
    lemma_search_counts(g, g.len(), u);
}

/// A graph without a cycle has an order in which dependencies come first.
pub proof fn lemma_order_exists(g: Seq<Seq<int>>) -> (done: Seq<int>)
    requires
        in_range(g),
        !has_cycle(g),
    ensures
        is_order(g, done),
{
    law_search_finds_cycles(g);
    lemma_search(g, g.len());
    search(g, g.len()).done
}

/// The adjacency lists as a graph of integers.
pub open spec fn graph_of(g: Seq<Vec<usize>>) -> Seq<Seq<int>> {
    Seq::new(g.len(), |v: int| indices(g[v]@))
}

/// Indices as integers.
pub open spec fn indices(v: Seq<usize>) -> Seq<int> {
    Seq::new(v.len(), |i: int| v[i] as int)
}

/// The state of a running search. The flags repeat `done` and `path` so that
/// membership is read off at once.
struct Walker {
    done: Vec<usize>,
    left: Vec<bool>,
    path: Vec<usize>,
    entered: Vec<bool>,
    reports: Vec<usize>,
}

impl Walker {
    spec fn state(self) -> Search {
        Search { done: indices(self.done@), reports: indices(self.reports@) }
    }

    spec fn trail(self) -> Seq<int> {
        indices(self.path@)
    }

    spec fn wf(self, n: nat) -> bool {
        &&& self.left@.len() == n
        &&& self.entered@.len() == n
        &&& forall|v: int| 0 <= v < n ==> #[trigger] self.left@[v] == self.state().done.contains(v)
        &&& forall|v: int| 0 <= v < n ==> #[trigger] self.entered@[v] == self.trail().contains(v)
    }
}

proof fn lemma_push_contains(s: Seq<int>, x: int)
    ensures
        forall|u: int| #[trigger] s.push(x).contains(u) <==> s.contains(u) || u == x,
{
    assert forall|u: int| #[trigger] s.push(x).contains(u) <==> s.contains(u) || u == x by {
        if s.contains(u) {
            let i = choose|i: int| 0 <= i < s.len() && s[i] == u;
            assert(s.push(x)[i] == u);
        }
        if u == x {
            assert(s.push(x)[s.len() as int] == u);
        }
    }
}

fn enter(g: &Vec<Vec<usize>>, v: usize, w: &mut Walker)
    requires
        in_range(graph_of(g@)),
        v < g@.len(),
        old(w).wf(g@.len()),
        live(graph_of(g@), old(w).trail()),
    ensures
        final(w).wf(g@.len()),
        final(w).trail() == old(w).trail(),
        final(w).state() == visit(graph_of(g@), v as int, old(w).state(), old(w).trail()),
    decreases g@.len() - old(w).path@.len(), 0nat,
{
    let ghost gg = graph_of(g@);
    let ghost s = w.state();
    let ghost trail = w.trail();
    if w.entered[v] {
        w.reports.push(v);
        assert(w.state() =~= Search { reports: s.reports.push(v as int), ..s });
        assert(w.trail() =~= trail);
        return ;
    }
    proof {
        lemma_live_push(gg, trail, v as int);
    }
    if w.left[v] {
        return ;
    }
    w.path.push(v);
    w.entered.set(v, true);
    proof {
        assert(w.trail() =~= trail.push(v as int));
        lemma_push_contains(trail, v as int);
        assert(w.state() =~= s);
    }
    let mut k: usize = 0;
    while k < g[v].len()
        invariant
            v < g@.len(),
            k <= g@[v as int]@.len(),
            gg == graph_of(g@),
            in_range(gg),
            w.wf(g@.len()),
            w.trail() == trail.push(v as int),
            live(gg, trail.push(v as int)),
            !trail.contains(v as int),
            trail.len() < gg.len(),
            trail.len() == old(w).path@.len(),
            w.state() == visit_first(gg, v as int, k as nat, s, trail.push(v as int)),
        decreases g@[v as int]@.len() - k,
    {
        let u: usize = g[v][k];
        assert(gg[v as int][k as int] == u);
        assert(w.path@.len() == w.trail().len());
        enter(g, u, w);
        k = k + 1;
    }
    assert(gg[v as int].len() == k);
    assert forall|i: int| 0 <= i < trail.len() implies (#[trigger] w.path@[i]) as int
        == trail[i] by {
        assert(w.trail()[i] == trail.push(v as int)[i]);
    }
    assert(w.path@.len() == w.trail().len());
    w.path.pop();
    w.entered.set(v, false);
    let ghost after = w.state();
    w.done.push(v);
    w.left.set(v, true);
    proof {
        assert(w.trail() =~= trail);
        lemma_push_contains(trail, v as int);
        assert(w.state() =~= Search { done: after.done.push(v as int), ..after });
        lemma_push_contains(after.done, v as int);
    }
}

/// Searches the graph depth-first and returns the vertices at which the search
/// closed a cycle, in the order in which it met them.
pub fn cycle_reports(g: &Vec<Vec<usize>>) -> (r: Vec<usize>)
    requires
        in_range(graph_of(g@)),
    ensures
        indices(r@) == search(graph_of(g@), g@.len()).reports,
        r@.len() == 0 <==> !has_cycle(graph_of(g@)),
        forall|i: int| 0 <= i < r@.len() ==> (#[trigger] r@[i]) < g@.len(),
{
    let ghost gg = graph_of(g@);
    let n: usize = g.len();
    let mut left: Vec<bool> = Vec::new();
    let mut entered: Vec<bool> = Vec::new();
    let mut i: usize = 0;
    while i < n
        invariant
            i <= n,
            left@.len() == i,
            entered@.len() == i,
            forall|j: int| 0 <= j < i ==> !(#[trigger] left@[j]),
            forall|j: int| 0 <= j < i ==> !(#[trigger] entered@[j]),
        decreases n - i,
    {
        left.push(false);
        entered.push(false);
        i = i + 1;
    }
    let mut w = Walker { done: Vec::new(), left, path: Vec::new(), entered, reports: Vec::new() };
    let mut k: usize = 0;
    assert(w.state() =~= search(gg, 0));
    assert(w.trail() =~= Seq::<int>::empty());
    while k < n
        invariant
            n == g@.len(),
            k <= n,
            gg == graph_of(g@),
            in_range(gg),
            w.wf(n as nat),
            w.trail() == Seq::<int>::empty(),
            w.state() == search(gg, k as nat),
        decreases n - k,
    {
        enter(g, k, &mut w);
        k = k + 1;
    }
    proof {
        law_search_finds_cycles(gg);
        lemma_search_reports_in_range(gg, gg.len());
        let reports = search(gg, gg.len()).reports;
        assert forall|j: int| 0 <= j < w.reports@.len() implies (#[trigger] w.reports@[j])
            < g@.len() by {
            assert(reports[j] == w.reports@[j] as int);
        }
    }
    w.reports
}

spec fn reports_in_range(g: Seq<Seq<int>>, s: Search) -> bool {
    forall|i: int| 0 <= i < s.reports.len() ==> 0 <= #[trigger] s.reports[i] < g.len()
}

proof fn lemma_visit_reports(g: Seq<Seq<int>>, v: int, s: Search, path: Seq<int>)
    requires
        in_range(g),
        0 <= v < g.len(),
        reports_in_range(g, s),
    ensures
        reports_in_range(g, visit(g, v, s, path)),
    decreases g.len() - path.len(), 0nat,
{
    if path.contains(v) {
    } else if s.done.contains(v) || path.len() >= g.len() {
    } else {
        lemma_visit_first_reports(g, v, g[v].len(), s, path.push(v));
    }
}

proof fn lemma_visit_first_reports(g: Seq<Seq<int>>, v: int, k: nat, s: Search, path: Seq<int>)
    requires
        in_range(g),
        0 <= v < g.len(),
        k <= g[v].len(),
        reports_in_range(g, s),
    ensures
        reports_in_range(g, visit_first(g, v, k, s, path)),
    decreases g.len() - path.len(), k + 1,
{
    if k > 0 {
        lemma_visit_first_reports(g, v, (k - 1) as nat, s, path);
        lemma_visit_reports(g, g[v][k - 1], visit_first(g, v, (k - 1) as nat, s, path), path);
    }
}

proof fn lemma_search_reports_in_range(g: Seq<Seq<int>>, k: nat)
    requires
        in_range(g),
        k <= g.len(),
    ensures
        reports_in_range(g, search(g, k)),
    decreases k,
{
    if k > 0 {
        lemma_search_reports_in_range(g, (k - 1) as nat);
        lemma_visit_reports(g, k - 1, search(g, (k - 1) as nat), Seq::empty());
    }
}

} // verus!
