//! Cycles of calls between files, as a search through the projection
//! finds them, depth first.

use crate::centrality::index_values;
use crate::graph::{GraphView, KnowledgeGraph};
use crate::model::{file_views, texts};
use crate::query::{no_flags, Query};
use crate::traversal::{
    adjacency, adjacent, count_unset, is_walk, lemma_count_bound, lemma_count_unset,
    lemma_lists_hold_neighbours, lists_match, neighbours, walk_paths,
};
use vstd::prelude::*;

verus! {

/// Whether `c` is a cycle of calls in the projection: files, no file twice,
/// each calling into the next and the last into the first.
pub open spec fn is_cycle(g: GraphView, c: Seq<int>) -> bool {
    &&& is_walk(g, true, c)
    &&& adjacent(g, true, c.last(), c[0])
    &&& forall|i: int, j: int| 0 <= i < j < c.len() ==> c[i] != c[j]
}

/// Whether `w` is a walk along calls that an edge closes.
pub open spec fn is_closed_walk(g: GraphView, w: Seq<int>) -> bool {
    is_walk(g, true, w) && adjacent(g, true, w.last(), w[0])
}

/// What a search for cycles has come to: the files that it has seen, and
/// the cycles that it has noted, in the order in which it found them.
pub struct Trail {
    pub seen: Seq<bool>,
    pub cycles: Seq<Seq<int>>,
}

/// What the search comes to from `t`, when it stands at the last file of
/// `path`, which is the way that it has gone, and has the neighbours of
/// that file from place `ni` on before it. It goes down into a neighbour
/// not yet seen, and comes back; at a neighbour that lies on its way it
/// notes the cycle, which is the way from that neighbour on; any other
/// neighbour it passes.
pub open spec fn explore(g: GraphView, t: Trail, path: Seq<int>, ni: int) -> Trail
    decreases g.files.len() - path.len(), neighbours(g, true, path.last()).len() - ni,
{
    let near = neighbours(g, true, path.last());
    if path.len() == 0 || ni < 0 || ni >= near.len() {
        t
    } else if !t.seen[near[ni]] {
        if path.len() < g.files.len() {
            let below = explore(
                g,
                Trail { seen: t.seen.update(near[ni], true), cycles: t.cycles },
                path.push(near[ni]),
                0,
            );
            explore(g, below, path, ni + 1)
        } else {
            t
        }
    } else if path.contains(near[ni]) {
        let cycle = path.skip(path.index_of(near[ni]));
        explore(g, Trail { seen: t.seen, cycles: t.cycles.push(cycle) }, path, ni + 1)
    } else {
        explore(g, t, path, ni + 1)
    }
}

/// What the search comes to from `t` when it starts anew at each of the
/// files from `u` on that it has not seen yet, in their order.
pub open spec fn explore_from(g: GraphView, t: Trail, u: int) -> Trail
    decreases g.files.len() - u,
{
    if u < 0 || u >= g.files.len() {
        t
    } else if t.seen[u] {
        explore_from(g, t, u + 1)
    } else {
        explore_from(
            g,
            explore(g, Trail { seen: t.seen.update(u, true), cycles: t.cycles }, seq![u], 0),
            u + 1,
        )
    }
}

/// The cycles of calls that the search finds among the files, in the order
/// in which it finds them.
pub open spec fn found_cycles(g: GraphView) -> Seq<Seq<int>> {
    explore_from(
        g,
        Trail { seen: Seq::new(g.files.len(), |i: int| false), cycles: Seq::empty() },
        0,
    ).cycles
}

/// The state of a search for cycles, depth first.
struct Walker {
    visited: Vec<bool>,
    on_path: Vec<bool>,
    path: Vec<usize>,
    cycles: Vec<Vec<usize>>,
}

/// What holds during the search. `fin` numbers the files in the order in
/// which the search was done with them, from 1; 0 is for a file that it is
/// not done with.
#[verifier::opaque]
spec fn walker_ok(g: GraphView, st: Walker, fin: Seq<int>, clock: int) -> bool {
    let n = g.files.len();
    &&& st.visited@.len() == n
    &&& st.on_path@.len() == n
    &&& fin.len() == n
    &&& clock > 0
    &&& st.path@.len() + count_unset(st.visited@) <= n
    &&& forall|i: int|
        0 <= i < st.path@.len() ==> (#[trigger] st.path@[i]) < n && st.visited@[st.path@[i] as int]
            && st.on_path@[st.path@[i] as int]
    &&& forall|i: int, j: int|
        0 <= i < j < st.path@.len() ==> (#[trigger] st.path@[i]) != (#[trigger] st.path@[j])
    &&& forall|i: int|
        0 <= i < st.path@.len() - 1 ==> adjacent(
            g,
            true,
            (#[trigger] st.path@[i]) as int,
            st.path@[i + 1] as int,
        )
    &&& forall|v: int| 0 <= v < n && #[trigger] st.on_path@[v] ==> st.path@.contains(v as usize)
    &&& forall|v: int| 0 <= v < n ==> ((st.visited@[v] && !st.on_path@[v]) <==> #[trigger] fin[v] > 0)
    &&& forall|v: int| 0 <= v < n ==> 0 <= #[trigger] fin[v] < clock
    &&& st.cycles@.len() == 0 ==> forall|v: int, x: int|
        0 <= v < n && 0 <= x < n && fin[v] > 0 && #[trigger] adjacent(g, true, v, x) ==> 0 < fin[x]
            < fin[v]
    &&& forall|i: int|
        0 <= i < st.cycles@.len() ==> is_cycle(g, index_values((#[trigger] st.cycles@[i])@))
}

/// The lists of indices as sequences of numbers.
spec fn int_rows(rows: Seq<Vec<usize>>) -> Seq<Seq<int>> {
    rows.map_values(|c: Vec<usize>| index_values(c@))
}

/// What the search has come to.
spec fn trail_of(st: Walker) -> Trail {
    Trail { seen: st.visited@, cycles: int_rows(st.cycles@) }
}

/// What the search's state says of one file.
proof fn lemma_walker_reads(g: GraphView, st: Walker, fin: Seq<int>, clock: int, v: int)
    requires
        g.files.len() <= usize::MAX,
        walker_ok(g, st, fin, clock),
        0 <= v < g.files.len(),
    ensures
        st.visited@.len() == g.files.len(),
        st.on_path@.len() == g.files.len(),
        fin.len() == g.files.len(),
        0 <= fin[v] < clock,
        st.on_path@[v] ==> st.visited@[v] && fin[v] == 0 && st.path@.contains(v as usize),
        st.path@.contains(v as usize) ==> st.on_path@[v],
        st.visited@[v] && !st.on_path@[v] ==> fin[v] > 0,
        fin[v] > 0 ==> st.visited@[v],
        st.path@.len() + count_unset(st.visited@) <= g.files.len(),
{
    reveal(walker_ok);
    if st.path@.contains(v as usize) {
        let k = choose|k: int| 0 <= k < st.path@.len() && st.path@[k] == v as usize;
        assert(st.on_path@[st.path@[k] as int]);
    }
    if st.on_path@[v] {
        assert(st.path@.contains(v as usize));
        let k = choose|k: int| 0 <= k < st.path@.len() && st.path@[k] == v as usize;
        assert(st.visited@[st.path@[k] as int]);
    }
}

/// The state stays sound where the search enters the file `u`.
proof fn lemma_enter(g: GraphView, start: Walker, st: Walker, fin: Seq<int>, clock: int, u: usize)
    requires
        g.files.len() <= usize::MAX,
        walker_ok(g, start, fin, clock),
        u < g.files.len(),
        !start.visited@[u as int],
        start.path@.len() > 0 ==> adjacent(g, true, start.path@.last() as int, u as int),
        st.visited@ == start.visited@.update(u as int, true),
        st.on_path@ == start.on_path@.update(u as int, true),
        st.path@ == start.path@.push(u),
        st.cycles@ == start.cycles@,
    ensures
        walker_ok(g, st, fin, clock),
        fin[u as int] == 0,
        !start.on_path@[u as int],
{
    lemma_walker_reads(g, start, fin, clock, u as int);
    lemma_count_unset(start.visited@, u as int);
    reveal(walker_ok);
    let n = g.files.len();
    let depth = st.path@.len();
    assert(st.path@[depth - 1] == u);
    assert forall|v: int| 0 <= v < n && #[trigger] st.on_path@[v] implies st.path@.contains(
        v as usize,
    ) by {
        if v != u {
            assert(start.on_path@[v]);
            assert(start.path@.contains(v as usize));
            let k = choose|k: int| 0 <= k < start.path@.len() && start.path@[k] == v as usize;
            assert(st.path@[k] == v as usize);
        } else {
            assert(st.path@[depth - 1] == v as usize);
        }
    }
    assert forall|i: int, j: int| 0 <= i < j < st.path@.len() implies (#[trigger] st.path@[i]) != (
    #[trigger] st.path@[j]) by {
        if j == depth - 1 {
            assert(start.path@[i] == st.path@[i]);
            assert(start.visited@[start.path@[i] as int]);
        } else {
            assert(start.path@[i] == st.path@[i] && start.path@[j] == st.path@[j]);
        }
    }
    assert forall|i: int| 0 <= i < st.path@.len() - 1 implies adjacent(
        g,
        true,
        (#[trigger] st.path@[i]) as int,
        st.path@[i + 1] as int,
    ) by {
        if i + 1 < depth - 1 {
            assert(start.path@[i] == st.path@[i] && start.path@[i + 1] == st.path@[i + 1]);
        } else {
            assert(start.path@[i] == st.path@[i]);
        }
    }
    assert forall|i: int| 0 <= i < st.path@.len() implies (#[trigger] st.path@[i]) < n
        && st.visited@[st.path@[i] as int] && st.on_path@[st.path@[i] as int] by {
        if i < depth - 1 {
            assert(start.path@[i] == st.path@[i]);
        }
    }
}

/// The state stays sound where the search notes the cycle that the path
/// makes from its file at `at` on, the last file of the path having an
/// edge back to that file.
proof fn lemma_note_cycle(
    g: GraphView,
    before: Walker,
    after: Walker,
    fin: Seq<int>,
    clock: int,
    at: int,
)
    requires
        walker_ok(g, before, fin, clock),
        0 <= at < before.path@.len(),
        adjacent(g, true, before.path@.last() as int, before.path@[at] as int),
        after.visited@ == before.visited@,
        after.on_path@ == before.on_path@,
        after.path@ == before.path@,
        after.cycles@.len() == before.cycles@.len() + 1,
        after.cycles@.drop_last() == before.cycles@,
        after.cycles@.last()@ == before.path@.skip(at),
    ensures
        walker_ok(g, after, fin, clock),
{
    reveal(walker_ok);
    let p = before.path@;
    let c = index_values(after.cycles@.last()@);
    assert(c.len() == p.len() - at);
    assert forall|i: int| 0 <= i < c.len() implies 0 <= #[trigger] c[i] < g.files.len() by {
        assert(c[i] == p[at + i]);
    }
    assert forall|i: int| 0 <= i < c.len() - 1 implies adjacent(g, true, #[trigger] c[i], c[i + 1]) by {
        assert(c[i] == p[at + i] && c[i + 1] == p[at + i + 1]);
    }
    assert forall|i: int, j: int| 0 <= i < j < c.len() implies c[i] != c[j] by {
        assert(c[i] == p[at + i] && c[j] == p[at + j]);
    }
    assert(c[0] == p[at]);
    assert(c.last() == p[p.len() - 1]);
    assert(is_cycle(g, c));
    assert forall|i: int| 0 <= i < after.cycles@.len() implies is_cycle(
        g,
        index_values((#[trigger] after.cycles@[i])@),
    ) by {
        if i < before.cycles@.len() {
            assert(after.cycles@[i] == after.cycles@.drop_last()[i]);
        }
    }
}

/// The state stays sound where the search is done with the file `u`, the
/// last of its path, and gives it the next number.
proof fn lemma_leave(g: GraphView, inner: Walker, st: Walker, fin: Seq<int>, clock: int, u: usize)
    requires
        g.files.len() <= usize::MAX,
        walker_ok(g, inner, fin, clock),
        u < g.files.len(),
        inner.path@.len() > 0,
        inner.path@.last() == u,
        st.path@ == inner.path@.drop_last(),
        st.on_path@ == inner.on_path@.update(u as int, false),
        st.visited@ == inner.visited@,
        st.cycles@ == inner.cycles@,
        inner.cycles@.len() == 0 ==> forall|x: int|
            0 <= x < g.files.len() && #[trigger] adjacent(g, true, u as int, x) ==> fin[x] > 0,
    ensures
        walker_ok(g, st, fin.update(u as int, clock), clock + 1),
{
    reveal(walker_ok);
    let n = g.files.len();
    let done = fin.update(u as int, clock);
    let depth = inner.path@.len();
    assert(inner.path@[depth - 1] == u);
    assert(inner.on_path@[inner.path@[depth - 1] as int]);
    assert(inner.visited@[inner.path@[depth - 1] as int]);
    assert(fin[u as int] == 0);
    assert forall|v: int, x: int|
        st.cycles@.len() == 0 && 0 <= v < n && 0 <= x < n && done[v] > 0 && #[trigger] adjacent(
            g,
            true,
            v,
            x,
        ) implies (0 < done[x] && done[x] < done[v]) by {
        if v == u {
            assert(fin[x] > 0);
            assert(fin[x] < clock);
        } else {
            assert(fin[v] > 0);
            assert(0 < fin[x] < fin[v]);
        }
    }
    assert forall|v: int| 0 <= v < n && #[trigger] st.on_path@[v] implies st.path@.contains(
        v as usize,
    ) by {
        assert(inner.on_path@[v]);
        assert(inner.path@.contains(v as usize));
        let k = choose|k: int| 0 <= k < inner.path@.len() && inner.path@[k] == v as usize;
        assert(st.path@[k] == v as usize);
    }
    assert forall|v: int| 0 <= v < n implies ((st.visited@[v] && !st.on_path@[v])
        <==> #[trigger] done[v] > 0) by {
        if v != u {
            assert((inner.visited@[v] && !inner.on_path@[v]) <==> fin[v] > 0);
        }
    }
    assert forall|i: int| 0 <= i < st.path@.len() implies (#[trigger] st.path@[i]) < n
        && st.visited@[st.path@[i] as int] && st.on_path@[st.path@[i] as int] by {
        assert(inner.path@[i] == st.path@[i]);
        assert(inner.path@[i] != inner.path@[depth - 1]);
    }
    assert forall|i: int, j: int| 0 <= i < j < st.path@.len() implies (#[trigger] st.path@[i]) != (
    #[trigger] st.path@[j]) by {
        assert(inner.path@[i] == st.path@[i] && inner.path@[j] == st.path@[j]);
    }
    assert forall|i: int| 0 <= i < st.path@.len() - 1 implies adjacent(
        g,
        true,
        (#[trigger] st.path@[i]) as int,
        st.path@[i + 1] as int,
    ) by {
        assert(inner.path@[i] == st.path@[i] && inner.path@[i + 1] == st.path@[i + 1]);
    }
}

fn copy_from(path: &Vec<usize>, from: usize) -> (r: Vec<usize>)
    requires
        from <= path.len(),
    ensures
        r@ == path@.skip(from as int),
{
    let mut out: Vec<usize> = Vec::new();
    let mut i: usize = from;
    assert(out@ =~= path@.skip(from as int).take(0));
    while i < path.len()
        invariant
            from <= i <= path.len(),
            out@ == path@.skip(from as int).take(i - from),
        decreases path.len() - i,
    {
        out.push(path[i]);
        assert(out@ =~= path@.skip(from as int).take(i - from + 1));
        i += 1;
    }
    assert(path@.skip(from as int).take(i - from) =~= path@.skip(from as int));
    out
}

fn find_on_path(path: &Vec<usize>, v: usize) -> (r: usize)
    requires
        path@.contains(v),
    ensures
        r < path.len(),
        path@[r as int] == v,
{
    let mut i: usize = 0;
    while i < path.len()
        invariant
            i <= path.len(),
            path@.contains(v),
            forall|k: int| 0 <= k < i ==> path@[k] != v,
        decreases path.len() - i,
    {
        if path[i] == v {
            return i;
        }
        i += 1;
    }
    proof {
        let k = choose|k: int| 0 <= k < path@.len() && path@[k] == v;
        assert(false);
    }
    0
}

/// The search goes down into a neighbour that it has not seen, and then
/// on from what it comes to there.
proof fn lemma_explore_down(
    g: GraphView,
    mid: Walker,
    after: Walker,
    fin: Seq<int>,
    clock: int,
    ni: int,
    v: int,
)
    requires
        g.files.len() <= usize::MAX,
        walker_ok(g, mid, fin, clock),
        mid.path@.len() > 0,
        0 <= ni < neighbours(g, true, mid.path@.last() as int).len(),
        neighbours(g, true, mid.path@.last() as int)[ni] == v,
        0 <= v < g.files.len(),
        !mid.visited@[v],
        trail_of(after) == explore(
            g,
            Trail { seen: mid.visited@.update(v, true), cycles: int_rows(mid.cycles@) },
            index_values(mid.path@).push(v),
            0,
        ),
    ensures
        explore(g, trail_of(mid), index_values(mid.path@), ni) == explore(
            g,
            trail_of(after),
            index_values(mid.path@),
            ni + 1,
        ),
{
    lemma_walker_reads(g, mid, fin, clock, v);
    lemma_count_unset(mid.visited@, v);
    assert(index_values(mid.path@).last() == mid.path@.last() as int);
}

/// The search notes the cycle at a neighbour that lies on its way, and
/// goes on.
proof fn lemma_explore_back(
    g: GraphView,
    before: Walker,
    after: Walker,
    fin: Seq<int>,
    clock: int,
    ni: int,
    v: int,
    at: int,
)
    requires
        g.files.len() <= usize::MAX,
        walker_ok(g, before, fin, clock),
        before.path@.len() > 0,
        0 <= ni < neighbours(g, true, before.path@.last() as int).len(),
        neighbours(g, true, before.path@.last() as int)[ni] == v,
        0 <= v < g.files.len(),
        before.visited@[v],
        0 <= at < before.path@.len(),
        before.path@[at] == v,
        after.visited@ == before.visited@,
        after.cycles@.len() == before.cycles@.len() + 1,
        after.cycles@.drop_last() == before.cycles@,
        after.cycles@.last()@ == before.path@.skip(at),
    ensures
        explore(g, trail_of(before), index_values(before.path@), ni) == explore(
            g,
            trail_of(after),
            index_values(before.path@),
            ni + 1,
        ),
{
    reveal(walker_ok);
    let way = index_values(before.path@);
    assert(way.last() == before.path@.last() as int);
    assert(way[at] == v);
    assert(way.contains(v));
    let found = way.index_of(v);
    assert(0 <= found < way.len() && way[found] == v);
    if found != at {
        assert(before.path@[found] as int == v);
        assert(before.path@[found] == before.path@[at]);
    }
    let cycle = way.skip(at);
    assert(index_values(after.cycles@.last()@) =~= cycle);
    assert(int_rows(after.cycles@) =~= int_rows(before.cycles@).push(cycle)) by {
        assert forall|i: int| 0 <= i < before.cycles@.len() implies int_rows(after.cycles@)[i]
            == int_rows(before.cycles@)[i] by {
            assert(after.cycles@[i] == after.cycles@.drop_last()[i]);
        }
    }
}

/// The search passes a neighbour that it has seen and that does not lie on
/// its way.
proof fn lemma_explore_pass(g: GraphView, st: Walker, fin: Seq<int>, clock: int, ni: int, v: int)
    requires
        g.files.len() <= usize::MAX,
        walker_ok(g, st, fin, clock),
        st.path@.len() > 0,
        0 <= ni < neighbours(g, true, st.path@.last() as int).len(),
        neighbours(g, true, st.path@.last() as int)[ni] == v,
        0 <= v < g.files.len(),
        st.visited@[v],
        !st.on_path@[v],
    ensures
        explore(g, trail_of(st), index_values(st.path@), ni) == explore(
            g,
            trail_of(st),
            index_values(st.path@),
            ni + 1,
        ),
{
    lemma_walker_reads(g, st, fin, clock, v);
    let way = index_values(st.path@);
    assert(way.last() == st.path@.last() as int);
    if way.contains(v) {
        let i = choose|i: int| 0 <= i < way.len() && way[i] == v;
        assert(st.path@[i] == v as usize);
        assert(st.path@.contains(v as usize));
    }
}

/// Goes down from `u`, along the calls, through the files not yet visited,
/// and notes a cycle wherever a call leads back into the path gone.
fn dfs(
    Ghost(g): Ghost<GraphView>,
    adj: &Vec<Vec<usize>>,
    st: &mut Walker,
    u: usize,
    Ghost(fin0): Ghost<Seq<int>>,
    Ghost(clock0): Ghost<int>,
) -> (r: Ghost<(Seq<int>, int)>)
    requires
        lists_match(g, true, adj@),
        walker_ok(g, *old(st), fin0, clock0),
        u < g.files.len(),
        !old(st).visited@[u as int],
        old(st).path@.len() > 0 ==> adjacent(
            g,
            true,
            old(st).path@[old(st).path@.len() - 1] as int,
            u as int,
        ),
    ensures
        walker_ok(g, *final(st), r@.0, r@.1),
        final(st).path@ == old(st).path@,
        final(st).on_path@ == old(st).on_path@,
        forall|v: int| 0 <= v < g.files.len() && old(st).visited@[v] ==> final(st).visited@[v],
        forall|v: int| 0 <= v < g.files.len() && fin0[v] > 0 ==> r@.0[v] == fin0[v],
        r@.0[u as int] > 0,
        r@.1 >= clock0,
        final(st).cycles@.len() >= old(st).cycles@.len(),
        old(st).cycles@.len() > 0 ==> final(st).cycles@ .len() > 0,
        count_unset(final(st).visited@) < count_unset(old(st).visited@),
        trail_of(*final(st)) == explore(
            g,
            Trail {
                seen: old(st).visited@.update(u as int, true),
                cycles: int_rows(old(st).cycles@),
            },
            index_values(old(st).path@).push(u as int),
            0,
        ),
    decreases count_unset(old(st).visited@),
{
    let ghost n = g.files.len();
    let ghost start = *st;
    let total = adj.len();
    let ghost way = index_values(st.path@).push(u as int);
    let ghost goal = explore(
        g,
        Trail { seen: st.visited@.update(u as int, true), cycles: int_rows(st.cycles@) },
        way,
        0,
    );
    proof {
        lemma_walker_reads(g, *st, fin0, clock0, u as int);
        lemma_count_unset(st.visited@, u as int);
    }
    st.visited.set(u, true);
    st.on_path.set(u, true);
    st.path.push(u);
    let ghost mut fin = fin0;
    let ghost mut clock = clock0;
    proof {
        lemma_enter(g, start, *st, fin, clock, u);
        lemma_lists_hold_neighbours(g, true, adj@, u as int);
        assert(index_values(st.path@) =~= way);
        assert(trail_of(*st) =~= (Trail {
            seen: start.visited@.update(u as int, true),
            cycles: int_rows(start.cycles@),
        }));
    }
    let mut ni: usize = 0;
    while ni < adj[u].len()
        invariant
            ni <= adj@[u as int]@.len(),
            n == g.files.len(),
            n == total,
            u < n,
            lists_match(g, true, adj@),
            walker_ok(g, *st, fin, clock),
            way == index_values(st.path@),
            index_values(adj@[u as int]@) == neighbours(g, true, u as int),
            explore(g, trail_of(*st), way, ni as int) == goal,
            st.visited@.len() == n,
            st.on_path@.len() == n,
            fin.len() == n,
            start.visited@ == old(st).visited@,
            start.visited@.len() == n,
            start.on_path@.len() == n,
            !start.on_path@[u as int],
            st.path@ == start.path@.push(u),
            st.on_path@ == start.on_path@.update(u as int, true),
            forall|v: int| 0 <= v < n && start.visited@[v] ==> st.visited@[v],
            st.visited@[u as int],
            forall|v: int| 0 <= v < n && fin0[v] > 0 ==> fin[v] == fin0[v],
            fin[u as int] == 0,
            clock >= clock0,
            st.cycles@.len() >= start.cycles@.len(),
            count_unset(st.visited@) < count_unset(start.visited@),
            st.cycles@.len() == 0 ==> forall|j: int|
                0 <= j < ni ==> fin[(#[trigger] adj@[u as int]@[j]) as int] > 0,
        decreases adj@[u as int]@.len() - ni,
    {
        let v = adj[u][ni];
        assert(adj@[u as int]@[ni as int] < n);
        proof {
            assert(adj@[u as int]@.contains(v));
            assert(adjacent(g, true, u as int, v as int));
            lemma_walker_reads(g, *st, fin, clock, v as int);
            assert(st.path@.last() == u);
            assert(index_values(adj@[u as int]@)[ni as int] == v);
        }
        if !st.visited[v] {
            let ghost mid = *st;
            let ghost mid_fin = fin;
            let next = dfs(Ghost(g), adj, st, v, Ghost(fin), Ghost(clock));
            proof {
                lemma_explore_down(g, mid, *st, fin, clock, ni as int, v as int);
                fin = next@.0;
                clock = next@.1;
                lemma_walker_reads(g, *st, fin, clock, u as int);
                assert forall|j: int| 0 <= j < ni && st.cycles@.len() == 0 implies fin[(
                #[trigger] adj@[u as int]@[j]) as int] > 0 by {
                    assert(mid.cycles@.len() == 0);
                    assert(mid_fin[adj@[u as int]@[j] as int] > 0);
                }
            }
        } else if st.on_path[v] {
            let at = find_on_path(&st.path, v);
            let cycle = copy_from(&st.path, at);
            let ghost before = *st;
            st.cycles.push(cycle);
            proof {
                assert(st.cycles@.drop_last() =~= before.cycles@);
                lemma_note_cycle(g, before, *st, fin, clock, at as int);
                lemma_explore_back(g, before, *st, fin, clock, ni as int, v as int, at as int);
            }
        } else {
            proof {
                lemma_explore_pass(g, *st, fin, clock, ni as int, v as int);
            }
        }
        ni += 1;
    }
    let ghost inner = *st;
    st.path.pop();
    st.on_path.set(u, false);
    proof {
        assert(st.path@ =~= start.path@);
        assert(st.on_path@ =~= start.on_path@);
        assert(inner.path@.last() == u);
        assert(st.path@ =~= inner.path@.drop_last());
        assert forall|x: int|
            inner.cycles@.len() == 0 && 0 <= x < n && #[trigger] adjacent(
                g,
                true,
                u as int,
                x,
            ) implies fin[x] > 0 by {
            assert(adj@[u as int]@.contains(x as usize));
            let j = choose|j: int|
                0 <= j < adj@[u as int]@.len() && adj@[u as int]@[j] == x as usize;
            assert(fin[adj@[u as int]@[j] as int] > 0);
        }
        lemma_walker_reads(g, inner, fin, clock, u as int);
        lemma_leave(g, inner, *st, fin, clock, u);
        fin = fin.update(u as int, clock);
        clock = clock + 1;
    }
    Ghost((fin, clock))
}


/// The state in which the search starts is sound.
proof fn lemma_walker_start(g: GraphView, st: Walker, fin: Seq<int>)
    requires
        st.visited@.len() == g.files.len(),
        st.on_path@.len() == g.files.len(),
        fin.len() == g.files.len(),
        forall|v: int| 0 <= v < g.files.len() ==> !st.visited@[v],
        forall|v: int| 0 <= v < g.files.len() ==> !st.on_path@[v],
        forall|v: int| 0 <= v < g.files.len() ==> fin[v] == 0,
        st.path@.len() == 0,
        st.cycles@.len() == 0,
    ensures
        walker_ok(g, st, fin, 1),
{
    reveal(walker_ok);
    lemma_count_bound(st.visited@);
}

/// What the search has noted are cycles; and where it has been through
/// every file and noted none, the numbers fall along every call.
proof fn lemma_walker_end(g: GraphView, st: Walker, fin: Seq<int>, clock: int)
    requires
        g.files.len() <= usize::MAX,
        walker_ok(g, st, fin, clock),
        st.path@.len() == 0,
        forall|v: int| 0 <= v < g.files.len() ==> st.visited@[v],
    ensures
        fin.len() == g.files.len(),
        forall|k: int|
            0 <= k < st.cycles@.len() ==> is_cycle(g, index_values((#[trigger] st.cycles@[k])@)),
        st.cycles@.len() == 0 ==> forall|v: int, x: int|
            0 <= v < g.files.len() && 0 <= x < g.files.len() && #[trigger] adjacent(g, true, v, x)
                ==> fin[x] < fin[v],
{
    reveal(walker_ok);
    assert forall|v: int, x: int|
        st.cycles@.len() == 0 && 0 <= v < g.files.len() && 0 <= x < g.files.len()
            && #[trigger] adjacent(g, true, v, x) implies fin[x] < fin[v] by {
        assert(st.visited@[v]);
        if st.on_path@[v] {
            assert(st.path@.contains(v as usize));
        }
        assert(fin[v] > 0);
    }
}

/// Along a walk the numbers fall, where they fall along every edge.
proof fn lemma_numbers_fall(g: GraphView, fin: Seq<int>, w: Seq<int>)
    requires
        fin.len() == g.files.len(),
        is_walk(g, true, w),
        forall|v: int, x: int|
            0 <= v < g.files.len() && 0 <= x < g.files.len() && #[trigger] adjacent(g, true, v, x)
                ==> fin[x] < fin[v],
    ensures
        fin[w.last()] + w.len() - 1 <= fin[w[0]],
    decreases w.len(),
{
    if w.len() > 1 {
        let init = w.drop_last();
        assert forall|i: int| 0 <= i < init.len() implies 0 <= #[trigger] init[i]
            < g.files.len() by {
            assert(init[i] == w[i]);
        }
        assert forall|i: int| 0 <= i < init.len() - 1 implies adjacent(
            g,
            true,
            #[trigger] init[i],
            init[i + 1],
        ) by {
            assert(init[i] == w[i] && init[i + 1] == w[i + 1]);
            assert(adjacent(g, true, w[i], w[i + 1]));
        }
        lemma_numbers_fall(g, fin, init);
        assert(init.last() == w[w.len() - 2]);
        assert(init[0] == w[0]);
        assert(adjacent(g, true, w[w.len() - 2], w[w.len() - 2 + 1]));
        assert(0 <= w[w.len() - 2] < g.files.len());
        assert(0 <= w[w.len() - 1] < g.files.len());
    }
}

/// The cycles of calls between files.
pub struct CycleDetectionQuery;

/// The views of lists of paths.
pub open spec fn path_rows(v: Seq<Vec<String>>) -> Seq<Seq<Seq<char>>> {
    v.map_values(|row: Vec<String>| texts(row@))
}

/// Whether `r` answers the query for cycles: each of its lists holds the
/// paths of the files of a cycle of calls, and it is empty only where no
/// walk along calls is closed.
pub open spec fn are_cycles(g: GraphView, r: Seq<Seq<Seq<char>>>) -> bool {
    &&& forall|i: int| 0 <= i < r.len() ==> lists_cycle(g, #[trigger] r[i])
    &&& (r.len() == 0) <==> !exists|w: Seq<int>| is_closed_walk(g, w)
}

/// What the query for cycles gives: for each cycle that the search finds,
/// in the order in which it finds them, the paths of its files.
pub open spec fn cycle_rows(g: GraphView) -> Seq<Seq<Seq<char>>> {
    found_cycles(g).map_values(|c: Seq<int>| walk_paths(g, c))
}

/// Whether `row` holds the paths of the files of a cycle of calls.
pub open spec fn lists_cycle(g: GraphView, row: Seq<Seq<char>>) -> bool {
    exists|c: Seq<int>| is_cycle(g, c) && row == #[trigger] walk_paths(g, c)
}

impl CycleDetectionQuery {
    /// The query for cycles.
    pub fn new() -> CycleDetectionQuery {
        CycleDetectionQuery
    }
}

impl Default for CycleDetectionQuery {
    fn default() -> CycleDetectionQuery {
        CycleDetectionQuery
    }
}

impl Query<Vec<Vec<String>>> for CycleDetectionQuery {
    fn run(&self, graph: &KnowledgeGraph) -> (r: Vec<Vec<String>>)
        ensures
            path_rows(r@) == cycle_rows(graph@),
            are_cycles(graph@, path_rows(r@)),
    {
        let files = graph.files();
        let ghost g = graph@;
        let adj = adjacency(graph, true);
        let n = files.len();
        let mut st = Walker {
            visited: no_flags(n),
            on_path: no_flags(n),
            path: Vec::new(),
            cycles: Vec::new(),
        };
        let ghost mut fin: Seq<int> = Seq::new(n as nat, |i: int| 0int);
        let ghost mut clock: int = 1;
        let ghost first = Trail {
            seen: Seq::new(g.files.len(), |i: int| false),
            cycles: Seq::empty(),
        };
        proof {
            lemma_walker_start(g, st, fin);
            assert(st.visited@ =~= first.seen);
            assert(int_rows(st.cycles@) =~= first.cycles);
        }
        let mut u: usize = 0;
        while u < n
            invariant
                u <= n,
                n == g.files.len(),
                lists_match(g, true, adj@),
                walker_ok(g, st, fin, clock),
                st.visited@.len() == n,
                st.path@.len() == 0,
                forall|v: int| 0 <= v < u ==> st.visited@[v],
                explore_from(g, trail_of(st), u as int) == explore_from(g, first, 0),
            decreases n - u,
        {
            if !st.visited[u] {
                let ghost before = st;
                let next = dfs(Ghost(g), &adj, &mut st, u, Ghost(fin), Ghost(clock));
                proof {
                    fin = next@.0;
                    clock = next@.1;
                    lemma_walker_reads(g, st, fin, clock, u as int);
                    assert(index_values(before.path@).push(u as int) =~= seq![u as int]);
                }
            }
            u += 1;
        }
        proof {
            lemma_walker_end(g, st, fin, clock);
            assert(int_rows(st.cycles@) == found_cycles(g));
        }
        let mut out: Vec<Vec<String>> = Vec::new();
        let mut i: usize = 0;
        while i < st.cycles.len()
            invariant
                i <= st.cycles.len(),
                g == graph@,
                file_views(files@) == g.files,
                out.len() == i,
                int_rows(st.cycles@) == found_cycles(g),
                fin.len() == g.files.len(),
                st.cycles@.len() == 0 ==> forall|v: int, x: int|
                    0 <= v < g.files.len() && 0 <= x < g.files.len() && #[trigger] adjacent(
                        g,
                        true,
                        v,
                        x,
                    ) ==> fin[x] < fin[v],
                forall|k: int|
                    0 <= k < st.cycles@.len() ==> is_cycle(
                        g,
                        index_values((#[trigger] st.cycles@[k])@),
                    ),
                forall|k: int|
                    0 <= k < i ==> #[trigger] path_rows(out@)[k] == walk_paths(
                        g,
                        index_values(st.cycles@[k]@),
                    ),
            decreases st.cycles.len() - i,
        {
            let cycle = &st.cycles[i];
            let ghost c = index_values(cycle@);
            let mut row: Vec<String> = Vec::new();
            let mut j: usize = 0;
            assert(texts(row@) =~= walk_paths(g, c).take(0));
            while j < cycle.len()
                invariant
                    j <= cycle.len(),
                    c == index_values(cycle@),
                    is_cycle(g, c),
                    file_views(files@) == g.files,
                    texts(row@) == walk_paths(g, c).take(j as int),
                decreases cycle.len() - j,
            {
                let ghost before = texts(row@);
                assert(c[j as int] == cycle@[j as int]);
                assert(0 <= c[j as int] < g.files.len());
                assert(g.files[cycle@[j as int] as int] == files@[cycle@[j as int] as int]@);
                row.push(files[cycle[j]].path.clone());
                assert(texts(row@) =~= before.push(g.files[c[j as int]].path));
                assert(walk_paths(g, c).take(j + 1) =~= walk_paths(g, c).take(j as int).push(
                    g.files[c[j as int]].path,
                ));
                j += 1;
            }
            assert(walk_paths(g, c).take(j as int) =~= walk_paths(g, c));
            let ghost rows_before = path_rows(out@);
            out.push(row);
            assert(path_rows(out@) =~= rows_before.push(texts(row@)));
            i += 1;
        }
        proof {
            let r = path_rows(out@);
            assert(r =~= cycle_rows(g)) by {
                assert forall|k: int| 0 <= k < r.len() implies r[k] == cycle_rows(g)[k] by {
                    assert(int_rows(st.cycles@)[k] == index_values(st.cycles@[k]@));
                }
            }
            assert forall|k: int| 0 <= k < r.len() implies lists_cycle(g, #[trigger] r[k]) by {
                let c = index_values(st.cycles@[k]@);
                assert(is_cycle(g, c) && r[k] == walk_paths(g, c));
            }
            if r.len() == 0 {
                assert(st.cycles@.len() == 0);
                assert forall|w: Seq<int>| !is_closed_walk(g, w) by {
                    if is_closed_walk(g, w) {
                        lemma_numbers_fall(g, fin, w);
                        assert(0 <= w[0] < g.files.len());
                        assert(0 <= w[w.len() - 1] < g.files.len());
                    }
                }
            } else {
                let c = index_values(st.cycles@[0]@);
                assert(is_cycle(g, c));
                assert(is_closed_walk(g, c));
            }
        }
        out
    }
}

} // verus!
