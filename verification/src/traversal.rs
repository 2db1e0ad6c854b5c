//! The projection of the graph to its files: which file has an edge to
//! which, the lists of neighbours, and what can be reached over how many
//! edges.

use crate::centrality::index_values;
use crate::graph::{owner_index, owner_of, GraphView, KnowledgeGraph};
use crate::model::{file_views, relationship_views, RelationshipType};
use vstd::prelude::*;

verus! {

/// The edge of the projection that relationship `k` gives: from the file
/// that owns its source to the file that owns its destination, where both
/// have an owner and these are two files.
pub open spec fn file_edge(g: GraphView, k: int) -> Option<(int, int)> {
    match (
        owner_of(g.files, g.relationships[k].from_item),
        owner_of(g.files, g.relationships[k].to_item),
    ) {
        (Some(u), Some(v)) => if u != v {
            Some((u, v))
        } else {
            None
        },
        _ => None,
    }
}

/// Whether the projection has an edge from file `u` to file `v`; with
/// `calls_only`, whether a call gives one.
pub open spec fn adjacent(g: GraphView, calls_only: bool, u: int, v: int) -> bool {
    exists|k: int|
        0 <= k < g.relationships.len() && (!calls_only || g.relationships[k].relationship_type
            is Calls) && #[trigger] file_edge(g, k) == Some((u, v))
}

/// Whether `w` is a walk in the projection: a file, or files each joined to
/// the next by an edge.
pub open spec fn is_walk(g: GraphView, calls_only: bool, w: Seq<int>) -> bool {
    &&& w.len() > 0
    &&& forall|i: int| 0 <= i < w.len() ==> 0 <= #[trigger] w[i] < g.files.len()
    &&& forall|i: int| 0 <= i < w.len() - 1 ==> adjacent(g, calls_only, #[trigger] w[i], w[i + 1])
}

/// Whether the lists of neighbours are those of the projection: for each
/// file its neighbours, each once, in ascending order.
pub open spec fn lists_match(g: GraphView, calls_only: bool, adj: Seq<Vec<usize>>) -> bool {
    &&& adj.len() == g.files.len()
    &&& forall|u: int, i: int|
        0 <= u < adj.len() && 0 <= i < adj[u]@.len() ==> (#[trigger] adj[u]@[i]) < adj.len()
    &&& forall|u: int, i: int, j: int|
        0 <= u < adj.len() && 0 <= i < j < adj[u]@.len() ==> (#[trigger] adj[u]@[i])
            < #[trigger] adj[u]@[j]
    &&& forall|u: int, v: int|
        0 <= u < adj.len() && 0 <= v < adj.len() ==> (adj[u]@.contains(v as usize)
            <==> #[trigger] adjacent(g, calls_only, u, v))
}

fn insert_index(list: &mut Vec<usize>, v: usize)
    requires
        forall|i: int, j: int| 0 <= i < j < old(list)@.len() ==> old(list)@[i] < old(list)@[j],
    ensures
        forall|i: int, j: int| 0 <= i < j < final(list)@.len() ==> final(list)@[i] < final(list)@[j],
        forall|x: usize| final(list)@.contains(x) <==> (old(list)@.contains(x) || x == v),
{
    let ghost before = list@;
    let mut pos: usize = 0;
    while pos < list.len() && list[pos] < v
        invariant
            pos <= list.len(),
            list@ == before,
            forall|i: int| 0 <= i < pos ==> before[i] < v,
        decreases list.len() - pos,
    {
        pos += 1;
    }
    if pos < list.len() && list[pos] == v {
        assert(before.contains(v));
        return;
    }
    list.insert(pos, v);
    proof {
        let after = list@;
        assert(after =~= before.insert(pos as int, v));
        assert forall|i: int, j: int| 0 <= i < j < after.len() implies after[i] < after[j] by {
            if j < pos {
            } else if j == pos {
            } else if i == pos {
                assert(after[j] == before[j - 1]);
                if j - 1 > pos {
                    assert(before[pos as int] < before[j - 1]);
                }
            } else if i < pos {
                assert(after[j] == before[j - 1]);
                if j - 1 > pos {
                    assert(before[pos as int] < before[j - 1]);
                }
            } else {
                assert(after[i] == before[i - 1] && after[j] == before[j - 1]);
            }
        }
        assert forall|x: usize| after.contains(x) <==> (before.contains(x) || x == v) by {
            if after.contains(x) {
                let k = choose|k: int| 0 <= k < after.len() && after[k] == x;
                if k < pos {
                    assert(before[k] == x);
                } else if k > pos {
                    assert(before[k - 1] == x);
                }
            }
            if before.contains(x) {
                let k = choose|k: int| 0 <= k < before.len() && before[k] == x;
                if k < pos {
                    assert(after[k] == x);
                } else {
                    assert(after[k + 1] == x);
                }
            }
            if x == v {
                assert(after[pos as int] == v);
            }
        }
    }
}

/// Whether one of the first `n` relationships gives the projection an edge
/// from `u` to `v`.
pub open spec fn adjacent_within(g: GraphView, calls_only: bool, u: int, v: int, n: int) -> bool {
    exists|k: int|
        0 <= k < n && k < g.relationships.len() && (!calls_only
            || g.relationships[k].relationship_type is Calls) && #[trigger] file_edge(g, k)
            == Some((u, v))
}

/// The lists of neighbours of the projection: for each file the files that
/// an edge goes to, each once, in ascending order.
pub fn adjacency(graph: &KnowledgeGraph, calls_only: bool) -> (adj: Vec<Vec<usize>>)
    ensures
        lists_match(graph@, calls_only, adj@),
{
    let files = graph.files();
    let rels = graph.relationships();
    let ghost g = graph@;
    let n = files.len();
    let mut adj: Vec<Vec<usize>> = Vec::new();
    let mut i: usize = 0;
    while i < n
        invariant
            i <= n,
            adj.len() == i,
            forall|u: int| 0 <= u < i ==> (#[trigger] adj@[u])@.len() == 0,
        decreases n - i,
    {
        adj.push(Vec::new());
        i += 1;
    }
    let mut k: usize = 0;
    while k < rels.len()
        invariant
            k <= rels.len(),
            g == graph@,
            n == files.len(),
            file_views(files@) == g.files,
            relationship_views(rels@) == g.relationships,
            adj.len() == n,
            forall|u: int, i: int|
                0 <= u < n && 0 <= i < adj@[u]@.len() ==> (#[trigger] adj@[u]@[i]) < n,
            forall|u: int, i: int, j: int|
                0 <= u < n && 0 <= i < j < adj@[u]@.len() ==> (#[trigger] adj@[u]@[i])
                    < #[trigger] adj@[u]@[j],
            forall|u: int, v: int|
                0 <= u < n && 0 <= v < n ==> (adj@[u]@.contains(v as usize)
                    <==> #[trigger] adjacent_within(g, calls_only, u, v, k as int)),
        decreases rels.len() - k,
    {
        let rel = &rels[k];
        assert(g.relationships[k as int] == rel@);
        let counts = !calls_only || match &rel.relationship_type {
            RelationshipType::Calls { .. } => true,
            _ => false,
        };
        let ghost before = adj@;
        let ghost added: Option<(int, int)> = if counts {
            file_edge(g, k as int)
        } else {
            None
        };
        if counts {
            match owner_index(files, rel.from_item.0.as_str()) {
                Some(u) => match owner_index(files, rel.to_item.0.as_str()) {
                    Some(v) => {
                        if u != v {
                            let mut list: Vec<usize> = Vec::new();
                            core::mem::swap(&mut list, &mut adj[u]);
                            insert_index(&mut list, v);
                            core::mem::swap(&mut list, &mut adj[u]);
                        }
                    },
                    None => {},
                },
                None => {},
            }
        }
        proof {
            assert forall|u: int, i: int| 0 <= u < n && 0 <= i < adj@[u]@.len() implies (
            #[trigger] adj@[u]@[i]) < n by {
                let x = adj@[u]@[i];
                assert(adj@[u]@.contains(x));
                if before[u]@.contains(x) {
                    let m = choose|m: int| 0 <= m < before[u]@.len() && before[u]@[m] == x;
                    assert(before[u]@[m] < n);
                }
            }
            assert forall|u: int, v: int| 0 <= u < n && 0 <= v < n implies (adj@[u]@.contains(
                v as usize,
            ) <==> #[trigger] adjacent_within(g, calls_only, u, v, k + 1)) by {
                assert(before[u]@.contains(v as usize) <==> adjacent_within(
                    g,
                    calls_only,
                    u,
                    v,
                    k as int,
                ));
                if adjacent_within(g, calls_only, u, v, k as int) {
                    let w = choose|w: int|
                        0 <= w < k && w < g.relationships.len() && (!calls_only
                            || g.relationships[w].relationship_type is Calls) && file_edge(g, w)
                            == Some((u, v));
                    assert(file_edge(g, w) == Some((u, v)));
                }
                if adjacent_within(g, calls_only, u, v, k + 1) && !adjacent_within(
                    g,
                    calls_only,
                    u,
                    v,
                    k as int,
                ) {
                    let w = choose|w: int|
                        0 <= w < k + 1 && w < g.relationships.len() && (!calls_only
                            || g.relationships[w].relationship_type is Calls) && file_edge(g, w)
                            == Some((u, v));
                    assert(w == k);
                }
                if added == Some((u, v)) {
                    assert(file_edge(g, k as int) == Some((u, v)));
                }
            }
        }
        k += 1;
    }
    proof {
        assert forall|u: int, v: int| 0 <= u < n && 0 <= v < n implies (adj@[u]@.contains(
            v as usize,
        ) <==> #[trigger] adjacent(g, calls_only, u, v)) by {
            assert(adj@[u]@.contains(v as usize) <==> adjacent_within(
                g,
                calls_only,
                u,
                v,
                rels.len() as int,
            ));
            if adjacent(g, calls_only, u, v) {
                let w = choose|w: int|
                    0 <= w < g.relationships.len() && (!calls_only
                        || g.relationships[w].relationship_type is Calls) && file_edge(g, w)
                        == Some((u, v));
                assert(file_edge(g, w) == Some((u, v)));
            }
            if adjacent_within(g, calls_only, u, v, rels.len() as int) {
                let w = choose|w: int|
                    0 <= w < rels.len() && w < g.relationships.len() && (!calls_only
                        || g.relationships[w].relationship_type is Calls) && file_edge(g, w)
                        == Some((u, v));
                assert(file_edge(g, w) == Some((u, v)));
            }
        }
    }
    adj
}


/// The files to which the projection has an edge from file `u`, in
/// ascending order; with `calls_only`, those to which a call gives one.
pub open spec fn neighbours(g: GraphView, calls_only: bool, u: int) -> Seq<int> {
    Seq::new(g.files.len(), |v: int| v).filter(|v: int| adjacent(g, calls_only, u, v))
}

/// The neighbours among the first `k` files.
spec fn neighbours_below(g: GraphView, calls_only: bool, u: int, k: int) -> Seq<int> {
    Seq::new(k as nat, |v: int| v).filter(|v: int| adjacent(g, calls_only, u, v))
}

/// How far into an ascending list `a` the numbers below `k` go: they are
/// the neighbours among the first `k` files.
proof fn lemma_neighbours_below(g: GraphView, calls_only: bool, u: int, a: Seq<int>, k: int) -> (m:
    int)
    requires
        0 <= u < g.files.len(),
        0 <= k <= g.files.len(),
        forall|i: int| 0 <= i < a.len() ==> 0 <= #[trigger] a[i] < g.files.len(),
        forall|i: int, j: int| 0 <= i < j < a.len() ==> #[trigger] a[i] < #[trigger] a[j],
        forall|v: int|
            0 <= v < g.files.len() ==> (a.contains(v) <==> #[trigger] adjacent(g, calls_only, u, v)),
    ensures
        0 <= m <= a.len(),
        a.take(m) == neighbours_below(g, calls_only, u, k),
        forall|i: int| 0 <= i < m ==> #[trigger] a[i] < k,
        forall|i: int| m <= i < a.len() ==> #[trigger] a[i] >= k,
    decreases k,
{
    let keep = |v: int| adjacent(g, calls_only, u, v);
    if k == 0 {
        assert(a.take(0) =~= neighbours_below(g, calls_only, u, 0));
        0
    } else {
        let m = lemma_neighbours_below(g, calls_only, u, a, k - 1);
        let all = Seq::new(k as nat, |v: int| v);
        assert(all.drop_last() =~= Seq::new((k - 1) as nat, |v: int| v));
        assert(all.last() == k - 1);
        reveal(Seq::filter);
        assert(all.filter(keep) == if keep(k - 1) {
            all.drop_last().filter(keep).push(k - 1)
        } else {
            all.drop_last().filter(keep)
        });
        if adjacent(g, calls_only, u, k - 1) {
            assert(a.contains(k - 1));
            let j = choose|j: int| 0 <= j < a.len() && a[j] == k - 1;
            assert(j >= m);
            assert(a[m] >= k - 1);
            if m < j {
                assert(a[m] < a[j]);
            }
            assert(a.take(m + 1) =~= a.take(m).push(k - 1));
            assert forall|i: int| m + 1 <= i < a.len() implies #[trigger] a[i] >= k by {
                assert(a[m] < a[i]);
            }
            m + 1
        } else {
            assert forall|i: int| m <= i < a.len() implies #[trigger] a[i] >= k by {
                if a[i] == k - 1 {
                    assert(a.contains(k - 1));
                }
            }
            m
        }
    }
}

/// The lists of neighbours hold the neighbours.
pub proof fn lemma_lists_hold_neighbours(
    g: GraphView,
    calls_only: bool,
    adj: Seq<Vec<usize>>,
    u: int,
)
    requires
        lists_match(g, calls_only, adj),
        g.files.len() <= usize::MAX,
        0 <= u < g.files.len(),
    ensures
        index_values(adj[u]@) == neighbours(g, calls_only, u),
{
    let a = index_values(adj[u]@);
    assert forall|v: int| 0 <= v < g.files.len() implies (a.contains(v) <==> #[trigger] adjacent(
        g,
        calls_only,
        u,
        v,
    )) by {
        if a.contains(v) {
            let i = choose|i: int| 0 <= i < a.len() && a[i] == v;
            assert(adj[u]@[i] == v as usize);
            assert(adj[u]@.contains(v as usize));
        }
        if adj[u]@.contains(v as usize) {
            let i = choose|i: int| 0 <= i < adj[u]@.len() && adj[u]@[i] == v as usize;
            assert(a[i] == v);
        }
    }
    assert forall|i: int, j: int| 0 <= i < j < a.len() implies #[trigger] a[i] < #[trigger] a[j] by {
        assert(adj[u]@[i] < adj[u]@[j]);
    }
    assert forall|i: int| 0 <= i < a.len() implies 0 <= #[trigger] a[i] < g.files.len() by {
        assert(adj[u]@[i] < adj.len());
    }
    let m = lemma_neighbours_below(g, calls_only, u, a, g.files.len() as int);
    if m < a.len() {
        assert(a[m] >= g.files.len());
    }
    assert(a.take(m) =~= a);
}

/// Whether file `v` can be reached from file `s` over at most `k` edges of
/// the projection.
pub open spec fn reach(g: GraphView, s: int, v: int, k: int) -> bool
    decreases k,
{
    if k <= 0 {
        v == s
    } else {
        reach(g, s, v, k - 1) || exists|u: int|
            0 <= u < g.files.len() && reach(g, s, u, k - 1) && #[trigger] adjacent(g, false, u, v)
    }
}

/// What can be reached over few edges can be reached over more.
pub proof fn lemma_reach_more(g: GraphView, s: int, v: int, j: int, k: int)
    requires
        j <= k,
        reach(g, s, v, j),
    ensures
        reach(g, s, v, k),
    decreases k - j,
{
    if j < k {
        if k <= 0 {
        } else if j <= 0 {
            assert(reach(g, s, v, 0));
            lemma_reach_zero_up(g, s, v, k);
        } else {
            assert(reach(g, s, v, j + 1));
            lemma_reach_more(g, s, v, j + 1, k);
        }
    }
}

proof fn lemma_reach_zero_up(g: GraphView, s: int, v: int, k: int)
    requires
        reach(g, s, v, 0),
        k >= 0,
    ensures
        reach(g, s, v, k),
    decreases k,
{
    if k > 0 {
        lemma_reach_zero_up(g, s, v, k - 1);
    }
}

/// The end of a walk can be reached from its start over as many edges as
/// the walk has.
pub proof fn lemma_walk_reach(g: GraphView, w: Seq<int>)
    requires
        is_walk(g, false, w),
    ensures
        reach(g, w[0], w.last(), w.len() - 1),
    decreases w.len(),
{
    if w.len() > 1 {
        let init = w.drop_last();
        assert forall|i: int| 0 <= i < init.len() - 1 implies adjacent(
            g,
            false,
            #[trigger] init[i],
            init[i + 1],
        ) by {
            assert(init[i] == w[i] && init[i + 1] == w[i + 1]);
            assert(adjacent(g, false, w[i], w[i + 1]));
        }
        assert forall|i: int| 0 <= i < init.len() implies 0 <= #[trigger] init[i]
            < g.files.len() by {
            assert(init[i] == w[i]);
        }
        lemma_walk_reach(g, init);
        let u = w[w.len() - 2];
        assert(init.last() == u);
        assert(init[0] == w[0]);
        assert(adjacent(g, false, w[w.len() - 2], w[w.len() - 2 + 1]));
        assert(0 <= w[w.len() - 2] < g.files.len());
        let k = w.len() - 1;
        assert(reach(g, w[0], u, k - 1));
        assert(adjacent(g, false, u, w.last()));
    }
}

/// Where one more edge reaches nothing new, no number of edges does.
pub proof fn lemma_reach_closed(g: GraphView, s: int, v: int, k: int, j: int)
    requires
        k >= 0,
        forall|x: int| reach(g, s, x, k + 1) ==> #[trigger] reach(g, s, x, k),
        reach(g, s, v, j),
    ensures
        reach(g, s, v, k),
    decreases j,
{
    if j <= k {
        lemma_reach_more(g, s, v, j, k);
    } else {
        if !reach(g, s, v, j - 1) {
            let u = choose|u: int|
                0 <= u < g.files.len() && reach(g, s, u, j - 1) && #[trigger] adjacent(
                    g,
                    false,
                    u,
                    v,
                );
            lemma_reach_closed(g, s, u, k, j - 1);
            assert(reach(g, s, u, k));
            assert(reach(g, s, v, k + 1));
        } else {
            lemma_reach_closed(g, s, v, k, j - 1);
        }
    }
}

/// How many of the flags are not set.
pub open spec fn count_unset(flags: Seq<bool>) -> nat
    decreases flags.len(),
{
    if flags.len() == 0 {
        0
    } else {
        count_unset(flags.drop_last()) + if flags.last() {
            0nat
        } else {
            1nat
        }
    }
}

/// Setting a flag that was not set leaves one fewer unset.
pub proof fn lemma_count_unset(flags: Seq<bool>, i: int)
    requires
        0 <= i < flags.len(),
        !flags[i],
    ensures
        count_unset(flags.update(i, true)) + 1 == count_unset(flags),
        count_unset(flags) <= flags.len(),
    decreases flags.len(),
{
    lemma_count_bound(flags);
    if i == flags.len() - 1 {
        assert(flags.update(i, true).drop_last() =~= flags.drop_last());
    } else {
        lemma_count_unset(flags.drop_last(), i);
        assert(flags.update(i, true).drop_last() =~= flags.drop_last().update(i, true));
    }
}

/// At most all of the flags are unset.
pub proof fn lemma_count_bound(flags: Seq<bool>)
    ensures
        count_unset(flags) <= flags.len(),
    decreases flags.len(),
{
    if flags.len() > 0 {
        lemma_count_bound(flags.drop_last());
    }
}

/// The paths of the files of a walk.
pub open spec fn walk_paths(g: GraphView, w: Seq<int>) -> Seq<Seq<char>> {
    w.map_values(|i: int| g.files[i].path)
}

} // verus!
