//! The shortest path between two files, along the edges of the
//! projection: the first, file by file, of the walks that are as short as
//! any.

use crate::cache::reversed;
use crate::centrality::index_values;
use crate::graph::{index_of_file, position_of, GraphView, KnowledgeGraph};
use crate::model::{file_views, texts};
use crate::query::{no_flags, Query};
use crate::traversal::{
    adjacency, adjacent, count_unset, is_walk, lemma_count_unset, lemma_reach_closed,
    lemma_reach_more, lemma_walk_reach, lists_match, reach, walk_paths,
};
use vstd::prelude::*;

verus! {

/// Whether the walk `a` comes before the walk `b`, file by file: at the
/// first place where they differ, `a` has the file that comes first.
pub open spec fn walk_lt(a: Seq<int>, b: Seq<int>) -> bool
    decreases a.len(),
{
    if a.len() == 0 || b.len() == 0 {
        false
    } else if a[0] == b[0] {
        walk_lt(a.drop_first(), b.drop_first())
    } else {
        a[0] < b[0]
    }
}

/// `walk_lt`, or the same walk.
pub open spec fn walk_le(a: Seq<int>, b: Seq<int>) -> bool {
    a == b || walk_lt(a, b)
}

/// A walk that comes before another does so whatever files follow the two.
pub proof fn lemma_walk_lt_push(a: Seq<int>, b: Seq<int>, x: int, y: int)
    requires
        walk_lt(a, b),
    ensures
        walk_lt(a.push(x), b.push(y)),
    decreases a.len(),
{
    assert(a.push(x)[0] == a[0]);
    assert(b.push(y)[0] == b[0]);
    if a[0] == b[0] {
        lemma_walk_lt_push(a.drop_first(), b.drop_first(), x, y);
        assert(a.push(x).drop_first() =~= a.drop_first().push(x));
        assert(b.push(y).drop_first() =~= b.drop_first().push(y));
    }
}

/// Of two walks that differ in their last file only, the one with the
/// earlier file comes first.
pub proof fn lemma_walk_lt_last(a: Seq<int>, x: int, y: int)
    requires
        x < y,
    ensures
        walk_lt(a.push(x), a.push(y)),
    decreases a.len(),
{
    if a.len() > 0 {
        lemma_walk_lt_last(a.drop_first(), x, y);
        assert(a.push(x).drop_first() =~= a.drop_first().push(x));
        assert(a.push(y).drop_first() =~= a.drop_first().push(y));
        assert(a.push(x)[0] == a[0]);
        assert(a.push(y)[0] == a[0]);
    } else {
        assert(a.push(x)[0] == x);
        assert(a.push(y)[0] == y);
    }
}

/// The order of walks is transitive.
pub proof fn lemma_walk_lt_transitive(a: Seq<int>, b: Seq<int>, c: Seq<int>)
    requires
        walk_lt(a, b),
        walk_lt(b, c),
    ensures
        walk_lt(a, c),
    decreases a.len(),
{
    if a[0] == b[0] && b[0] == c[0] {
        lemma_walk_lt_transitive(a.drop_first(), b.drop_first(), c.drop_first());
    }
}

/// No walk comes before itself, and of two walks of one length at most one
/// comes before the other.
pub proof fn lemma_walk_lt_asymmetric(a: Seq<int>, b: Seq<int>)
    requires
        walk_lt(a, b),
    ensures
        !walk_lt(b, a),
        a != b,
    decreases a.len(),
{
    if a[0] == b[0] {
        lemma_walk_lt_asymmetric(a.drop_first(), b.drop_first());
    }
}

/// The state of a search from `s`: for each file found, over how many
/// edges at least it can be reached, and from which file it was found.
pub open spec fn tree_ok(
    g: GraphView,
    s: int,
    visited: Seq<bool>,
    dist: Seq<usize>,
    prev: Seq<usize>,
    bound: int,
) -> bool {
    &&& visited.len() == g.files.len()
    &&& dist.len() == g.files.len()
    &&& prev.len() == g.files.len()
    &&& 0 <= s < g.files.len()
    &&& visited[s]
    &&& dist[s] == 0
    &&& forall|v: int|
        0 <= v < g.files.len() && #[trigger] visited[v] ==> {
            &&& dist[v] <= bound
            &&& reach(g, s, v, dist[v] as int)
            &&& dist[v] > 0 ==> !reach(g, s, v, dist[v] - 1)
            &&& v != s ==> {
                &&& dist[v] > 0
                &&& prev[v] < g.files.len()
                &&& visited[prev[v] as int]
                &&& dist[prev[v] as int] + 1 == dist[v]
                &&& adjacent(g, false, prev[v] as int, v)
            }
        }
}


/// Whether `first` is the first of the walks from `s` to `v` that have its
/// length.
pub open spec fn least_among(g: GraphView, s: int, v: int, first: Seq<int>) -> bool {
    forall|w: Seq<int>| #[trigger] joins(g, w, s, v) && w.len() == first.len() ==> walk_le(first, w)
}

/// The walks of a search from `s`: for each file found, the first of the
/// shortest walks to it, which ends with the file from which it was found
/// and the file itself.
pub open spec fn walks_ok(
    g: GraphView,
    s: int,
    visited: Seq<bool>,
    dist: Seq<usize>,
    prev: Seq<usize>,
    walks: Seq<Seq<int>>,
) -> bool {
    &&& walks.len() == g.files.len()
    &&& forall|v: int|
        0 <= v < g.files.len() && #[trigger] visited[v] ==> {
            &&& joins(g, walks[v], s, v)
            &&& walks[v].len() == dist[v] + 1
            &&& v != s ==> walks[v] == walks[prev[v] as int].push(v)
            &&& v == s ==> walks[v] == seq![s]
            &&& least_among(g, s, v, walks[v])
        }
}

/// Whether the walks of the files of `list`, in order, each come before
/// the next.
pub open spec fn in_walk_order(walks: Seq<Seq<int>>, list: Seq<usize>) -> bool {
    forall|i: int, j: int|
        0 <= i < j < list.len() ==> walk_lt(
            walks[(#[trigger] list[i]) as int],
            walks[(#[trigger] list[j]) as int],
        )
}

/// Whether the walks of the files of `list` all come before `bound`.
pub open spec fn all_before(walks: Seq<Seq<int>>, list: Seq<usize>, bound: Seq<int>) -> bool {
    forall|m: int| 0 <= m < list.len() ==> walk_lt(walks[(#[trigger] list[m]) as int], bound)
}

/// The walk to a file found anew, through the file `frontier[fi]` from
/// which it is found, is a walk from `s`, and the first of its length.
proof fn lemma_new_walk_least(
    g: GraphView,
    s: int,
    visited: Seq<bool>,
    dist: Seq<usize>,
    prev: Seq<usize>,
    walks: Seq<Seq<int>>,
    frontier: Seq<usize>,
    fi: int,
    k: int,
    v: int,
)
    requires
        tree_ok(g, s, visited, dist, prev, k + 1),
        walks_ok(g, s, visited, dist, prev, walks),
        g.files.len() <= usize::MAX,
        0 <= fi < frontier.len(),
        0 <= v < g.files.len(),
        !visited[v],
        k >= 0,
        adjacent(g, false, frontier[fi] as int, v),
        forall|x: int| 0 <= x < g.files.len() && !visited[x] ==> !reach(g, s, x, k),
        forall|i: int|
            0 <= i < frontier.len() ==> (#[trigger] frontier[i]) < g.files.len()
                && visited[frontier[i] as int] && dist[frontier[i] as int] == k,
        forall|x: int|
            0 <= x < g.files.len() && #[trigger] visited[x] && dist[x] == k ==> frontier.contains(
                x as usize,
            ),
        forall|i: int, x: int|
            0 <= i < fi && 0 <= x < g.files.len() && #[trigger] adjacent(
                g,
                false,
                frontier[i] as int,
                x,
            ) ==> visited[x],
        in_walk_order(walks, frontier),
    ensures
        joins(g, walks[frontier[fi] as int].push(v), s, v),
        least_among(g, s, v, walks[frontier[fi] as int].push(v)),
        walks[frontier[fi] as int].push(v).len() == k + 2,
{
    let u = frontier[fi] as int;
    let base = walks[u];
    let new = base.push(v);
    assert(visited[u]);
    assert(joins(g, base, s, u));
    assert forall|i: int| 0 <= i < new.len() implies 0 <= #[trigger] new[i] < g.files.len() by {
        if i < base.len() {
            assert(new[i] == base[i]);
        }
    }
    assert forall|i: int| 0 <= i < new.len() - 1 implies adjacent(
        g,
        false,
        #[trigger] new[i],
        new[i + 1],
    ) by {
        if i + 1 < base.len() {
            assert(new[i] == base[i] && new[i + 1] == base[i + 1]);
        } else {
            assert(new[i] == base.last());
        }
    }
    assert forall|w: Seq<int>| #[trigger] joins(g, w, s, v) && w.len() == new.len() implies walk_le(
        new,
        w,
    ) by {
        let init = w.drop_last();
        let other = w[w.len() - 2];
        assert(w =~= init.push(v));
        assert(adjacent(g, false, w[w.len() - 2], w[w.len() - 2 + 1]));
        assert forall|i: int| 0 <= i < init.len() implies 0 <= #[trigger] init[i]
            < g.files.len() by {
            assert(init[i] == w[i]);
        }
        assert forall|i: int| 0 <= i < init.len() - 1 implies adjacent(
            g,
            false,
            #[trigger] init[i],
            init[i + 1],
        ) by {
            assert(init[i] == w[i] && init[i + 1] == w[i + 1]);
        }
        assert(init[0] == w[0]);
        assert(init.last() == other);
        lemma_walk_reach(g, init);
        assert(reach(g, s, other, k));
        assert(0 <= w[w.len() - 2] < g.files.len());
        assert(visited[other]);
        if dist[other] == k + 1 {
            assert(!reach(g, s, other, dist[other] - 1));
        } else if dist[other] < k {
            assert(reach(g, s, v, dist[other] + 1));
            lemma_reach_more(g, s, v, dist[other] + 1, k);
        }
        assert(dist[other] == k);
        assert(frontier.contains(other as usize));
        let j = choose|j: int| 0 <= j < frontier.len() && frontier[j] == other as usize;
        assert(frontier[j] as int == other);
        if j < fi {
            assert(adjacent(g, false, frontier[j] as int, v));
        }
        assert(joins(g, init, s, other));
        assert(least_among(g, s, other, walks[other]));
        assert(walk_le(walks[other], init));
        if j == fi {
            if base != init {
                lemma_walk_lt_push(base, init, v, v);
            }
        } else {
            assert(walk_lt(walks[frontier[fi] as int], walks[frontier[j] as int]));
            if walks[other] != init {
                lemma_walk_lt_transitive(base, walks[other], init);
            }
            lemma_walk_lt_push(base, init, v, v);
        }
    }
}

/// After a file is found anew, the walks are still those of the search,
/// and the files found in this round are still in the order of their
/// walks, all before what is to come.
proof fn lemma_walks_after_visit(
    g: GraphView,
    s: int,
    visited: Seq<bool>,
    dist: Seq<usize>,
    prev: Seq<usize>,
    walks: Seq<Seq<int>>,
    frontier: Seq<usize>,
    next: Seq<usize>,
    fi: int,
    k: int,
    v: int,
    last: int,
)
    requires
        walks_ok(g, s, visited, dist, prev, walks),
        0 <= fi < frontier.len(),
        0 <= v < g.files.len(),
        v < usize::MAX,
        k + 1 <= usize::MAX,
        !visited[v],
        visited.len() == g.files.len(),
        dist.len() == g.files.len(),
        prev.len() == g.files.len(),
        v != s,
        last < v,
        joins(g, walks[frontier[fi] as int].push(v), s, v),
        least_among(g, s, v, walks[frontier[fi] as int].push(v)),
        walks[frontier[fi] as int].push(v).len() == k + 2,
        forall|i: int|
            0 <= i < frontier.len() ==> (#[trigger] frontier[i]) < g.files.len()
                && visited[frontier[i] as int],
        forall|m: int|
            0 <= m < next.len() ==> (#[trigger] next[m]) < g.files.len() && visited[next[m] as int],
        forall|x: int|
            0 <= x < g.files.len() && #[trigger] visited[x] && x != s ==> prev[x] < g.files.len()
                && visited[prev[x] as int],
        in_walk_order(walks, frontier),
        in_walk_order(walks, next),
        forall|i: int, c: int|
            fi < i < frontier.len() ==> all_before(
                walks,
                next,
                #[trigger] walks[frontier[i] as int].push(c),
            ),
        forall|c: int|
            last < c ==> all_before(walks, next, #[trigger] walks[frontier[fi] as int].push(c)),
    ensures
        ({
            let after = walks.update(v, walks[frontier[fi] as int].push(v));
            let found = next.push(v as usize);
            &&& walks_ok(
                g,
                s,
                visited.update(v, true),
                dist.update(v, (k + 1) as usize),
                prev.update(v, frontier[fi]),
                after,
            )
            &&& in_walk_order(after, frontier)
            &&& in_walk_order(after, found)
            &&& forall|i: int, c: int|
                fi < i < frontier.len() ==> all_before(
                    after,
                    found,
                    #[trigger] after[frontier[i] as int].push(c),
                )
            &&& forall|c: int|
                v < c ==> all_before(after, found, #[trigger] after[frontier[fi] as int].push(c))
        }),
{
    let u = frontier[fi] as int;
    let new = walks[u].push(v);
    let after = walks.update(v, new);
    let found = next.push(v as usize);
    let visited2 = visited.update(v, true);
    let dist2 = dist.update(v, (k + 1) as usize);
    let prev2 = prev.update(v, frontier[fi]);
    assert(visited[u]);
    assert forall|x: int| 0 <= x < g.files.len() && #[trigger] visited2[x] implies {
        &&& joins(g, after[x], s, x)
        &&& after[x].len() == dist2[x] + 1
        &&& x != s ==> after[x] == after[prev2[x] as int].push(x)
        &&& x == s ==> after[x] == seq![s]
        &&& least_among(g, s, x, after[x])
    } by {
        if x != v {
            assert(visited[x]);
            assert(after[x] == walks[x]);
            if x != s {
                assert(visited[prev[x] as int]);
            }
        }
    }
    assert forall|i: int, j: int| 0 <= i < j < frontier.len() implies walk_lt(
        after[(#[trigger] frontier[i]) as int],
        after[(#[trigger] frontier[j]) as int],
    ) by {
        assert(walk_lt(walks[frontier[i] as int], walks[frontier[j] as int]));
    }
    assert(all_before(walks, next, new));
    assert forall|i: int, j: int| 0 <= i < j < found.len() implies walk_lt(
        after[(#[trigger] found[i]) as int],
        after[(#[trigger] found[j]) as int],
    ) by {
        assert(found[i] == next[i]);
        assert(after[next[i] as int] == walks[next[i] as int]);
        if j < next.len() {
            assert(found[j] == next[j]);
            assert(after[next[j] as int] == walks[next[j] as int]);
            assert(walk_lt(walks[next[i] as int], walks[next[j] as int]));
        } else {
            assert(walk_lt(walks[next[i] as int], new));
        }
    }
    assert forall|i: int, c: int| fi < i < frontier.len() implies all_before(
        after,
        found,
        #[trigger] after[frontier[i] as int].push(c),
    ) by {
        let bound = walks[frontier[i] as int].push(c);
        assert(after[frontier[i] as int] == walks[frontier[i] as int]);
        assert(all_before(walks, next, bound));
        assert(walk_lt(walks[frontier[fi] as int], walks[frontier[i] as int]));
        lemma_walk_lt_push(walks[u], walks[frontier[i] as int], v, c);
        assert forall|m: int| 0 <= m < found.len() implies walk_lt(
            after[(#[trigger] found[m]) as int],
            bound,
        ) by {
            if m < next.len() {
                assert(found[m] == next[m]);
                assert(after[next[m] as int] == walks[next[m] as int]);
            }
        }
    }
    assert forall|c: int| v < c implies all_before(
        after,
        found,
        #[trigger] after[frontier[fi] as int].push(c),
    ) by {
        let bound = walks[u].push(c);
        assert(after[u] == walks[u]);
        assert(all_before(walks, next, bound));
        lemma_walk_lt_last(walks[u], v, c);
        assert forall|m: int| 0 <= m < found.len() implies walk_lt(
            after[(#[trigger] found[m]) as int],
            bound,
        ) by {
            if m < next.len() {
                assert(found[m] == next[m]);
                assert(after[next[m] as int] == walks[next[m] as int]);
            }
        }
    }
}

/// What holds of the walks while a search goes through one round: the
/// files found in the round are in the order of their walks, and those
/// walks come before every walk that the rest of the round can give, that
/// is one through a later file of `frontier`, or through the file at `fi`
/// and a file after `last`.
#[verifier::opaque]
spec fn level_ok(
    g: GraphView,
    s: int,
    visited: Seq<bool>,
    dist: Seq<usize>,
    prev: Seq<usize>,
    walks: Seq<Seq<int>>,
    frontier: Seq<usize>,
    next: Seq<usize>,
    fi: int,
    last: int,
) -> bool {
    &&& walks_ok(g, s, visited, dist, prev, walks)
    &&& in_walk_order(walks, frontier)
    &&& in_walk_order(walks, next)
    &&& forall|i: int, c: int|
        fi < i < frontier.len() ==> all_before(
            walks,
            next,
            #[trigger] walks[frontier[i] as int].push(c),
        )
    &&& fi < frontier.len() ==> forall|c: int|
        last < c ==> all_before(walks, next, #[trigger] walks[frontier[fi] as int].push(c))
}

/// A round starts in order.
proof fn lemma_level_start(
    g: GraphView,
    s: int,
    visited: Seq<bool>,
    dist: Seq<usize>,
    prev: Seq<usize>,
    walks: Seq<Seq<int>>,
    frontier: Seq<usize>,
)
    requires
        walks_ok(g, s, visited, dist, prev, walks),
        in_walk_order(walks, frontier),
    ensures
        level_ok(g, s, visited, dist, prev, walks, frontier, Seq::<usize>::empty(), 0, -1),
{
    reveal(level_ok);
}

/// A round stays in order over a file that was found before.
proof fn lemma_level_skip(
    g: GraphView,
    s: int,
    visited: Seq<bool>,
    dist: Seq<usize>,
    prev: Seq<usize>,
    walks: Seq<Seq<int>>,
    frontier: Seq<usize>,
    next: Seq<usize>,
    fi: int,
    last: int,
    v: int,
)
    requires
        level_ok(g, s, visited, dist, prev, walks, frontier, next, fi, last),
        last <= v,
    ensures
        level_ok(g, s, visited, dist, prev, walks, frontier, next, fi, v),
{
    reveal(level_ok);
}

/// A round stays in order from one file of the frontier to the next.
proof fn lemma_level_next(
    g: GraphView,
    s: int,
    visited: Seq<bool>,
    dist: Seq<usize>,
    prev: Seq<usize>,
    walks: Seq<Seq<int>>,
    frontier: Seq<usize>,
    next: Seq<usize>,
    fi: int,
    last: int,
)
    requires
        level_ok(g, s, visited, dist, prev, walks, frontier, next, fi, last),
    ensures
        level_ok(g, s, visited, dist, prev, walks, frontier, next, fi + 1, -1),
{
    reveal(level_ok);
}

/// At the end of a round the files found in it are in the order of their
/// walks.
proof fn lemma_level_end(
    g: GraphView,
    s: int,
    visited: Seq<bool>,
    dist: Seq<usize>,
    prev: Seq<usize>,
    walks: Seq<Seq<int>>,
    frontier: Seq<usize>,
    next: Seq<usize>,
    fi: int,
    last: int,
)
    requires
        level_ok(g, s, visited, dist, prev, walks, frontier, next, fi, last),
    ensures
        walks_ok(g, s, visited, dist, prev, walks),
        in_walk_order(walks, next),
{
    reveal(level_ok);
}

/// A round stays in order where the file `v` is found anew from the file
/// of the frontier at `fi`.
proof fn lemma_level_visit(
    g: GraphView,
    s: int,
    visited: Seq<bool>,
    dist: Seq<usize>,
    prev: Seq<usize>,
    walks: Seq<Seq<int>>,
    frontier: Seq<usize>,
    next: Seq<usize>,
    fi: int,
    k: int,
    v: int,
    last: int,
)
    requires
        level_ok(g, s, visited, dist, prev, walks, frontier, next, fi, last),
        tree_ok(g, s, visited, dist, prev, k + 1),
        g.files.len() <= usize::MAX,
        0 <= fi < frontier.len(),
        0 <= v < g.files.len(),
        !visited[v],
        0 <= k < g.files.len(),
        last < v,
        adjacent(g, false, frontier[fi] as int, v),
        forall|x: int| 0 <= x < g.files.len() && !visited[x] ==> !reach(g, s, x, k),
        forall|i: int|
            0 <= i < frontier.len() ==> (#[trigger] frontier[i]) < g.files.len()
                && visited[frontier[i] as int] && dist[frontier[i] as int] == k,
        forall|x: int|
            0 <= x < g.files.len() && #[trigger] visited[x] && dist[x] == k ==> frontier.contains(
                x as usize,
            ),
        forall|i: int, x: int|
            0 <= i < fi && 0 <= x < g.files.len() && #[trigger] adjacent(
                g,
                false,
                frontier[i] as int,
                x,
            ) ==> visited[x],
        forall|m: int|
            0 <= m < next.len() ==> (#[trigger] next[m]) < g.files.len() && visited[next[m] as int],
    ensures
        level_ok(
            g,
            s,
            visited.update(v, true),
            dist.update(v, (k + 1) as usize),
            prev.update(v, frontier[fi]),
            walks.update(v, walks[frontier[fi] as int].push(v)),
            frontier,
            next.push(v as usize),
            fi,
            v,
        ),
{
    reveal(level_ok);
    lemma_new_walk_least(g, s, visited, dist, prev, walks, frontier, fi, k, v);
    assert forall|x: int| 0 <= x < g.files.len() && #[trigger] visited[x] && x != s implies prev[x]
        < g.files.len() && visited[prev[x] as int] by {}
    lemma_walks_after_visit(g, s, visited, dist, prev, walks, frontier, next, fi, k, v, last);
}

fn zeros(n: usize) -> (r: Vec<usize>)
    ensures
        r.len() == n,
        forall|i: int| 0 <= i < n ==> r@[i] == 0,
{
    let mut out: Vec<usize> = Vec::new();
    let mut i: usize = 0;
    while i < n
        invariant
            i <= n,
            out.len() == i,
            forall|k: int| 0 <= k < i ==> out@[k] == 0,
        decreases n - i,
    {
        out.push(0);
        i += 1;
    }
    out
}

proof fn lemma_all_unset(flags: Seq<bool>)
    requires
        forall|i: int| 0 <= i < flags.len() ==> !flags[i],
    ensures
        count_unset(flags) == flags.len(),
    decreases flags.len(),
{
    if flags.len() > 0 {
        lemma_all_unset(flags.drop_last());
    }
}

/// The walk that is the file `s` alone is the first of its length from `s`
/// to `s`.
proof fn lemma_first_walk(g: GraphView, s: int)
    requires
        0 <= s < g.files.len(),
    ensures
        joins(g, seq![s], s, s),
        least_among(g, s, s, seq![s]),
{
    assert forall|w: Seq<int>| #[trigger] joins(g, w, s, s) && w.len() == 1 implies walk_le(
        seq![s],
        w,
    ) by {
        assert(w =~= seq![s]);
    }
}

/// What a search has found so far, level by level.
struct Search {
    visited: Vec<bool>,
    dist: Vec<usize>,
    prev: Vec<usize>,
}

/// What holds while a search goes through the round `k`, in which it
/// finds, from the files of `frontier`, which lie `k` edges from `s`, the
/// files of `next`, which lie one edge further: the neighbours of the
/// files of `frontier` before `fi` have all been found.
#[verifier::opaque]
spec fn round_ok(
    g: GraphView,
    s: int,
    visited: Seq<bool>,
    dist: Seq<usize>,
    prev: Seq<usize>,
    frontier: Seq<usize>,
    next: Seq<usize>,
    fi: int,
    k: int,
) -> bool {
    let n = g.files.len();
    &&& tree_ok(g, s, visited, dist, prev, k + 1)
    &&& forall|v: int| 0 <= v < n && !visited[v] ==> !reach(g, s, v, k)
    &&& forall|i: int|
        0 <= i < frontier.len() ==> (#[trigger] frontier[i]) < n && visited[frontier[i] as int]
            && dist[frontier[i] as int] == k
    &&& forall|v: int|
        0 <= v < n && #[trigger] visited[v] && dist[v] == k ==> frontier.contains(v as usize)
    &&& forall|i: int|
        0 <= i < next.len() ==> (#[trigger] next[i]) < n && visited[next[i] as int]
            && dist[next[i] as int] == k + 1
    &&& forall|v: int|
        0 <= v < n && #[trigger] visited[v] && dist[v] == k + 1 ==> next.contains(v as usize)
    &&& forall|i: int, v: int|
        0 <= i < fi && 0 <= v < n && #[trigger] adjacent(g, false, frontier[i] as int, v)
            ==> visited[v]
}

/// A round starts from the files that lie `k` edges from `s`.
proof fn lemma_round_start(
    g: GraphView,
    s: int,
    visited: Seq<bool>,
    dist: Seq<usize>,
    prev: Seq<usize>,
    frontier: Seq<usize>,
    k: int,
)
    requires
        tree_ok(g, s, visited, dist, prev, k),
        forall|v: int| 0 <= v < g.files.len() && !visited[v] ==> !reach(g, s, v, k),
        forall|i: int|
            0 <= i < frontier.len() ==> (#[trigger] frontier[i]) < g.files.len()
                && visited[frontier[i] as int] && dist[frontier[i] as int] == k,
        forall|v: int|
            0 <= v < g.files.len() && #[trigger] visited[v] && dist[v] == k ==> frontier.contains(
                v as usize,
            ),
    ensures
        round_ok(g, s, visited, dist, prev, frontier, Seq::<usize>::empty(), 0, k),
{
    reveal(round_ok);
}

/// What a round says of the file of the frontier at `fi`.
proof fn lemma_round_reads(
    g: GraphView,
    s: int,
    visited: Seq<bool>,
    dist: Seq<usize>,
    prev: Seq<usize>,
    frontier: Seq<usize>,
    next: Seq<usize>,
    fi: int,
    k: int,
)
    requires
        round_ok(g, s, visited, dist, prev, frontier, next, fi, k),
        0 <= fi < frontier.len(),
    ensures
        frontier[fi] < g.files.len(),
{
    reveal(round_ok);
}

/// A round goes on where the file `v` is found anew from the file of the
/// frontier at `fi`.
proof fn lemma_round_visit(
    g: GraphView,
    s: int,
    visited: Seq<bool>,
    dist: Seq<usize>,
    prev: Seq<usize>,
    walks: Seq<Seq<int>>,
    frontier: Seq<usize>,
    next: Seq<usize>,
    fi: int,
    k: int,
    v: int,
    last: int,
)
    requires
        round_ok(g, s, visited, dist, prev, frontier, next, fi, k),
        level_ok(g, s, visited, dist, prev, walks, frontier, next, fi, last),
        g.files.len() <= usize::MAX,
        0 <= fi < frontier.len(),
        0 <= v < g.files.len(),
        !visited[v],
        0 <= k < g.files.len(),
        last < v,
        adjacent(g, false, frontier[fi] as int, v),
    ensures
        round_ok(
            g,
            s,
            visited.update(v, true),
            dist.update(v, (k + 1) as usize),
            prev.update(v, frontier[fi]),
            frontier,
            next.push(v as usize),
            fi,
            k,
        ),
        level_ok(
            g,
            s,
            visited.update(v, true),
            dist.update(v, (k + 1) as usize),
            prev.update(v, frontier[fi]),
            walks.update(v, walks[frontier[fi] as int].push(v)),
            frontier,
            next.push(v as usize),
            fi,
            v,
        ),
{
    reveal(round_ok);
    lemma_level_visit(g, s, visited, dist, prev, walks, frontier, next, fi, k, v, last);
    let n = g.files.len();
    let u = frontier[fi];
    let visited2 = visited.update(v, true);
    let dist2 = dist.update(v, (k + 1) as usize);
    let prev2 = prev.update(v, u);
    let next2 = next.push(v as usize);
    assert(reach(g, s, u as int, k));
    assert(reach(g, s, v, k + 1));
    assert(!reach(g, s, v, k));
    assert(next2[next2.len() - 1] == v as usize);
    assert forall|x: int| 0 <= x < n && #[trigger] visited2[x] && dist2[x] == k + 1 implies next2.contains(
        x as usize,
    ) by {
        if x != v {
            assert(visited[x]);
            assert(next.contains(x as usize));
            let m = choose|m: int| 0 <= m < next.len() && next[m] == x as usize;
            assert(next2[m] == x as usize);
        }
    }
    assert forall|x: int| 0 <= x < n && #[trigger] visited2[x] && dist2[x] == k implies frontier.contains(
        x as usize,
    ) by {
        assert(visited[x]);
    }
    assert forall|i: int| 0 <= i < next2.len() implies (#[trigger] next2[i]) < n
        && visited2[next2[i] as int] && dist2[next2[i] as int] == k + 1 by {
        if i < next.len() {
            assert(next[i] == next2[i]);
        }
    }
    assert forall|x: int| 0 <= x < n && #[trigger] visited2[x] implies {
        &&& dist2[x] <= k + 1
        &&& reach(g, s, x, dist2[x] as int)
        &&& dist2[x] > 0 ==> !reach(g, s, x, dist2[x] - 1)
        &&& x != s ==> {
            &&& dist2[x] > 0
            &&& prev2[x] < n
            &&& visited2[prev2[x] as int]
            &&& dist2[prev2[x] as int] + 1 == dist2[x]
            &&& adjacent(g, false, prev2[x] as int, x)
        }
    } by {
        if x != v {
            assert(visited[x]);
            if x != s {
                assert(visited[prev[x] as int]);
            }
        }
    }
}

/// A round goes on to the next file of the frontier when the neighbours of
/// the file at `fi` have all been found.
proof fn lemma_round_next(
    g: GraphView,
    s: int,
    visited: Seq<bool>,
    dist: Seq<usize>,
    prev: Seq<usize>,
    frontier: Seq<usize>,
    next: Seq<usize>,
    fi: int,
    k: int,
    near: Seq<usize>,
)
    requires
        round_ok(g, s, visited, dist, prev, frontier, next, fi, k),
        g.files.len() <= usize::MAX,
        0 <= fi < frontier.len(),
        forall|v: int|
            0 <= v < g.files.len() ==> (near.contains(v as usize) <==> #[trigger] adjacent(
                g,
                false,
                frontier[fi] as int,
                v,
            )),
        forall|j: int| 0 <= j < near.len() ==> visited[(#[trigger] near[j]) as int],
    ensures
        round_ok(g, s, visited, dist, prev, frontier, next, fi + 1, k),
{
    reveal(round_ok);
    assert forall|i: int, v: int|
        0 <= i < fi + 1 && 0 <= v < g.files.len() && #[trigger] adjacent(
            g,
            false,
            frontier[i] as int,
            v,
        ) implies visited[v] by {
        if i == fi {
            assert(near.contains(v as usize));
            let j = choose|j: int| 0 <= j < near.len() && near[j] == v as usize;
            assert(near[j] as int == v);
        }
    }
}

/// At the end of a round the files found in it are those that lie one
/// edge further from `s`.
proof fn lemma_round_end(
    g: GraphView,
    s: int,
    visited: Seq<bool>,
    dist: Seq<usize>,
    prev: Seq<usize>,
    frontier: Seq<usize>,
    next: Seq<usize>,
    k: int,
)
    requires
        round_ok(g, s, visited, dist, prev, frontier, next, frontier.len() as int, k),
        g.files.len() <= usize::MAX,
    ensures
        tree_ok(g, s, visited, dist, prev, k + 1),
        forall|v: int| 0 <= v < g.files.len() && !visited[v] ==> !reach(g, s, v, k + 1),
        forall|i: int|
            0 <= i < next.len() ==> (#[trigger] next[i]) < g.files.len() && visited[next[i] as int]
                && dist[next[i] as int] == k + 1,
        forall|v: int|
            0 <= v < g.files.len() && #[trigger] visited[v] && dist[v] == k + 1 ==> next.contains(
                v as usize,
            ),
{
    reveal(round_ok);
    assert forall|v: int| 0 <= v < g.files.len() && !visited[v] implies !reach(g, s, v, k + 1) by {
        if reach(g, s, v, k + 1) {
            assert(!reach(g, s, v, k));
            let u = choose|u: int|
                0 <= u < g.files.len() && reach(g, s, u, k + 1 - 1) && #[trigger] adjacent(
                    g,
                    false,
                    u,
                    v,
                );
            assert(visited[u]);
            if dist[u] == k + 1 {
                assert(!reach(g, s, u, dist[u] - 1));
            } else if dist[u] < k {
                assert(reach(g, s, v, dist[u] + 1));
                lemma_reach_more(g, s, v, dist[u] + 1, k);
            } else {
                assert(frontier.contains(u as usize));
                let i = choose|i: int| 0 <= i < frontier.len() && frontier[i] == u as usize;
                assert(adjacent(g, false, frontier[i] as int, v));
            }
        }
    }
}

/// Searches the projection from `src`, breadth first.
fn search(Ghost(g): Ghost<GraphView>, adj: &Vec<Vec<usize>>, src: usize) -> (r: (
    Search,
    Ghost<Seq<Seq<int>>>,
))
    requires
        lists_match(g, false, adj@),
        src < adj.len(),
    ensures
        tree_ok(g, src as int, r.0.visited@, r.0.dist@, r.0.prev@, g.files.len() as int),
        walks_ok(g, src as int, r.0.visited@, r.0.dist@, r.0.prev@, r.1@),
        forall|v: int, j: int|
            0 <= v < g.files.len() && !r.0.visited@[v] ==> !#[trigger] reach(g, src as int, v, j),
{
    let n = adj.len();
    let ghost s = src as int;
    let mut visited = no_flags(n);
    let mut dist = zeros(n);
    let mut prev = zeros(n);
    proof {
        lemma_all_unset(visited@);
        lemma_count_unset(visited@, s);
    }
    visited.set(src, true);
    let mut frontier: Vec<usize> = Vec::new();
    frontier.push(src);
    let mut k: usize = 0;
    let ghost mut walks: Seq<Seq<int>> = Seq::new(n as nat, |i: int| seq![s]);
    proof {
        lemma_first_walk(g, s);
        assert(frontier@[0] == src);
        assert forall|v: int| 0 <= v < n && visited@[v] && dist@[v] == k implies frontier@.contains(
            v as usize,
        ) by {
            assert(v == s);
        }
    }
    while frontier.len() > 0
        invariant
            n == adj.len(),
            n == g.files.len(),
            lists_match(g, false, adj@),
            s == src,
            src < n,
            k <= n,
            tree_ok(g, s, visited@, dist@, prev@, k as int),
            walks_ok(g, s, visited@, dist@, prev@, walks),
            in_walk_order(walks, frontier@),
            forall|v: int| 0 <= v < n && !visited@[v] ==> !reach(g, s, v, k as int),
            forall|i: int|
                0 <= i < frontier.len() ==> (#[trigger] frontier@[i]) < n && visited@[frontier@[i] as int]
                    && dist@[frontier@[i] as int] == k,
            forall|v: int|
                0 <= v < n && #[trigger] visited@[v] && dist@[v] == k ==> frontier@.contains(
                    v as usize,
                ),
            frontier.len() > 0 ==> k + count_unset(visited@) <= n - 1,
        decreases count_unset(visited@), frontier.len(),
    {
        let ghost level_count = count_unset(visited@);
        let mut next: Vec<usize> = Vec::new();
        let mut fi: usize = 0;
        proof {
            lemma_level_start(g, s, visited@, dist@, prev@, walks, frontier@);
            lemma_round_start(g, s, visited@, dist@, prev@, frontier@, k as int);
            assert(next@ =~= Seq::<usize>::empty());
        }
        while fi < frontier.len()
            invariant
                fi <= frontier.len(),
                n == adj.len(),
                n == g.files.len(),
                lists_match(g, false, adj@),
                s == src,
                src < n,
                k < n,
                visited@.len() == n,
                dist@.len() == n,
                prev@.len() == n,
                round_ok(g, s, visited@, dist@, prev@, frontier@, next@, fi as int, k as int),
                level_ok(g, s, visited@, dist@, prev@, walks, frontier@, next@, fi as int, -1),
                k + count_unset(visited@) + (if next.len() > 0 {
                    1int
                } else {
                    0int
                }) <= n - 1,
                count_unset(visited@) <= level_count,
                next.len() > 0 ==> count_unset(visited@) < level_count,
            decreases frontier.len() - fi,
        {
            let u = frontier[fi];
            proof {
                lemma_round_reads(g, s, visited@, dist@, prev@, frontier@, next@, fi as int, k as int);
            }
            let mut ni: usize = 0;
            while ni < adj[u].len()
                invariant
                    ni <= adj@[u as int]@.len(),
                    fi < frontier.len(),
                    u == frontier@[fi as int],
                    u < n,
                    n == adj.len(),
                    n == g.files.len(),
                    lists_match(g, false, adj@),
                    s == src,
                    src < n,
                    k < n,
                    visited@.len() == n,
                    dist@.len() == n,
                    prev@.len() == n,
                    round_ok(g, s, visited@, dist@, prev@, frontier@, next@, fi as int, k as int),
                    level_ok(
                        g,
                        s,
                        visited@,
                        dist@,
                        prev@,
                        walks,
                        frontier@,
                        next@,
                        fi as int,
                        if ni == 0 {
                            -1
                        } else {
                            adj@[u as int]@[ni - 1] as int
                        },
                    ),
                    forall|j: int| 0 <= j < ni ==> visited@[(#[trigger] adj@[u as int]@[j]) as int],
                    k + count_unset(visited@) + (if next.len() > 0 {
                        1int
                    } else {
                        0int
                    }) <= n - 1,
                    count_unset(visited@) <= level_count,
                    next.len() > 0 ==> count_unset(visited@) < level_count,
                decreases adj@[u as int]@.len() - ni,
            {
                let v = adj[u][ni];
                assert(adj@[u as int]@[ni as int] < n);
                let ghost last: int = if ni == 0 {
                    -1
                } else {
                    adj@[u as int]@[ni - 1] as int
                };
                assert(last < v) by {
                    if ni > 0 {
                        assert(adj@[u as int]@[ni - 1] < adj@[u as int]@[ni as int]);
                    }
                }
                if !visited[v] {
                    proof {
                        lemma_count_unset(visited@, v as int);
                        assert(adj@[u as int]@.contains(v));
                        assert(adjacent(g, false, u as int, v as int));
                        lemma_round_visit(
                            g,
                            s,
                            visited@,
                            dist@,
                            prev@,
                            walks,
                            frontier@,
                            next@,
                            fi as int,
                            k as int,
                            v as int,
                            last,
                        );
                        walks = walks.update(v as int, walks[u as int].push(v as int));
                    }
                    visited.set(v, true);
                    dist.set(v, k + 1);
                    prev.set(v, u);
                    next.push(v);
                } else {
                    proof {
                        lemma_level_skip(
                            g,
                            s,
                            visited@,
                            dist@,
                            prev@,
                            walks,
                            frontier@,
                            next@,
                            fi as int,
                            last,
                            v as int,
                        );
                    }
                }
                ni += 1;
            }
            proof {
                lemma_round_next(
                    g,
                    s,
                    visited@,
                    dist@,
                    prev@,
                    frontier@,
                    next@,
                    fi as int,
                    k as int,
                    adj@[u as int]@,
                );
                lemma_level_next(
                    g,
                    s,
                    visited@,
                    dist@,
                    prev@,
                    walks,
                    frontier@,
                    next@,
                    fi as int,
                    if ni == 0 {
                        -1
                    } else {
                        adj@[u as int]@[ni - 1] as int
                    },
                );
            }
            fi += 1;
        }
        proof {
            lemma_round_end(g, s, visited@, dist@, prev@, frontier@, next@, k as int);
            lemma_level_end(
                g,
                s,
                visited@,
                dist@,
                prev@,
                walks,
                frontier@,
                next@,
                fi as int,
                -1,
            );
        }
        frontier = next;
        k = k + 1;
    }
    proof {
        assert forall|x: int| reach(g, s, x, k + 1) implies #[trigger] reach(g, s, x, k as int) by {
            if !reach(g, s, x, k as int) {
                let u = choose|u: int|
                    0 <= u < g.files.len() && reach(g, s, u, k + 1 - 1) && #[trigger] adjacent(
                        g,
                        false,
                        u,
                        x,
                    );
                assert(visited@[u]);
                if dist@[u] == k {
                    assert(frontier@.contains(u as usize));
                    let i = choose|i: int| 0 <= i < frontier@.len() && frontier@[i] == u as usize;
                } else {
                    assert(reach(g, s, x, dist@[u] + 1));
                    lemma_reach_more(g, s, x, dist@[u] + 1, k as int);
                }
            }
        }
        assert forall|v: int, j: int| 0 <= v < g.files.len() && !visited@[v] implies !#[trigger] reach(
            g,
            s,
            v,
            j,
        ) by {
            if reach(g, s, v, j) {
                lemma_reach_closed(g, s, v, k as int, j);
            }
        }
    }
    (Search { visited, dist, prev }, Ghost(walks))
}


/// The walk from the start of a search to `dst`, along the files from which
/// each file was found.
fn walk_back(
    Ghost(g): Ghost<GraphView>,
    found: &Search,
    src: usize,
    dst: usize,
    Ghost(walks): Ghost<Seq<Seq<int>>>,
) -> (r: Vec<usize>)
    requires
        tree_ok(g, src as int, found.visited@, found.dist@, found.prev@, g.files.len() as int),
        walks_ok(g, src as int, found.visited@, found.dist@, found.prev@, walks),
        dst < g.files.len(),
        found.visited@[dst as int],
    ensures
        index_values(r@) == walks[dst as int],
{
    let ghost n = g.files.len();
    let mut rev: Vec<usize> = Vec::new();
    let mut cur: usize = dst;
    assert(walks[cur as int] + index_values(rev@.reverse()) =~= walks[dst as int]);
    while cur != src
        invariant
            n == g.files.len(),
            tree_ok(g, src as int, found.visited@, found.dist@, found.prev@, n as int),
            walks_ok(g, src as int, found.visited@, found.dist@, found.prev@, walks),
            cur < n,
            found.visited@[cur as int],
            walks[cur as int] + index_values(rev@.reverse()) == walks[dst as int],
        decreases found.dist@[cur as int],
    {
        let ghost before = rev@;
        rev.push(cur);
        proof {
            let from = found.prev@[cur as int] as int;
            assert(walks[cur as int] == walks[from].push(cur as int));
            assert(rev@.reverse() =~= seq![cur] + before.reverse());
            assert(walks[from] + index_values(rev@.reverse()) =~= walks[cur as int] + index_values(
                before.reverse(),
            ));
        }
        cur = found.prev[cur];
    }
    let ghost before = rev@;
    rev.push(src);
    let out = reversed(rev);
    proof {
        assert(walks[src as int] == seq![src as int]);
        assert(rev@.reverse() =~= seq![src] + before.reverse());
        assert(index_values(out@) =~= walks[src as int] + index_values(before.reverse()));
    }
    out
}

/// The shortest path from one file to another, along the edges of the
/// projection.
pub struct ShortestPathQuery {
    pub from: String,
    pub to: String,
}

/// Whether `w` is a walk in the projection from file `s` to file `d`.
pub open spec fn joins(g: GraphView, w: Seq<int>, s: int, d: int) -> bool {
    is_walk(g, false, w) && w[0] == s && w.last() == d
}

/// Whether `w` is the shortest path from file `s` to file `d`: a walk from
/// the one to the other than which no such walk is shorter, and the first
/// of those that are as short.
pub open spec fn is_first_shortest(g: GraphView, w: Seq<int>, s: int, d: int) -> bool {
    &&& joins(g, w, s, d)
    &&& forall|o: Seq<int>| #[trigger]
        joins(g, o, s, d) ==> w.len() < o.len() || (w.len() == o.len() && walk_le(w, o))
}

/// Whether `r` answers the query for the shortest path from the file `from`
/// to the file `to`: the paths of the files of the shortest path from the
/// one to the other; nothing where no walk joins them, or where the graph
/// lacks one of the two files.
pub open spec fn is_shortest_path(
    g: GraphView,
    from: Seq<char>,
    to: Seq<char>,
    r: Seq<Seq<char>>,
) -> bool {
    let s = index_of_file(g.files, from);
    let d = index_of_file(g.files, to);
    if s is Some && d is Some && exists|w: Seq<int>| joins(g, w, s->0, d->0) {
        exists|w: Seq<int>| #[trigger] is_first_shortest(g, w, s->0, d->0) && r == walk_paths(g, w)
    } else {
        r.len() == 0
    }
}

/// Two files have one shortest path at most.
pub proof fn lemma_first_shortest_unique(g: GraphView, a: Seq<int>, b: Seq<int>, s: int, d: int)
    requires
        is_first_shortest(g, a, s, d),
        is_first_shortest(g, b, s, d),
    ensures
        a == b,
{
    assert(joins(g, a, s, d) && joins(g, b, s, d));
    if a != b {
        lemma_walk_lt_asymmetric(a, b);
    }
}

/// The query for the shortest path has one answer.
pub proof fn lemma_shortest_path_unique(
    g: GraphView,
    from: Seq<char>,
    to: Seq<char>,
    a: Seq<Seq<char>>,
    b: Seq<Seq<char>>,
)
    requires
        is_shortest_path(g, from, to, a),
        is_shortest_path(g, from, to, b),
    ensures
        a == b,
{
    let s = index_of_file(g.files, from);
    let d = index_of_file(g.files, to);
    if s is Some && d is Some && exists|w: Seq<int>| joins(g, w, s->0, d->0) {
        let x = choose|w: Seq<int>| #[trigger]
            is_first_shortest(g, w, s->0, d->0) && a == walk_paths(g, w);
        let y = choose|w: Seq<int>| #[trigger]
            is_first_shortest(g, w, s->0, d->0) && b == walk_paths(g, w);
        lemma_first_shortest_unique(g, x, y, s->0, d->0);
    } else {
        assert(a =~= b);
    }
}

impl ShortestPathQuery {
    /// The query for the shortest path from `from` to `to`.
    pub fn new(from: &str, to: &str) -> (q: ShortestPathQuery)
        ensures
            q.from@ == from@,
            q.to@ == to@,
    {
        ShortestPathQuery { from: from.to_owned(), to: to.to_owned() }
    }
}

impl Query<Vec<String>> for ShortestPathQuery {
    fn run(&self, graph: &KnowledgeGraph) -> (r: Vec<String>)
        ensures
            is_shortest_path(graph@, self.from@, self.to@, texts(r@)),
    {
        let files = graph.files();
        let ghost g = graph@;
        let mut out: Vec<String> = Vec::new();
        let src = match position_of(files, self.from.as_str()) {
            Some(i) => i,
            None => {
                return out;
            },
        };
        let dst = match position_of(files, self.to.as_str()) {
            Some(i) => i,
            None => {
                return out;
            },
        };
        let adj = adjacency(graph, false);
        let (found, Ghost(walks)) = search(Ghost(g), &adj, src);
        if !found.visited[dst] {
            proof {
                assert forall|w: Seq<int>| !joins(g, w, src as int, dst as int) by {
                    if joins(g, w, src as int, dst as int) {
                        lemma_walk_reach(g, w);
                    }
                }
            }
            return out;
        }
        let walk = walk_back(Ghost(g), &found, src, dst, Ghost(walks));
        let ghost w = index_values(walk@);
        assert(joins(g, walks[dst as int], src as int, dst as int));
        let mut i: usize = 0;
        assert(texts(out@) =~= walk_paths(g, w).take(0));
        while i < walk.len()
            invariant
                i <= walk.len(),
                g == graph@,
                file_views(files@) == g.files,
                w == index_values(walk@),
                is_walk(g, false, w),
                texts(out@) == walk_paths(g, w).take(i as int),
            decreases walk.len() - i,
        {
            let ghost before = texts(out@);
            assert(w[i as int] == walk@[i as int]);
            assert(0 <= w[i as int] < g.files.len());
            assert(g.files[walk@[i as int] as int] == files@[walk@[i as int] as int]@);
            out.push(files[walk[i]].path.clone());
            assert(texts(out@) =~= before.push(g.files[w[i as int]].path));
            assert(walk_paths(g, w).take(i + 1) =~= walk_paths(g, w).take(i as int).push(
                g.files[w[i as int]].path,
            ));
            i += 1;
        }
        proof {
            assert(walk_paths(g, w).take(i as int) =~= walk_paths(g, w));
            let s = src as int;
            let d = dst as int;
            assert(w == walks[d]);
            assert(joins(g, w, s, d));
            assert(least_among(g, s, d, w));
            assert forall|o: Seq<int>| #[trigger] joins(g, o, s, d) implies w.len() < o.len() || (
            w.len() == o.len() && walk_le(w, o)) by {
                lemma_walk_reach(g, o);
                if o.len() < w.len() {
                    lemma_reach_more(g, s, d, o.len() - 1, found.dist@[d] - 1);
                }
            }
            assert(is_first_shortest(g, w, s, d));
            assert(index_of_file(g.files, self.from@) == Some(s));
            assert(index_of_file(g.files, self.to@) == Some(d));
            assert(is_shortest_path(g, self.from@, self.to@, texts(out@)));
        }
        out
    }
}

/// Two walks, the second from where the first ends, make one walk.
pub proof fn lemma_walks_join(g: GraphView, a: Seq<int>, b: Seq<int>)
    requires
        is_walk(g, false, a),
        is_walk(g, false, b),
        a.last() == b[0],
    ensures
        is_walk(g, false, a + b.drop_first()),
        (a + b.drop_first())[0] == a[0],
        (a + b.drop_first()).last() == b.last(),
        (a + b.drop_first()).len() == a.len() + b.len() - 1,
{
    let w = a + b.drop_first();
    assert forall|i: int| 0 <= i < w.len() implies 0 <= #[trigger] w[i] < g.files.len() by {
        if i < a.len() {
            assert(w[i] == a[i]);
        } else {
            assert(w[i] == b[i - a.len() + 1]);
        }
    }
    assert forall|i: int| 0 <= i < w.len() - 1 implies adjacent(g, false, #[trigger] w[i], w[i + 1]) by {
        if i + 1 < a.len() {
            assert(w[i] == a[i] && w[i + 1] == a[i + 1]);
        } else if i + 1 == a.len() {
            assert(w[i] == a[i]);
            assert(w[i + 1] == b[1]);
            assert(adjacent(g, false, b[0], b[0int + 1]));
        } else {
            let m = i - a.len() + 1;
            assert(w[i] == b[m] && w[i + 1] == b[m + 1]);
        }
    }
}

/// The shortest path from `a` to `b` is no longer than the shortest paths
/// from `a` to `c` and from `c` to `b` taken together, where there are
/// paths from `a` to `c` and from `c` to `b`.
pub proof fn lemma_shortest_path_triangle(
    g: GraphView,
    a: Seq<char>,
    b: Seq<char>,
    c: Seq<char>,
    ab: Seq<Seq<char>>,
    ac: Seq<Seq<char>>,
    cb: Seq<Seq<char>>,
)
    requires
        is_shortest_path(g, a, b, ab),
        is_shortest_path(g, a, c, ac),
        is_shortest_path(g, c, b, cb),
        ac.len() > 0,
        cb.len() > 0,
    ensures
        0 < ab.len() <= ac.len() + cb.len(),
{
    let ia = index_of_file(g.files, a)->0;
    let ib = index_of_file(g.files, b)->0;
    let ic = index_of_file(g.files, c)->0;
    let w1 = choose|w: Seq<int>| #[trigger] is_first_shortest(g, w, ia, ic) && ac == walk_paths(g, w);
    let w2 = choose|w: Seq<int>| #[trigger] is_first_shortest(g, w, ic, ib) && cb == walk_paths(g, w);
    lemma_walks_join(g, w1, w2);
    let w = w1 + w2.drop_first();
    assert(joins(g, w, ia, ib));
    let best = choose|x: Seq<int>| #[trigger]
        is_first_shortest(g, x, ia, ib) && ab == walk_paths(g, x);
    assert(best.len() <= w.len());
}

} // verus!
