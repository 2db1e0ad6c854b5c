//! Degree centrality: how many edges of the projection go into and out of
//! each file, or each directory of files, and which of them have the most.

use crate::cache::contains_text;
use crate::graph::{owner_index, owner_of, paths_ascending, GraphView, KnowledgeGraph};
use crate::model::{file_views, relationship_views, texts, FileNodeView};
use crate::paths::{parent, parent_of};
use crate::query::{insert_sorted, insert_text, Query};
use crate::text::{lex_lt, same_text};
use vstd::prelude::*;
use vstd::string::StringExecFns;

verus! {

/// By which degree files or modules are ranked.
#[derive(Debug, Clone, Copy, PartialEq, Eq)]
pub enum CentralityMetric {
    In,
    Out,
    Total,
}

/// The groups that an edge joins: that of the file that owns its source and
/// that of the file that owns its destination, where both ends have an
/// owner and the two groups differ. `groups` gives each file its group.
pub open spec fn group_edge(
    g: GraphView,
    groups: Seq<int>,
    k: int,
) -> Option<(int, int)> {
    match (
        owner_of(g.files, g.relationships[k].from_item),
        owner_of(g.files, g.relationships[k].to_item),
    ) {
        (Some(u), Some(v)) => if groups[u] != groups[v] {
            Some((groups[u], groups[v]))
        } else {
            None
        },
        _ => None,
    }
}

/// How many of the first `n` edges go into the group `x`.
pub open spec fn in_degree(g: GraphView, groups: Seq<int>, x: int, n: int) -> nat
    decreases n,
{
    if n <= 0 || n > g.relationships.len() {
        0
    } else {
        in_degree(g, groups, x, n - 1) + match group_edge(g, groups, n - 1) {
            Some(e) => if e.1 == x {
                1nat
            } else {
                0nat
            },
            None => 0nat,
        }
    }
}

/// How many of the first `n` edges go out of the group `x`.
pub open spec fn out_degree(g: GraphView, groups: Seq<int>, x: int, n: int) -> nat
    decreases n,
{
    if n <= 0 || n > g.relationships.len() {
        0
    } else {
        out_degree(g, groups, x, n - 1) + match group_edge(g, groups, n - 1) {
            Some(e) => if e.0 == x {
                1nat
            } else {
                0nat
            },
            None => 0nat,
        }
    }
}

/// The number by which a row is ranked.
pub open spec fn metric_key(metric: CentralityMetric, ind: nat, outd: nat) -> nat {
    match metric {
        CentralityMetric::In => ind,
        CentralityMetric::Out => outd,
        CentralityMetric::Total => ind + outd,
    }
}

/// Whether `i` comes before `j` in the ranking: by the larger key, and at
/// equal keys by the smaller index.
pub open spec fn ranks_before(keys: Seq<nat>, i: int, j: int) -> bool {
    keys[i] > keys[j] || (keys[i] == keys[j] && i < j)
}

/// `sorted` with `x` put in before the first index that ranks after it.
pub open spec fn rank_insert(keys: Seq<nat>, sorted: Seq<int>, x: int) -> Seq<int>
    decreases sorted.len(),
{
    if sorted.len() == 0 {
        seq![x]
    } else if ranks_before(keys, x, sorted[0]) {
        seq![x] + sorted
    } else {
        seq![sorted[0]] + rank_insert(keys, sorted.drop_first(), x)
    }
}

/// The indices below `n` in the order of the ranking.
pub open spec fn rank_sort(keys: Seq<nat>, n: int) -> Seq<int>
    decreases n,
{
    if n <= 0 {
        Seq::empty()
    } else {
        rank_insert(keys, rank_sort(keys, n - 1), n - 1)
    }
}

/// Whether each index of `s` ranks before all that follow it.
pub open spec fn rank_sorted(keys: Seq<nat>, s: Seq<int>) -> bool {
    forall|p: int, q: int| 0 <= p < q < s.len() ==> ranks_before(keys, s[p], s[q])
}

/// Putting a new index into a ranking keeps it a ranking, of the indices it
/// had and the new one.
pub proof fn lemma_rank_insert(keys: Seq<nat>, s: Seq<int>, x: int)
    requires
        rank_sorted(keys, s),
        !s.contains(x),
    ensures
        rank_sorted(keys, rank_insert(keys, s, x)),
        rank_insert(keys, s, x).len() == s.len() + 1,
        forall|y: int| rank_insert(keys, s, x).contains(y) <==> (s.contains(y) || y == x),
    decreases s.len(),
{
    let r = rank_insert(keys, s, x);
    if s.len() == 0 {
        assert(r[0] == x);
        assert forall|y: int| r.contains(y) <==> (s.contains(y) || y == x) by {
            if r.contains(y) {
                let k = choose|k: int| 0 <= k < r.len() && r[k] == y;
            }
        }
    } else if ranks_before(keys, x, s[0]) {
        assert forall|p: int, q: int| 0 <= p < q < r.len() implies ranks_before(
            keys,
            r[p],
            r[q],
        ) by {
            if p == 0 {
                assert(r[q] == s[q - 1]);
                if q - 1 > 0 {
                    assert(ranks_before(keys, s[0], s[q - 1]));
                }
            } else {
                assert(r[p] == s[p - 1] && r[q] == s[q - 1]);
            }
        }
        assert forall|y: int| r.contains(y) <==> (s.contains(y) || y == x) by {
            if r.contains(y) {
                let k = choose|k: int| 0 <= k < r.len() && r[k] == y;
                if k > 0 {
                    assert(s[k - 1] == y);
                }
            }
            if s.contains(y) {
                let k = choose|k: int| 0 <= k < s.len() && s[k] == y;
                assert(r[k + 1] == y);
            }
            if y == x {
                assert(r[0] == x);
            }
        }
    } else {
        let rest = s.drop_first();
        assert forall|p: int, q: int| 0 <= p < q < rest.len() implies ranks_before(
            keys,
            rest[p],
            rest[q],
        ) by {
            assert(rest[p] == s[p + 1] && rest[q] == s[q + 1]);
        }
        assert(!rest.contains(x)) by {
            if rest.contains(x) {
                let k = choose|k: int| 0 <= k < rest.len() && rest[k] == x;
                assert(s[k + 1] == x);
            }
        }
        lemma_rank_insert(keys, rest, x);
        let tail = rank_insert(keys, rest, x);
        assert(s[0] != x) by {
            if s[0] == x {
                assert(s.contains(x));
            }
        }
        assert forall|p: int, q: int| 0 <= p < q < r.len() implies ranks_before(
            keys,
            r[p],
            r[q],
        ) by {
            if p == 0 {
                assert(r[q] == tail[q - 1]);
                assert(tail.contains(tail[q - 1]));
                if tail[q - 1] != x {
                    assert(rest.contains(tail[q - 1]));
                    let k = choose|k: int| 0 <= k < rest.len() && rest[k] == tail[q - 1];
                    assert(s[k + 1] == tail[q - 1]);
                    assert(ranks_before(keys, s[0], s[k + 1]));
                }
            } else {
                assert(r[p] == tail[p - 1] && r[q] == tail[q - 1]);
            }
        }
        assert forall|y: int| r.contains(y) <==> (s.contains(y) || y == x) by {
            if r.contains(y) {
                let k = choose|k: int| 0 <= k < r.len() && r[k] == y;
                if k > 0 {
                    assert(tail[k - 1] == y);
                    assert(tail.contains(y));
                    if rest.contains(y) {
                        let m = choose|m: int| 0 <= m < rest.len() && rest[m] == y;
                        assert(s[m + 1] == y);
                    }
                } else {
                    assert(s[0] == y);
                }
            }
            if s.contains(y) {
                let k = choose|k: int| 0 <= k < s.len() && s[k] == y;
                if k == 0 {
                    assert(r[0] == y);
                } else {
                    assert(rest[k - 1] == y);
                    assert(rest.contains(y));
                    assert(tail.contains(y));
                    let m = choose|m: int| 0 <= m < tail.len() && tail[m] == y;
                    assert(r[m + 1] == y);
                }
            }
            if y == x {
                assert(tail.contains(x));
                let m = choose|m: int| 0 <= m < tail.len() && tail[m] == x;
                assert(r[m + 1] == x);
            }
        }
    }
}

/// The ranking of the indices below `n` holds each of them once and is in
/// the order of the ranking.
pub proof fn lemma_rank_sort(keys: Seq<nat>, n: int)
    requires
        0 <= n,
    ensures
        rank_sorted(keys, rank_sort(keys, n)),
        rank_sort(keys, n).len() == n,
        forall|y: int| rank_sort(keys, n).contains(y) <==> 0 <= y < n,
    decreases n,
{
    if n > 0 {
        lemma_rank_sort(keys, n - 1);
        let prev = rank_sort(keys, n - 1);
        assert(!prev.contains(n - 1));
        lemma_rank_insert(keys, prev, n - 1);
        assert forall|y: int| rank_sort(keys, n).contains(y) <==> 0 <= y < n by {
            assert(rank_sort(keys, n).contains(y) <==> (prev.contains(y) || y == n - 1));
            assert(prev.contains(y) <==> 0 <= y < n - 1);
        }
    } else {
        assert forall|y: int| rank_sort(keys, n).contains(y) <==> 0 <= y < n by {
            if rank_sort(keys, n).contains(y) {
                let k = choose|k: int| 0 <= k < rank_sort(keys, n).len() && rank_sort(keys, n)[k]
                    == y;
            }
        }
    }
}

/// The keys as mathematical numbers.
pub open spec fn key_values(keys: Seq<u128>) -> Seq<nat> {
    keys.map_values(|k: u128| k as nat)
}

/// The indices as mathematical numbers.
pub open spec fn index_values(v: Seq<usize>) -> Seq<int> {
    v.map_values(|i: usize| i as int)
}

/// The indices of `keys` in the order of the ranking.
pub fn rank_indices(keys: &Vec<u128>) -> (r: Vec<usize>)
    ensures
        index_values(r@) == rank_sort(key_values(keys@), keys.len() as int),
        r.len() == keys.len(),
        forall|p: int| 0 <= p < r.len() ==> r@[p] < keys.len(),
{
    let ghost values = key_values(keys@);
    let mut out: Vec<usize> = Vec::new();
    let mut n: usize = 0;
    assert(index_values(out@) =~= Seq::<int>::empty());
    while n < keys.len()
        invariant
            n <= keys.len(),
            values == key_values(keys@),
            index_values(out@) == rank_sort(values, n as int),
            out.len() == n,
            forall|p: int| 0 <= p < out.len() ==> out@[p] < n,
        decreases keys.len() - n,
    {
        let ghost before = index_values(out@);
        let mut pos: usize = 0;
        assert(before.skip(0) =~= before);
        assert(before.take(0) + rank_insert(values, before, n as int) =~= rank_insert(
            values,
            before,
            n as int,
        ));
        while pos < out.len() && !(keys[n] > keys[out[pos]] || (keys[n] == keys[out[pos]] && n
            < out[pos]))
            invariant
                pos <= out.len(),
                n < keys.len(),
                values == key_values(keys@),
                index_values(out@) == before,
                forall|p: int| 0 <= p < out.len() ==> out@[p] < n,
                rank_insert(values, before, n as int) == before.take(pos as int) + rank_insert(
                    values,
                    before.skip(pos as int),
                    n as int,
                ),
            decreases out.len() - pos,
        {
            assert(before.skip(pos as int)[0] == out@[pos as int] as int);
            assert(values[n as int] == keys@[n as int] as nat);
            assert(values[out@[pos as int] as int] == keys@[out@[pos as int] as int] as nat);
            assert(before.skip(pos as int).drop_first() =~= before.skip(pos + 1));
            assert(before.take(pos as int) + (seq![before[pos as int]] + rank_insert(
                values,
                before.skip(pos + 1),
                n as int,
            )) =~= before.take(pos + 1) + rank_insert(values, before.skip(pos + 1), n as int));
            pos += 1;
        }
        proof {
            assert(values[n as int] == keys@[n as int] as nat);
            if pos < out.len() {
                assert(before.skip(pos as int)[0] == out@[pos as int] as int);
                assert(values[out@[pos as int] as int] == keys@[out@[pos as int] as int] as nat);
            }
            assert(before.take(pos as int) + (seq![n as int] + before.skip(pos as int))
                =~= before.insert(pos as int, n as int));
        }
        out.insert(pos, n);
        assert(index_values(out@) =~= before.insert(pos as int, n as int));
        n += 1;
    }
    out
}


/// The rows of a ranking: the first `top` groups in the order of the
/// ranking, each with its name and the number of edges into it and out of
/// it. `names` gives each group its name.
pub open spec fn group_rows(
    g: GraphView,
    groups: Seq<int>,
    names: Seq<Seq<char>>,
    metric: CentralityMetric,
    top: nat,
) -> Seq<(Seq<char>, nat, nat)> {
    let n = g.relationships.len() as int;
    let keys = Seq::new(
        names.len(),
        |x: int| metric_key(metric, in_degree(g, groups, x, n), out_degree(g, groups, x, n)),
    );
    rank_sort(keys, names.len() as int).take(
        if top < names.len() {
            top as int
        } else {
            names.len() as int
        },
    ).map_values(|x: int| (names[x], in_degree(g, groups, x, n), out_degree(g, groups, x, n)))
}

/// The views of rows of a name and two degrees.
pub open spec fn degree_rows(v: Seq<(String, usize, usize)>) -> Seq<(Seq<char>, nat, nat)> {
    v.map_values(|r: (String, usize, usize)| (r.0@, r.1 as nat, r.2 as nat))
}

fn zeros(n: usize) -> (r: Vec<usize>)
    ensures
        r.len() == n,
        forall|i: int| 0 <= i < n ==> r@[i] == 0,
{
    let mut out: Vec<usize> = Vec::new();
    let mut i: usize = 0;
    while i < n
        invariant
            i <= n,
            out.len() == i,
            forall|k: int| 0 <= k < i ==> out@[k] == 0,
        decreases n - i,
    {
        out.push(0);
        i += 1;
    }
    out
}

/// The rows of the ranking of the groups into which `groups` puts the
/// files of the graph.
fn ranked_rows(
    graph: &KnowledgeGraph,
    groups: &Vec<usize>,
    names: &Vec<String>,
    metric: CentralityMetric,
    top: usize,
) -> (r: Vec<(String, usize, usize)>)
    requires
        groups.len() == graph@.files.len(),
        forall|f: int| 0 <= f < groups.len() ==> groups@[f] < names.len(),
    ensures
        degree_rows(r@) == group_rows(
            graph@,
            index_values(groups@),
            texts(names@),
            metric,
            top as nat,
        ),
{
    let files = graph.files();
    let rels = graph.relationships();
    let ghost g = graph@;
    let ghost gs = index_values(groups@);
    let count = names.len();
    let mut indeg = zeros(count);
    let mut outdeg = zeros(count);
    let mut k: usize = 0;
    while k < rels.len()
        invariant
            k <= rels.len(),
            g == graph@,
            gs == index_values(groups@),
            count == names.len(),
            groups.len() == files.len(),
            forall|f: int| 0 <= f < groups.len() ==> groups@[f] < names.len(),
            file_views(files@) == g.files,
            relationship_views(rels@) == g.relationships,
            indeg.len() == count,
            outdeg.len() == count,
            forall|x: int|
                0 <= x < count ==> indeg@[x] == #[trigger] in_degree(g, gs, x, k as int) && indeg@[x]
                    <= k,
            forall|x: int|
                0 <= x < count ==> outdeg@[x] == #[trigger] out_degree(g, gs, x, k as int)
                    && outdeg@[x] <= k,
        decreases rels.len() - k,
    {
        let rel = &rels[k];
        assert(g.relationships[k as int] == rel@);
        let ghost ins = indeg@;
        let ghost outs = outdeg@;
        match owner_index(files, rel.from_item.0.as_str()) {
            Some(u) => {
                match owner_index(files, rel.to_item.0.as_str()) {
                    Some(v) => {
                        assert(gs[u as int] == groups@[u as int]);
                        assert(gs[v as int] == groups@[v as int]);
                        if groups[u] != groups[v] {
                            let a = groups[u];
                            let b = groups[v];
                            assert(outdeg@[a as int] == out_degree(g, gs, a as int, k as int));
                            assert(indeg@[b as int] == in_degree(g, gs, b as int, k as int));
                            outdeg.set(a, outdeg[a] + 1);
                            indeg.set(b, indeg[b] + 1);
                        }
                    },
                    None => {},
                }
            },
            None => {},
        }
        proof {
            assert forall|x: int| 0 <= x < count implies indeg@[x] == #[trigger] in_degree(
                g,
                gs,
                x,
                k + 1,
            ) && indeg@[x] <= k + 1 by {
                assert(ins[x] == in_degree(g, gs, x, k as int));
            }
            assert forall|x: int| 0 <= x < count implies outdeg@[x] == #[trigger] out_degree(
                g,
                gs,
                x,
                k + 1,
            ) && outdeg@[x] <= k + 1 by {
                assert(outs[x] == out_degree(g, gs, x, k as int));
            }
        }
        k += 1;
    }
    let ghost n = g.relationships.len() as int;
    let ghost want = Seq::new(
        count as nat,
        |x: int| metric_key(metric, in_degree(g, gs, x, n), out_degree(g, gs, x, n)),
    );
    let mut keys: Vec<u128> = Vec::new();
    let mut x: usize = 0;
    while x < count
        invariant
            x <= count,
            indeg.len() == count,
            outdeg.len() == count,
            keys.len() == x,
            n == g.relationships.len(),
            forall|y: int| 0 <= y < count ==> indeg@[y] == #[trigger] in_degree(g, gs, y, n),
            forall|y: int| 0 <= y < count ==> outdeg@[y] == #[trigger] out_degree(g, gs, y, n),
            forall|y: int|
                0 <= y < x ==> #[trigger] keys@[y] as nat == metric_key(
                    metric,
                    in_degree(g, gs, y, n),
                    out_degree(g, gs, y, n),
                ),
        decreases count - x,
    {
        assert(indeg@[x as int] == in_degree(g, gs, x as int, n));
        assert(outdeg@[x as int] == out_degree(g, gs, x as int, n));
        let key: u128 = match metric {
            CentralityMetric::In => indeg[x] as u128,
            CentralityMetric::Out => outdeg[x] as u128,
            CentralityMetric::Total => indeg[x] as u128 + outdeg[x] as u128,
        };
        keys.push(key);
        x += 1;
    }
    assert(key_values(keys@) =~= want);
    let order = rank_indices(&keys);
    let limit = if top < count {
        top
    } else {
        count
    };
    let ghost chosen = index_values(order@).take(limit as int);
    let ghost rows = group_rows(g, gs, texts(names@), metric, top as nat);
    assert(rows.len() == limit);
    let mut out: Vec<(String, usize, usize)> = Vec::new();
    let mut p: usize = 0;
    assert(degree_rows(out@) =~= rows.take(0));
    while p < limit
        invariant
            p <= limit <= order.len(),
            order.len() == count,
            count == names.len(),
            indeg.len() == count,
            outdeg.len() == count,
            rows.len() == limit,
            n == g.relationships.len(),
            forall|q: int| 0 <= q < order.len() ==> order@[q] < count,
            forall|y: int| 0 <= y < count ==> indeg@[y] == #[trigger] in_degree(g, gs, y, n),
            forall|y: int| 0 <= y < count ==> outdeg@[y] == #[trigger] out_degree(g, gs, y, n),
            forall|q: int|
                0 <= q < limit ==> #[trigger] rows[q] == (
                    names@[order@[q] as int]@,
                    in_degree(g, gs, order@[q] as int, n),
                    out_degree(g, gs, order@[q] as int, n),
                ),
            degree_rows(out@) == rows.take(p as int),
        decreases limit - p,
    {
        let ghost before = degree_rows(out@);
        let x = order[p];
        assert(indeg@[x as int] == in_degree(g, gs, x as int, n));
        assert(outdeg@[x as int] == out_degree(g, gs, x as int, n));
        let row = (names[x].clone(), indeg[x], outdeg[x]);
        out.push(row);
        assert(degree_rows(out@) =~= before.push((row.0@, row.1 as nat, row.2 as nat)));
        assert(rows.take(p + 1) =~= rows.take(p as int).push(rows[p as int]));
        p += 1;
    }
    assert(rows.take(p as int) =~= rows);
    out
}

/// The files with the most edges of the projection.
pub struct HubsQuery {
    pub metric: CentralityMetric,
    pub top: usize,
}

/// The grouping in which every file is a group of its own.
pub open spec fn each_alone(n: nat) -> Seq<int> {
    Seq::new(n, |i: int| i)
}

/// The paths of the files, in order.
pub open spec fn file_paths(files: Seq<FileNodeView>) -> Seq<Seq<char>> {
    Seq::new(files.len(), |i: int| files[i].path)
}

/// The answer of the hubs query: for the first `top` files of the ranking,
/// the path and the number of edges of the projection into the file and out
/// of it. Files are ranked by the metric, the larger first, and at equal
/// metric by path, the smaller first.
pub open spec fn hubs(g: GraphView, metric: CentralityMetric, top: nat) -> Seq<
    (Seq<char>, nat, nat),
> {
    group_rows(g, each_alone(g.files.len()), file_paths(g.files), metric, top)
}

impl HubsQuery {
    /// The query for the `top` first files by `metric`.
    pub fn new(metric: CentralityMetric, top: usize) -> (q: HubsQuery)
        ensures
            q.metric == metric,
            q.top == top,
    {
        HubsQuery { metric, top }
    }
}

impl Query<Vec<(String, usize, usize)>> for HubsQuery {
    fn run(&self, graph: &KnowledgeGraph) -> (r: Vec<(String, usize, usize)>)
        ensures
            degree_rows(r@) == hubs(graph@, self.metric, self.top as nat),
    {
        let files = graph.files();
        let mut groups: Vec<usize> = Vec::new();
        let mut names: Vec<String> = Vec::new();
        let mut i: usize = 0;
        while i < files.len()
            invariant
                i <= files.len(),
                groups.len() == i,
                names.len() == i,
                forall|k: int| 0 <= k < i ==> groups@[k] == k,
                forall|k: int| 0 <= k < i ==> #[trigger] names@[k]@ == files@[k].path@,
            decreases files.len() - i,
        {
            groups.push(i);
            names.push(files[i].path.clone());
            i += 1;
        }
        assert(index_values(groups@) =~= each_alone(graph@.files.len()));
        assert(texts(names@) =~= file_paths(graph@.files)) by {
            assert forall|k: int| 0 <= k < names.len() implies texts(names@)[k] == file_paths(
                graph@.files,
            )[k] by {
                assert(file_views(files@)[k] == files@[k]@);
            }
        }
        ranked_rows(graph, &groups, &names, self.metric, self.top)
    }
}

/// The rows of the hubs query are at most `top`, and they are in order: of
/// two rows the earlier has the larger metric, or the same metric and the
/// smaller path.
pub proof fn lemma_hubs_sorted(g: GraphView, metric: CentralityMetric, top: nat, p: int, q: int)
    requires
        paths_ascending(g.files),
        0 <= p < q < hubs(g, metric, top).len(),
    ensures
        hubs(g, metric, top).len() <= top,
        hubs(g, metric, top).len() <= g.files.len(),
        metric_key(metric, hubs(g, metric, top)[p].1, hubs(g, metric, top)[p].2) > metric_key(
            metric,
            hubs(g, metric, top)[q].1,
            hubs(g, metric, top)[q].2,
        ) || (metric_key(metric, hubs(g, metric, top)[p].1, hubs(g, metric, top)[p].2)
            == metric_key(metric, hubs(g, metric, top)[q].1, hubs(g, metric, top)[q].2)
            && crate::text::lex_lt(hubs(g, metric, top)[p].0, hubs(g, metric, top)[q].0, true)),
{
    let n = g.relationships.len() as int;
    let groups = each_alone(g.files.len());
    let names = file_paths(g.files);
    let keys = Seq::new(
        names.len(),
        |x: int| metric_key(metric, in_degree(g, groups, x, n), out_degree(g, groups, x, n)),
    );
    lemma_rank_sort(keys, names.len() as int);
    let order = rank_sort(keys, names.len() as int);
    assert(ranks_before(keys, order[p], order[q]));
    assert(order.contains(order[p]));
    assert(order.contains(order[q]));
}


/// The modules, taken as directories of files, with the most edges between
/// them.
pub struct ModuleCentralityQuery {
    pub metric: CentralityMetric,
    pub top: usize,
}

/// The module of a file: the directory it stands in, `.` for a path without
/// one.
pub open spec fn dir_of(path: Seq<char>) -> Seq<char> {
    match parent(path) {
        Some(d) => d,
        None => "."@,
    }
}

/// `sorted`, with `x` put in at its place unless it is there.
pub open spec fn insert_distinct(sorted: Seq<Seq<char>>, x: Seq<char>) -> Seq<Seq<char>> {
    if sorted.contains(x) {
        sorted
    } else {
        insert_text(sorted, x, true)
    }
}

/// The modules of the files: their directories, each once, in ascending
/// order of path.
pub open spec fn module_dirs(files: Seq<FileNodeView>) -> Seq<Seq<char>>
    decreases files.len(),
{
    if files.len() == 0 {
        Seq::empty()
    } else {
        insert_distinct(module_dirs(files.drop_last()), dir_of(files.last().path))
    }
}

/// The index of the first `x` in `s`; the length of `s` where it has none.
pub open spec fn index_of_text(s: Seq<Seq<char>>, x: Seq<char>) -> int
    decreases s.len(),
{
    if s.len() == 0 {
        0
    } else if s[0] == x {
        0
    } else {
        1 + index_of_text(s.drop_first(), x)
    }
}

/// The grouping of the files by module: each file with the index of its
/// directory among the modules.
pub open spec fn module_groups(files: Seq<FileNodeView>) -> Seq<int> {
    Seq::new(files.len(), |f: int| index_of_text(module_dirs(files), dir_of(files[f].path)))
}

/// The answer of the module centrality query: for the first `top` modules
/// of the ranking, the directory and the number of edges into it from
/// other modules and out of it to other modules. Modules are ranked by the
/// metric, the larger first, and at equal metric by path, the smaller first.
pub open spec fn module_centrality(g: GraphView, metric: CentralityMetric, top: nat) -> Seq<
    (Seq<char>, nat, nat),
> {
    group_rows(g, module_groups(g.files), module_dirs(g.files), metric, top)
}

/// A text is in a sequence after an insertion if it was there or is the
/// one put in.
pub proof fn lemma_insert_text_contains(s: Seq<Seq<char>>, x: Seq<char>, sep: bool, y: Seq<char>)
    ensures
        insert_text(s, x, sep).contains(y) <==> (s.contains(y) || y == x),
    decreases s.len(),
{
    let r = insert_text(s, x, sep);
    if s.len() == 0 {
        assert(r[0] == x);
        if r.contains(y) {
            let k = choose|k: int| 0 <= k < r.len() && r[k] == y;
        }
    } else if lex_lt(x, s[0], sep) {
        if r.contains(y) {
            let k = choose|k: int| 0 <= k < r.len() && r[k] == y;
            if k > 0 {
                assert(s[k - 1] == y);
            }
        }
        if s.contains(y) {
            let k = choose|k: int| 0 <= k < s.len() && s[k] == y;
            assert(r[k + 1] == y);
        }
        if y == x {
            assert(r[0] == x);
        }
    } else {
        let rest = s.drop_first();
        let tail = insert_text(rest, x, sep);
        lemma_insert_text_contains(rest, x, sep, y);
        if r.contains(y) {
            let k = choose|k: int| 0 <= k < r.len() && r[k] == y;
            if k > 0 {
                assert(tail[k - 1] == y);
                assert(tail.contains(y));
                if rest.contains(y) {
                    let m = choose|m: int| 0 <= m < rest.len() && rest[m] == y;
                    assert(s[m + 1] == y);
                }
            } else {
                assert(s[0] == y);
            }
        }
        if s.contains(y) {
            let k = choose|k: int| 0 <= k < s.len() && s[k] == y;
            if k == 0 {
                assert(r[0] == y);
            } else {
                assert(rest[k - 1] == y);
                assert(rest.contains(y));
                let m = choose|m: int| 0 <= m < tail.len() && tail[m] == y;
                assert(r[m + 1] == y);
            }
        }
        if y == x {
            assert(tail.contains(x));
            let m = choose|m: int| 0 <= m < tail.len() && tail[m] == x;
            assert(r[m + 1] == x);
        }
    }
}

/// The directory of every file is among the modules.
pub proof fn lemma_module_dirs_has(files: Seq<FileNodeView>, f: int)
    requires
        0 <= f < files.len(),
    ensures
        module_dirs(files).contains(dir_of(files[f].path)),
    decreases files.len(),
{
    let prev = module_dirs(files.drop_last());
    let x = dir_of(files.last().path);
    lemma_insert_text_contains(prev, x, true, dir_of(files[f].path));
    if f < files.len() - 1 {
        assert(files.drop_last()[f] == files[f]);
        lemma_module_dirs_has(files.drop_last(), f);
    }
}

/// The index of a text that is in the sequence is that of its first
/// occurrence.
pub proof fn lemma_index_of_text(s: Seq<Seq<char>>, x: Seq<char>)
    ensures
        0 <= index_of_text(s, x) <= s.len(),
        s.contains(x) ==> index_of_text(s, x) < s.len() && s[index_of_text(s, x)] == x,
    decreases s.len(),
{
    if s.len() > 0 && s[0] != x {
        lemma_index_of_text(s.drop_first(), x);
        if s.contains(x) {
            let k = choose|k: int| 0 <= k < s.len() && s[k] == x;
            assert(s.drop_first()[k - 1] == x);
            assert(s.drop_first().contains(x));
        }
    }
}

fn position_text(list: &Vec<String>, x: &str) -> (r: usize)
    ensures
        r == index_of_text(texts(list@), x@),
        r <= list.len(),
{
    let ghost all = texts(list@);
    let mut i: usize = 0;
    assert(all.skip(0) =~= all);
    while i < list.len()
        invariant
            i <= list.len(),
            all == texts(list@),
            index_of_text(all, x@) == i + index_of_text(all.skip(i as int), x@),
        decreases list.len() - i,
    {
        assert(all.skip(i as int)[0] == list@[i as int]@);
        assert(all.skip(i as int).drop_first() =~= all.skip(i + 1));
        if same_text(list[i].as_str(), x) {
            return i;
        }
        i += 1;
    }
    i
}

fn dir_of_path(path: &str) -> (r: String)
    ensures
        r@ == dir_of(path@),
{
    match parent_of(path) {
        Some(d) => d,
        None => String::from_str("."),
    }
}

impl ModuleCentralityQuery {
    /// The query for the `top` first modules by `metric`.
    pub fn new(metric: CentralityMetric, top: usize) -> (q: ModuleCentralityQuery)
        ensures
            q.metric == metric,
            q.top == top,
    {
        ModuleCentralityQuery { metric, top }
    }
}

impl Query<Vec<(String, usize, usize)>> for ModuleCentralityQuery {
    fn run(&self, graph: &KnowledgeGraph) -> (r: Vec<(String, usize, usize)>)
        ensures
            degree_rows(r@) == module_centrality(graph@, self.metric, self.top as nat),
    {
        let files = graph.files();
        let ghost views = file_views(files@);
        let mut dirs: Vec<String> = Vec::new();
        let mut i: usize = 0;
        assert(views.take(0) =~= Seq::<FileNodeView>::empty());
        assert(texts(dirs@) =~= Seq::<Seq<char>>::empty());
        while i < files.len()
            invariant
                i <= files.len(),
                views == file_views(files@),
                texts(dirs@) == module_dirs(views.take(i as int)),
            decreases files.len() - i,
        {
            assert(views.take(i + 1).drop_last() =~= views.take(i as int));
            assert(views.take(i + 1).last() == files@[i as int]@);
            let d = dir_of_path(files[i].path.as_str());
            if !contains_text(&dirs, d.as_str()) {
                insert_sorted(&mut dirs, d, true);
            }
            i += 1;
        }
        assert(views.take(i as int) =~= views);
        let mut groups: Vec<usize> = Vec::new();
        let mut f: usize = 0;
        while f < files.len()
            invariant
                f <= files.len(),
                views == file_views(files@),
                texts(dirs@) == module_dirs(views),
                groups.len() == f,
                forall|k: int|
                    0 <= k < f ==> (#[trigger] groups@[k]) < dirs.len() && groups@[k]
                        == index_of_text(module_dirs(views), dir_of(views[k].path)),
            decreases files.len() - f,
        {
            let d = dir_of_path(files[f].path.as_str());
            let x = position_text(&dirs, d.as_str());
            proof {
                assert(views[f as int] == files@[f as int]@);
                lemma_module_dirs_has(views, f as int);
                lemma_index_of_text(module_dirs(views), d@);
            }
            let ghost before = groups@;
            groups.push(x);
            assert(forall|k: int| 0 <= k < f ==> groups@[k] == before[k]);
            assert(texts(dirs@).len() == dirs.len());
            f += 1;
        }
        assert(index_values(groups@) =~= module_groups(views));
        ranked_rows(graph, &groups, &dirs, self.metric, self.top)
    }
}

} // verus!
