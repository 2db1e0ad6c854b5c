//! A graph as it is written down: its files, relationships and module
//! hierarchy as plain lists, and the graph that such lists give back.

use crate::graph::{
    children_of, find_file, index_of_file, lemma_child_is_listed, lemma_children_found,
    lemma_files_determined, lemma_index_of_file, lemma_index_unique, lookup, pair_texts,
    paths_ascending, segment_pair_texts, GraphView, KnowledgeGraph,
};
use crate::model::{
    copy_strings, file_views, relationship_views, texts, FileNode, FileNodeView, GraphMetadata,
    Relationship, RelationshipView,
};
use crate::text::{lex_lt, same_text};
use vstd::prelude::*;

verus! {

/// What is written down of a graph. The files may stand in any order; of
/// two with one path the later counts. The hierarchy is written twice:
/// as pairs of child and parent, and for each parent as the list of its
/// children.
pub struct SavedGraph {
    pub files: Vec<FileNode>,
    pub relationships: Vec<Relationship>,
    pub metadata: GraphMetadata,
    pub module_parent: Vec<(String, String)>,
    pub module_children: Vec<(String, Vec<String>)>,
    pub module_segments: Vec<(String, Vec<String>)>,
}

/// What is written down of a graph, as a mathematical value.
pub struct SavedView {
    pub files: Seq<FileNodeView>,
    pub relationships: Seq<RelationshipView>,
    pub generated_at: Seq<char>,
    pub module_parent: Seq<(Seq<char>, Seq<char>)>,
    pub module_children: Seq<(Seq<char>, Seq<Seq<char>>)>,
    pub module_segments: Seq<(Seq<char>, Seq<Seq<char>>)>,
}

impl View for SavedGraph {
    type V = SavedView;

    open spec fn view(&self) -> SavedView {
        SavedView {
            files: file_views(self.files@),
            relationships: relationship_views(self.relationships@),
            generated_at: self.metadata.generated_at@,
            module_parent: pair_texts(self.module_parent@),
            module_children: segment_pair_texts(self.module_children@),
            module_segments: segment_pair_texts(self.module_segments@),
        }
    }
}

/// For each of `files` that has children, in the order of the files, its
/// path and its children.
pub open spec fn child_rows(files: Seq<FileNodeView>, parents: Seq<(Seq<char>, Seq<char>)>) -> Seq<
    (Seq<char>, Seq<Seq<char>>),
>
    decreases files.len(),
{
    if files.len() == 0 {
        Seq::empty()
    } else {
        let rest = child_rows(files.drop_last(), parents);
        let children = children_of(parents, files.last().path);
        if children.len() == 0 {
            rest
        } else {
            rest.push((files.last().path, children))
        }
    }
}

/// What is written down of the graph `g`.
pub open spec fn saved(g: GraphView) -> SavedView {
    SavedView {
        files: g.files,
        relationships: g.relationships,
        generated_at: g.generated_at,
        module_parent: g.module_parent,
        module_children: child_rows(g.files, g.module_parent),
        module_segments: g.module_segments,
    }
}

fn copy_files(v: &Vec<FileNode>) -> (r: Vec<FileNode>)
    ensures
        file_views(r@) == file_views(v@),
{
    let mut out: Vec<FileNode> = Vec::new();
    let mut i: usize = 0;
    assert(file_views(out@) =~= file_views(v@).take(0));
    while i < v.len()
        invariant
            i <= v.len(),
            file_views(out@) == file_views(v@).take(i as int),
        decreases v.len() - i,
    {
        let ghost before = file_views(out@);
        let f = v[i].copy();
        out.push(f);
        assert(file_views(out@) =~= before.push(f@));
        assert(file_views(v@).take(i + 1) =~= file_views(v@).take(i as int).push(v@[i as int]@));
        i += 1;
    }
    assert(file_views(v@).take(i as int) =~= file_views(v@));
    out
}

fn copy_relationships(v: &Vec<Relationship>) -> (r: Vec<Relationship>)
    ensures
        relationship_views(r@) == relationship_views(v@),
{
    let mut out: Vec<Relationship> = Vec::new();
    let mut i: usize = 0;
    assert(relationship_views(out@) =~= relationship_views(v@).take(0));
    while i < v.len()
        invariant
            i <= v.len(),
            relationship_views(out@) == relationship_views(v@).take(i as int),
        decreases v.len() - i,
    {
        let ghost before = relationship_views(out@);
        let x = v[i].copy();
        out.push(x);
        assert(relationship_views(out@) =~= before.push(x@));
        assert(relationship_views(v@).take(i + 1) =~= relationship_views(v@).take(i as int).push(
            v@[i as int]@,
        ));
        i += 1;
    }
    assert(relationship_views(v@).take(i as int) =~= relationship_views(v@));
    out
}

fn copy_pairs(v: &Vec<(String, String)>) -> (r: Vec<(String, String)>)
    ensures
        pair_texts(r@) == pair_texts(v@),
{
    let mut out: Vec<(String, String)> = Vec::new();
    let mut i: usize = 0;
    assert(pair_texts(out@) =~= pair_texts(v@).take(0));
    while i < v.len()
        invariant
            i <= v.len(),
            pair_texts(out@) == pair_texts(v@).take(i as int),
        decreases v.len() - i,
    {
        let ghost before = pair_texts(out@);
        let pair = (v[i].0.clone(), v[i].1.clone());
        out.push(pair);
        assert(pair_texts(out@) =~= before.push((pair.0@, pair.1@)));
        assert(pair_texts(v@).take(i + 1) =~= pair_texts(v@).take(i as int).push(
            (v@[i as int].0@, v@[i as int].1@),
        ));
        i += 1;
    }
    assert(pair_texts(v@).take(i as int) =~= pair_texts(v@));
    out
}

fn copy_rows(v: &Vec<(String, Vec<String>)>) -> (r: Vec<(String, Vec<String>)>)
    ensures
        segment_pair_texts(r@) == segment_pair_texts(v@),
{
    let mut out: Vec<(String, Vec<String>)> = Vec::new();
    let mut i: usize = 0;
    assert(segment_pair_texts(out@) =~= segment_pair_texts(v@).take(0));
    while i < v.len()
        invariant
            i <= v.len(),
            segment_pair_texts(out@) == segment_pair_texts(v@).take(i as int),
        decreases v.len() - i,
    {
        let ghost before = segment_pair_texts(out@);
        let row = (v[i].0.clone(), copy_strings(&v[i].1));
        out.push(row);
        assert(segment_pair_texts(out@) =~= before.push((row.0@, texts(row.1@))));
        assert(segment_pair_texts(v@).take(i + 1) =~= segment_pair_texts(v@).take(i as int).push(
            (v@[i as int].0@, texts(v@[i as int].1@)),
        ));
        i += 1;
    }
    assert(segment_pair_texts(v@).take(i as int) =~= segment_pair_texts(v@));
    out
}

/// What is written down of `graph`.
pub fn save(graph: &KnowledgeGraph) -> (s: SavedGraph)
    ensures
        s@ == saved(graph@),
{
    let files = graph.files();
    let ghost views = file_views(files@);
    let ghost parents = graph@.module_parent;
    let mut rows: Vec<(String, Vec<String>)> = Vec::new();
    let mut i: usize = 0;
    assert(segment_pair_texts(rows@) =~= child_rows(views.take(0), parents));
    while i < files.len()
        invariant
            i <= files.len(),
            views == file_views(files@),
            parents == graph@.module_parent,
            segment_pair_texts(rows@) == child_rows(views.take(i as int), parents),
        decreases files.len() - i,
    {
        let ghost before = segment_pair_texts(rows@);
        let children = graph.get_module_children(files[i].path.as_str());
        proof {
            assert(views.take(i + 1).drop_last() =~= views.take(i as int));
            assert(views.take(i + 1).last() == files@[i as int]@);
        }
        if children.len() > 0 {
            let row = (files[i].path.clone(), children);
            rows.push(row);
            assert(segment_pair_texts(rows@) =~= before.push((row.0@, texts(row.1@))));
        }
        i += 1;
    }
    assert(views.take(i as int) =~= views);
    SavedGraph {
        files: copy_files(files),
        relationships: copy_relationships(graph.relationships()),
        metadata: GraphMetadata { generated_at: graph.metadata().generated_at.clone() },
        module_parent: copy_pairs(graph.module_parents()),
        module_children: rows,
        module_segments: copy_rows(graph.module_segments()),
    }
}

/// The last of `files` with path `path`, if there is one.
pub open spec fn last_with_path(files: Seq<FileNodeView>, path: Seq<char>) -> Option<FileNodeView>
    decreases files.len(),
{
    if files.len() == 0 {
        None
    } else if files.last().path == path {
        Some(files.last())
    } else {
        last_with_path(files.drop_last(), path)
    }
}

/// The pairs of child and parent for those of the children in `list` whose
/// parent, by `parents`, is `parent`.
pub open spec fn kept(parents: Seq<(Seq<char>, Seq<char>)>, parent: Seq<char>, list: Seq<Seq<char>>) -> Seq<
    (Seq<char>, Seq<char>),
>
    decreases list.len(),
{
    if list.len() == 0 {
        Seq::empty()
    } else {
        let rest = kept(parents, parent, list.drop_last());
        if lookup(parents, list.last()) == Some(parent) {
            rest.push((list.last(), parent))
        } else {
            rest
        }
    }
}

/// The pairs of child and parent that the lists of children give, in the
/// order of the lists, as far as `parents` agrees with them.
pub open spec fn listed(
    parents: Seq<(Seq<char>, Seq<char>)>,
    rows: Seq<(Seq<char>, Seq<Seq<char>>)>,
) -> Seq<(Seq<char>, Seq<char>)>
    decreases rows.len(),
{
    if rows.len() == 0 {
        Seq::empty()
    } else {
        listed(parents, rows.drop_last()) + kept(parents, rows.last().0, rows.last().1)
    }
}

/// The pairs of `parents` whose child has no pair in `first`.
pub open spec fn unlisted(parents: Seq<(Seq<char>, Seq<char>)>, first: Seq<(Seq<char>, Seq<char>)>) -> Seq<
    (Seq<char>, Seq<char>),
>
    decreases parents.len(),
{
    if parents.len() == 0 {
        Seq::empty()
    } else {
        let rest = unlisted(parents.drop_last(), first);
        if lookup(first, parents.last().0) is Some {
            rest
        } else {
            rest.push(parents.last())
        }
    }
}

/// The pairs of child and parent of the graph that is read back: first
/// those that the lists of children give, so that the children of a
/// parent stand in the order of its list, then the other pairs.
pub open spec fn merged(
    parents: Seq<(Seq<char>, Seq<char>)>,
    rows: Seq<(Seq<char>, Seq<Seq<char>>)>,
) -> Seq<(Seq<char>, Seq<char>)> {
    listed(parents, rows) + unlisted(parents, listed(parents, rows))
}

/// Whether `g` is the graph that `s` gives back: it has the files of `s`,
/// of those with one path the last, the relationships of `s` in their
/// order, and the hierarchy that the pairs and lists of `s` give.
pub open spec fn is_restored(s: SavedView, g: GraphView) -> bool {
    &&& paths_ascending(g.files)
    &&& forall|p: Seq<char>| find_file(g.files, p) == last_with_path(s.files, p)
    &&& g.relationships == s.relationships
    &&& g.generated_at == s.generated_at
    &&& g.module_parent == merged(s.module_parent, s.module_children)
    &&& g.module_segments == s.module_segments
}

fn parent_in(pairs: &Vec<(String, String)>, child: &str) -> (r: Option<usize>)
    ensures
        match r {
            Some(i) => i < pairs.len() && lookup(pair_texts(pairs@), child@) == Some(
                pairs@[i as int].1@,
            ),
            None => lookup(pair_texts(pairs@), child@) is None,
        },
{
    let ghost views = pair_texts(pairs@);
    let mut i: usize = 0;
    assert(views.skip(0) =~= views);
    while i < pairs.len()
        invariant
            i <= pairs.len(),
            views == pair_texts(pairs@),
            lookup(views, child@) == lookup(views.skip(i as int), child@),
        decreases pairs.len() - i,
    {
        assert(views.skip(i as int)[0] == (pairs@[i as int].0@, pairs@[i as int].1@));
        assert(views.skip(i as int).drop_first() =~= views.skip(i + 1));
        if same_text(pairs[i].0.as_str(), child) {
            return Some(i);
        }
        i += 1;
    }
    None
}

fn merged_pairs(parents: &Vec<(String, String)>, rows: &Vec<(String, Vec<String>)>) -> (r: Vec<
    (String, String),
>)
    ensures
        pair_texts(r@) == merged(pair_texts(parents@), segment_pair_texts(rows@)),
{
    let ghost ps = pair_texts(parents@);
    let ghost rs = segment_pair_texts(rows@);
    let mut out: Vec<(String, String)> = Vec::new();
    let mut i: usize = 0;
    assert(pair_texts(out@) =~= listed(ps, rs.take(0)));
    while i < rows.len()
        invariant
            i <= rows.len(),
            ps == pair_texts(parents@),
            rs == segment_pair_texts(rows@),
            pair_texts(out@) == listed(ps, rs.take(i as int)),
        decreases rows.len() - i,
    {
        let parent = &rows[i].0;
        let list = &rows[i].1;
        let ghost start = pair_texts(out@);
        let ghost all = texts(list@);
        let mut j: usize = 0;
        assert(start + kept(ps, parent@, all.take(0)) =~= start);
        while j < list.len()
            invariant
                j <= list.len(),
                ps == pair_texts(parents@),
                all == texts(list@),
                pair_texts(out@) == start + kept(ps, parent@, all.take(j as int)),
            decreases list.len() - j,
        {
            let ghost before = pair_texts(out@);
            proof {
                assert(all.take(j + 1).drop_last() =~= all.take(j as int));
                assert(all.take(j + 1).last() == list@[j as int]@);
            }
            let agrees = match parent_in(parents, list[j].as_str()) {
                Some(k) => same_text(parents[k].1.as_str(), parent.as_str()),
                None => false,
            };
            if agrees {
                let pair = (list[j].clone(), parent.clone());
                out.push(pair);
                assert(pair_texts(out@) =~= before.push((pair.0@, pair.1@)));
                assert(start + kept(ps, parent@, all.take(j as int)).push((list@[j as int]@, parent@))
                    =~= (start + kept(ps, parent@, all.take(j as int))).push(
                    (list@[j as int]@, parent@),
                ));
            }
            j += 1;
        }
        proof {
            assert(all.take(j as int) =~= all);
            assert(rs.take(i + 1).drop_last() =~= rs.take(i as int));
            assert(rs.take(i + 1).last() == (rows@[i as int].0@, texts(rows@[i as int].1@)));
        }
        i += 1;
    }
    assert(rs.take(i as int) =~= rs);
    let ghost first = pair_texts(out@);
    let given = copy_pairs(&out);
    let mut k: usize = 0;
    assert(first + unlisted(ps.take(0), first) =~= first);
    while k < parents.len()
        invariant
            k <= parents.len(),
            ps == pair_texts(parents@),
            pair_texts(given@) == first,
            pair_texts(out@) == first + unlisted(ps.take(k as int), first),
        decreases parents.len() - k,
    {
        let ghost before = pair_texts(out@);
        proof {
            assert(ps.take(k + 1).drop_last() =~= ps.take(k as int));
            assert(ps.take(k + 1).last() == (parents@[k as int].0@, parents@[k as int].1@));
        }
        if parent_in(&given, parents[k].0.as_str()).is_none() {
            let pair = (parents[k].0.clone(), parents[k].1.clone());
            out.push(pair);
            assert(pair_texts(out@) =~= before.push((pair.0@, pair.1@)));
            assert(first + unlisted(ps.take(k as int), first).push(
                (parents@[k as int].0@, parents@[k as int].1@),
            ) =~= (first + unlisted(ps.take(k as int), first)).push(
                (parents@[k as int].0@, parents@[k as int].1@),
            ));
        }
        k += 1;
    }
    assert(ps.take(k as int) =~= ps);
    out
}

/// The graph that `s` gives back.
pub fn restore(s: SavedGraph) -> (g: KnowledgeGraph)
    ensures
        is_restored(s@, g@),
{
    let ghost all = file_views(s.files@);
    let mut out = KnowledgeGraph::new();
    let mut i: usize = 0;
    assert forall|p: Seq<char>| find_file(out@.files, p) == last_with_path(all.take(0), p) by {}
    while i < s.files.len()
        invariant
            i <= s.files.len(),
            all == file_views(s.files@),
            out@.relationships.len() == 0,
            out@.module_parent.len() == 0,
            out@.module_segments.len() == 0,
            out@.generated_at.len() == 0,
            forall|p: Seq<char>| find_file(out@.files, p) == last_with_path(all.take(i as int), p),
        decreases s.files.len() - i,
    {
        let node = s.files[i].copy();
        let ghost before = out@.files;
        out.insert_file(node);
        proof {
            assert(all.take(i + 1).drop_last() =~= all.take(i as int));
            assert(all.take(i + 1).last() == s.files@[i as int]@);
            assert forall|p: Seq<char>| find_file(out@.files, p) == last_with_path(
                all.take(i + 1),
                p,
            ) by {
                if p != node.path@ {
                    assert(find_file(out@.files, p) == find_file(before, p));
                }
            }
        }
        i += 1;
    }
    assert(all.take(i as int) =~= all);
    let pairs = merged_pairs(&s.module_parent, &s.module_children);
    out.add_relationships(s.relationships);
    out.set_generated_at(s.metadata.generated_at);
    out.set_module_parents(pairs);
    out.set_module_segments(s.module_segments);
    assert(out@.relationships =~= s@.relationships);
    // the files of a graph stand in ascending order
    let _ = out.files();
    out
}

/// Whether no child has two pairs.
pub open spec fn children_once(pairs: Seq<(Seq<char>, Seq<char>)>) -> bool {
    forall|i: int, j: int|
        0 <= i < j < pairs.len() ==> (#[trigger] pairs[i]).0 != (#[trigger] pairs[j]).0
}

/// Whether some file has the path `p`.
pub open spec fn is_path_of(files: Seq<FileNodeView>, p: Seq<char>) -> bool {
    exists|j: int| 0 <= j < files.len() && (#[trigger] files[j]).path == p
}

/// What `lookup` finds is there; where it finds nothing, no pair has the key.
proof fn lemma_lookup_found(pairs: Seq<(Seq<char>, Seq<char>)>, key: Seq<char>)
    ensures
        match lookup(pairs, key) {
            Some(v) => pairs.contains((key, v)),
            None => forall|i: int| 0 <= i < pairs.len() ==> (#[trigger] pairs[i]).0 != key,
        },
    decreases pairs.len(),
{
    if pairs.len() > 0 {
        if pairs[0].0 == key {
            assert(pairs[0] == (key, pairs[0].1));
        } else {
            lemma_lookup_found(pairs.drop_first(), key);
            match lookup(pairs.drop_first(), key) {
                Some(v) => {
                    let i = choose|i: int|
                        0 <= i < pairs.drop_first().len() && pairs.drop_first()[i] == (key, v);
                    assert(pairs[i + 1] == (key, v));
                },
                None => {
                    assert forall|i: int| 0 <= i < pairs.len() implies (#[trigger] pairs[i]).0
                        != key by {
                        if i > 0 {
                            assert(pairs.drop_first()[i - 1] == pairs[i]);
                        }
                    }
                },
            }
        }
    }
}

/// Where no child has two pairs, `lookup` finds the parent of each pair.
proof fn lemma_lookup_once(pairs: Seq<(Seq<char>, Seq<char>)>, i: int)
    requires
        children_once(pairs),
        0 <= i < pairs.len(),
    ensures
        lookup(pairs, pairs[i].0) == Some(pairs[i].1),
{
    lemma_lookup_found(pairs, pairs[i].0);
    match lookup(pairs, pairs[i].0) {
        Some(v) => {
            let j = choose|j: int| 0 <= j < pairs.len() && pairs[j] == (pairs[i].0, v);
            if j < i {
                assert(pairs[j].0 != pairs[i].0);
            } else if i < j {
                assert(pairs[i].0 != pairs[j].0);
            }
        },
        None => {
            assert(pairs[i].0 != pairs[i].0);
        },
    }
}

/// In two lists of pairs, one after the other, `lookup` finds what it
/// finds in the first, else what it finds in the second.
proof fn lemma_lookup_concat(
    x: Seq<(Seq<char>, Seq<char>)>,
    y: Seq<(Seq<char>, Seq<char>)>,
    key: Seq<char>,
)
    ensures
        lookup(x + y, key) == if lookup(x, key) is Some {
            lookup(x, key)
        } else {
            lookup(y, key)
        },
    decreases x.len(),
{
    if x.len() == 0 {
        assert(x + y =~= y);
    } else {
        assert((x + y).drop_first() =~= x.drop_first() + y);
        assert((x + y)[0] == x[0]);
        if x[0].0 != key {
            lemma_lookup_concat(x.drop_first(), y, key);
        }
    }
}

/// The children that two lists of pairs give, one after the other, are
/// those that the first gives and then those that the second gives.
proof fn lemma_children_concat(
    x: Seq<(Seq<char>, Seq<char>)>,
    y: Seq<(Seq<char>, Seq<char>)>,
    parent: Seq<char>,
)
    ensures
        children_of(x + y, parent) == children_of(x, parent) + children_of(y, parent),
    decreases y.len(),
{
    if y.len() == 0 {
        assert(x + y =~= x);
        assert(children_of(x, parent) + children_of(y, parent) =~= children_of(x, parent));
    } else {
        assert((x + y).drop_last() =~= x + y.drop_last());
        assert((x + y).last() == y.last());
        lemma_children_concat(x, y.drop_last(), parent);
        if y.last().1 == parent {
            assert(children_of(x, parent) + children_of(y.drop_last(), parent).push(y.last().0)
                =~= (children_of(x, parent) + children_of(y.drop_last(), parent)).push(
                y.last().0,
            ));
        }
    }
}

/// What the pairs are that are kept of a list of children.
proof fn lemma_kept_pairs(parents: Seq<(Seq<char>, Seq<char>)>, parent: Seq<char>, list: Seq<Seq<char>>)
    ensures
        forall|i: int|
            0 <= i < kept(parents, parent, list).len() ==> {
                let x = #[trigger] kept(parents, parent, list)[i];
                x.1 == parent && lookup(parents, x.0) == Some(parent) && list.contains(x.0)
            },
        forall|k: int|
            0 <= k < list.len() && lookup(parents, #[trigger] list[k]) == Some(parent) ==> kept(
                parents,
                parent,
                list,
            ).contains((list[k], parent)),
    decreases list.len(),
{
    if list.len() > 0 {
        lemma_kept_pairs(parents, parent, list.drop_last());
        let rest = kept(parents, parent, list.drop_last());
        let all = kept(parents, parent, list);
        assert forall|i: int| 0 <= i < all.len() implies {
            let x = #[trigger] all[i];
            x.1 == parent && lookup(parents, x.0) == Some(parent) && list.contains(x.0)
        } by {
            if i < rest.len() {
                assert(all[i] == rest[i]);
                let k = choose|k: int|
                    0 <= k < list.drop_last().len() && list.drop_last()[k] == rest[i].0;
                assert(list[k] == rest[i].0);
            } else {
                assert(list[list.len() - 1] == all[i].0);
            }
        }
        assert forall|k: int|
            0 <= k < list.len() && lookup(parents, #[trigger] list[k]) == Some(
                parent,
            ) implies all.contains((list[k], parent)) by {
            if k < list.len() - 1 {
                assert(list.drop_last()[k] == list[k]);
                let i = choose|i: int| 0 <= i < rest.len() && rest[i] == (list[k], parent);
                assert(all[i] == (list[k], parent));
            } else {
                assert(all[all.len() - 1] == (list[k], parent));
            }
        }
    }
}

/// Where `parents` agrees with a list of children, the pairs kept of the
/// list give its parent the list, and any other parent nothing.
proof fn lemma_kept_children(
    parents: Seq<(Seq<char>, Seq<char>)>,
    parent: Seq<char>,
    list: Seq<Seq<char>>,
    other: Seq<char>,
)
    requires
        forall|k: int| 0 <= k < list.len() ==> lookup(parents, #[trigger] list[k]) == Some(parent),
    ensures
        children_of(kept(parents, parent, list), other) == if other == parent {
            list
        } else {
            Seq::empty()
        },
    decreases list.len(),
{
    if list.len() > 0 {
        assert forall|k: int| 0 <= k < list.drop_last().len() implies lookup(
            parents,
            #[trigger] list.drop_last()[k],
        ) == Some(parent) by {
            assert(list.drop_last()[k] == list[k]);
        }
        lemma_kept_children(parents, parent, list.drop_last(), other);
        assert(lookup(parents, list[list.len() - 1]) == Some(parent));
        let all = kept(parents, parent, list);
        assert(all.drop_last() =~= kept(parents, parent, list.drop_last()));
        assert(all.last() == (list.last(), parent));
        if other == parent {
            assert(list.drop_last().push(list.last()) =~= list);
        }
    }
}

/// What the pairs are that the lists of children of the first `k` files
/// give: each agrees with `parents` and has one of those files for its
/// parent, and each pair of `parents` with such a parent is among them.
proof fn lemma_listed_pairs(files: Seq<FileNodeView>, parents: Seq<(Seq<char>, Seq<char>)>, k: int)
    requires
        children_once(parents),
        0 <= k <= files.len(),
    ensures
        forall|i: int|
            0 <= i < listed(parents, child_rows(files.take(k), parents)).len() ==> {
                let x = #[trigger] listed(parents, child_rows(files.take(k), parents))[i];
                lookup(parents, x.0) == Some(x.1) && is_path_of(files.take(k), x.1)
            },
        forall|i: int|
            0 <= i < parents.len() && is_path_of(files.take(k), (#[trigger] parents[i]).1)
                ==> listed(parents, child_rows(files.take(k), parents)).contains(parents[i]),
    decreases k,
{
    let now = files.take(k);
    let all = listed(parents, child_rows(now, parents));
    if k > 0 {
        lemma_listed_pairs(files, parents, k - 1);
        let prev = files.take(k - 1);
        let before = listed(parents, child_rows(prev, parents));
        let last = files[k - 1];
        let children = children_of(parents, last.path);
        let more = kept(parents, last.path, children);
        assert(now.drop_last() =~= prev);
        assert(now.last() == last);
        lemma_kept_pairs(parents, last.path, children);
        if children.len() == 0 {
            assert(all == before);
        } else {
            assert(child_rows(now, parents).drop_last() =~= child_rows(prev, parents));
            assert(all == before + more);
        }
        assert forall|i: int| 0 <= i < all.len() implies {
            let x = #[trigger] all[i];
            lookup(parents, x.0) == Some(x.1) && is_path_of(now, x.1)
        } by {
            if i < before.len() {
                assert(all[i] == before[i]);
                let j = choose|j: int|
                    0 <= j < prev.len() && (#[trigger] prev[j]).path == before[i].1;
                assert(now[j].path == all[i].1);
            } else {
                assert(all[i] == more[i - before.len()]);
                assert(now[k - 1].path == all[i].1);
            }
        }
        assert forall|i: int|
            0 <= i < parents.len() && is_path_of(now, (#[trigger] parents[i]).1) implies all.contains(
            parents[i],
        ) by {
            let j = choose|j: int| 0 <= j < now.len() && (#[trigger] now[j]).path == parents[i].1;
            if j < k - 1 {
                assert(prev[j].path == parents[i].1);
                let m = choose|m: int| 0 <= m < before.len() && before[m] == parents[i];
                assert(all[m] == parents[i]);
            } else {
                lemma_child_is_listed(parents, i);
                lemma_lookup_once(parents, i);
                let c = choose|c: int| 0 <= c < children.len() && children[c] == parents[i].0;
                assert(more.contains((children[c], last.path)));
                let m = choose|m: int| 0 <= m < more.len() && more[m] == (children[c], last.path);
                assert(all[before.len() + m] == parents[i]);
            }
        }
    } else {
        assert(now.len() == 0);
    }
}

/// The children that the pairs from the lists of the first `k` files give
/// a parent: those that `parents` gives it, where it is one of those
/// files, and none else.
proof fn lemma_listed_children(
    files: Seq<FileNodeView>,
    parents: Seq<(Seq<char>, Seq<char>)>,
    k: int,
    parent: Seq<char>,
)
    requires
        children_once(parents),
        paths_ascending(files),
        0 <= k <= files.len(),
    ensures
        children_of(listed(parents, child_rows(files.take(k), parents)), parent) == if is_path_of(
            files.take(k),
            parent,
        ) {
            children_of(parents, parent)
        } else {
            Seq::empty()
        },
    decreases k,
{
    let now = files.take(k);
    let all = listed(parents, child_rows(now, parents));
    if k > 0 {
        lemma_listed_children(files, parents, k - 1, parent);
        let prev = files.take(k - 1);
        let before = listed(parents, child_rows(prev, parents));
        let last = files[k - 1];
        let children = children_of(parents, last.path);
        let more = kept(parents, last.path, children);
        assert(now.drop_last() =~= prev);
        assert(now.last() == last);
        assert(now[k - 1].path == last.path);
        if is_path_of(prev, parent) {
            let j = choose|j: int| 0 <= j < prev.len() && (#[trigger] prev[j]).path == parent;
            assert(now[j].path == parent);
            if parent == last.path {
                lemma_index_unique(files, j, k - 1);
            }
        }
        if is_path_of(now, parent) && parent != last.path {
            let j = choose|j: int| 0 <= j < now.len() && (#[trigger] now[j]).path == parent;
            assert(prev[j].path == parent);
        }
        if children.len() == 0 {
            assert(all == before);
        } else {
            assert(child_rows(now, parents).drop_last() =~= child_rows(prev, parents));
            assert(all == before + more);
            lemma_children_concat(before, more, parent);
            lemma_children_found(parents, last.path);
            assert forall|m: int| 0 <= m < children.len() implies lookup(
                parents,
                #[trigger] children[m],
            ) == Some(last.path) by {
                let i = choose|i: int|
                    0 <= i < parents.len() && parents[i] == (children[m], last.path);
                lemma_lookup_once(parents, i);
            }
            lemma_kept_children(parents, last.path, children, parent);
            if parent == last.path {
                assert(Seq::<Seq<char>>::empty() + children =~= children);
            } else {
                assert(children_of(before, parent) + Seq::<Seq<char>>::empty() =~= children_of(
                    before,
                    parent,
                ));
            }
        }
    } else {
        assert(now.len() == 0);
    }
}

/// What the pairs are that are left of the first `k` of `parents`: those
/// whose child has no pair in `first`.
proof fn lemma_unlisted_pairs(
    parents: Seq<(Seq<char>, Seq<char>)>,
    first: Seq<(Seq<char>, Seq<char>)>,
    k: int,
)
    requires
        0 <= k <= parents.len(),
    ensures
        forall|i: int|
            0 <= i < unlisted(parents.take(k), first).len() ==> {
                let x = #[trigger] unlisted(parents.take(k), first)[i];
                parents.contains(x) && lookup(first, x.0) is None
            },
        forall|i: int|
            0 <= i < k && lookup(first, (#[trigger] parents[i]).0) is None ==> unlisted(
                parents.take(k),
                first,
            ).contains(parents[i]),
    decreases k,
{
    let all = unlisted(parents.take(k), first);
    if k > 0 {
        lemma_unlisted_pairs(parents, first, k - 1);
        let before = unlisted(parents.take(k - 1), first);
        assert(parents.take(k).drop_last() =~= parents.take(k - 1));
        assert(parents.take(k).last() == parents[k - 1]);
        assert forall|i: int| 0 <= i < all.len() implies {
            let x = #[trigger] all[i];
            parents.contains(x) && lookup(first, x.0) is None
        } by {
            if i < before.len() {
                assert(all[i] == before[i]);
            } else {
                assert(all[i] == parents[k - 1]);
            }
        }
        assert forall|i: int|
            0 <= i < k && lookup(first, (#[trigger] parents[i]).0) is None implies all.contains(
            parents[i],
        ) by {
            if i < k - 1 {
                let m = choose|m: int| 0 <= m < before.len() && before[m] == parents[i];
                assert(all[m] == parents[i]);
            } else {
                assert(all[all.len() - 1] == parents[i]);
            }
        }
    }
}

/// The children that the pairs left of the first `k` of `parents` give a
/// parent: nothing, where the pairs with that parent are all passed over;
/// where they are all left, what those first `k` give it.
proof fn lemma_unlisted_children(
    parents: Seq<(Seq<char>, Seq<char>)>,
    first: Seq<(Seq<char>, Seq<char>)>,
    k: int,
    parent: Seq<char>,
    passed: bool,
)
    requires
        0 <= k <= parents.len(),
        forall|i: int|
            0 <= i < k && (#[trigger] parents[i]).1 == parent ==> (lookup(first, parents[i].0)
                is Some) == passed,
    ensures
        children_of(unlisted(parents.take(k), first), parent) == if passed {
            Seq::empty()
        } else {
            children_of(parents.take(k), parent)
        },
    decreases k,
{
    if k > 0 {
        lemma_unlisted_children(parents, first, k - 1, parent, passed);
        let before = unlisted(parents.take(k - 1), first);
        let all = unlisted(parents.take(k), first);
        assert(parents.take(k).drop_last() =~= parents.take(k - 1));
        assert(parents.take(k).last() == parents[k - 1]);
        if lookup(first, parents[k - 1].0) is None {
            assert(all.drop_last() =~= before);
            assert(all.last() == parents[k - 1]);
        }
    }
}

/// Among files in ascending order, the last with a path is the first.
proof fn lemma_last_is_first(files: Seq<FileNodeView>, path: Seq<char>)
    requires
        paths_ascending(files),
    ensures
        last_with_path(files, path) == find_file(files, path),
    decreases files.len(),
{
    if files.len() > 0 {
        lemma_index_of_file(files, path);
        lemma_index_of_file(files.drop_last(), path);
        assert forall|k: int| 0 <= k < files.len() - 1 implies files.drop_last()[k]
            == files[k] by {}
        if files.last().path == path {
            let i = index_of_file(files, path)->0;
            lemma_index_unique(files, i, files.len() - 1);
        } else {
            assert(paths_ascending(files.drop_last())) by {
                assert forall|i: int, j: int| 0 <= i < j < files.drop_last().len() implies lex_lt(
                    (#[trigger] files.drop_last()[i]).path,
                    (#[trigger] files.drop_last()[j]).path,
                    true,
                ) by {
                    assert(lex_lt(files[i].path, files[j].path, true));
                }
            }
            lemma_last_is_first(files.drop_last(), path);
        }
    }
}

/// A graph that is written down and read back is the graph that it was:
/// it has the same files, relationships, module paths and time, each child
/// has the parent that it had, and each parent the children that it had,
/// in their order. This holds of a graph in which no child has two
/// parents.
pub proof fn lemma_restore_after_save(g: GraphView, r: GraphView)
    requires
        paths_ascending(g.files),
        children_once(g.module_parent),
        is_restored(saved(g), r),
    ensures
        r.files == g.files,
        r.relationships == g.relationships,
        r.generated_at == g.generated_at,
        r.module_segments == g.module_segments,
        forall|c: Seq<char>| #[trigger] lookup(r.module_parent, c) == lookup(g.module_parent, c),
        forall|p: Seq<char>|
            #[trigger] children_of(r.module_parent, p) == children_of(g.module_parent, p),
{
    let parents = g.module_parent;
    let n = g.files.len() as int;
    let first = listed(parents, child_rows(g.files, parents));
    let rest = unlisted(parents, first);
    assert(g.files.take(n) =~= g.files);
    assert(parents.take(parents.len() as int) =~= parents);
    assert forall|p: Seq<char>| find_file(r.files, p) == #[trigger] find_file(g.files, p) by {
        lemma_last_is_first(g.files, p);
    }
    lemma_files_determined(r.files, g.files);
    lemma_listed_pairs(g.files, parents, n);
    lemma_unlisted_pairs(parents, first, parents.len() as int);
    assert forall|c: Seq<char>| #[trigger]
        lookup(r.module_parent, c) == lookup(g.module_parent, c) by {
        lemma_lookup_concat(first, rest, c);
        lemma_lookup_found(first, c);
        lemma_lookup_found(rest, c);
        lemma_lookup_found(parents, c);
        match lookup(first, c) {
            Some(v) => {
                let i = choose|i: int| 0 <= i < first.len() && first[i] == (c, v);
                assert(lookup(parents, first[i].0) == Some(first[i].1));
            },
            None => {
                match lookup(rest, c) {
                    Some(v) => {
                        let i = choose|i: int| 0 <= i < rest.len() && rest[i] == (c, v);
                        assert(parents.contains(rest[i]));
                        let m = choose|m: int| 0 <= m < parents.len() && parents[m] == rest[i];
                        lemma_lookup_once(parents, m);
                    },
                    None => {
                        if lookup(parents, c) is Some {
                            let v = lookup(parents, c)->0;
                            let m = choose|m: int| 0 <= m < parents.len() && parents[m] == (c, v);
                            assert(rest.contains(parents[m]));
                            let i = choose|i: int| 0 <= i < rest.len() && rest[i] == parents[m];
                            assert(rest[i].0 == c);
                        }
                    },
                }
            },
        }
    }
    assert forall|p: Seq<char>| #[trigger]
        children_of(r.module_parent, p) == children_of(g.module_parent, p) by {
        lemma_children_concat(first, rest, p);
        lemma_listed_children(g.files, parents, n, p);
        let passed = is_path_of(g.files, p);
        assert forall|i: int| 0 <= i < parents.len() && (#[trigger] parents[i]).1 == p implies (
        lookup(first, parents[i].0) is Some) == passed by {
            lemma_lookup_found(first, parents[i].0);
            if passed {
                assert(first.contains(parents[i]));
                let m = choose|m: int| 0 <= m < first.len() && first[m] == parents[i];
                assert(first[m].0 == parents[i].0);
            } else if lookup(first, parents[i].0) is Some {
                let v = lookup(first, parents[i].0)->0;
                let m = choose|m: int| 0 <= m < first.len() && first[m] == (parents[i].0, v);
                assert(lookup(parents, first[m].0) == Some(first[m].1));
                assert(is_path_of(g.files, first[m].1));
                lemma_lookup_once(parents, i);
            }
        }
        lemma_unlisted_children(parents, first, parents.len() as int, p, passed);
        if passed {
            assert(children_of(parents, p) + Seq::<Seq<char>>::empty() =~= children_of(parents, p));
        } else {
            assert(Seq::<Seq<char>>::empty() + children_of(parents, p) =~= children_of(parents, p));
        }
    }
}

} // verus!
