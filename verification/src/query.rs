//! The queries over a built graph. Those that speak of files work on the
//! projection of the graph to its files: an edge between two items counts
//! as an edge between the files that own them, unless that is one file.

use crate::analysis::{function_ids_named, functions_named};
use crate::graph::{
    has_item, index_of_file, items_have, owner_index, owner_of, position_of, GraphView,
    KnowledgeGraph,
};
use crate::model::{
    file_views, item_views, relationship_views, texts, FileNode, FileNodeView, Item, ItemId,
    ItemType, ItemTypeView, ItemView,
};
use crate::resolver::id_texts;
use crate::text::{lex_lt, same_text, text_less};
use vstd::prelude::*;

verus! {

/// A query: something that can be asked of a graph, with an answer of type
/// `R`.
pub trait Query<R> {
    fn run(&self, graph: &KnowledgeGraph) -> R;
}

/// The paths of the files that `keep` marks, in the order of the files.
pub open spec fn paths_where(files: Seq<FileNodeView>, keep: Seq<bool>) -> Seq<Seq<char>>
    decreases files.len(),
{
    if files.len() == 0 || keep.len() != files.len() {
        Seq::empty()
    } else if keep.last() {
        paths_where(files.drop_last(), keep.drop_last()).push(files.last().path)
    } else {
        paths_where(files.drop_last(), keep.drop_last())
    }
}

/// The paths of the files that `keep` marks.
pub fn select_paths(files: &Vec<FileNode>, keep: &Vec<bool>) -> (r: Vec<String>)
    requires
        keep.len() == files.len(),
    ensures
        texts(r@) == paths_where(file_views(files@), keep@),
{
    let ghost views = file_views(files@);
    let mut out: Vec<String> = Vec::new();
    let mut i: usize = 0;
    assert(texts(out@) =~= Seq::<Seq<char>>::empty());
    while i < files.len()
        invariant
            i <= files.len(),
            keep.len() == files.len(),
            views == file_views(files@),
            texts(out@) == paths_where(views.take(i as int), keep@.take(i as int)),
        decreases files.len() - i,
    {
        let ghost before = texts(out@);
        assert(views.take(i + 1).drop_last() =~= views.take(i as int));
        assert(keep@.take(i + 1).drop_last() =~= keep@.take(i as int));
        assert(views.take(i + 1).last() == files@[i as int]@);
        if keep[i] {
            out.push(files[i].path.clone());
            assert(texts(out@) =~= before.push(files@[i as int].path@));
        }
        i += 1;
    }
    assert(views.take(i as int) =~= views);
    assert(keep@.take(i as int) =~= keep@);
    out
}

/// `n` times `false`.
pub fn no_flags(n: usize) -> (r: Vec<bool>)
    ensures
        r.len() == n,
        forall|i: int| 0 <= i < n ==> !r@[i],
{
    let mut out: Vec<bool> = Vec::new();
    let mut i: usize = 0;
    while i < n
        invariant
            i <= n,
            out.len() == i,
            forall|k: int| 0 <= k < i ==> !out@[k],
        decreases n - i,
    {
        out.push(false);
        i += 1;
    }
    out
}

/// The files that are connected to one file: the other end of every
/// relationship that touches an item of that file.
pub struct ConnectedFilesQuery {
    pub file: String,
}

/// Whether relationship `k` links file `t` to file `f`: one end is the
/// identifier of an item of `t`, and `f`, another file, owns the other end.
pub open spec fn links(g: GraphView, t: int, f: int, k: int) -> bool {
    let r = g.relationships[k];
    f != t && ((has_item(g.files[t].items, r.from_item) && owner_of(g.files, r.to_item) == Some(f))
        || (has_item(g.files[t].items, r.to_item) && owner_of(g.files, r.from_item) == Some(f)))
}

/// Whether one of the first `n` relationships links file `t` to file `f`.
pub open spec fn connected_within(g: GraphView, t: int, f: int, n: int) -> bool {
    exists|k: int| 0 <= k < n && k < g.relationships.len() && links(g, t, f, k)
}

/// The answer of the query for connected files: the paths of the files
/// that a relationship links to the file, in ascending order; nothing
/// where the graph has no such file.
pub open spec fn connected_files(g: GraphView, file: Seq<char>) -> Seq<Seq<char>> {
    match index_of_file(g.files, file) {
        Some(t) => paths_where(
            g.files,
            Seq::new(
                g.files.len(),
                |f: int| connected_within(g, t, f, g.relationships.len() as int),
            ),
        ),
        None => Seq::empty(),
    }
}

impl ConnectedFilesQuery {
    /// The query for the files connected to `file`.
    pub fn new(file: &str) -> (q: ConnectedFilesQuery)
        ensures
            q.file@ == file@,
    {
        ConnectedFilesQuery { file: file.to_owned() }
    }
}

impl Query<Vec<String>> for ConnectedFilesQuery {
    fn run(&self, graph: &KnowledgeGraph) -> (r: Vec<String>)
        ensures
            texts(r@) == connected_files(graph@, self.file@),
    {
        let files = graph.files();
        let rels = graph.relationships();
        let ghost g = graph@;
        let t = match position_of(files, self.file.as_str()) {
            Some(t) => t,
            None => {
                let none: Vec<String> = Vec::new();
                assert(texts(none@) =~= Seq::<Seq<char>>::empty());
                return none;
            },
        };
        let mut keep = no_flags(files.len());
        let mut k: usize = 0;
        while k < rels.len()
            invariant
                k <= rels.len(),
                t < files.len(),
                keep.len() == files.len(),
                g == graph@,
                file_views(files@) == g.files,
                relationship_views(rels@) == g.relationships,
                forall|f: int|
                    0 <= f < files.len() ==> keep@[f] == #[trigger] connected_within(
                        g,
                        t as int,
                        f,
                        k as int,
                    ),
            decreases rels.len() - k,
        {
            let rel = &rels[k];
            let ghost before = keep@;
            assert(g.relationships[k as int] == rel@);
            assert(g.files[t as int] == files@[t as int]@);
            if items_have(&files[t].items, rel.from_item.0.as_str()) {
                match owner_index(files, rel.to_item.0.as_str()) {
                    Some(f) => {
                        if f != t {
                            keep.set(f, true);
                            assert(links(g, t as int, f as int, k as int));
                        }
                    },
                    None => {},
                }
            }
            if items_have(&files[t].items, rel.to_item.0.as_str()) {
                match owner_index(files, rel.from_item.0.as_str()) {
                    Some(f) => {
                        if f != t {
                            keep.set(f, true);
                            assert(links(g, t as int, f as int, k as int));
                        }
                    },
                    None => {},
                }
            }
            proof {
                assert forall|f: int| 0 <= f < files.len() implies keep@[f]
                    == #[trigger] connected_within(g, t as int, f, k + 1) by {
                    assert(before[f] == connected_within(g, t as int, f, k as int));
                    if connected_within(g, t as int, f, k as int) {
                        let w = choose|w: int|
                            0 <= w < k && w < g.relationships.len() && links(g, t as int, f, w);
                        assert(links(g, t as int, f, w));
                    }
                    if connected_within(g, t as int, f, k + 1) && !connected_within(
                        g,
                        t as int,
                        f,
                        k as int,
                    ) {
                        let w = choose|w: int|
                            0 <= w < k + 1 && w < g.relationships.len() && links(
                                g,
                                t as int,
                                f,
                                w,
                            );
                        assert(w == k);
                    }
                }
            }
            k += 1;
        }
        assert(keep@ =~= Seq::new(
            g.files.len(),
            |f: int| connected_within(g, t as int, f, g.relationships.len() as int),
        ));
        select_paths(files, &keep)
    }
}


/// Which side of a call a usage query asks for.
#[derive(Debug, Clone, Copy, PartialEq, Eq)]
pub enum UsageDirection {
    Callers,
    Callees,
}

/// The files that call a function of a given name, or that it calls.
pub struct FunctionUsageQuery {
    pub function: String,
    pub direction: UsageDirection,
}

/// Whether relationship `k` shows file `f` as a user of one of `targets`:
/// as the owner of the source of an edge into a target where callers are
/// asked for, as the owner of the destination of an edge out of a target
/// where callees are.
pub open spec fn shows_usage(
    g: GraphView,
    targets: Seq<Seq<char>>,
    callers: bool,
    f: int,
    k: int,
) -> bool {
    let r = g.relationships[k];
    if callers {
        targets.contains(r.to_item) && owner_of(g.files, r.from_item) == Some(f)
    } else {
        targets.contains(r.from_item) && owner_of(g.files, r.to_item) == Some(f)
    }
}

/// Whether one of the first `n` relationships shows file `f` as a user.
pub open spec fn usage_within(
    g: GraphView,
    targets: Seq<Seq<char>>,
    callers: bool,
    f: int,
    n: int,
) -> bool {
    exists|k: int| 0 <= k < n && k < g.relationships.len() && shows_usage(g, targets, callers, f, k)
}

/// The answer of a usage query: the paths, in ascending order, of the files
/// that a relationship shows as callers, or callees, of the functions named
/// `name`.
pub open spec fn function_usage(g: GraphView, name: Seq<char>, callers: bool) -> Seq<Seq<char>> {
    paths_where(
        g.files,
        Seq::new(
            g.files.len(),
            |f: int|
                usage_within(
                    g,
                    functions_named(g.files, name),
                    callers,
                    f,
                    g.relationships.len() as int,
                ),
        ),
    )
}

/// Whether `id` is one of `ids`.
pub fn ids_contain(ids: &Vec<ItemId>, id: &str) -> (r: bool)
    ensures
        r == id_texts(ids@).contains(id@),
{
    let mut i: usize = 0;
    while i < ids.len()
        invariant
            i <= ids.len(),
            forall|k: int| 0 <= k < i ==> #[trigger] id_texts(ids@)[k] != id@,
        decreases ids.len() - i,
    {
        if same_text(ids[i].0.as_str(), id) {
            assert(id_texts(ids@)[i as int] == id@);
            return true;
        }
        i += 1;
    }
    false
}

impl FunctionUsageQuery {
    /// The query for the files that call the function `function`.
    pub fn callers(function: &str) -> (q: FunctionUsageQuery)
        ensures
            q.function@ == function@,
            q.direction == UsageDirection::Callers,
    {
        FunctionUsageQuery { function: function.to_owned(), direction: UsageDirection::Callers }
    }

    /// The query for the files that the function `function` calls.
    pub fn callees(function: &str) -> (q: FunctionUsageQuery)
        ensures
            q.function@ == function@,
            q.direction == UsageDirection::Callees,
    {
        FunctionUsageQuery { function: function.to_owned(), direction: UsageDirection::Callees }
    }
}

impl Query<Vec<String>> for FunctionUsageQuery {
    fn run(&self, graph: &KnowledgeGraph) -> (r: Vec<String>)
        ensures
            texts(r@) == function_usage(
                graph@,
                self.function@,
                self.direction == UsageDirection::Callers,
            ),
    {
        let files = graph.files();
        let rels = graph.relationships();
        let ghost g = graph@;
        let callers = match self.direction {
            UsageDirection::Callers => true,
            UsageDirection::Callees => false,
        };
        let targets = function_ids_named(files, self.function.as_str());
        let ghost wanted = id_texts(targets@);
        let mut keep = no_flags(files.len());
        let mut k: usize = 0;
        while k < rels.len()
            invariant
                k <= rels.len(),
                keep.len() == files.len(),
                g == graph@,
                wanted == id_texts(targets@),
                file_views(files@) == g.files,
                relationship_views(rels@) == g.relationships,
                forall|f: int|
                    0 <= f < files.len() ==> keep@[f] == #[trigger] usage_within(
                        g,
                        wanted,
                        callers,
                        f,
                        k as int,
                    ),
            decreases rels.len() - k,
        {
            let rel = &rels[k];
            let ghost before = keep@;
            assert(g.relationships[k as int] == rel@);
            let (near, far) = if callers {
                (&rel.to_item, &rel.from_item)
            } else {
                (&rel.from_item, &rel.to_item)
            };
            if ids_contain(&targets, near.0.as_str()) {
                match owner_index(files, far.0.as_str()) {
                    Some(f) => {
                        keep.set(f, true);
                        assert(shows_usage(g, wanted, callers, f as int, k as int));
                    },
                    None => {},
                }
            }
            proof {
                assert forall|f: int| 0 <= f < files.len() implies keep@[f]
                    == #[trigger] usage_within(g, wanted, callers, f, k + 1) by {
                    assert(before[f] == usage_within(g, wanted, callers, f, k as int));
                    if usage_within(g, wanted, callers, f, k as int) {
                        let w = choose|w: int|
                            0 <= w < k && w < g.relationships.len() && shows_usage(
                                g,
                                wanted,
                                callers,
                                f,
                                w,
                            );
                        assert(shows_usage(g, wanted, callers, f, w));
                    }
                    if usage_within(g, wanted, callers, f, k + 1) && !usage_within(
                        g,
                        wanted,
                        callers,
                        f,
                        k as int,
                    ) {
                        let w = choose|w: int|
                            0 <= w < k + 1 && w < g.relationships.len() && shows_usage(
                                g,
                                wanted,
                                callers,
                                f,
                                w,
                            );
                        assert(w == k);
                    }
                }
            }
            k += 1;
        }
        assert(keep@ =~= Seq::new(
            g.files.len(),
            |f: int| usage_within(g, wanted, callers, f, g.relationships.len() as int),
        ));
        select_paths(files, &keep)
    }
}

/// The types that implement a trait of a given name.
pub struct TraitImplsQuery {
    pub trait_name: String,
}

/// The types for which the impls among `items` implement the trait `name`,
/// in the order of the items.
pub open spec fn impl_types(items: Seq<ItemView>, name: Seq<char>) -> Seq<Seq<char>>
    decreases items.len(),
{
    if items.len() == 0 {
        Seq::empty()
    } else {
        match items.last().item_type {
            ItemTypeView::Impl { trait_name: Some(t), for_type } => if t == name {
                impl_types(items.drop_last(), name).push(for_type)
            } else {
                impl_types(items.drop_last(), name)
            },
            _ => impl_types(items.drop_last(), name),
        }
    }
}

/// `sorted` with `x` put in before the first text that comes after `x`.
pub open spec fn insert_text(sorted: Seq<Seq<char>>, x: Seq<char>, sep_first: bool) -> Seq<
    Seq<char>,
>
    decreases sorted.len(),
{
    if sorted.len() == 0 {
        seq![x]
    } else if lex_lt(x, sorted[0], sep_first) {
        seq![x] + sorted
    } else {
        seq![sorted[0]] + insert_text(sorted.drop_first(), x, sep_first)
    }
}

/// The texts of `s` in ascending order.
pub open spec fn sort_texts(s: Seq<Seq<char>>, sep_first: bool) -> Seq<Seq<char>>
    decreases s.len(),
{
    if s.len() == 0 {
        Seq::empty()
    } else {
        insert_text(sort_texts(s.drop_last(), sep_first), s.last(), sep_first)
    }
}

/// Whether each text of `s` is at most the one after it.
pub open spec fn texts_ascending(s: Seq<Seq<char>>, sep_first: bool) -> bool {
    forall|i: int| 0 <= i < s.len() - 1 ==> !lex_lt(#[trigger] s[i + 1], s[i], sep_first)
}

/// Putting a text into an ascending sequence keeps it ascending.
pub proof fn lemma_insert_ascending(s: Seq<Seq<char>>, x: Seq<char>, sep_first: bool)
    requires
        texts_ascending(s, sep_first),
    ensures
        texts_ascending(insert_text(s, x, sep_first), sep_first),
        insert_text(s, x, sep_first).len() == s.len() + 1,
        insert_text(s, x, sep_first)[0] == x || (s.len() > 0 && insert_text(s, x, sep_first)[0]
            == s[0]),
    decreases s.len(),
{
    let r = insert_text(s, x, sep_first);
    if s.len() == 0 {
    } else if lex_lt(x, s[0], sep_first) {
        assert forall|i: int| 0 <= i < r.len() - 1 implies !lex_lt(
            #[trigger] r[i + 1],
            r[i],
            sep_first,
        ) by {
            if i == 0 {
                crate::text::lemma_lex_asymmetric(x, s[0], sep_first);
            } else {
                assert(r[i + 1] == s[i - 1 + 1]);
            }
        }
    } else {
        let rest = s.drop_first();
        assert forall|i: int| 0 <= i < rest.len() - 1 implies !lex_lt(
            #[trigger] rest[i + 1],
            rest[i],
            sep_first,
        ) by {
            assert(rest[i + 1] == s[i + 1 + 1]);
        }
        lemma_insert_ascending(rest, x, sep_first);
        let tail = insert_text(rest, x, sep_first);
        assert forall|i: int| 0 <= i < r.len() - 1 implies !lex_lt(
            #[trigger] r[i + 1],
            r[i],
            sep_first,
        ) by {
            if i == 0 {
                if tail[0] == x {
                } else {
                    assert(tail[0] == rest[0]);
                    assert(rest[0] == s[1]);
                }
            } else {
                assert(r[i + 1] == tail[i - 1 + 1]);
            }
        }
    }
}

/// The sorted texts are ascending, and as many as were given.
pub proof fn lemma_sort_ascending(s: Seq<Seq<char>>, sep_first: bool)
    ensures
        texts_ascending(sort_texts(s, sep_first), sep_first),
        sort_texts(s, sep_first).len() == s.len(),
    decreases s.len(),
{
    if s.len() > 0 {
        lemma_sort_ascending(s.drop_last(), sep_first);
        lemma_insert_ascending(sort_texts(s.drop_last(), sep_first), s.last(), sep_first);
    }
}

/// Puts `x` into `sorted` before the first text that comes after it.
pub fn insert_sorted(sorted: &mut Vec<String>, x: String, sep_first: bool)
    ensures
        texts(final(sorted)@) == insert_text(texts(old(sorted)@), x@, sep_first),
{
    let ghost before = texts(sorted@);
    let mut pos: usize = 0;
    assert(before.skip(0) =~= before);
    assert(before.take(0) + insert_text(before, x@, sep_first) =~= insert_text(
        before,
        x@,
        sep_first,
    ));
    while pos < sorted.len() && !text_less(x.as_str(), sorted[pos].as_str(), sep_first)
        invariant
            pos <= sorted.len(),
            texts(sorted@) == before,
            insert_text(before, x@, sep_first) == before.take(pos as int) + insert_text(
                before.skip(pos as int),
                x@,
                sep_first,
            ),
        decreases sorted.len() - pos,
    {
        assert(before.skip(pos as int)[0] == sorted@[pos as int]@);
        assert(before.skip(pos as int).drop_first() =~= before.skip(pos + 1));
        assert(before.take(pos as int) + (seq![before[pos as int]] + insert_text(
            before.skip(pos + 1),
            x@,
            sep_first,
        )) =~= before.take(pos + 1) + insert_text(before.skip(pos + 1), x@, sep_first));
        pos += 1;
    }
    proof {
        if pos < sorted.len() {
            assert(before.skip(pos as int)[0] == sorted@[pos as int]@);
        }
        assert(before.take(pos as int) + (seq![x@] + before.skip(pos as int)) =~= before.insert(
            pos as int,
            x@,
        ));
    }
    sorted.insert(pos, x);
    assert(texts(sorted@) =~= before.insert(pos as int, x@));
}

/// The rows of one file: the types that implement the trait in it, in
/// ascending order, each with the path of the file.
pub open spec fn impl_rows(file: FileNodeView, name: Seq<char>) -> Seq<(Seq<char>, Seq<char>)> {
    sort_texts(impl_types(file.items, name), false).map_values(|t: Seq<char>| (file.path, t))
}

/// The answer of the query for the impls of a trait: for each impl of the
/// trait, the path of its file and the type it is for; by path, in the
/// order of the files, and under one path by type.
pub open spec fn trait_impls(files: Seq<FileNodeView>, name: Seq<char>) -> Seq<
    (Seq<char>, Seq<char>),
>
    decreases files.len(),
{
    if files.len() == 0 {
        Seq::empty()
    } else {
        trait_impls(files.drop_last(), name) + impl_rows(files.last(), name)
    }
}

/// The views of rows of a path and a type.
pub open spec fn row_texts(v: Seq<(String, String)>) -> Seq<(Seq<char>, Seq<char>)> {
    v.map_values(|p: (String, String)| (p.0@, p.1@))
}

impl TraitImplsQuery {
    /// The query for the types that implement the trait `trait_name`.
    pub fn new(trait_name: &str) -> (q: TraitImplsQuery)
        ensures
            q.trait_name@ == trait_name@,
    {
        TraitImplsQuery { trait_name: trait_name.to_owned() }
    }
}

fn sorted_impl_types(items: &Vec<Item>, name: &str) -> (r: Vec<String>)
    ensures
        texts(r@) == sort_texts(impl_types(item_views(items@), name@), false),
{
    let ghost views = item_views(items@);
    let mut out: Vec<String> = Vec::new();
    let mut k: usize = 0;
    assert(views.take(0) =~= Seq::<ItemView>::empty());
    assert(texts(out@) =~= Seq::<Seq<char>>::empty());
    while k < items.len()
        invariant
            k <= items.len(),
            views == item_views(items@),
            texts(out@) == sort_texts(impl_types(views.take(k as int), name@), false),
        decreases items.len() - k,
    {
        assert(views.take(k + 1).drop_last() =~= views.take(k as int));
        assert(views.take(k + 1).last() == items@[k as int]@);
        match &items[k].item_type {
            ItemType::Impl { trait_name: Some(t), for_type } => {
                if same_text(t.as_str(), name) {
                    let ghost types = impl_types(views.take(k as int), name@);
                    assert(types.push(for_type@).drop_last() =~= types);
                    insert_sorted(&mut out, for_type.clone(), false);
                }
            },
            _ => {},
        }
        k += 1;
    }
    assert(views.take(k as int) =~= views);
    out
}

impl Query<Vec<(String, String)>> for TraitImplsQuery {
    fn run(&self, graph: &KnowledgeGraph) -> (r: Vec<(String, String)>)
        ensures
            row_texts(r@) == trait_impls(graph@.files, self.trait_name@),
    {
        let files = graph.files();
        let ghost views = file_views(files@);
        let mut out: Vec<(String, String)> = Vec::new();
        let mut i: usize = 0;
        assert(views.take(0) =~= Seq::<FileNodeView>::empty());
        assert(row_texts(out@) =~= Seq::<(Seq<char>, Seq<char>)>::empty());
        while i < files.len()
            invariant
                i <= files.len(),
                views == file_views(files@),
                row_texts(out@) == trait_impls(views.take(i as int), self.trait_name@),
            decreases files.len() - i,
        {
            assert(views.take(i + 1).drop_last() =~= views.take(i as int));
            assert(views.take(i + 1).last() == files@[i as int]@);
            let types = sorted_impl_types(&files[i].items, self.trait_name.as_str());
            let ghost start = row_texts(out@);
            let ghost rows = impl_rows(files@[i as int]@, self.trait_name@);
            let mut j: usize = 0;
            assert(start + rows.take(0) =~= start);
            while j < types.len()
                invariant
                    j <= types.len(),
                    rows.len() == types.len(),
                    forall|m: int|
                        0 <= m < types.len() ==> #[trigger] rows[m] == (
                            files@[i as int].path@,
                            types@[m]@,
                        ),
                    i < files.len(),
                    row_texts(out@) == start + rows.take(j as int),
                decreases types.len() - j,
            {
                let ghost before = row_texts(out@);
                let row = (files[i].path.clone(), types[j].clone());
                out.push(row);
                assert(row_texts(out@) =~= before.push((row.0@, row.1@)));
                assert(rows.take(j + 1) =~= rows.take(j as int).push(rows[j as int]));
                assert(start + rows.take(j as int).push(rows[j as int]) =~= (start + rows.take(
                    j as int,
                )).push(rows[j as int]));
                j += 1;
            }
            assert(rows.take(j as int) =~= rows);
            i += 1;
        }
        assert(views.take(i as int) =~= views);
        out
    }
}

} // verus!
