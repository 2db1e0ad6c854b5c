//! The builder: from the source files as they were found, and the cache of
//! an earlier build, to the graph and the cache of this build.

use crate::analysis::{
    analyze_calls_heuristic, analyze_import_uses, analyze_module_hierarchy, calls_edges,
    hierarchy_edges, hierarchy_pairs, uses_edges, CallPatterns,
};
use crate::cache::{
    entry_for, file_item, file_level_item, is_file_node, lemma_kept_entry_for, Cache, CacheEntry,
    CacheEntryMeta, CacheMode, SourceFile,
};
use crate::errors::{KnowledgeGraphError, ParseError};
use crate::graph::{
    find_file, has_file, index_of_file, lemma_index_of_file, paths_ascending,
    segment_pair_texts, GraphView, KnowledgeGraph,
};
use crate::model::{
    file_views, item_views, relationship_views, texts, FileMetrics, FileNode, FileNodeView, Item,
    Relationship, RelationshipType, RelationshipTypeView, RelationshipView,
};
use crate::parser::{extracted, RustParser};
use crate::regexes::{all_captures, pattern_of};
use crate::paths::{module_segments, module_segments_of};
use crate::text::{concat, decimal, decimal_string};
use vstd::prelude::*;
use vstd::string::StringExecFns;

verus! {

/// The node of a file in a built graph: the node that extraction gave, with
/// the item that stands for the file put before its items.
pub open spec fn with_file_item(node: FileNodeView) -> FileNodeView {
    FileNodeView {
        path: node.path,
        items: seq![file_item(node.path)] + node.items,
        imports: node.imports,
        metrics: FileMetrics {
            item_count: (node.items.len() + 1) as usize,
            import_count: node.metrics.import_count,
        },
    }
}

/// The edge that says that the file `path` contains the item `to`.
pub open spec fn contains_edge(path: Seq<char>, to: Seq<char>) -> RelationshipView {
    RelationshipView {
        from_item: "file:"@ + path,
        to_item: to,
        relationship_type: RelationshipTypeView::Contains { containment_type: "file_contains"@ },
        strength: 100,
        context: "auto"@,
    }
}

/// The edges from a file to each of its items but the first, in order.
pub open spec fn contains_edges(node: FileNodeView) -> Seq<RelationshipView> {
    Seq::new(
        if node.items.len() > 0 {
            (node.items.len() - 1) as nat
        } else {
            0nat
        },
        |k: int| contains_edge(node.path, node.items[k + 1].id),
    )
}

/// What extraction with the patterns of `parser` makes of the file `path`
/// with text `content`.
pub open spec fn parsed_node(parser: RustParser, path: Seq<char>, content: Seq<char>)
    -> FileNodeView {
    with_file_item(
        extracted(
            content,
            path,
            all_captures(pattern_of(parser.patterns.fn_sig), content),
            all_captures(pattern_of(parser.patterns.struct_def), content),
            all_captures(pattern_of(parser.patterns.enum_def), content),
            all_captures(pattern_of(parser.patterns.import_stmt), content),
        ),
    )
}

/// What the cache knows of the file `path`: its metadata and its node.
pub open spec fn cached(entries: Seq<CacheEntry>, path: Seq<char>) -> Option<
    (CacheEntryMeta, FileNodeView),
> {
    match entry_for(entries, path) {
        Some(e) => Some((e.meta, e.node@)),
        None => None,
    }
}

/// The node that is reused for `source`: the one that the cache holds for
/// its path, where the mode is `Use` and the metadata are the same.
pub open spec fn reused_node(mode: CacheMode, entries: Seq<CacheEntry>, source: SourceFile)
    -> Option<FileNodeView> {
    match cached(entries, source.path@) {
        Some(known) => if mode == CacheMode::Use && known.0 == source.meta {
            Some(known.1)
        } else {
            None
        },
        None => None,
    }
}

/// The node of `source` in the graph: the one reused, or else the one that
/// extraction makes of its text; none where the text is needed and could
/// not be read.
pub open spec fn node_of(
    parser: RustParser,
    mode: CacheMode,
    entries: Seq<CacheEntry>,
    source: SourceFile,
) -> Option<FileNodeView> {
    match reused_node(mode, entries, source) {
        Some(node) => Some(node),
        None => match source.content {
            Ok(c) => Some(parsed_node(parser, source.path@, c@)),
            Err(_) => None,
        },
    }
}

/// The index of the first source with path `path`.
pub open spec fn first_source(sources: Seq<SourceFile>, path: Seq<char>) -> Option<int>
    decreases sources.len(),
{
    if sources.len() == 0 {
        None
    } else if sources.last().path@ == path && first_source(sources.drop_last(), path) is None {
        Some(sources.len() - 1)
    } else {
        first_source(sources.drop_last(), path)
    }
}

/// Whether source `k` is the first with its path. A path that is found
/// more than once counts the first time only.
pub open spec fn is_first(sources: Seq<SourceFile>, k: int) -> bool {
    first_source(sources.take(k), sources[k].path@) is None
}

/// The index of the first source, among the first `n`, that counts and has
/// no node: the build fails on it.
pub open spec fn first_failure(
    parser: RustParser,
    mode: CacheMode,
    entries: Seq<CacheEntry>,
    sources: Seq<SourceFile>,
    n: int,
) -> Option<int>
    decreases n,
{
    if n <= 0 || n > sources.len() {
        None
    } else {
        match first_failure(parser, mode, entries, sources, n - 1) {
            Some(k) => Some(k),
            None => if is_first(sources, n - 1) && node_of(parser, mode, entries, sources[n - 1])
                is None {
                Some(n - 1)
            } else {
                None
            },
        }
    }
}

/// The containment edges of the first `n` sources, in the order of the
/// sources.
pub open spec fn contains_all(
    parser: RustParser,
    mode: CacheMode,
    entries: Seq<CacheEntry>,
    sources: Seq<SourceFile>,
    n: int,
) -> Seq<RelationshipView>
    decreases n,
{
    if n <= 0 || n > sources.len() {
        Seq::empty()
    } else {
        let prev = contains_all(parser, mode, entries, sources, n - 1);
        match node_of(parser, mode, entries, sources[n - 1]) {
            Some(node) => if is_first(sources, n - 1) {
                prev + contains_edges(node)
            } else {
                prev
            },
            None => prev,
        }
    }
}

/// The node that the build gives the path `path`: that of the first source
/// with the path.
pub open spec fn built_file(
    parser: RustParser,
    mode: CacheMode,
    entries: Seq<CacheEntry>,
    sources: Seq<SourceFile>,
    path: Seq<char>,
) -> Option<FileNodeView> {
    match first_source(sources, path) {
        Some(k) => node_of(parser, mode, entries, sources[k]),
        None => None,
    }
}

/// What the cache holds of the path `path` after the build: for a path
/// that was found, the metadata found and the node in the graph; for any
/// other path nothing.
pub open spec fn built_entry(
    parser: RustParser,
    mode: CacheMode,
    entries: Seq<CacheEntry>,
    sources: Seq<SourceFile>,
    path: Seq<char>,
) -> Option<(CacheEntryMeta, FileNodeView)> {
    match first_source(sources, path) {
        Some(k) => match node_of(parser, mode, entries, sources[k]) {
            Some(node) => Some((sources[k].meta, node)),
            None => None,
        },
        None => None,
    }
}

/// The module path of every file, in the order of the files.
pub open spec fn segments_all(files: Seq<FileNodeView>) -> Seq<(Seq<char>, Seq<Seq<char>>)> {
    Seq::new(files.len(), |i: int| (files[i].path, module_segments(files[i].path)))
}

/// Whether `graph` and `cache` are what a build makes of the sources that
/// were found, in a mode, with the cache of an earlier build, at a time
/// given in seconds.
pub open spec fn is_build_of(
    parser: RustParser,
    calls: CallPatterns,
    sources: Seq<SourceFile>,
    mode: CacheMode,
    entries: Seq<CacheEntry>,
    seconds: u64,
    graph: GraphView,
    cache: Seq<CacheEntry>,
) -> bool {
    &&& paths_ascending(graph.files)
    &&& forall|p: Seq<char>| #[trigger]
        find_file(graph.files, p) == built_file(parser, mode, entries, sources, p)
    &&& forall|i: int| 0 <= i < graph.files.len() ==> is_file_node(#[trigger] graph.files[i])
    &&& graph.relationships == contains_all(parser, mode, entries, sources, sources.len() as int)
        + hierarchy_edges(graph.files, graph.files.len() as int) + uses_edges(
        graph.files,
        graph.module_segments,
        graph.files.len() as int,
    ) + calls_edges(
        graph.files,
        graph.module_segments,
        sources,
        pattern_of(calls.path_call),
        pattern_of(calls.simple_call),
        graph.files.len() as int,
    )
    &&& graph.module_parent == hierarchy_pairs(graph.files, graph.files.len() as int)
    &&& graph.module_segments == segments_all(graph.files)
    &&& graph.generated_at == decimal(seconds as nat)
    &&& forall|p: Seq<char>| #[trigger]
        cached(cache, p) == built_entry(parser, mode, entries, sources, p)
}


/// What `first_source` finds is the least index of a source with that path.
pub proof fn lemma_first_source(sources: Seq<SourceFile>, path: Seq<char>)
    ensures
        match first_source(sources, path) {
            Some(k) => 0 <= k < sources.len() && sources[k].path@ == path && forall|j: int|
                0 <= j < k ==> (#[trigger] sources[j]).path@ != path,
            None => forall|j: int| 0 <= j < sources.len() ==> (#[trigger] sources[j]).path@ != path,
        },
    decreases sources.len(),
{
    if sources.len() > 0 {
        lemma_first_source(sources.drop_last(), path);
        assert forall|j: int| 0 <= j < sources.len() - 1 implies sources.drop_last()[j]
            == sources[j] by {}
        match first_source(sources.drop_last(), path) {
            Some(k) => {
                assert(sources.drop_last()[k] == sources[k]);
                assert forall|j: int| 0 <= j < k implies (#[trigger] sources[j]).path@ != path by {
                    assert(sources.drop_last()[j] == sources[j]);
                }
            },
            None => {
                assert forall|j: int| 0 <= j < sources.len() - 1 implies (
                #[trigger] sources[j]).path@ != path by {
                    assert(sources.drop_last()[j] == sources[j]);
                }
            },
        }
    }
}

/// The first source with a path, among the first `i + 1`, is the first
/// among the first `i`, or else source `i` where that has the path.
pub proof fn lemma_first_source_step(sources: Seq<SourceFile>, i: int, path: Seq<char>)
    requires
        0 <= i < sources.len(),
    ensures
        first_source(sources.take(i + 1), path) == match first_source(sources.take(i), path) {
            Some(k) => Some(k),
            None => if sources[i].path@ == path {
                Some(i)
            } else {
                None
            },
        },
{
    assert(sources.take(i + 1).drop_last() =~= sources.take(i));
    assert(sources.take(i + 1).last() == sources[i]);
}

fn prepend_file_item(node: FileNode) -> (r: FileNode)
    ensures
        r@ == with_file_item(node@),
{
    let ghost before = node@;
    let FileNode { path, items, imports, metrics } = node;
    let mut items = items;
    let mut all: Vec<Item> = Vec::new();
    let first = file_level_item(path.as_str());
    all.push(first);
    all.append(&mut items);
    assert(item_views(all@) =~= seq![file_item(path@)] + before.items);
    let metrics = FileMetrics { item_count: all.len(), import_count: metrics.import_count };
    FileNode { path, items: all, imports, metrics }
}

fn push_contains(node: &FileNode, out: &mut Vec<Relationship>)
    ensures
        relationship_views(final(out)@) == relationship_views(old(out)@) + contains_edges(node@),
{
    let ghost start = relationship_views(out@);
    let ghost want = contains_edges(node@);
    if node.items.len() == 0 {
        assert(start + want =~= start);
        return;
    }
    let mut k: usize = 1;
    assert(start + want.take(0) =~= start);
    while k < node.items.len()
        invariant
            1 <= k <= node.items.len(),
            want == contains_edges(node@),
            relationship_views(out@) == start + want.take(k - 1),
        decreases node.items.len() - k,
    {
        let ghost before = relationship_views(out@);
        assert(item_views(node.items@)[k as int] == node.items@[k as int]@);
        let edge = Relationship {
            from_item: crate::model::ItemId(concat("file:", node.path.as_str())),
            to_item: node.items[k].id.copy(),
            relationship_type: RelationshipType::Contains {
                containment_type: String::from_str("file_contains"),
            },
            strength: 100,
            context: String::from_str("auto"),
        };
        out.push(edge);
        assert(relationship_views(out@) =~= before.push(edge@));
        assert(want.take(k as int) =~= want.take(k - 1).push(edge@));
        assert(start + want.take(k - 1).push(edge@) =~= (start + want.take(k - 1)).push(edge@));
        k += 1;
    }
    assert(want.take(k - 1) =~= want);
}

fn segments_for_files(files: &Vec<FileNode>) -> (r: Vec<(String, Vec<String>)>)
    ensures
        segment_pair_texts(r@) == segments_all(file_views(files@)),
{
    let ghost views = file_views(files@);
    let mut out: Vec<(String, Vec<String>)> = Vec::new();
    let mut i: usize = 0;
    while i < files.len()
        invariant
            i <= files.len(),
            views == file_views(files@),
            segment_pair_texts(out@) == segments_all(views).take(i as int),
        decreases files.len() - i,
    {
        let ghost before = segment_pair_texts(out@);
        let pair = (files[i].path.clone(), module_segments_of(files[i].path.as_str()));
        out.push(pair);
        assert(views[i as int] == files@[i as int]@);
        assert(segment_pair_texts(out@) =~= before.push((pair.0@, texts(pair.1@))));
        assert(segments_all(views).take(i + 1) =~= segments_all(views).take(i as int).push(
            (pair.0@, texts(pair.1@)),
        ));
        i += 1;
    }
    assert(segments_all(views).take(i as int) =~= segments_all(views));
    out
}

fn source_paths(sources: &Vec<SourceFile>) -> (r: Vec<String>)
    ensures
        r.len() == sources.len(),
        forall|i: int| 0 <= i < r.len() ==> #[trigger] texts(r@)[i] == sources@[i].path@,
{
    let mut out: Vec<String> = Vec::new();
    let mut i: usize = 0;
    while i < sources.len()
        invariant
            i <= sources.len(),
            out.len() == i,
            forall|k: int| 0 <= k < i ==> #[trigger] texts(out@)[k] == sources@[k].path@,
        decreases sources.len() - i,
    {
        let ghost before = texts(out@);
        out.push(sources[i].path.clone());
        assert(texts(out@) =~= before.push(sources@[i as int].path@));
        i += 1;
    }
    out
}

/// What a build gives: the graph, and the cache to keep for the next build.
pub struct Built {
    pub graph: KnowledgeGraph,
    pub cache: Cache,
}


/// Once the build has met a source without a node, that source stays the
/// first such.
pub proof fn lemma_failure_stays(
    parser: RustParser,
    mode: CacheMode,
    entries: Seq<CacheEntry>,
    sources: Seq<SourceFile>,
    k: int,
    n: int,
)
    requires
        0 <= k < n <= sources.len(),
        first_failure(parser, mode, entries, sources, k + 1) == Some(k),
    ensures
        first_failure(parser, mode, entries, sources, n) == Some(k),
    decreases n,
{
    if n > k + 1 {
        lemma_failure_stays(parser, mode, entries, sources, k, n - 1);
    }
}

/// What the cache that a build starts from holds of `path`: in mode `Use`
/// what the cache given holds, for a path that was found; else nothing.
pub open spec fn start_entry(
    mode: CacheMode,
    entries: Seq<CacheEntry>,
    sources: Seq<SourceFile>,
    path: Seq<char>,
) -> Option<(CacheEntryMeta, FileNodeView)> {
    if mode == CacheMode::Use && first_source(sources, path) is Some {
        cached(entries, path)
    } else {
        None
    }
}

fn start_cache(sources: &Vec<SourceFile>, mode: CacheMode, cache: Cache) -> (state: Cache)
    ensures
        forall|p: Seq<char>| #[trigger]
            cached(state.entry_seq(), p) == start_entry(mode, cache.entry_seq(), sources@, p),
{
    match mode {
        CacheMode::Use => {
            let ghost entries = cache.entry_seq();
            let mut state = cache;
            let present = source_paths(sources);
            state.retain_paths(&present);
            proof {
                assert forall|p: Seq<char>| #[trigger]
                    cached(state.entry_seq(), p) == start_entry(mode, entries, sources@, p) by {
                    lemma_kept_entry_for(entries, texts(present@), p);
                    lemma_first_source(sources@, p);
                    if texts(present@).contains(p) {
                        let k = choose|k: int|
                            0 <= k < texts(present@).len() && texts(present@)[k] == p;
                        assert(sources@[k].path@ == p);
                    } else if first_source(sources@, p) is Some {
                        let k = first_source(sources@, p)->0;
                        assert(texts(present@)[k] == p);
                    }
                }
            }
            state
        },
        _ => Cache::new(),
    }
}

/// Builds the graph of the sources that were found. A path that is found
/// more than once counts the first time only. In mode `Use` a source whose
/// metadata are those that `cache` holds for its path is not read again:
/// the node in the cache is taken. Every other source is extracted from its
/// text, and where that text could not be read the build fails, on the
/// first such source, with `ParseError` for its path and `Io` with the cause
/// given. Otherwise the build succeeds with the graph and the cache that
/// `is_build_of` describes.
pub fn build_graph(
    parser: &RustParser,
    calls: &CallPatterns,
    sources: &Vec<SourceFile>,
    mode: CacheMode,
    cache: Cache,
    generated_at: u64,
) -> (r: Result<Built, KnowledgeGraphError>)
    ensures
        match first_failure(*parser, mode, cache.entry_seq(), sources@, sources.len() as int) {
            Some(k) => match r {
                Err(KnowledgeGraphError::ParseError { file, source: ParseError::Io(cause) }) => {
                    &&& file@ == sources@[k].path@
                    &&& sources@[k].content matches Err(why) && cause@ == why@
                },
                _ => false,
            },
            None => match r {
                Ok(b) => is_build_of(
                    *parser,
                    *calls,
                    sources@,
                    mode,
                    cache.entry_seq(),
                    generated_at,
                    b.graph@,
                    b.cache.entry_seq(),
                ),
                Err(_) => false,
            },
        },
{
    let ghost entries = cache.entry_seq();
    let ghost all = sources@;
    let mut state = start_cache(sources, mode, cache);
    let mut graph = KnowledgeGraph::new();
    let mut edges: Vec<Relationship> = Vec::new();
    let mut i: usize = 0;
    proof {
        assert(relationship_views(edges@) =~= Seq::<RelationshipView>::empty());
        assert forall|p: Seq<char>| #[trigger]
            find_file(graph@.files, p) == built_file(*parser, mode, entries, all.take(0), p) by {}
    }
    while i < sources.len()
        invariant
            i <= sources.len(),
            all == sources@,
            entries == cache.entry_seq(),
            graph@.relationships =~= Seq::<RelationshipView>::empty(),
            graph@.module_parent =~= Seq::<(Seq<char>, Seq<char>)>::empty(),
            graph@.module_segments =~= Seq::<(Seq<char>, Seq<Seq<char>>)>::empty(),
            graph@.generated_at =~= Seq::<char>::empty(),
            forall|p: Seq<char>| #[trigger]
                has_file(graph@.files, p) == (first_source(all.take(i as int), p) is Some),
            forall|p: Seq<char>| #[trigger]
                find_file(graph@.files, p) == built_file(
                    *parser,
                    mode,
                    entries,
                    all.take(i as int),
                    p,
                ),
            forall|p: Seq<char>|
                (#[trigger] find_file(graph@.files, p)) matches Some(f) ==> is_file_node(f),
            relationship_views(edges@) == contains_all(*parser, mode, entries, all, i as int),
            first_failure(*parser, mode, entries, all, i as int) is None,
            forall|p: Seq<char>| #[trigger]
                cached(state.entry_seq(), p) == if first_source(all.take(i as int), p) is Some {
                    built_entry(*parser, mode, entries, all.take(i as int), p)
                } else {
                    start_entry(mode, entries, all, p)
                },
        decreases sources.len() - i,
    {
        let source = &sources[i];
        let ghost before_files = graph@.files;
        let ghost before_state = state.entry_seq();
        let ghost path = source.path@;
        proof {
            assert forall|p: Seq<char>| #[trigger]
                first_source(all.take(i + 1), p) == match first_source(all.take(i as int), p) {
                    Some(k) => Some(k),
                    None => if all[i as int].path@ == p {
                        Some(i as int)
                    } else {
                        None
                    },
                } by {
                lemma_first_source_step(all, i as int, p);
            }
            assert forall|p: Seq<char>| (#[trigger] first_source(all.take(i as int), p))
                is Some implies {
                let k = first_source(all.take(i as int), p)->0;
                0 <= k < i && all.take(i as int)[k] == all[k] && all.take(i + 1)[k] == all[k]
            } by {
                lemma_first_source(all.take(i as int), p);
            }
            lemma_first_source(all, path);
            assert(all.take(i + 1)[i as int] == all[i as int]);
        }
        if graph.get_file(source.path.as_str()).is_some() {
            assert(has_file(graph@.files, path));
            i += 1;
            continue;
        }
        assert(!has_file(graph@.files, path));
        assert(is_first(all, i as int));
        proof {
            assert(all[i as int].path@ == path);
            assert(first_source(all, path) is Some);
            assert(cached(state.entry_seq(), path) == start_entry(mode, entries, all, path));
        }
        let reused = match mode {
            CacheMode::Use => match state.get(source.path.as_str()) {
                Some(e) => {
                    proof {
                        crate::cache::lemma_entry_for(state.entry_seq(), path);
                    }
                    if e.meta == source.meta {
                        Some(e.node.copy())
                    } else {
                        None
                    }
                },
                None => None,
            },
            _ => None,
        };
        assert(match reused {
            Some(n) => reused_node(mode, entries, *source) == Some(n@) && is_file_node(n@)
                && n.path@ == path,
            None => reused_node(mode, entries, *source) is None,
        });
        let node = match reused {
            Some(n) => n,
            None => match &source.content {
                Ok(c) => {
                    let parsed = match parser.parse_file(c.as_str(), source.path.as_str()) {
                        Ok(n) => n,
                        Err(e) => {
                            return Err(
                                KnowledgeGraphError::ParseError {
                                    file: source.path.clone(),
                                    source: e,
                                },
                            );
                        },
                    };
                    let node = prepend_file_item(parsed);
                    let taken = state.insert(CacheEntry { meta: source.meta, node: node.copy() });
                    assert(taken);
                    node
                },
                Err(why) => {
                    proof {
                        assert(node_of(*parser, mode, entries, all[i as int]) is None);
                        assert(first_failure(*parser, mode, entries, all, i + 1) == Some(
                            i as int,
                        ));
                        lemma_failure_stays(
                            *parser,
                            mode,
                            entries,
                            all,
                            i as int,
                            sources.len() as int,
                        );
                    }
                    return Err(
                        KnowledgeGraphError::ParseError {
                            file: source.path.clone(),
                            source: ParseError::Io(why.clone()),
                        },
                    );
                },
            },
        };
        assert(node_of(*parser, mode, entries, *source) == Some(node@));
        assert(is_file_node(node@));
        assert(node.path@ == path);
        push_contains(&node, &mut edges);
        graph.insert_file(node);
        proof {
            assert forall|p: Seq<char>| #[trigger]
                cached(state.entry_seq(), p) == if first_source(all.take(i + 1), p) is Some {
                    built_entry(*parser, mode, entries, all.take(i + 1), p)
                } else {
                    start_entry(mode, entries, all, p)
                } by {
                if p != path {
                    assert(cached(state.entry_seq(), p) == cached(before_state, p));
                }
            }
            assert forall|p: Seq<char>| #[trigger]
                has_file(graph@.files, p) == (first_source(all.take(i + 1), p) is Some) by {
                if p != path {
                    assert(find_file(graph@.files, p) == find_file(before_files, p));
                    assert(has_file(before_files, p) == (first_source(all.take(i as int), p)
                        is Some));
                }
            }
            assert forall|p: Seq<char>| #[trigger]
                find_file(graph@.files, p) == built_file(
                    *parser,
                    mode,
                    entries,
                    all.take(i + 1),
                    p,
                ) by {
                if p != path {
                    assert(find_file(graph@.files, p) == find_file(before_files, p));
                }
            }
            assert forall|p: Seq<char>| (#[trigger] find_file(graph@.files, p))
                is Some implies is_file_node(find_file(graph@.files, p)->0) by {
                if p != path {
                    assert(find_file(graph@.files, p) == find_file(before_files, p));
                }
            }
        }
        i += 1;
    }
    proof {
        assert(all.take(i as int) =~= all);
    }
    graph.add_relationships(edges);
    let segments = segments_for_files(graph.files());
    graph.set_module_segments(segments);
    graph.set_generated_at(decimal_string(generated_at as u128));
    analyze_module_hierarchy(&mut graph);
    analyze_import_uses(&mut graph);
    analyze_calls_heuristic(&mut graph, calls, sources);
    proof {
        let files = graph@.files;
        assert forall|k: int| 0 <= k < files.len() implies is_file_node(#[trigger] files[k]) by {
            lemma_index_of_file(files, files[k].path);
            crate::graph::lemma_index_unique(files, index_of_file(files, files[k].path)->0, k);
            assert(find_file(files, files[k].path) == Some(files[k]));
        }
        assert(graph@.relationships =~= contains_all(
            *parser,
            mode,
            entries,
            all,
            all.len() as int,
        ) + hierarchy_edges(files, files.len() as int) + uses_edges(
            files,
            graph@.module_segments,
            files.len() as int,
        ) + calls_edges(
            files,
            graph@.module_segments,
            all,
            pattern_of(calls.path_call),
            pattern_of(calls.simple_call),
            files.len() as int,
        ));
        assert forall|p: Seq<char>| #[trigger]
            cached(state.entry_seq(), p) == built_entry(*parser, mode, entries, all, p) by {}
    }
    Ok(Built { graph, cache: state })
}

} // verus!
