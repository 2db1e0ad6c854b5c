//! What holds of every graph that a build gives, stated over the
//! description of a build and proved from it.

use crate::analysis::{
    calls_edges, calls_of_file, content_of, emit_calls, functions_named, hierarchy_edges,
    hierarchy_pairs, is_call_site, module_edge, parent_module, path_call_edges, path_targets,
    simple_call_edges, uses_edges, uses_of_imports, uses_of_targets, CallPatterns,
};
use crate::builder::{
    built_entry, built_file, cached, contains_all, contains_edge, contains_edges, first_source,
    is_build_of, is_first, lemma_first_source, node_of,
};
use crate::cache::{is_file_node, CacheEntry, CacheMode, SourceFile};
use crate::graph::{
    children_of, find_file, index_of_file, is_file_level, lemma_child_is_listed,
    lemma_files_determined, lemma_index_of_file, lemma_index_unique, GraphView,
};
use crate::model::{
    FileNodeView, ItemTypeView, RelationshipTypeView, RelationshipView,
};
use crate::parser::{group_text, RustParser};
use crate::regexes::{all_captures, pattern_of};
use vstd::prelude::*;

verus! {

/// In a built graph the first item of every file stands for the file: its
/// identifier is `file:` and the path, and it is a module that is not
/// inline.
pub proof fn lemma_first_item_stands_for_file(
    parser: RustParser,
    calls: CallPatterns,
    sources: Seq<SourceFile>,
    mode: CacheMode,
    entries: Seq<CacheEntry>,
    seconds: u64,
    graph: GraphView,
    cache: Seq<CacheEntry>,
    i: int,
)
    requires
        is_build_of(parser, calls, sources, mode, entries, seconds, graph, cache),
        0 <= i < graph.files.len(),
    ensures
        graph.files[i].items.len() > 0,
        graph.files[i].items[0].id == "file:"@ + graph.files[i].path,
        graph.files[i].items[0].item_type == (ItemTypeView::Module { is_inline: false }),
{
    assert(is_file_node(graph.files[i]));
}

/// The pairs and the edges of the hierarchy go together: there are as many
/// of the one as of the other, and edge `k` goes from the first item of the
/// parent of pair `k` to the first item of its child, both files of the
/// graph.
pub proof fn lemma_hierarchy_pairs_and_edges(files: Seq<FileNodeView>, n: int, k: int)
    requires
        0 <= k < hierarchy_pairs(files, n).len(),
    ensures
        hierarchy_edges(files, n).len() == hierarchy_pairs(files, n).len(),
        exists|child: int, parent: int|
            0 <= child < files.len() && 0 <= parent < files.len() && #[trigger] module_edge(
                files[parent],
                files[child],
            ) == hierarchy_edges(files, n)[k] && hierarchy_pairs(files, n)[k] == (
                files[child].path,
                files[parent].path,
            ),
    decreases n,
{
    lemma_hierarchy_lengths(files, n);
    if n > 0 && n <= files.len() {
        lemma_hierarchy_lengths(files, n - 1);
        match parent_module(files, files[n - 1]) {
            Some(p) => {
                if k < hierarchy_pairs(files, n - 1).len() {
                    lemma_hierarchy_pairs_and_edges(files, n - 1, k);
                } else {
                    lemma_parent_is_file(files, files[n - 1]);
                    let parent = choose|parent: int|
                        0 <= parent < files.len() && files[parent] == p;
                    assert(module_edge(files[parent], files[n - 1]) == hierarchy_edges(
                        files,
                        n,
                    )[k]);
                }
            },
            None => {
                lemma_hierarchy_pairs_and_edges(files, n - 1, k);
            },
        }
    }
}

proof fn lemma_hierarchy_lengths(files: Seq<FileNodeView>, n: int)
    ensures
        hierarchy_edges(files, n).len() == hierarchy_pairs(files, n).len(),
    decreases n,
{
    if n > 0 && n <= files.len() {
        lemma_hierarchy_lengths(files, n - 1);
    }
}

proof fn lemma_parent_is_file(files: Seq<FileNodeView>, child: FileNodeView)
    ensures
        parent_module(files, child) matches Some(p) ==> exists|i: int|
            0 <= i < files.len() && files[i] == p,
{
    match parent_module(files, child) {
        Some(p) => {
            lemma_index_of_file(files, p.path);
            let dir = crate::analysis::candidate_dir(child.path)->0;
            let as_mod = crate::paths::join(dir, "mod.rs"@);
            let as_lib = crate::paths::join(dir, "lib.rs"@);
            lemma_index_of_file(files, as_mod);
            lemma_index_of_file(files, as_lib);
            if crate::analysis::file_with_items(files, as_mod) is Some {
                assert(files[index_of_file(files, as_mod)->0] == p);
            } else {
                assert(files[index_of_file(files, as_lib)->0] == p);
            }
        },
        None => {},
    }
}

/// In a built graph every pair of the module hierarchy has its edge: from
/// the first item of the parent to the first item of the child there is an
/// edge that says that the one module contains the other; and the child is
/// among the children of the parent.
pub proof fn lemma_hierarchy_has_edges(
    parser: RustParser,
    calls: CallPatterns,
    sources: Seq<SourceFile>,
    mode: CacheMode,
    entries: Seq<CacheEntry>,
    seconds: u64,
    graph: GraphView,
    cache: Seq<CacheEntry>,
    k: int,
)
    requires
        is_build_of(parser, calls, sources, mode, entries, seconds, graph, cache),
        0 <= k < graph.module_parent.len(),
    ensures
        children_of(graph.module_parent, graph.module_parent[k].1).contains(
            graph.module_parent[k].0,
        ),
        exists|child: int, parent: int|
            0 <= child < graph.files.len() && 0 <= parent < graph.files.len()
                && graph.files[child].path == graph.module_parent[k].0 && graph.files[parent].path
                == graph.module_parent[k].1 && graph.relationships.contains(
                #[trigger] module_edge(graph.files[parent], graph.files[child]),
            ),
{
    let files = graph.files;
    let n = files.len() as int;
    lemma_child_is_listed(graph.module_parent, k);
    lemma_hierarchy_pairs_and_edges(files, n, k);
    let (child, parent) = choose|child: int, parent: int|
        0 <= child < files.len() && 0 <= parent < files.len() && #[trigger] module_edge(
            files[parent],
            files[child],
        ) == hierarchy_edges(files, n)[k] && hierarchy_pairs(files, n)[k] == (
            files[child].path,
            files[parent].path,
        );
    let first = contains_all(parser, mode, entries, sources, sources.len() as int);
    let at = first.len() + k;
    assert(graph.relationships[at] == hierarchy_edges(files, n)[k]);
    assert(graph.relationships.contains(module_edge(files[parent], files[child])));
}


/// What holds of every edge that a build makes: an edge for an import says
/// that it imports a module where it goes to the item that stands for a
/// file, and that it imports an item where it does not, with strength 0.8
/// for the one and 1.0 for the other; an edge of containment has strength
/// 1.0; an edge for a call through a path has strength 0.7, one for a call
/// by name 0.5. No other edges are made.
pub open spec fn edge_ok(files: Seq<FileNodeView>, e: RelationshipView) -> bool {
    match e.relationship_type {
        RelationshipTypeView::Uses { import_type } => if is_file_level(files, e.to_item) {
            import_type == "import-module"@ && e.strength == 80
        } else {
            import_type == "import-item"@ && e.strength == 100
        },
        RelationshipTypeView::Contains { containment_type } => e.strength == 100 && (
        containment_type == "file_contains"@ || containment_type == "module_contains"@),
        RelationshipTypeView::Calls { call_type } => (call_type == "path"@ && e.strength == 70) || (
        call_type == "heuristic"@ && e.strength == 50),
        _ => false,
    }
}

/// Whether `edge_ok` holds of every edge of `s`.
pub open spec fn all_ok(files: Seq<FileNodeView>, s: Seq<RelationshipView>) -> bool {
    forall|i: int| 0 <= i < s.len() ==> edge_ok(files, #[trigger] s[i])
}

proof fn lemma_ok_uses_of_targets(
    files: Seq<FileNodeView>,
    file_id: Seq<char>,
    targets: Seq<Seq<char>>,
    context: Seq<char>,
)
    ensures
        all_ok(files, uses_of_targets(files, file_id, targets, context)),
    decreases targets.len(),
{
    if targets.len() > 0 {
        lemma_ok_uses_of_targets(files, file_id, targets.drop_last(), context);
    }
}

proof fn lemma_ok_uses_of_imports(
    files: Seq<FileNodeView>,
    stored: Seq<(Seq<char>, Seq<Seq<char>>)>,
    file: FileNodeView,
    n: int,
)
    ensures
        all_ok(files, uses_of_imports(files, stored, file, n)),
    decreases n,
{
    if n > 0 && n <= file.imports.len() {
        lemma_ok_uses_of_imports(files, stored, file, n - 1);
        lemma_ok_uses_of_targets(
            files,
            file.items[0].id,
            crate::resolver::resolve(files, stored, file.path, file.imports[n - 1].path),
            file.imports[n - 1].path,
        );
    }
}

proof fn lemma_ok_uses_edges(
    files: Seq<FileNodeView>,
    stored: Seq<(Seq<char>, Seq<Seq<char>>)>,
    n: int,
)
    ensures
        all_ok(files, uses_edges(files, stored, n)),
    decreases n,
{
    if n > 0 && n <= files.len() {
        lemma_ok_uses_edges(files, stored, n - 1);
        lemma_ok_uses_of_imports(files, stored, files[n - 1], files[n - 1].imports.len() as int);
    }
}

proof fn lemma_ok_emit(
    files: Seq<FileNodeView>,
    edges: Seq<RelationshipView>,
    file_id: Seq<char>,
    targets: Seq<Seq<char>>,
    call_type: Seq<char>,
    strength: u8,
    context: Seq<char>,
)
    requires
        all_ok(files, edges),
        (call_type == "path"@ && strength == 70) || (call_type == "heuristic"@ && strength == 50),
    ensures
        all_ok(files, emit_calls(edges, file_id, targets, call_type, strength, context)),
    decreases targets.len(),
{
    if targets.len() > 0 {
        lemma_ok_emit(files, edges, file_id, targets.drop_last(), call_type, strength, context);
    }
}

proof fn lemma_ok_path_calls(
    files: Seq<FileNodeView>,
    stored: Seq<(Seq<char>, Seq<Seq<char>>)>,
    file: FileNodeView,
    content: Seq<char>,
    rows: Seq<Seq<Option<(usize, usize)>>>,
    n: int,
)
    ensures
        all_ok(files, path_call_edges(files, stored, file, content, rows, n)),
    decreases n,
{
    if n > 0 && n <= rows.len() {
        lemma_ok_path_calls(files, stored, file, content, rows, n - 1);
        lemma_ok_emit(
            files,
            path_call_edges(files, stored, file, content, rows, n - 1),
            file.items[0].id,
            path_targets(files, stored, file.path, group_text(content, rows[n - 1], 1)),
            "path"@,
            70,
            group_text(content, rows[n - 1], 1),
        );
    }
}

proof fn lemma_ok_simple_calls(
    files: Seq<FileNodeView>,
    file: FileNodeView,
    content: Seq<char>,
    rows: Seq<Seq<Option<(usize, usize)>>>,
    n: int,
    init: Seq<RelationshipView>,
)
    requires
        all_ok(files, init),
    ensures
        all_ok(files, simple_call_edges(files, file, content, rows, n, init)),
    decreases n,
{
    if n > 0 && n <= rows.len() {
        lemma_ok_simple_calls(files, file, content, rows, n - 1, init);
        if is_call_site(content, rows[n - 1]) {
            lemma_ok_emit(
                files,
                simple_call_edges(files, file, content, rows, n - 1, init),
                file.items[0].id,
                functions_named(files, group_text(content, rows[n - 1], 1)),
                "heuristic"@,
                50,
                group_text(content, rows[n - 1], 1),
            );
        }
    }
}

proof fn lemma_ok_calls_edges(
    files: Seq<FileNodeView>,
    stored: Seq<(Seq<char>, Seq<Seq<char>>)>,
    sources: Seq<SourceFile>,
    path_pattern: Seq<char>,
    simple_pattern: Seq<char>,
    n: int,
)
    ensures
        all_ok(files, calls_edges(files, stored, sources, path_pattern, simple_pattern, n)),
    decreases n,
{
    if n > 0 && n <= files.len() {
        lemma_ok_calls_edges(files, stored, sources, path_pattern, simple_pattern, n - 1);
        match content_of(sources, files[n - 1].path) {
            Some(c) => {
                let path_rows = all_captures(path_pattern, c);
                let simple_rows = all_captures(simple_pattern, c);
                lemma_ok_path_calls(
                    files,
                    stored,
                    files[n - 1],
                    c,
                    path_rows,
                    path_rows.len() as int,
                );
                lemma_ok_simple_calls(
                    files,
                    files[n - 1],
                    c,
                    simple_rows,
                    simple_rows.len() as int,
                    path_call_edges(
                        files,
                        stored,
                        files[n - 1],
                        c,
                        path_rows,
                        path_rows.len() as int,
                    ),
                );
            },
            None => {},
        }
    }
}

proof fn lemma_ok_hierarchy(files: Seq<FileNodeView>, n: int)
    ensures
        all_ok(files, hierarchy_edges(files, n)),
    decreases n,
{
    if n > 0 && n <= files.len() {
        lemma_ok_hierarchy(files, n - 1);
    }
}

proof fn lemma_ok_contains(
    files: Seq<FileNodeView>,
    parser: RustParser,
    mode: CacheMode,
    entries: Seq<CacheEntry>,
    sources: Seq<SourceFile>,
    n: int,
)
    ensures
        all_ok(files, contains_all(parser, mode, entries, sources, n)),
    decreases n,
{
    if n > 0 && n <= sources.len() {
        lemma_ok_contains(files, parser, mode, entries, sources, n - 1);
    }
}

/// In a built graph every edge is as `edge_ok` says. So an edge for the
/// import of an item never goes to the item that stands for a file, an
/// edge for the import of a module always does, and every strength lies
/// between 0.5 and 1.0.
pub proof fn lemma_edges_are_ok(
    parser: RustParser,
    calls: CallPatterns,
    sources: Seq<SourceFile>,
    mode: CacheMode,
    entries: Seq<CacheEntry>,
    seconds: u64,
    graph: GraphView,
    cache: Seq<CacheEntry>,
    j: int,
)
    requires
        is_build_of(parser, calls, sources, mode, entries, seconds, graph, cache),
        0 <= j < graph.relationships.len(),
    ensures
        edge_ok(graph.files, graph.relationships[j]),
        50 <= graph.relationships[j].strength <= 100,
        graph.relationships[j].relationship_type matches RelationshipTypeView::Uses { import_type }
            ==> ((import_type == "import-item"@) <==> !is_file_level(
            graph.files,
            graph.relationships[j].to_item,
        )) && ((import_type == "import-module"@) <==> is_file_level(
            graph.files,
            graph.relationships[j].to_item,
        )),
{
    let files = graph.files;
    let n = files.len() as int;
    let a = contains_all(parser, mode, entries, sources, sources.len() as int);
    let h = hierarchy_edges(files, n);
    let u = uses_edges(files, graph.module_segments, n);
    let c = calls_edges(
        files,
        graph.module_segments,
        sources,
        pattern_of(calls.path_call),
        pattern_of(calls.simple_call),
        n,
    );
    lemma_ok_contains(files, parser, mode, entries, sources, sources.len() as int);
    lemma_ok_hierarchy(files, n);
    lemma_ok_uses_edges(files, graph.module_segments, n);
    lemma_ok_calls_edges(
        files,
        graph.module_segments,
        sources,
        pattern_of(calls.path_call),
        pattern_of(calls.simple_call),
        n,
    );
    if j < a.len() {
        assert(graph.relationships[j] == a[j]);
    } else if j < a.len() + h.len() {
        assert(graph.relationships[j] == h[j - a.len()]);
    } else if j < a.len() + h.len() + u.len() {
        assert(graph.relationships[j] == u[j - a.len() - h.len()]);
    } else {
        assert(graph.relationships[j] == c[j - a.len() - h.len() - u.len()]);
    }
    reveal_strlit("import-item");
    reveal_strlit("import-module");
    assert("import-item"@.len() != "import-module"@.len());
}

/// Whether `e` is the edge of a call by name found at a match that is
/// taken for a call: a match of the simple pattern before which, at its
/// place in the text, stands neither `!` nor, within eight bytes, a word
/// that opens a definition.
pub open spec fn from_call_site(
    content: Seq<char>,
    rows: Seq<Seq<Option<(usize, usize)>>>,
    e: RelationshipView,
) -> bool {
    exists|k: int|
        0 <= k < rows.len() && is_call_site(content, #[trigger] rows[k]) && e.context
            == group_text(content, rows[k], 1)
}

proof fn lemma_emit_len(
    edges: Seq<RelationshipView>,
    file_id: Seq<char>,
    targets: Seq<Seq<char>>,
    call_type: Seq<char>,
    strength: u8,
    context: Seq<char>,
)
    ensures
        edges.len() <= emit_calls(edges, file_id, targets, call_type, strength, context).len(),
    decreases targets.len(),
{
    if targets.len() > 0 {
        lemma_emit_len(edges, file_id, targets.drop_last(), call_type, strength, context);
    }
}

proof fn lemma_simple_calls_len(
    files: Seq<FileNodeView>,
    file: FileNodeView,
    content: Seq<char>,
    rows: Seq<Seq<Option<(usize, usize)>>>,
    n: int,
    init: Seq<RelationshipView>,
)
    ensures
        init.len() <= simple_call_edges(files, file, content, rows, n, init).len(),
    decreases n,
{
    if n > 0 && n <= rows.len() {
        lemma_simple_calls_len(files, file, content, rows, n - 1, init);
        lemma_emit_len(
            simple_call_edges(files, file, content, rows, n - 1, init),
            file.items[0].id,
            functions_named(files, group_text(content, rows[n - 1], 1)),
            "heuristic"@,
            50,
            group_text(content, rows[n - 1], 1),
        );
    }
}

proof fn lemma_emit_origin(
    edges: Seq<RelationshipView>,
    file_id: Seq<char>,
    targets: Seq<Seq<char>>,
    call_type: Seq<char>,
    strength: u8,
    context: Seq<char>,
    i: int,
)
    requires
        0 <= i < emit_calls(edges, file_id, targets, call_type, strength, context).len(),
    ensures
        edges.len() <= emit_calls(edges, file_id, targets, call_type, strength, context).len(),
        i < edges.len() ==> emit_calls(edges, file_id, targets, call_type, strength, context)[i]
            == edges[i],
        i >= edges.len() ==> {
            let e = emit_calls(edges, file_id, targets, call_type, strength, context)[i];
            e.context == context && e.relationship_type == (RelationshipTypeView::Calls {
                call_type,
            })
        },
    decreases targets.len(),
{
    lemma_emit_len(edges, file_id, targets, call_type, strength, context);
    if targets.len() > 0 {
        let prev = emit_calls(edges, file_id, targets.drop_last(), call_type, strength, context);
        lemma_emit_len(edges, file_id, targets.drop_last(), call_type, strength, context);
        if i < prev.len() {
            lemma_emit_origin(edges, file_id, targets.drop_last(), call_type, strength, context, i);
        }
    }
}

/// Every edge that the matches of the simple pattern add comes from a match
/// that is taken for a call; the edges given at the start stay where they
/// were.
pub proof fn lemma_simple_calls_origin(
    files: Seq<FileNodeView>,
    file: FileNodeView,
    content: Seq<char>,
    rows: Seq<Seq<Option<(usize, usize)>>>,
    n: int,
    init: Seq<RelationshipView>,
    i: int,
)
    requires
        0 <= i < simple_call_edges(files, file, content, rows, n, init).len(),
    ensures
        init.len() <= simple_call_edges(files, file, content, rows, n, init).len(),
        i < init.len() ==> simple_call_edges(files, file, content, rows, n, init)[i] == init[i],
        i >= init.len() ==> {
            let e = simple_call_edges(files, file, content, rows, n, init)[i];
            from_call_site(content, rows, e) && e.relationship_type == (
            RelationshipTypeView::Calls { call_type: "heuristic"@ })
        },
    decreases n,
{
    lemma_simple_calls_len(files, file, content, rows, n, init);
    if n > 0 && n <= rows.len() {
        let prev = simple_call_edges(files, file, content, rows, n - 1, init);
        lemma_simple_calls_len(files, file, content, rows, n - 1, init);
        if is_call_site(content, rows[n - 1]) {
            let name = group_text(content, rows[n - 1], 1);
            lemma_emit_origin(
                prev,
                file.items[0].id,
                functions_named(files, name),
                "heuristic"@,
                50,
                name,
                i,
            );
            if i < prev.len() {
                lemma_simple_calls_origin(files, file, content, rows, n - 1, init, i);
            }
        } else {
            lemma_simple_calls_origin(files, file, content, rows, n - 1, init, i);
        }
    }
}

proof fn lemma_path_calls_type(
    files: Seq<FileNodeView>,
    stored: Seq<(Seq<char>, Seq<Seq<char>>)>,
    file: FileNodeView,
    content: Seq<char>,
    rows: Seq<Seq<Option<(usize, usize)>>>,
    n: int,
    i: int,
)
    requires
        0 <= i < path_call_edges(files, stored, file, content, rows, n).len(),
    ensures
        path_call_edges(files, stored, file, content, rows, n)[i].relationship_type == (
        RelationshipTypeView::Calls { call_type: "path"@ }),
    decreases n,
{
    if n > 0 && n <= rows.len() {
        let prev = path_call_edges(files, stored, file, content, rows, n - 1);
        let full = group_text(content, rows[n - 1], 1);
        lemma_emit_origin(
            prev,
            file.items[0].id,
            path_targets(files, stored, file.path, full),
            "path"@,
            70,
            full,
            i,
        );
        if i < prev.len() {
            lemma_path_calls_type(files, stored, file, content, rows, n - 1, i);
        }
    }
}

/// Every edge for a call by name, among the call edges of a file, comes
/// from a match of the simple pattern that is taken for a call: no `!`
/// stands before the match, and no word that opens a definition stands in
/// the eight bytes before it.
pub proof fn lemma_heuristic_calls_pass_the_filter(
    files: Seq<FileNodeView>,
    stored: Seq<(Seq<char>, Seq<Seq<char>>)>,
    file: FileNodeView,
    content: Seq<char>,
    path_rows: Seq<Seq<Option<(usize, usize)>>>,
    simple_rows: Seq<Seq<Option<(usize, usize)>>>,
    i: int,
)
    requires
        0 <= i < calls_of_file(files, stored, file, content, path_rows, simple_rows).len(),
        calls_of_file(files, stored, file, content, path_rows, simple_rows)[i].relationship_type
            == (RelationshipTypeView::Calls { call_type: "heuristic"@ }),
    ensures
        from_call_site(
            content,
            simple_rows,
            calls_of_file(files, stored, file, content, path_rows, simple_rows)[i],
        ),
{
    let init = path_call_edges(files, stored, file, content, path_rows, path_rows.len() as int);
    lemma_simple_calls_origin(
        files,
        file,
        content,
        simple_rows,
        simple_rows.len() as int,
        init,
        i,
    );
    if i < init.len() {
        lemma_path_calls_type(files, stored, file, content, path_rows, path_rows.len() as int, i);
        reveal_strlit("path");
        reveal_strlit("heuristic");
        assert("path"@.len() != "heuristic"@.len());
    }
}


/// In a built graph every edge for a call by name comes from a match, in
/// the text of the file that the edge starts from, that is taken for a
/// call: at the place of the match no `!` stands before it, and no word
/// that opens a definition stands in the eight bytes before it.
pub proof fn lemma_built_calls_pass_the_filter(
    parser: RustParser,
    calls: CallPatterns,
    sources: Seq<SourceFile>,
    mode: CacheMode,
    entries: Seq<CacheEntry>,
    seconds: u64,
    graph: GraphView,
    cache: Seq<CacheEntry>,
    j: int,
)
    requires
        is_build_of(parser, calls, sources, mode, entries, seconds, graph, cache),
        0 <= j < graph.relationships.len(),
        graph.relationships[j].relationship_type == (RelationshipTypeView::Calls {
            call_type: "heuristic"@,
        }),
    ensures
        exists|f: int|
            0 <= f < graph.files.len() && #[trigger] content_of(sources, graph.files[f].path)
                is Some && from_call_site(
                content_of(sources, graph.files[f].path)->0,
                all_captures(
                    pattern_of(calls.simple_call),
                    content_of(sources, graph.files[f].path)->0,
                ),
                graph.relationships[j],
            ),
{
    let files = graph.files;
    let n = files.len() as int;
    let a = contains_all(parser, mode, entries, sources, sources.len() as int);
    let h = hierarchy_edges(files, n);
    let u = uses_edges(files, graph.module_segments, n);
    let pp = pattern_of(calls.path_call);
    let sp = pattern_of(calls.simple_call);
    let c = calls_edges(files, graph.module_segments, sources, pp, sp, n);
    lemma_edges_are_ok(parser, calls, sources, mode, entries, seconds, graph, cache, j);
    lemma_ok_contains(files, parser, mode, entries, sources, sources.len() as int);
    lemma_ok_hierarchy(files, n);
    lemma_ok_uses_edges(files, graph.module_segments, n);
    lemma_contains_are_contains(parser, mode, entries, sources, sources.len() as int);
    lemma_hierarchy_are_contains(files, n);
    lemma_uses_are_uses(files, graph.module_segments, n);
    if j < a.len() {
        assert(graph.relationships[j] == a[j]);
    } else if j < a.len() + h.len() {
        assert(graph.relationships[j] == h[j - a.len()]);
    } else if j < a.len() + h.len() + u.len() {
        assert(graph.relationships[j] == u[j - a.len() - h.len()]);
    } else {
        let i = j - a.len() - h.len() - u.len();
        assert(graph.relationships[j] == c[i]);
        lemma_calls_edges_origin(files, graph.module_segments, sources, pp, sp, n, i);
    }
}

proof fn lemma_contains_are_contains(
    parser: RustParser,
    mode: CacheMode,
    entries: Seq<CacheEntry>,
    sources: Seq<SourceFile>,
    n: int,
)
    ensures
        forall|i: int|
            0 <= i < contains_all(parser, mode, entries, sources, n).len() ==> (
            #[trigger] contains_all(parser, mode, entries, sources, n)[i]).relationship_type
                is Contains,
    decreases n,
{
    if n > 0 && n <= sources.len() {
        lemma_contains_are_contains(parser, mode, entries, sources, n - 1);
    }
}

proof fn lemma_hierarchy_are_contains(files: Seq<FileNodeView>, n: int)
    ensures
        forall|i: int|
            0 <= i < hierarchy_edges(files, n).len() ==> (#[trigger] hierarchy_edges(
                files,
                n,
            )[i]).relationship_type is Contains,
    decreases n,
{
    if n > 0 && n <= files.len() {
        lemma_hierarchy_are_contains(files, n - 1);
    }
}

proof fn lemma_targets_are_uses(
    files: Seq<FileNodeView>,
    file_id: Seq<char>,
    targets: Seq<Seq<char>>,
    context: Seq<char>,
)
    ensures
        forall|i: int|
            0 <= i < uses_of_targets(files, file_id, targets, context).len() ==> (
            #[trigger] uses_of_targets(files, file_id, targets, context)[i]).relationship_type
                is Uses,
    decreases targets.len(),
{
    if targets.len() > 0 {
        lemma_targets_are_uses(files, file_id, targets.drop_last(), context);
    }
}

proof fn lemma_imports_are_uses(
    files: Seq<FileNodeView>,
    stored: Seq<(Seq<char>, Seq<Seq<char>>)>,
    file: FileNodeView,
    n: int,
)
    ensures
        forall|i: int|
            0 <= i < uses_of_imports(files, stored, file, n).len() ==> (
            #[trigger] uses_of_imports(files, stored, file, n)[i]).relationship_type is Uses,
    decreases n,
{
    if n > 0 && n <= file.imports.len() {
        lemma_imports_are_uses(files, stored, file, n - 1);
        lemma_targets_are_uses(
            files,
            file.items[0].id,
            crate::resolver::resolve(files, stored, file.path, file.imports[n - 1].path),
            file.imports[n - 1].path,
        );
    }
}

proof fn lemma_uses_are_uses(
    files: Seq<FileNodeView>,
    stored: Seq<(Seq<char>, Seq<Seq<char>>)>,
    n: int,
)
    ensures
        forall|i: int|
            0 <= i < uses_edges(files, stored, n).len() ==> (#[trigger] uses_edges(
                files,
                stored,
                n,
            )[i]).relationship_type is Uses,
    decreases n,
{
    if n > 0 && n <= files.len() {
        lemma_uses_are_uses(files, stored, n - 1);
        lemma_imports_are_uses(files, stored, files[n - 1], files[n - 1].imports.len() as int);
    }
}

proof fn lemma_calls_edges_origin(
    files: Seq<FileNodeView>,
    stored: Seq<(Seq<char>, Seq<Seq<char>>)>,
    sources: Seq<SourceFile>,
    pp: Seq<char>,
    sp: Seq<char>,
    n: int,
    i: int,
)
    requires
        0 <= i < calls_edges(files, stored, sources, pp, sp, n).len(),
        calls_edges(files, stored, sources, pp, sp, n)[i].relationship_type == (
        RelationshipTypeView::Calls { call_type: "heuristic"@ }),
    ensures
        exists|f: int|
            0 <= f < files.len() && #[trigger] content_of(sources, files[f].path) is Some
                && from_call_site(
                content_of(sources, files[f].path)->0,
                all_captures(sp, content_of(sources, files[f].path)->0),
                calls_edges(files, stored, sources, pp, sp, n)[i],
            ),
    decreases n,
{
    if n > 0 && n <= files.len() {
        let prev = calls_edges(files, stored, sources, pp, sp, n - 1);
        if i < prev.len() {
            lemma_calls_edges_origin(files, stored, sources, pp, sp, n - 1, i);
            match content_of(sources, files[n - 1].path) {
                Some(c) => {
                    assert(calls_edges(files, stored, sources, pp, sp, n)[i] == prev[i]);
                },
                None => {},
            }
        } else {
            let c = content_of(sources, files[n - 1].path)->0;
            lemma_heuristic_calls_pass_the_filter(
                files,
                stored,
                files[n - 1],
                c,
                all_captures(pp, c),
                all_captures(sp, c),
                i - prev.len(),
            );
            assert(content_of(sources, files[n - 1].path) is Some);
        }
    }
}

/// The source that counts for its path is the first with that path.
proof fn lemma_first_is_first(sources: Seq<SourceFile>, k: int)
    requires
        0 <= k < sources.len(),
        is_first(sources, k),
    ensures
        first_source(sources, sources[k].path@) == Some(k),
{
    let p = sources[k].path@;
    lemma_first_source(sources.take(k), p);
    lemma_first_source(sources, p);
    assert forall|j: int| 0 <= j < k implies (#[trigger] sources[j]).path@ != p by {
        assert(sources.take(k)[j] == sources[j]);
    }
}

/// A build that starts from the cache of a build of the same sources takes
/// every node from that cache: the node of each source that counts is the
/// node that the earlier build gave it.
proof fn lemma_nodes_are_reused(
    parser: RustParser,
    calls: CallPatterns,
    sources: Seq<SourceFile>,
    mode: CacheMode,
    entries: Seq<CacheEntry>,
    seconds: u64,
    graph: GraphView,
    cache: Seq<CacheEntry>,
    k: int,
)
    requires
        is_build_of(parser, calls, sources, mode, entries, seconds, graph, cache),
        0 <= k < sources.len(),
        is_first(sources, k),
    ensures
        node_of(parser, CacheMode::Use, cache, sources[k]) == node_of(
            parser,
            mode,
            entries,
            sources[k],
        ),
{
    lemma_first_is_first(sources, k);
    let p = sources[k].path@;
    assert(cached(cache, p) == built_entry(parser, mode, entries, sources, p));
}

proof fn lemma_contains_all_reused(
    parser: RustParser,
    calls: CallPatterns,
    sources: Seq<SourceFile>,
    mode: CacheMode,
    entries: Seq<CacheEntry>,
    seconds: u64,
    graph: GraphView,
    cache: Seq<CacheEntry>,
    n: int,
)
    requires
        is_build_of(parser, calls, sources, mode, entries, seconds, graph, cache),
    ensures
        contains_all(parser, CacheMode::Use, cache, sources, n) == contains_all(
            parser,
            mode,
            entries,
            sources,
            n,
        ),
    decreases n,
{
    if n > 0 && n <= sources.len() {
        lemma_contains_all_reused(parser, calls, sources, mode, entries, seconds, graph, cache, n - 1);
        if is_first(sources, n - 1) {
            lemma_nodes_are_reused(
                parser,
                calls,
                sources,
                mode,
                entries,
                seconds,
                graph,
                cache,
                n - 1,
            );
        }
    }
}

/// A second build of the same sources, in mode `Use` and from the cache
/// that the first build gave, gives the same files, the same relationships
/// in the same order, and the same module hierarchy.
pub proof fn lemma_rebuild_gives_the_same(
    parser: RustParser,
    calls: CallPatterns,
    sources: Seq<SourceFile>,
    mode: CacheMode,
    entries: Seq<CacheEntry>,
    first_seconds: u64,
    first: GraphView,
    first_cache: Seq<CacheEntry>,
    second_seconds: u64,
    second: GraphView,
    second_cache: Seq<CacheEntry>,
)
    requires
        is_build_of(parser, calls, sources, mode, entries, first_seconds, first, first_cache),
        is_build_of(
            parser,
            calls,
            sources,
            CacheMode::Use,
            first_cache,
            second_seconds,
            second,
            second_cache,
        ),
    ensures
        second.files == first.files,
        second.relationships == first.relationships,
        second.module_parent == first.module_parent,
        second.module_segments == first.module_segments,
{
    assert forall|p: Seq<char>| #[trigger] find_file(second.files, p) == find_file(
        first.files,
        p,
    ) by {
        assert(find_file(second.files, p) == built_file(
            parser,
            CacheMode::Use,
            first_cache,
            sources,
            p,
        ));
        assert(find_file(first.files, p) == built_file(parser, mode, entries, sources, p));
        match first_source(sources, p) {
            Some(k) => {
                lemma_first_source(sources, p);
                lemma_first_source(sources.take(k), p);
                assert forall|j: int| 0 <= j < k implies (#[trigger] sources.take(k)[j]).path@
                    != p by {
                    assert(sources.take(k)[j] == sources[j]);
                }
                assert(is_first(sources, k));
                lemma_nodes_are_reused(
                    parser,
                    calls,
                    sources,
                    mode,
                    entries,
                    first_seconds,
                    first,
                    first_cache,
                    k,
                );
            },
            None => {},
        }
    }
    lemma_files_determined(second.files, first.files);
    lemma_contains_all_reused(
        parser,
        calls,
        sources,
        mode,
        entries,
        first_seconds,
        first,
        first_cache,
        sources.len() as int,
    );
}


/// Whether `e` says that the file with first item `from` contains the item
/// `to`.
pub open spec fn is_file_contains(e: RelationshipView, from: Seq<char>, to: Seq<char>) -> bool {
    e.from_item == from && e.to_item == to && e.relationship_type == (
    RelationshipTypeView::Contains { containment_type: "file_contains"@ })
}

/// How many of `rels` say that the file with first item `from` contains the
/// item `to`.
pub open spec fn count_file_contains(rels: Seq<RelationshipView>, from: Seq<char>, to: Seq<char>)
    -> nat
    decreases rels.len(),
{
    if rels.len() == 0 {
        0
    } else {
        count_file_contains(rels.drop_last(), from, to) + if is_file_contains(
            rels.last(),
            from,
            to,
        ) {
            1nat
        } else {
            0nat
        }
    }
}

proof fn lemma_count_concat(
    x: Seq<RelationshipView>,
    y: Seq<RelationshipView>,
    from: Seq<char>,
    to: Seq<char>,
)
    ensures
        count_file_contains(x + y, from, to) == count_file_contains(x, from, to)
            + count_file_contains(y, from, to),
    decreases y.len(),
{
    if y.len() == 0 {
        assert(x + y =~= x);
    } else {
        assert((x + y).drop_last() =~= x + y.drop_last());
        assert((x + y).last() == y.last());
        lemma_count_concat(x, y.drop_last(), from, to);
    }
}

proof fn lemma_count_none(rels: Seq<RelationshipView>, from: Seq<char>, to: Seq<char>)
    requires
        forall|i: int| 0 <= i < rels.len() ==> !is_file_contains(#[trigger] rels[i], from, to),
    ensures
        count_file_contains(rels, from, to) == 0,
    decreases rels.len(),
{
    if rels.len() > 0 {
        assert forall|i: int| 0 <= i < rels.drop_last().len() implies !is_file_contains(
            #[trigger] rels.drop_last()[i],
            from,
            to,
        ) by {
            assert(rels.drop_last()[i] == rels[i]);
        }
        lemma_count_none(rels.drop_last(), from, to);
        assert(rels.last() == rels[rels.len() - 1]);
    }
}

/// Among the first `m` containment edges of a file, one goes to item `k`
/// where `k` is among the first `m` items after the first, and none
/// otherwise; no other item has the identifier of item `k`.
proof fn lemma_count_in_node(node: FileNodeView, k: int, m: int)
    requires
        1 <= k < node.items.len(),
        0 <= m <= node.items.len() - 1,
        forall|j: int|
            1 <= j < node.items.len() && j != k ==> (#[trigger] node.items[j]).id
                != node.items[k].id,
    ensures
        count_file_contains(
            contains_edges(node).take(m),
            "file:"@ + node.path,
            node.items[k].id,
        ) == if k - 1 < m {
            1nat
        } else {
            0nat
        },
    decreases m,
{
    let edges = contains_edges(node);
    if m > 0 {
        lemma_count_in_node(node, k, m - 1);
        assert(edges.take(m).drop_last() =~= edges.take(m - 1));
        assert(edges.take(m).last() == edges[m - 1]);
        assert(edges[m - 1] == contains_edge(node.path, node.items[m - 1 + 1].id));
        if m - 1 != k - 1 {
            assert(node.items[m].id != node.items[k].id);
        }
    }
}

/// The node of a source has the path of the source.
proof fn lemma_node_path(
    parser: RustParser,
    mode: CacheMode,
    entries: Seq<CacheEntry>,
    source: SourceFile,
)
    ensures
        node_of(parser, mode, entries, source) matches Some(node) ==> node.path == source.path@,
{
    crate::cache::lemma_entry_for(entries, source.path@);
}

proof fn lemma_prefix_cancels(a: Seq<char>, x: Seq<char>, y: Seq<char>)
    requires
        a + x == a + y,
    ensures
        x == y,
{
    assert((a + x).skip(a.len() as int) =~= x);
    assert((a + y).skip(a.len() as int) =~= y);
}

/// Among the containment edges of the first `n` sources, one goes from the
/// file with path `node.path` to its item `k`, once the source of that file
/// is among them.
proof fn lemma_count_in_sources(
    parser: RustParser,
    mode: CacheMode,
    entries: Seq<CacheEntry>,
    sources: Seq<SourceFile>,
    node: FileNodeView,
    k: int,
    n: int,
)
    requires
        0 <= n <= sources.len(),
        1 <= k < node.items.len(),
        forall|j: int|
            1 <= j < node.items.len() && j != k ==> (#[trigger] node.items[j]).id
                != node.items[k].id,
        built_file(parser, mode, entries, sources, node.path) == Some(node),
    ensures
        count_file_contains(
            contains_all(parser, mode, entries, sources, n),
            "file:"@ + node.path,
            node.items[k].id,
        ) == if first_source(sources, node.path)->0 < n {
            1nat
        } else {
            0nat
        },
    decreases n,
{
    let from = "file:"@ + node.path;
    let to = node.items[k].id;
    let k0 = first_source(sources, node.path)->0;
    lemma_first_source(sources, node.path);
    if n > 0 {
        lemma_count_in_sources(parser, mode, entries, sources, node, k, n - 1);
        let prev = contains_all(parser, mode, entries, sources, n - 1);
        match node_of(parser, mode, entries, sources[n - 1]) {
            Some(other) => {
                if is_first(sources, n - 1) {
                    lemma_node_path(parser, mode, entries, sources[n - 1]);
                    lemma_count_concat(prev, contains_edges(other), from, to);
                    if n - 1 == k0 {
                        assert(other == node);
                        lemma_count_in_node(node, k, node.items.len() - 1);
                        assert(contains_edges(node).take(node.items.len() - 1) =~= contains_edges(
                            node,
                        ));
                    } else {
                        lemma_first_is_first(sources, n - 1);
                        assert(other.path != node.path);
                        assert forall|i: int|
                            0 <= i < contains_edges(other).len() implies !is_file_contains(
                            #[trigger] contains_edges(other)[i],
                            from,
                            to,
                        ) by {
                            if contains_edges(other)[i].from_item == from {
                                lemma_prefix_cancels("file:"@, other.path, node.path);
                            }
                        }
                        lemma_count_none(contains_edges(other), from, to);
                    }
                } else {
                    if n - 1 == k0 {
                        lemma_first_source(sources.take(n - 1), sources[n - 1].path@);
                        assert forall|j: int| 0 <= j < n - 1 implies (#[trigger] sources.take(
                            n - 1,
                        )[j]).path@ != node.path by {
                            assert(sources.take(n - 1)[j] == sources[j]);
                        }
                    }
                }
            },
            None => {
                if n - 1 == k0 {
                    assert(built_file(parser, mode, entries, sources, node.path) is None);
                }
            },
        }
    }
}

proof fn lemma_hierarchy_kind(files: Seq<FileNodeView>, n: int)
    ensures
        forall|i: int|
            0 <= i < hierarchy_edges(files, n).len() ==> (#[trigger] hierarchy_edges(
                files,
                n,
            )[i]).relationship_type == (RelationshipTypeView::Contains {
                containment_type: "module_contains"@,
            }),
    decreases n,
{
    if n > 0 && n <= files.len() {
        lemma_hierarchy_kind(files, n - 1);
    }
}

proof fn lemma_calls_are_calls(
    files: Seq<FileNodeView>,
    stored: Seq<(Seq<char>, Seq<Seq<char>>)>,
    sources: Seq<SourceFile>,
    pp: Seq<char>,
    sp: Seq<char>,
    n: int,
)
    ensures
        forall|i: int|
            0 <= i < calls_edges(files, stored, sources, pp, sp, n).len() ==> (
            #[trigger] calls_edges(files, stored, sources, pp, sp, n)[i]).relationship_type
                is Calls,
    decreases n,
{
    if n > 0 && n <= files.len() {
        lemma_calls_are_calls(files, stored, sources, pp, sp, n - 1);
        match content_of(sources, files[n - 1].path) {
            Some(c) => {
                let path_rows = all_captures(pp, c);
                let simple_rows = all_captures(sp, c);
                let init = path_call_edges(
                    files,
                    stored,
                    files[n - 1],
                    c,
                    path_rows,
                    path_rows.len() as int,
                );
                let all = calls_of_file(files, stored, files[n - 1], c, path_rows, simple_rows);
                assert forall|i: int| 0 <= i < all.len() implies (#[trigger] all[i]).relationship_type
                    is Calls by {
                    lemma_simple_calls_origin(
                        files,
                        files[n - 1],
                        c,
                        simple_rows,
                        simple_rows.len() as int,
                        init,
                        i,
                    );
                    if i < init.len() {
                        lemma_path_calls_type(
                            files,
                            stored,
                            files[n - 1],
                            c,
                            path_rows,
                            path_rows.len() as int,
                            i,
                        );
                    }
                }
            },
            None => {},
        }
    }
}

/// In a built graph, from the first item of a file to each other item of
/// the file goes exactly one edge that says that the file contains the
/// item, provided that no other item of the file but the first has the
/// same identifier.
pub proof fn lemma_one_contains_edge(
    parser: RustParser,
    calls: CallPatterns,
    sources: Seq<SourceFile>,
    mode: CacheMode,
    entries: Seq<CacheEntry>,
    seconds: u64,
    graph: GraphView,
    cache: Seq<CacheEntry>,
    f: int,
    k: int,
)
    requires
        is_build_of(parser, calls, sources, mode, entries, seconds, graph, cache),
        0 <= f < graph.files.len(),
        1 <= k < graph.files[f].items.len(),
        forall|j: int|
            1 <= j < graph.files[f].items.len() && j != k ==> (#[trigger] graph.files[f].items[j]).id
                != graph.files[f].items[k].id,
    ensures
        count_file_contains(
            graph.relationships,
            graph.files[f].items[0].id,
            graph.files[f].items[k].id,
        ) == 1,
{
    let files = graph.files;
    let node = files[f];
    let n = files.len() as int;
    let from = node.items[0].id;
    let to = node.items[k].id;
    assert(is_file_node(node));
    assert(from == "file:"@ + node.path);
    lemma_index_of_file(files, node.path);
    lemma_index_unique(files, index_of_file(files, node.path)->0, f);
    assert(find_file(files, node.path) == Some(node));
    assert(built_file(parser, mode, entries, sources, node.path) == Some(node));
    lemma_first_source(sources, node.path);
    let a = contains_all(parser, mode, entries, sources, sources.len() as int);
    let h = hierarchy_edges(files, n);
    let u = uses_edges(files, graph.module_segments, n);
    let pp = pattern_of(calls.path_call);
    let sp = pattern_of(calls.simple_call);
    let c = calls_edges(files, graph.module_segments, sources, pp, sp, n);
    lemma_count_in_sources(parser, mode, entries, sources, node, k, sources.len() as int);
    lemma_hierarchy_kind(files, n);
    lemma_uses_are_uses(files, graph.module_segments, n);
    lemma_calls_are_calls(files, graph.module_segments, sources, pp, sp, n);
    reveal_strlit("module_contains");
    reveal_strlit("file_contains");
    assert("module_contains"@.len() != "file_contains"@.len());
    lemma_count_none(h, from, to);
    lemma_count_none(u, from, to);
    lemma_count_none(c, from, to);
    lemma_count_concat(a, h, from, to);
    lemma_count_concat(a + h, u, from, to);
    lemma_count_concat(a + h + u, c, from, to);
}

} // verus!
