//! The passes that find relationships beyond containment: the module
//! hierarchy that the layout of the files gives, the uses that imports
//! state, and the calls that the text of the files suggests.

use crate::cache::SourceFile;
use crate::errors::ParseError;
use crate::graph::{find_file, find_in_files, is_file_level, pair_texts, KnowledgeGraph};
use crate::model::{
    file_views, item_views, relationship_views, texts, FileNode, FileNodeView, ItemId, ItemView,
    Relationship, RelationshipType, RelationshipTypeView, RelationshipView,
};
use crate::parser::{group, group_of, group_text, text_of_group};
use crate::regexes::{all_captures, compile_one, find_captures, pattern_of, span_rows};
use crate::resolver::split_text;
use crate::text::{bytes_contain, bytes_of, occurs_in, segments};
use crate::paths::{is_module_root, is_module_root_path, join, join_path, parent, parent_of};
use crate::resolver::{id_texts, resolve, Resolver};
use crate::text::same_text;
use vstd::prelude::*;
use vstd::string::StringExecFns;

verus! {

/// The directory in which the parent module of the file `p` has its root
/// file: the directory of `p`, or the one above it where `p` is itself a
/// module root.
pub open spec fn candidate_dir(p: Seq<char>) -> Option<Seq<char>> {
    match parent(p) {
        Some(d) => if is_module_root(p) {
            parent(d)
        } else {
            Some(d)
        },
        None => None,
    }
}

/// The file with path `path`, where the graph has it and it has items.
pub open spec fn file_with_items(files: Seq<FileNodeView>, path: Seq<char>) -> Option<
    FileNodeView,
> {
    match find_file(files, path) {
        Some(f) => if f.items.len() > 0 {
            Some(f)
        } else {
            None
        },
        None => None,
    }
}

/// The module root in `dir`: `mod.rs`, or else `lib.rs`.
pub open spec fn root_in(files: Seq<FileNodeView>, dir: Seq<char>) -> Option<FileNodeView> {
    match file_with_items(files, join(dir, "mod.rs"@)) {
        Some(f) => Some(f),
        None => file_with_items(files, join(dir, "lib.rs"@)),
    }
}

/// The file of the parent module of `child`: the module root in its
/// candidate directory, unless that is `child` itself. A file without
/// items has no parent.
pub open spec fn parent_module(files: Seq<FileNodeView>, child: FileNodeView) -> Option<
    FileNodeView,
> {
    if child.items.len() == 0 {
        None
    } else {
        match candidate_dir(child.path) {
            Some(dir) => match root_in(files, dir) {
                Some(f) => if f.path != child.path {
                    Some(f)
                } else {
                    None
                },
                None => None,
            },
            None => None,
        }
    }
}

/// The edge that says that the module of `parent` contains that of `child`.
pub open spec fn module_edge(parent: FileNodeView, child: FileNodeView) -> RelationshipView {
    RelationshipView {
        from_item: parent.items[0].id,
        to_item: child.items[0].id,
        relationship_type: RelationshipTypeView::Contains { containment_type: "module_contains"@ },
        strength: 100,
        context: "fs"@,
    }
}

/// The hierarchy edges of the first `n` files, in order.
pub open spec fn hierarchy_edges(files: Seq<FileNodeView>, n: int) -> Seq<RelationshipView>
    decreases n,
{
    if n <= 0 || n > files.len() {
        Seq::empty()
    } else {
        match parent_module(files, files[n - 1]) {
            Some(p) => hierarchy_edges(files, n - 1).push(module_edge(p, files[n - 1])),
            None => hierarchy_edges(files, n - 1),
        }
    }
}

/// The pairs of child and parent among the first `n` files, in order.
pub open spec fn hierarchy_pairs(files: Seq<FileNodeView>, n: int) -> Seq<(Seq<char>, Seq<char>)>
    decreases n,
{
    if n <= 0 || n > files.len() {
        Seq::empty()
    } else {
        match parent_module(files, files[n - 1]) {
            Some(p) => hierarchy_pairs(files, n - 1).push((files[n - 1].path, p.path)),
            None => hierarchy_pairs(files, n - 1),
        }
    }
}

fn candidate_dir_of(p: &str) -> (r: Option<String>)
    ensures
        crate::model::opt_text(r) == candidate_dir(p@),
{
    match parent_of(p) {
        Some(d) => {
            if is_module_root_path(p) {
                parent_of(d.as_str())
            } else {
                Some(d)
            }
        },
        None => None,
    }
}

fn find_with_items<'a>(files: &'a Vec<FileNode>, path: &str) -> (r: Option<&'a FileNode>)
    ensures
        match r {
            Some(f) => file_with_items(file_views(files@), path@) == Some(f@) && f.items.len() > 0,
            None => file_with_items(file_views(files@), path@) is None,
        },
{
    match find_in_files(files, path) {
        Some(f) => {
            if f.items.len() > 0 {
                Some(f)
            } else {
                None
            }
        },
        None => None,
    }
}

fn parent_module_of<'a>(files: &'a Vec<FileNode>, child: &FileNode) -> (r: Option<&'a FileNode>)
    ensures
        match r {
            Some(f) => parent_module(file_views(files@), child@) == Some(f@) && f.items.len() > 0
                && child.items.len() > 0,
            None => parent_module(file_views(files@), child@) is None,
        },
{
    if child.items.len() == 0 {
        return None;
    }
    let dir = match candidate_dir_of(child.path.as_str()) {
        Some(d) => d,
        None => {
            return None;
        },
    };
    let as_mod = join_path(dir.as_str(), "mod.rs");
    let root = match find_with_items(files, as_mod.as_str()) {
        Some(f) => Some(f),
        None => {
            let as_lib = join_path(dir.as_str(), "lib.rs");
            find_with_items(files, as_lib.as_str())
        },
    };
    match root {
        Some(f) => {
            if same_text(f.path.as_str(), child.path.as_str()) {
                None
            } else {
                Some(f)
            }
        },
        None => None,
    }
}

/// Finds the module hierarchy from the layout of the files. For each file,
/// in the order of the files, that has a parent module, an edge from the
/// parent's first item to the file's first item is added after the
/// relationships of the graph, and the pair of the file and its parent is
/// recorded. The pairs recorded before are dropped.
pub fn analyze_module_hierarchy(graph: &mut KnowledgeGraph)
    ensures
        final(graph)@.files == old(graph)@.files,
        final(graph)@.module_segments == old(graph)@.module_segments,
        final(graph)@.generated_at == old(graph)@.generated_at,
        final(graph)@.relationships == old(graph)@.relationships + hierarchy_edges(
            old(graph)@.files,
            old(graph)@.files.len() as int,
        ),
        final(graph)@.module_parent == hierarchy_pairs(
            old(graph)@.files,
            old(graph)@.files.len() as int,
        ),
{
    let mut edges: Vec<Relationship> = Vec::new();
    let mut pairs: Vec<(String, String)> = Vec::new();
    let files = graph.files();
    let ghost views = file_views(files@);
    let mut i: usize = 0;
    assert(relationship_views(edges@) =~= Seq::<RelationshipView>::empty());
    assert(pair_texts(pairs@) =~= Seq::<(Seq<char>, Seq<char>)>::empty());
    while i < files.len()
        invariant
            i <= files.len(),
            views == file_views(files@),
            relationship_views(edges@) == hierarchy_edges(views, i as int),
            pair_texts(pairs@) == hierarchy_pairs(views, i as int),
        decreases files.len() - i,
    {
        let ghost edges_before = relationship_views(edges@);
        let ghost pairs_before = pair_texts(pairs@);
        assert(views[i as int] == files@[i as int]@);
        match parent_module_of(files, &files[i]) {
            Some(p) => {
                assert(item_views(p.items@)[0] == p.items@[0]@);
                assert(item_views(files@[i as int].items@)[0] == files@[i as int].items@[0]@);
                let edge = Relationship {
                    from_item: p.items[0].id.copy(),
                    to_item: files[i].items[0].id.copy(),
                    relationship_type: RelationshipType::Contains {
                        containment_type: String::from_str("module_contains"),
                    },
                    strength: 100,
                    context: String::from_str("fs"),
                };
                edges.push(edge);
                assert(relationship_views(edges@) =~= edges_before.push(edge@));
                let pair = (files[i].path.clone(), p.path.clone());
                pairs.push(pair);
                assert(pair_texts(pairs@) =~= pairs_before.push((pair.0@, pair.1@)));
            },
            None => {},
        }
        i += 1;
    }
    graph.add_relationships(edges);
    graph.set_module_parents(pairs);
}


/// The edge that says that the file with first item `file_id` uses
/// `target` through an import written `context`. The target is either the
/// item that stands for a file, a module, or some other item.
pub open spec fn uses_edge(
    file_id: Seq<char>,
    target: Seq<char>,
    is_module: bool,
    context: Seq<char>,
) -> RelationshipView {
    RelationshipView {
        from_item: file_id,
        to_item: target,
        relationship_type: RelationshipTypeView::Uses {
            import_type: if is_module {
                "import-module"@
            } else {
                "import-item"@
            },
        },
        strength: if is_module {
            80
        } else {
            100
        },
        context,
    }
}

/// The edges to `targets`, in order; a target that is the file's own first
/// item gets none.
pub open spec fn uses_of_targets(
    files: Seq<FileNodeView>,
    file_id: Seq<char>,
    targets: Seq<Seq<char>>,
    context: Seq<char>,
) -> Seq<RelationshipView>
    decreases targets.len(),
{
    if targets.len() == 0 {
        Seq::empty()
    } else if targets.last() == file_id {
        uses_of_targets(files, file_id, targets.drop_last(), context)
    } else {
        uses_of_targets(files, file_id, targets.drop_last(), context).push(
            uses_edge(file_id, targets.last(), is_file_level(files, targets.last()), context),
        )
    }
}

/// The edges that the first `n` imports of `file` give: for each import,
/// edges to what its path resolves to, seen from the file.
pub open spec fn uses_of_imports(
    files: Seq<FileNodeView>,
    stored: Seq<(Seq<char>, Seq<Seq<char>>)>,
    file: FileNodeView,
    n: int,
) -> Seq<RelationshipView>
    decreases n,
{
    if n <= 0 || n > file.imports.len() {
        Seq::empty()
    } else {
        uses_of_imports(files, stored, file, n - 1) + uses_of_targets(
            files,
            file.items[0].id,
            resolve(files, stored, file.path, file.imports[n - 1].path),
            file.imports[n - 1].path,
        )
    }
}

/// The edges that the imports of the first `n` files give. A file without
/// items gives none.
pub open spec fn uses_edges(
    files: Seq<FileNodeView>,
    stored: Seq<(Seq<char>, Seq<Seq<char>>)>,
    n: int,
) -> Seq<RelationshipView>
    decreases n,
{
    if n <= 0 || n > files.len() {
        Seq::empty()
    } else if files[n - 1].items.len() == 0 {
        uses_edges(files, stored, n - 1)
    } else {
        uses_edges(files, stored, n - 1) + uses_of_imports(
            files,
            stored,
            files[n - 1],
            files[n - 1].imports.len() as int,
        )
    }
}

fn push_uses_of_file(resolver: &Resolver, file: &FileNode, out: &mut Vec<Relationship>)
    requires
        file.items.len() > 0,
    ensures
        relationship_views(final(out)@) == relationship_views(old(out)@) + uses_of_imports(
            resolver.graph().files,
            resolver.graph().module_segments,
            file@,
            file.imports.len() as int,
        ),
{
    let ghost start = relationship_views(out@);
    let ghost files = resolver.graph().files;
    let ghost stored = resolver.graph().module_segments;
    let mut j: usize = 0;
    assert(start + Seq::<RelationshipView>::empty() =~= start);
    assert(item_views(file.items@)[0] == file.items@[0]@);
    while j < file.imports.len()
        invariant
            j <= file.imports.len(),
            file.items.len() > 0,
            file@.items[0] == file.items@[0]@,
            files == resolver.graph().files,
            stored == resolver.graph().module_segments,
            relationship_views(out@) == start + uses_of_imports(files, stored, file@, j as int),
        decreases file.imports.len() - j,
    {
        let ghost before = relationship_views(out@);
        assert(crate::model::import_views(file.imports@)[j as int] == file.imports@[j as int]@);
        let targets = resolver.resolve_import(file.path.as_str(), file.imports[j].path.as_str());
        let ghost added = uses_of_targets(
            files,
            file.items[0].id@,
            id_texts(targets@),
            file.imports[j as int].path@,
        );
        push_uses_with(resolver, &file.items[0].id, targets, file.imports[j].path.as_str(), out);
        assert(start + (uses_of_imports(files, stored, file@, j as int) + added) =~= before
            + added);
        j += 1;
    }
}

fn push_uses_with(
    resolver: &Resolver,
    file_id: &ItemId,
    targets: Vec<ItemId>,
    context: &str,
    out: &mut Vec<Relationship>,
)
    ensures
        relationship_views(final(out)@) == relationship_views(old(out)@) + uses_of_targets(
            resolver.graph().files,
            file_id@,
            id_texts(targets@),
            context@,
        ),
{
    let ghost start = relationship_views(out@);
    let ghost files = resolver.graph().files;
    let ghost all = id_texts(targets@);
    let n = targets.len();
    let mut k: usize = 0;
    assert(all.take(0) =~= Seq::<Seq<char>>::empty());
    assert(start + Seq::<RelationshipView>::empty() =~= start);
    while k < n
        invariant
            k <= n,
            n == targets.len(),
            all == id_texts(targets@),
            files == resolver.graph().files,
            relationship_views(out@) == start + uses_of_targets(
                files,
                file_id@,
                all.take(k as int),
                context@,
            ),
        decreases n - k,
    {
        let ghost before = relationship_views(out@);
        assert(all.take(k + 1).drop_last() =~= all.take(k as int));
        assert(all.take(k + 1).last() == targets@[k as int]@);
        if !same_text(targets[k].0.as_str(), file_id.0.as_str()) {
            let is_module = resolver.is_file_level_module(&targets[k]);
            let edge = Relationship {
                from_item: file_id.copy(),
                to_item: targets[k].copy(),
                relationship_type: RelationshipType::Uses {
                    import_type: String::from_str(
                        if is_module {
                            "import-module"
                        } else {
                            "import-item"
                        },
                    ),
                },
                strength: if is_module {
                    80
                } else {
                    100
                },
                context: String::from_str(context),
            };
            out.push(edge);
            assert(relationship_views(out@) =~= before.push(edge@));
            assert(start + uses_of_targets(files, file_id@, all.take(k as int), context@).push(
                edge@,
            ) =~= before.push(edge@));
        }
        k += 1;
    }
    assert(all.take(k as int) =~= all);
}

/// Finds the uses that the imports state: each import of each file is
/// resolved, seen from the file, and an edge from the file's first item to
/// each item found is added after the relationships of the graph, files and
/// imports in order.
pub fn analyze_import_uses(graph: &mut KnowledgeGraph)
    ensures
        final(graph)@.files == old(graph)@.files,
        final(graph)@.module_segments == old(graph)@.module_segments,
        final(graph)@.module_parent == old(graph)@.module_parent,
        final(graph)@.generated_at == old(graph)@.generated_at,
        final(graph)@.relationships == old(graph)@.relationships + uses_edges(
            old(graph)@.files,
            old(graph)@.module_segments,
            old(graph)@.files.len() as int,
        ),
{
    let mut edges: Vec<Relationship> = Vec::new();
    let resolver = Resolver::new(graph);
    let files = graph.files();
    let ghost views = file_views(files@);
    let ghost stored = graph@.module_segments;
    let mut i: usize = 0;
    assert(relationship_views(edges@) =~= Seq::<RelationshipView>::empty());
    while i < files.len()
        invariant
            i <= files.len(),
            views == file_views(files@),
            resolver.graph().files == views,
            resolver.graph().module_segments == stored,
            relationship_views(edges@) == uses_edges(views, stored, i as int),
        decreases files.len() - i,
    {
        assert(views[i as int] == files@[i as int]@);
        if files[i].items.len() > 0 {
            push_uses_of_file(&resolver, &files[i], &mut edges);
        }
        i += 1;
    }
    graph.add_relationships(edges);
}


/// The pattern of a call through a path: two or more names joined by `::`,
/// then `(`.
pub const PATH_CALL_PATTERN: &'static str =
    r"\b([A-Za-z_][A-Za-z0-9_]*(?:::[A-Za-z_][A-Za-z0-9_]*)+)\s*\(";

/// The pattern of a call by a single name, then `(`.
pub const SIMPLE_CALL_PATTERN: &'static str = r"\b([A-Za-z_][A-Za-z0-9_]*)\s*\(";

/// The compiled patterns of the call pass.
pub struct CallPatterns {
    pub path_call: regex::Regex,
    pub simple_call: regex::Regex,
}

impl CallPatterns {
    /// Whether these are the two patterns of the call pass.
    pub open spec fn standard(&self) -> bool {
        &&& pattern_of(self.path_call) == PATH_CALL_PATTERN@
        &&& pattern_of(self.simple_call) == SIMPLE_CALL_PATTERN@
    }

    /// Compiles the two patterns. The error is `ParseError::Regex`, with
    /// what the regex engine said of the pattern it refused.
    pub fn compile() -> (r: Result<CallPatterns, ParseError>)
        ensures
            r matches Ok(p) ==> p.standard(),
            r matches Err(e) ==> e is Regex,
    {
        let path_call = match compile_one(PATH_CALL_PATTERN) {
            Ok(x) => x,
            Err(e) => {
                return Err(e);
            },
        };
        let simple_call = match compile_one(SIMPLE_CALL_PATTERN) {
            Ok(x) => x,
            Err(e) => {
                return Err(e);
            },
        };
        Ok(CallPatterns { path_call, simple_call })
    }
}

/// The identifiers of the functions among `items` whose name is `name`.
pub open spec fn functions_in(items: Seq<ItemView>, name: Seq<char>) -> Seq<Seq<char>>
    decreases items.len(),
{
    if items.len() == 0 {
        Seq::empty()
    } else if items.last().name == name && items.last().item_type is Function {
        functions_in(items.drop_last(), name).push(items.last().id)
    } else {
        functions_in(items.drop_last(), name)
    }
}

/// The identifiers of all functions named `name`, file after file.
pub open spec fn functions_named(files: Seq<FileNodeView>, name: Seq<char>) -> Seq<Seq<char>>
    decreases files.len(),
{
    if files.len() == 0 {
        Seq::empty()
    } else {
        functions_named(files.drop_last(), name) + functions_in(files.last().items, name)
    }
}

/// The identifiers of all functions named `name`.
pub fn function_ids_named(files: &Vec<FileNode>, name: &str) -> (r: Vec<ItemId>)
    ensures
        id_texts(r@) == functions_named(file_views(files@), name@),
{
    let ghost views = file_views(files@);
    let mut out: Vec<ItemId> = Vec::new();
    let mut i: usize = 0;
    assert(views.take(0) =~= Seq::<FileNodeView>::empty());
    assert(id_texts(out@) =~= Seq::<Seq<char>>::empty());
    while i < files.len()
        invariant
            i <= files.len(),
            views == file_views(files@),
            id_texts(out@) == functions_named(views.take(i as int), name@),
        decreases files.len() - i,
    {
        assert(views.take(i + 1).drop_last() =~= views.take(i as int));
        assert(views.take(i + 1).last() == files@[i as int]@);
        let items = &files[i].items;
        let ghost rows = item_views(items@);
        let ghost start = id_texts(out@);
        let mut k: usize = 0;
        assert(rows.take(0) =~= Seq::<ItemView>::empty());
        assert(start + Seq::<Seq<char>>::empty() =~= start);
        while k < items.len()
            invariant
                k <= items.len(),
                rows == item_views(items@),
                id_texts(out@) == start + functions_in(rows.take(k as int), name@),
            decreases items.len() - k,
        {
            let ghost before = id_texts(out@);
            assert(rows.take(k + 1).drop_last() =~= rows.take(k as int));
            assert(rows.take(k + 1).last() == items@[k as int]@);
            if same_text(items[k].name.as_str(), name) && items[k].item_type.is_function() {
                out.push(items[k].id.copy());
                assert(id_texts(out@) =~= before.push(items@[k as int].id@));
                assert(start + functions_in(rows.take(k as int), name@).push(
                    items@[k as int].id@,
                ) =~= before.push(items@[k as int].id@));
            }
            k += 1;
        }
        assert(rows.take(k as int) =~= rows);
        i += 1;
    }
    assert(views.take(i as int) =~= views);
    out
}

/// Whether one of `edges` goes to `target`.
pub open spec fn has_target(edges: Seq<RelationshipView>, target: Seq<char>) -> bool {
    exists|k: int| 0 <= k < edges.len() && (#[trigger] edges[k]).to_item == target
}

/// The edge that says that the file with first item `file_id` calls
/// `target`.
pub open spec fn call_edge(
    file_id: Seq<char>,
    target: Seq<char>,
    call_type: Seq<char>,
    strength: u8,
    context: Seq<char>,
) -> RelationshipView {
    RelationshipView {
        from_item: file_id,
        to_item: target,
        relationship_type: RelationshipTypeView::Calls { call_type },
        strength,
        context,
    }
}

/// `edges`, and after them an edge to each of `targets`, in order, to
/// which no edge goes yet.
pub open spec fn emit_calls(
    edges: Seq<RelationshipView>,
    file_id: Seq<char>,
    targets: Seq<Seq<char>>,
    call_type: Seq<char>,
    strength: u8,
    context: Seq<char>,
) -> Seq<RelationshipView>
    decreases targets.len(),
{
    if targets.len() == 0 {
        edges
    } else {
        let prev = emit_calls(edges, file_id, targets.drop_last(), call_type, strength, context);
        if has_target(prev, targets.last()) {
            prev
        } else {
            prev.push(call_edge(file_id, targets.last(), call_type, strength, context))
        }
    }
}

/// What a call through the path `full` may go to: what the path resolves
/// to, seen from the file, or else the functions that carry its last
/// segment as their name.
pub open spec fn path_targets(
    files: Seq<FileNodeView>,
    stored: Seq<(Seq<char>, Seq<Seq<char>>)>,
    path: Seq<char>,
    full: Seq<char>,
) -> Seq<Seq<char>> {
    let resolved = resolve(files, stored, path, full);
    let parts = segments(full, "::"@);
    if resolved.len() > 0 {
        resolved
    } else if parts.len() > 0 {
        functions_named(files, parts.last())
    } else {
        Seq::empty()
    }
}

/// The call edges that the first `n` matches of the path pattern give the
/// file: the path called is the text of group 1.
pub open spec fn path_call_edges(
    files: Seq<FileNodeView>,
    stored: Seq<(Seq<char>, Seq<Seq<char>>)>,
    file: FileNodeView,
    content: Seq<char>,
    rows: Seq<Seq<Option<(usize, usize)>>>,
    n: int,
) -> Seq<RelationshipView>
    decreases n,
{
    if n <= 0 || n > rows.len() {
        Seq::empty()
    } else {
        emit_calls(
            path_call_edges(files, stored, file, content, rows, n - 1),
            file.items[0].id,
            path_targets(files, stored, file.path, group_text(content, rows[n - 1], 1)),
            "path"@,
            70,
            group_text(content, rows[n - 1], 1),
        )
    }
}

/// Whether one of the words that open a definition, each with a space
/// after it, stands in the eight bytes before `at`.
pub open spec fn keyword_before(b: Seq<u8>, at: int) -> bool {
    let w = b.subrange(
        if at >= 8 {
            at - 8
        } else {
            0
        },
        at,
    );
    ||| occurs_in(w, bytes_of("fn "@))
    ||| occurs_in(w, bytes_of("struct "@))
    ||| occurs_in(w, bytes_of("enum "@))
    ||| occurs_in(w, bytes_of("trait "@))
}

/// The width in bytes of the white space character that ends at `at`; 0
/// where none does. These are the encodings of the characters that
/// `is_space` lists.
pub open spec fn space_before(b: Seq<u8>, at: int) -> int {
    if at >= 1 && (9 <= b[at - 1] <= 13 || b[at - 1] == 32) {
        1
    } else if at >= 2 && b[at - 2] == 0xC2 && (b[at - 1] == 0x85 || b[at - 1] == 0xA0) {
        2
    } else if at >= 3 && b[at - 3] == 0xE1 && b[at - 2] == 0x9A && b[at - 1] == 0x80 {
        3
    } else if at >= 3 && b[at - 3] == 0xE2 && b[at - 2] == 0x80 && (0x80 <= b[at - 1] <= 0x8A
        || b[at - 1] == 0xA8 || b[at - 1] == 0xA9 || b[at - 1] == 0xAF) {
        3
    } else if at >= 3 && b[at - 3] == 0xE2 && b[at - 2] == 0x81 && b[at - 1] == 0x9F {
        3
    } else if at >= 3 && b[at - 3] == 0xE3 && b[at - 2] == 0x80 && b[at - 1] == 0x80 {
        3
    } else {
        0
    }
}

/// Where the white space that ends at `at` starts.
pub open spec fn skip_space_back(b: Seq<u8>, at: int) -> int
    decreases at,
{
    if at > 0 && space_before(b, at) > 0 {
        skip_space_back(b, at - space_before(b, at))
    } else {
        at
    }
}

/// Whether the nearest character before `at` that is not white space is
/// `!`.
pub open spec fn bang_before(b: Seq<u8>, at: int) -> bool {
    let k = skip_space_back(b, at);
    k > 0 && b[k - 1] == 33
}

/// Whether a match of the simple pattern is taken for a call: it starts
/// inside the content, no word that opens a definition stands in the eight
/// bytes before it, and it is not the argument list of a macro.
pub open spec fn is_call_site(content: Seq<char>, row: Seq<Option<(usize, usize)>>) -> bool {
    match group(row, 0) {
        Some(span) => span.0 <= bytes_of(content).len() && !keyword_before(
            bytes_of(content),
            span.0 as int,
        ) && !bang_before(bytes_of(content), span.0 as int),
        None => false,
    }
}

/// `init`, and after it the call edges that the first `n` matches of the
/// simple pattern give the file: the name called is the text of group 1,
/// and it goes to every function of that name.
pub open spec fn simple_call_edges(
    files: Seq<FileNodeView>,
    file: FileNodeView,
    content: Seq<char>,
    rows: Seq<Seq<Option<(usize, usize)>>>,
    n: int,
    init: Seq<RelationshipView>,
) -> Seq<RelationshipView>
    decreases n,
{
    if n <= 0 || n > rows.len() {
        init
    } else {
        let prev = simple_call_edges(files, file, content, rows, n - 1, init);
        if is_call_site(content, rows[n - 1]) {
            emit_calls(
                prev,
                file.items[0].id,
                functions_named(files, group_text(content, rows[n - 1], 1)),
                "heuristic"@,
                50,
                group_text(content, rows[n - 1], 1),
            )
        } else {
            prev
        }
    }
}

/// The call edges of one file: those of the calls through paths, then
/// those of the calls by name. No two of them go to the same item.
pub open spec fn calls_of_file(
    files: Seq<FileNodeView>,
    stored: Seq<(Seq<char>, Seq<Seq<char>>)>,
    file: FileNodeView,
    content: Seq<char>,
    path_rows: Seq<Seq<Option<(usize, usize)>>>,
    simple_rows: Seq<Seq<Option<(usize, usize)>>>,
) -> Seq<RelationshipView> {
    simple_call_edges(
        files,
        file,
        content,
        simple_rows,
        simple_rows.len() as int,
        path_call_edges(files, stored, file, content, path_rows, path_rows.len() as int),
    )
}


fn space_width_before(b: &[u8], at: usize) -> (r: usize)
    requires
        at <= b.len(),
    ensures
        r == space_before(b@, at as int),
        r <= at,
{
    if at >= 1 && ((9 <= b[at - 1] && b[at - 1] <= 13) || b[at - 1] == 32) {
        1
    } else if at >= 2 && b[at - 2] == 0xC2 && (b[at - 1] == 0x85 || b[at - 1] == 0xA0) {
        2
    } else if at >= 3 && b[at - 3] == 0xE1 && b[at - 2] == 0x9A && b[at - 1] == 0x80 {
        3
    } else if at >= 3 && b[at - 3] == 0xE2 && b[at - 2] == 0x80 && ((0x80 <= b[at - 1] && b[at
        - 1] <= 0x8A) || b[at - 1] == 0xA8 || b[at - 1] == 0xA9 || b[at - 1] == 0xAF) {
        3
    } else if at >= 3 && b[at - 3] == 0xE2 && b[at - 2] == 0x81 && b[at - 1] == 0x9F {
        3
    } else if at >= 3 && b[at - 3] == 0xE3 && b[at - 2] == 0x80 && b[at - 1] == 0x80 {
        3
    } else {
        0
    }
}

fn has_bang_before(b: &[u8], at: usize) -> (r: bool)
    requires
        at <= b.len(),
    ensures
        r == bang_before(b@, at as int),
{
    let mut k: usize = at;
    loop
        invariant_except_break
            k <= at <= b.len(),
            skip_space_back(b@, at as int) == skip_space_back(b@, k as int),
        ensures
            k <= at <= b.len(),
            skip_space_back(b@, at as int) == k,
        decreases k,
    {
        if k == 0 {
            break;
        }
        let w = space_width_before(b, k);
        if w == 0 {
            break;
        }
        k -= w;
    }
    k > 0 && b[k - 1] == 33
}

fn has_keyword_before(b: &[u8], at: usize) -> (r: bool)
    requires
        at <= b.len(),
    ensures
        r == keyword_before(b@, at as int),
{
    let from: usize = if at >= 8 {
        at - 8
    } else {
        0
    };
    bytes_contain(b, from, at, "fn ".as_bytes()) || bytes_contain(b, from, at, "struct ".as_bytes())
        || bytes_contain(b, from, at, "enum ".as_bytes()) || bytes_contain(
        b,
        from,
        at,
        "trait ".as_bytes(),
    )
}

fn row_is_call_site(content: &str, row: &Vec<Option<(usize, usize)>>) -> (r: bool)
    ensures
        r == is_call_site(content@, row@),
{
    let b = content.as_bytes();
    match group_of(row, 0) {
        Some(span) => span.0 <= b.len() && !has_keyword_before(b, span.0) && !has_bang_before(
            b,
            span.0,
        ),
        None => false,
    }
}

fn edges_reach(edges: &Vec<Relationship>, target: &str) -> (r: bool)
    ensures
        r == has_target(relationship_views(edges@), target@),
{
    let mut k: usize = 0;
    while k < edges.len()
        invariant
            k <= edges.len(),
            forall|j: int| 0 <= j < k ==> (#[trigger] relationship_views(edges@)[j]).to_item
                != target@,
        decreases edges.len() - k,
    {
        if same_text(edges[k].to_item.0.as_str(), target) {
            assert(relationship_views(edges@)[k as int].to_item == target@);
            return true;
        }
        k += 1;
    }
    false
}

fn emit(
    edges: &mut Vec<Relationship>,
    file_id: &ItemId,
    targets: &Vec<ItemId>,
    call_type: &str,
    strength: u8,
    context: &str,
)
    ensures
        relationship_views(final(edges)@) == emit_calls(
            relationship_views(old(edges)@),
            file_id@,
            id_texts(targets@),
            call_type@,
            strength,
            context@,
        ),
{
    let ghost start = relationship_views(edges@);
    let ghost all = id_texts(targets@);
    let mut k: usize = 0;
    assert(all.take(0) =~= Seq::<Seq<char>>::empty());
    while k < targets.len()
        invariant
            k <= targets.len(),
            all == id_texts(targets@),
            relationship_views(edges@) == emit_calls(
                start,
                file_id@,
                all.take(k as int),
                call_type@,
                strength,
                context@,
            ),
        decreases targets.len() - k,
    {
        let ghost before = relationship_views(edges@);
        assert(all.take(k + 1).drop_last() =~= all.take(k as int));
        assert(all.take(k + 1).last() == targets@[k as int]@);
        if !edges_reach(edges, targets[k].0.as_str()) {
            let edge = Relationship {
                from_item: file_id.copy(),
                to_item: targets[k].copy(),
                relationship_type: RelationshipType::Calls {
                    call_type: String::from_str(call_type),
                },
                strength,
                context: String::from_str(context),
            };
            edges.push(edge);
            assert(relationship_views(edges@) =~= before.push(edge@));
        }
        k += 1;
    }
    assert(all.take(k as int) =~= all);
}

fn targets_of_path(resolver: &Resolver, from_file: &str, full: &str) -> (r: Vec<ItemId>)
    ensures
        id_texts(r@) == path_targets(
            resolver.graph().files,
            resolver.graph().module_segments,
            from_file@,
            full@,
        ),
{
    let resolved = resolver.resolve_import(from_file, full);
    if resolved.len() > 0 {
        return resolved;
    }
    let parts = split_text(full, "::");
    if parts.len() > 0 {
        assert(texts(parts@).last() == parts@.last()@);
        resolver.functions_named(parts[parts.len() - 1].as_str())
    } else {
        resolved
    }
}

/// The call edges of `file`, whose text is `content`, from the matches of
/// the path pattern and of the simple pattern in that text.
pub fn calls_from_matches(
    resolver: &Resolver,
    file: &FileNode,
    content: &str,
    path_rows: &Vec<Vec<Option<(usize, usize)>>>,
    simple_rows: &Vec<Vec<Option<(usize, usize)>>>,
) -> (r: Vec<Relationship>)
    requires
        file.items.len() > 0,
    ensures
        relationship_views(r@) == calls_of_file(
            resolver.graph().files,
            resolver.graph().module_segments,
            file@,
            content@,
            span_rows(path_rows@),
            span_rows(simple_rows@),
        ),
{
    let ghost files = resolver.graph().files;
    let ghost stored = resolver.graph().module_segments;
    let mut edges: Vec<Relationship> = Vec::new();
    assert(relationship_views(edges@) =~= Seq::<RelationshipView>::empty());
    assert(item_views(file.items@)[0] == file.items@[0]@);
    let mut i: usize = 0;
    while i < path_rows.len()
        invariant
            i <= path_rows.len(),
            file.items.len() > 0,
            file@.items[0] == file.items@[0]@,
            files == resolver.graph().files,
            stored == resolver.graph().module_segments,
            relationship_views(edges@) == path_call_edges(
                files,
                stored,
                file@,
                content@,
                span_rows(path_rows@),
                i as int,
            ),
        decreases path_rows.len() - i,
    {
        assert(span_rows(path_rows@)[i as int] == path_rows@[i as int]@);
        let full = text_of_group(content, &path_rows[i], 1);
        let targets = targets_of_path(resolver, file.path.as_str(), full);
        emit(&mut edges, &file.items[0].id, &targets, "path", 70, full);
        i += 1;
    }
    let ghost init = relationship_views(edges@);
    let mut j: usize = 0;
    while j < simple_rows.len()
        invariant
            j <= simple_rows.len(),
            file.items.len() > 0,
            file@.items[0] == file.items@[0]@,
            files == resolver.graph().files,
            relationship_views(edges@) == simple_call_edges(
                files,
                file@,
                content@,
                span_rows(simple_rows@),
                j as int,
                init,
            ),
        decreases simple_rows.len() - j,
    {
        assert(span_rows(simple_rows@)[j as int] == simple_rows@[j as int]@);
        if row_is_call_site(content, &simple_rows[j]) {
            let name = text_of_group(content, &simple_rows[j], 1);
            let targets = resolver.functions_named(name);
            emit(&mut edges, &file.items[0].id, &targets, "heuristic", 50, name);
        }
        j += 1;
    }
    edges
}

/// The text of the first source with path `path`, where it could be read.
pub open spec fn content_of(sources: Seq<SourceFile>, path: Seq<char>) -> Option<Seq<char>>
    decreases sources.len(),
{
    if sources.len() == 0 {
        None
    } else if sources[0].path@ == path {
        match sources[0].content {
            Ok(c) => Some(c@),
            Err(_) => None,
        }
    } else {
        content_of(sources.drop_first(), path)
    }
}

/// The text of the first source with path `path`, where it could be read.
pub fn find_content<'a>(sources: &'a Vec<SourceFile>, path: &str) -> (r: Option<&'a String>)
    ensures
        match r {
            Some(c) => content_of(sources@, path@) == Some(c@),
            None => content_of(sources@, path@) is None,
        },
{
    let mut i: usize = 0;
    assert(sources@.skip(0) =~= sources@);
    while i < sources.len()
        invariant
            i <= sources.len(),
            content_of(sources@, path@) == content_of(sources@.skip(i as int), path@),
        decreases sources.len() - i,
    {
        assert(sources@.skip(i as int)[0] == sources@[i as int]);
        assert(sources@.skip(i as int).drop_first() =~= sources@.skip(i + 1));
        if same_text(sources[i].path.as_str(), path) {
            return match &sources[i].content {
                Ok(c) => Some(c),
                Err(_) => None,
            };
        }
        i += 1;
    }
    None
}

/// The call edges of the first `n` files. A file without items, or whose
/// text is not among the sources, gives none.
pub open spec fn calls_edges(
    files: Seq<FileNodeView>,
    stored: Seq<(Seq<char>, Seq<Seq<char>>)>,
    sources: Seq<SourceFile>,
    path_pattern: Seq<char>,
    simple_pattern: Seq<char>,
    n: int,
) -> Seq<RelationshipView>
    decreases n,
{
    if n <= 0 || n > files.len() {
        Seq::empty()
    } else {
        let prev = calls_edges(files, stored, sources, path_pattern, simple_pattern, n - 1);
        match content_of(sources, files[n - 1].path) {
            Some(c) => if files[n - 1].items.len() > 0 {
                prev + calls_of_file(
                    files,
                    stored,
                    files[n - 1],
                    c,
                    all_captures(path_pattern, c),
                    all_captures(simple_pattern, c),
                )
            } else {
                prev
            },
            None => prev,
        }
    }
}

/// Finds the calls that the text of the files suggests, and adds their
/// edges after the relationships of the graph, file after file.
pub fn analyze_calls_heuristic(
    graph: &mut KnowledgeGraph,
    patterns: &CallPatterns,
    sources: &Vec<SourceFile>,
)
    ensures
        final(graph)@.files == old(graph)@.files,
        final(graph)@.module_segments == old(graph)@.module_segments,
        final(graph)@.module_parent == old(graph)@.module_parent,
        final(graph)@.generated_at == old(graph)@.generated_at,
        final(graph)@.relationships == old(graph)@.relationships + calls_edges(
            old(graph)@.files,
            old(graph)@.module_segments,
            sources@,
            pattern_of(patterns.path_call),
            pattern_of(patterns.simple_call),
            old(graph)@.files.len() as int,
        ),
{
    let mut edges: Vec<Relationship> = Vec::new();
    let resolver = Resolver::new(graph);
    let files = graph.files();
    let ghost views = file_views(files@);
    let ghost stored = graph@.module_segments;
    let mut i: usize = 0;
    assert(relationship_views(edges@) =~= Seq::<RelationshipView>::empty());
    while i < files.len()
        invariant
            i <= files.len(),
            views == file_views(files@),
            resolver.graph().files == views,
            resolver.graph().module_segments == stored,
            relationship_views(edges@) == calls_edges(
                views,
                stored,
                sources@,
                pattern_of(patterns.path_call),
                pattern_of(patterns.simple_call),
                i as int,
            ),
        decreases files.len() - i,
    {
        assert(views[i as int] == files@[i as int]@);
        if files[i].items.len() > 0 {
            match find_content(sources, files[i].path.as_str()) {
                Some(content) => {
                    let ghost before = relationship_views(edges@);
                    let path_rows = find_captures(&patterns.path_call, content.as_str());
                    let simple_rows = find_captures(&patterns.simple_call, content.as_str());
                    let mut more = calls_from_matches(
                        &resolver,
                        &files[i],
                        content.as_str(),
                        &path_rows,
                        &simple_rows,
                    );
                    let ghost added = relationship_views(more@);
                    edges.append(&mut more);
                    assert(relationship_views(edges@) =~= before + added);
                },
                None => {},
            }
        }
        i += 1;
    }
    graph.add_relationships(edges);
}

} // verus!
