//! The resolver: which items a `::` path denotes, seen from a file. It goes
//! by the layout of the files below the directory of sources, by the
//! aliases and the plain imports of the files, and at last by bare names.

use crate::graph::{
    find_file, find_in_files, has_file, position_of, scope_for, GraphView, KnowledgeGraph,
};
use crate::model::{
    file_views, import_views, item_views, texts, FileNode, FileNodeView, Import, ImportView,
    Item, ItemId, ItemView,
};
use crate::paths::{
    base_src_dir, base_src_dir_of, file_name, file_name_of, file_stem, file_stem_of,
    is_module_root, is_module_root_path, join, join_path, module_segments,
};
use crate::text::{
    char_rows, chars_of, concat, find_chars, find_from, same_text, segments, slice_chars,
    split_segments, string_of, trim_chars, trimmed,
};
use vstd::prelude::*;
use vstd::string::StringExecFns;

verus! {

/// The views of a sequence of identifiers.
pub open spec fn id_texts(v: Seq<ItemId>) -> Seq<Seq<char>> {
    v.map_values(|i: ItemId| i@)
}

/// The non-empty pieces of `s` between occurrences of `sep`.
pub fn split_text(s: &str, sep: &str) -> (r: Vec<String>)
    ensures
        texts(r@) == segments(s@, sep@),
{
    let hay = chars_of(s);
    let needle = chars_of(sep);
    let rows = split_segments(hay.as_slice(), needle.as_slice());
    let mut out: Vec<String> = Vec::new();
    let mut i: usize = 0;
    while i < rows.len()
        invariant
            i <= rows.len(),
            texts(out@) == char_rows(rows@).take(i as int),
        decreases rows.len() - i,
    {
        let ghost before = texts(out@);
        out.push(string_of(rows[i].as_slice()));
        assert(texts(out@) =~= before.push(rows@[i as int]@));
        assert(char_rows(rows@).take(i + 1) =~= char_rows(rows@).take(i as int).push(
            rows@[i as int]@,
        ));
        i += 1;
    }
    assert(char_rows(rows@).take(i as int) =~= char_rows(rows@));
    out
}

/// The identifiers of the items among `items` whose name is `name`, in
/// order.
pub open spec fn named_ids(items: Seq<ItemView>, name: Seq<char>) -> Seq<Seq<char>>
    decreases items.len(),
{
    if items.len() == 0 {
        Seq::empty()
    } else if items.last().name == name {
        named_ids(items.drop_last(), name).push(items.last().id)
    } else {
        named_ids(items.drop_last(), name)
    }
}

/// The identifiers of all items named `name`, file after file.
pub open spec fn all_named(files: Seq<FileNodeView>, name: Seq<char>) -> Seq<Seq<char>>
    decreases files.len(),
{
    if files.len() == 0 {
        Seq::empty()
    } else {
        all_named(files.drop_last(), name) + named_ids(files.last().items, name)
    }
}

/// The identifier of the first item of the first file whose stem is `stem`
/// and which has items.
pub open spec fn module_id(files: Seq<FileNodeView>, stem: Seq<char>) -> Option<Seq<char>>
    decreases files.len(),
{
    if files.len() == 0 {
        None
    } else if file_stem(files[0].path) == Some(stem) && files[0].items.len() > 0 {
        Some(files[0].items[0].id)
    } else {
        module_id(files.drop_first(), stem)
    }
}

/// Appends to `out` the identifiers of the items among `items` whose name
/// is `name`.
pub fn push_named(items: &Vec<Item>, name: &str, out: &mut Vec<ItemId>)
    ensures
        id_texts(final(out)@) == id_texts(old(out)@) + named_ids(item_views(items@), name@),
{
    let ghost start = id_texts(out@);
    let ghost views = item_views(items@);
    let mut k: usize = 0;
    assert(views.take(0) =~= Seq::<ItemView>::empty());
    assert(start + Seq::<Seq<char>>::empty() =~= start);
    while k < items.len()
        invariant
            k <= items.len(),
            views == item_views(items@),
            id_texts(out@) == start + named_ids(views.take(k as int), name@),
        decreases items.len() - k,
    {
        let ghost before = id_texts(out@);
        assert(views.take(k + 1).drop_last() =~= views.take(k as int));
        assert(views.take(k + 1).last() == items@[k as int]@);
        if same_text(items[k].name.as_str(), name) {
            out.push(items[k].id.copy());
            assert(id_texts(out@) =~= before.push(items@[k as int].id@));
            assert(start + named_ids(views.take(k as int), name@).push(items@[k as int].id@)
                =~= before.push(items@[k as int].id@));
        }
        k += 1;
    }
    assert(views.take(k as int) =~= views);
}

/// The identifiers of all items named `name`.
pub fn ids_named(files: &Vec<FileNode>, name: &str) -> (r: Vec<ItemId>)
    ensures
        id_texts(r@) == all_named(file_views(files@), name@),
{
    let ghost views = file_views(files@);
    let mut out: Vec<ItemId> = Vec::new();
    let mut i: usize = 0;
    assert(views.take(0) =~= Seq::<FileNodeView>::empty());
    assert(id_texts(out@) =~= Seq::<Seq<char>>::empty());
    while i < files.len()
        invariant
            i <= files.len(),
            views == file_views(files@),
            id_texts(out@) == all_named(views.take(i as int), name@),
        decreases files.len() - i,
    {
        assert(views.take(i + 1).drop_last() =~= views.take(i as int));
        assert(views.take(i + 1).last() == files@[i as int]@);
        push_named(&files[i].items, name, &mut out);
        i += 1;
    }
    assert(views.take(i as int) =~= views);
    out
}

/// The identifier of the first item of the first file whose stem is `stem`.
pub fn module_id_of(files: &Vec<FileNode>, stem: &str) -> (r: Option<ItemId>)
    ensures
        match r {
            Some(id) => module_id(file_views(files@), stem@) == Some(id@),
            None => module_id(file_views(files@), stem@) is None,
        },
{
    let ghost views = file_views(files@);
    let mut i: usize = 0;
    assert(views.skip(0) =~= views);
    while i < files.len()
        invariant
            i <= files.len(),
            views == file_views(files@),
            module_id(views, stem@) == module_id(views.skip(i as int), stem@),
        decreases files.len() - i,
    {
        assert(views.skip(i as int)[0] == files@[i as int]@);
        assert(views.skip(i as int).drop_first() =~= views.skip(i + 1));
        if files[i].items.len() > 0 {
            assert(item_views(files@[i as int].items@)[0] == files@[i as int].items@[0]@);
            match file_stem_of(files[i].path.as_str()) {
                Some(s) => {
                    if same_text(s.as_str(), stem) {
                        return Some(files[i].items[0].id.copy());
                    }
                },
                None => {},
            }
        }
        i += 1;
    }
    None
}


/// What one import binds: the segments of its path, and its alias.
#[derive(Debug, Clone, PartialEq, Eq)]
pub struct ImportBinding {
    pub segments: Vec<String>,
    pub alias: Option<String>,
}

pub struct BindingView {
    pub segments: Seq<Seq<char>>,
    pub alias: Option<Seq<char>>,
}

impl View for ImportBinding {
    type V = BindingView;

    open spec fn view(&self) -> BindingView {
        BindingView { segments: texts(self.segments@), alias: crate::model::opt_text(self.alias) }
    }
}

/// The binding that an import states: its path cut at `::`, empty pieces
/// left out.
pub open spec fn binding_of(import: ImportView) -> BindingView {
    BindingView { segments: segments(import.path, "::"@), alias: import.alias }
}

/// The bindings of a list of imports, in order.
pub open spec fn bindings_of(imports: Seq<ImportView>) -> Seq<BindingView> {
    Seq::new(imports.len(), |i: int| binding_of(imports[i]))
}

/// The bindings of every file, in the order of the files.
pub open spec fn graph_bindings(files: Seq<FileNodeView>) -> Seq<Seq<BindingView>> {
    Seq::new(files.len(), |i: int| bindings_of(files[i].imports))
}

/// The views of the bindings of one file.
pub open spec fn binding_views(v: Seq<ImportBinding>) -> Seq<BindingView> {
    v.map_values(|b: ImportBinding| b@)
}

/// The views of the bindings of every file.
pub open spec fn binding_rows(v: Seq<Vec<ImportBinding>>) -> Seq<Seq<BindingView>> {
    v.map_values(|r: Vec<ImportBinding>| binding_views(r@))
}

/// Whether the binding gives the alias `a` a meaning: it has segments, and
/// its alias is `a`, which is not the underscore.
pub open spec fn binds_alias(b: BindingView, a: Seq<char>) -> bool {
    b.segments.len() > 0 && b.alias == Some(a) && a != "_"@
}

/// Whether the binding, having no alias, makes `name` known as the last
/// segment of its path.
pub open spec fn exposes(b: BindingView, name: Seq<char>) -> bool {
    b.segments.len() > 0 && b.alias is None && b.segments.last() == name
}

/// The segments that the last binding of `bs` for the alias `a` gives it.
pub open spec fn last_alias(bs: Seq<BindingView>, a: Seq<char>) -> Option<Seq<Seq<char>>>
    decreases bs.len(),
{
    if bs.len() == 0 {
        None
    } else if binds_alias(bs.last(), a) {
        Some(bs.last().segments)
    } else {
        last_alias(bs.drop_last(), a)
    }
}

/// What the alias `a` stands for: the segments of the last import, in the
/// last file, that binds it. Aliases hold for all files alike.
pub open spec fn alias_target(all: Seq<Seq<BindingView>>, a: Seq<char>) -> Option<Seq<Seq<char>>>
    decreases all.len(),
{
    if all.len() == 0 {
        None
    } else {
        match last_alias(all.last(), a) {
            Some(s) => Some(s),
            None => alias_target(all.drop_last(), a),
        }
    }
}

/// What `name` stands for inside one file: the segments of the last import
/// of the file without an alias whose path ends in `name`.
pub open spec fn exposed_target(bs: Seq<BindingView>, name: Seq<char>) -> Option<Seq<Seq<char>>>
    decreases bs.len(),
{
    if bs.len() == 0 {
        None
    } else if exposes(bs.last(), name) {
        Some(bs.last().segments)
    } else {
        exposed_target(bs.drop_last(), name)
    }
}

/// What an alias or a plain import stands for has at least one segment.
pub proof fn lemma_targets_nonempty(all: Seq<Seq<BindingView>>, bs: Seq<BindingView>, a: Seq<char>)
    ensures
        alias_target(all, a) matches Some(s) ==> s.len() > 0,
        last_alias(bs, a) matches Some(s) ==> s.len() > 0,
        exposed_target(bs, a) matches Some(s) ==> s.len() > 0,
    decreases all.len(), bs.len(),
{
    if bs.len() > 0 {
        lemma_targets_nonempty(Seq::empty(), bs.drop_last(), a);
    }
    if all.len() > 0 {
        lemma_targets_nonempty(all.drop_last(), all.last(), a);
    }
}

/// The path that `raw` writes: what stands before its first ` as `, without
/// the white space at the ends.
pub open spec fn strip_alias(raw: Seq<char>) -> Seq<char> {
    trimmed(raw.take(find_from(raw, " as "@, 0) as int))
}

/// Takes the anchors off the front of `parts`: `crate` empties the scope,
/// `self` leaves it, `super` drops its last segment if it has one. Gives
/// the scope and the parts that are left.
pub open spec fn consume_anchors(scope: Seq<Seq<char>>, parts: Seq<Seq<char>>) -> (
    Seq<Seq<char>>,
    Seq<Seq<char>>,
)
    decreases parts.len(),
{
    if parts.len() == 0 {
        (scope, parts)
    } else if parts[0] == "crate"@ {
        consume_anchors(Seq::empty(), parts.drop_first())
    } else if parts[0] == "self"@ {
        consume_anchors(scope, parts.drop_first())
    } else if parts[0] == "super"@ {
        consume_anchors(
            if scope.len() > 0 {
                scope.drop_last()
            } else {
                scope
            },
            parts.drop_first(),
        )
    } else {
        (scope, parts)
    }
}

/// `parts` with its first segment replaced by `mapped`.
pub open spec fn splice(mapped: Seq<Seq<char>>, parts: Seq<Seq<char>>) -> Seq<Seq<char>> {
    mapped + parts.drop_first()
}

/// `dir` with the segments of `segs` joined on, one after the other.
pub open spec fn join_all(dir: Seq<char>, segs: Seq<Seq<char>>) -> Seq<char>
    decreases segs.len(),
{
    if segs.len() == 0 {
        dir
    } else {
        join_all(join(dir, segs[0]), segs.drop_first())
    }
}

/// One step down from `dir` into the module `seg`: the directory `dir/seg`,
/// where the graph has `dir/seg/mod.rs`, `dir/seg/lib.rs` or `dir/seg.rs`.
pub open spec fn step_dir(files: Seq<FileNodeView>, dir: Seq<char>, seg: Seq<char>) -> Option<
    Seq<char>,
> {
    let next = join(dir, seg);
    if has_file(files, join(next, "mod.rs"@)) || has_file(files, join(next, "lib.rs"@))
        || has_file(files, join(dir, seg + ".rs"@)) {
        Some(next)
    } else {
        None
    }
}

/// The directory reached from `dir` by stepping down through all of
/// `parts`; none where a step fails.
pub open spec fn walk(files: Seq<FileNodeView>, dir: Seq<char>, parts: Seq<Seq<char>>) -> Option<
    Seq<char>,
>
    decreases parts.len(),
{
    if parts.len() == 0 {
        Some(dir)
    } else {
        match step_dir(files, dir, parts[0]) {
            Some(d) => walk(files, d, parts.drop_first()),
            None => None,
        }
    }
}

/// The identifiers of the items named `name` in the file with path `path`;
/// none where there is no such file.
pub open spec fn named_in_file(files: Seq<FileNodeView>, path: Seq<char>, name: Seq<char>) -> Seq<
    Seq<char>,
> {
    match find_file(files, path) {
        Some(f) => named_ids(f.items, name),
        None => Seq::empty(),
    }
}

/// What the last segment denotes in the directory `dir`: the items named
/// `last` in `dir/last.rs`, or else the first item of that file; failing
/// that file, the items named `last` in `dir/mod.rs`, or else those in
/// `dir/lib.rs`.
pub open spec fn resolve_last(files: Seq<FileNodeView>, dir: Seq<char>, last: Seq<char>) -> Option<
    Seq<Seq<char>>,
> {
    let own = find_file(files, join(dir, last + ".rs"@));
    let direct = named_in_file(files, join(dir, last + ".rs"@), last);
    let in_mod = named_in_file(files, join(dir, "mod.rs"@), last);
    let in_lib = named_in_file(files, join(dir, "lib.rs"@), last);
    if direct.len() > 0 {
        Some(direct)
    } else if own is Some && own->0.items.len() > 0 {
        Some(seq![own->0.items[0].id])
    } else if in_mod.len() > 0 {
        Some(in_mod)
    } else if in_lib.len() > 0 {
        Some(in_lib)
    } else {
        None
    }
}

/// The walk along the files: from the directory of sources above
/// `from_file`, down through the scope (without its last segment where
/// `from_file` is not a module root, since that segment names the file),
/// down through all parts but the last, and there the last part is looked
/// up.
pub open spec fn chain_walk(
    files: Seq<FileNodeView>,
    from_file: Seq<char>,
    scope: Seq<Seq<char>>,
    parts: Seq<Seq<char>>,
) -> Option<Seq<Seq<char>>> {
    if parts.len() == 0 {
        None
    } else {
        match base_src_dir(from_file) {
            None => None,
            Some(base) => {
                let is_leaf = file_name(from_file) is Some && !is_module_root(from_file);
                let dirs = if is_leaf && scope.len() > 0 {
                    scope.drop_last()
                } else {
                    scope
                };
                match walk(files, join_all(base, dirs), parts.drop_last()) {
                    None => None,
                    Some(dir) => resolve_last(files, dir, parts.last()),
                }
            },
        }
    }
}

/// The parts of a path after aliases and plain imports have been applied
/// to its first segment, in that order.
pub open spec fn expand_first(files: Seq<FileNodeView>, from_file: Seq<char>, parts: Seq<Seq<char>>)
    -> Seq<Seq<char>> {
    let aliased = match alias_target(graph_bindings(files), parts[0]) {
        Some(m) => splice(m, parts),
        None => parts,
    };
    match find_file(files, from_file) {
        Some(f) => match exposed_target(bindings_of(f.imports), aliased[0]) {
            Some(m) => splice(m, aliased),
            None => aliased,
        },
        None => aliased,
    }
}

/// The identifiers of the items that `raw` denotes, seen from `from_file`.
/// The path is cut at `::`; anchors are taken off its front; an alias, then
/// a plain import of `from_file`, is put in place of its first segment; the
/// walk along the files is tried; failing that, the items that carry the
/// last segment as their name; failing those, the file whose stem it is.
pub open spec fn resolve(
    files: Seq<FileNodeView>,
    stored: Seq<(Seq<char>, Seq<Seq<char>>)>,
    from_file: Seq<char>,
    raw: Seq<char>,
) -> Seq<Seq<char>> {
    let anchored = consume_anchors(
        scope_for(stored, from_file),
        segments(strip_alias(raw), "::"@),
    );
    if anchored.1.len() == 0 {
        Seq::empty()
    } else {
        let parts = expand_first(files, from_file, anchored.1);
        match chain_walk(files, from_file, anchored.0, parts) {
            Some(ids) => ids,
            None => {
                let by_name = all_named(files, parts.last());
                if by_name.len() > 0 {
                    by_name
                } else {
                    match module_id(files, parts.last()) {
                        Some(m) => seq![m],
                        None => Seq::empty(),
                    }
                }
            },
        }
    }
}


/// The binding that `import` states.
pub fn binding_for(import: &Import) -> (b: ImportBinding)
    ensures
        b@ == binding_of(import@),
{
    ImportBinding {
        segments: split_text(import.path.as_str(), "::"),
        alias: crate::model::copy_opt_string(&import.alias),
    }
}

/// The bindings of a list of imports.
pub fn bindings_for(imports: &Vec<Import>) -> (r: Vec<ImportBinding>)
    ensures
        binding_views(r@) == bindings_of(import_views(imports@)),
{
    let ghost views = import_views(imports@);
    let mut out: Vec<ImportBinding> = Vec::new();
    let mut i: usize = 0;
    while i < imports.len()
        invariant
            i <= imports.len(),
            views == import_views(imports@),
            binding_views(out@) == bindings_of(views.take(i as int)),
        decreases imports.len() - i,
    {
        let ghost before = binding_views(out@);
        let b = binding_for(&imports[i]);
        out.push(b);
        assert(binding_views(out@) =~= before.push(b@));
        assert(bindings_of(views.take(i + 1)) =~= bindings_of(views.take(i as int)).push(
            binding_of(imports@[i as int]@),
        ));
        i += 1;
    }
    assert(views.take(i as int) =~= views);
    out
}

fn binding_binds(b: &ImportBinding, a: &str) -> (r: bool)
    ensures
        r == binds_alias(b@, a@),
{
    if b.segments.len() == 0 {
        return false;
    }
    match &b.alias {
        Some(x) => same_text(x.as_str(), a) && !same_text(a, "_"),
        None => false,
    }
}

fn binding_exposes(b: &ImportBinding, name: &str) -> (r: bool)
    ensures
        r == exposes(b@, name@),
{
    if b.segments.len() == 0 {
        return false;
    }
    match &b.alias {
        Some(_) => false,
        None => {
            assert(texts(b.segments@).last() == b.segments@.last()@);
            same_text(b.segments[b.segments.len() - 1].as_str(), name)
        },
    }
}

fn find_last_alias<'a>(bs: &'a Vec<ImportBinding>, a: &str) -> (r: Option<&'a Vec<String>>)
    ensures
        match r {
            Some(v) => last_alias(binding_views(bs@), a@) == Some(texts(v@)),
            None => last_alias(binding_views(bs@), a@) is None,
        },
{
    let ghost views = binding_views(bs@);
    let mut i: usize = bs.len();
    assert(views.take(i as int) =~= views);
    while i > 0
        invariant
            i <= bs.len(),
            views == binding_views(bs@),
            last_alias(views, a@) == last_alias(views.take(i as int), a@),
        decreases i,
    {
        assert(views.take(i as int).last() == bs@[i - 1]@);
        assert(views.take(i as int).drop_last() =~= views.take(i - 1));
        if binding_binds(&bs[i - 1], a) {
            return Some(&bs[i - 1].segments);
        }
        i -= 1;
    }
    None
}

fn find_alias<'a>(all: &'a Vec<Vec<ImportBinding>>, a: &str) -> (r: Option<&'a Vec<String>>)
    ensures
        match r {
            Some(v) => alias_target(binding_rows(all@), a@) == Some(texts(v@)),
            None => alias_target(binding_rows(all@), a@) is None,
        },
{
    let ghost rows = binding_rows(all@);
    let mut i: usize = all.len();
    assert(rows.take(i as int) =~= rows);
    while i > 0
        invariant
            i <= all.len(),
            rows == binding_rows(all@),
            alias_target(rows, a@) == alias_target(rows.take(i as int), a@),
        decreases i,
    {
        assert(rows.take(i as int).last() == binding_views(all@[i - 1]@));
        assert(rows.take(i as int).drop_last() =~= rows.take(i - 1));
        match find_last_alias(&all[i - 1], a) {
            Some(v) => {
                return Some(v);
            },
            None => {},
        }
        i -= 1;
    }
    None
}

fn find_exposed<'a>(bs: &'a Vec<ImportBinding>, name: &str) -> (r: Option<&'a Vec<String>>)
    ensures
        match r {
            Some(v) => exposed_target(binding_views(bs@), name@) == Some(texts(v@)),
            None => exposed_target(binding_views(bs@), name@) is None,
        },
{
    let ghost views = binding_views(bs@);
    let mut i: usize = bs.len();
    assert(views.take(i as int) =~= views);
    while i > 0
        invariant
            i <= bs.len(),
            views == binding_views(bs@),
            exposed_target(views, name@) == exposed_target(views.take(i as int), name@),
        decreases i,
    {
        assert(views.take(i as int).last() == bs@[i - 1]@);
        assert(views.take(i as int).drop_last() =~= views.take(i - 1));
        if binding_exposes(&bs[i - 1], name) {
            return Some(&bs[i - 1].segments);
        }
        i -= 1;
    }
    None
}

fn strip_alias_of(raw: &str) -> (r: String)
    ensures
        r@ == strip_alias(raw@),
{
    let chars = chars_of(raw);
    let word = chars_of(" as ");
    let cut = find_chars(chars.as_slice(), word.as_slice(), 0);
    let head = slice_chars(chars.as_slice(), 0, cut);
    assert(head@ =~= chars@.take(cut as int));
    let t = trim_chars(head.as_slice());
    string_of(t.as_slice())
}

fn splice_parts(mapped: &Vec<String>, parts: &Vec<String>) -> (r: Vec<String>)
    requires
        parts.len() > 0,
    ensures
        texts(r@) == splice(texts(mapped@), texts(parts@)),
{
    let mut out = crate::model::copy_strings(mapped);
    let ghost head = texts(out@);
    assert(head =~= texts(mapped@));
    let mut i: usize = 1;
    assert(texts(parts@).drop_first().take(0) =~= Seq::<Seq<char>>::empty());
    assert(head + Seq::<Seq<char>>::empty() =~= head);
    while i < parts.len()
        invariant
            1 <= i <= parts.len(),
            texts(out@) == head + texts(parts@).drop_first().take(i - 1),
        decreases parts.len() - i,
    {
        let ghost before = texts(out@);
        out.push(parts[i].clone());
        assert(texts(out@) =~= before.push(parts@[i as int]@));
        assert(texts(parts@).drop_first().take(i as int) =~= texts(parts@).drop_first().take(
            i - 1,
        ).push(parts@[i as int]@));
        i += 1;
    }
    assert(texts(parts@).drop_first().take(i - 1) =~= texts(parts@).drop_first());
    out
}

/// The scope and the parts left when the anchors are taken off the front of
/// `parts`.
fn take_anchors(scope: Vec<String>, parts: &Vec<String>) -> (r: (Vec<String>, Vec<String>))
    ensures
        (texts(r.0@), texts(r.1@)) == consume_anchors(texts(scope@), texts(parts@)),
{
    let ghost start = texts(scope@);
    let mut scope = scope;
    let ghost all = texts(parts@);
    let mut k: usize = 0;
    assert(all.skip(0) =~= all);
    loop
        invariant_except_break
            k <= parts.len(),
            all == texts(parts@),
            consume_anchors(start, all) == consume_anchors(
                texts(scope@),
                all.skip(k as int),
            ),
        ensures
            k <= parts.len(),
            all == texts(parts@),
            consume_anchors(start, all) == (texts(scope@), all.skip(k as int)),
        decreases parts.len() - k,
    {
        if k >= parts.len() {
            break;
        }
        let ghost rest = all.skip(k as int);
        assert(rest[0] == parts@[k as int]@);
        assert(rest.drop_first() =~= all.skip(k + 1));
        let ghost cur = texts(scope@);
        if same_text(parts[k].as_str(), "crate") {
            scope = Vec::new();
            assert(texts(scope@) =~= Seq::<Seq<char>>::empty());
        } else if same_text(parts[k].as_str(), "self") {
        } else if same_text(parts[k].as_str(), "super") {
            if scope.len() > 0 {
                scope.pop();
                assert(texts(scope@) =~= cur.drop_last());
            }
        } else {
            break;
        }
        k += 1;
    }
    let mut rest: Vec<String> = Vec::new();
    let mut i: usize = k;
    assert(all.skip(k as int).take(0) =~= Seq::<Seq<char>>::empty());
    assert(texts(rest@) =~= Seq::<Seq<char>>::empty());
    while i < parts.len()
        invariant
            k <= i <= parts.len(),
            all == texts(parts@),
            texts(rest@) == all.skip(k as int).take(i - k),
        decreases parts.len() - i,
    {
        let ghost before = texts(rest@);
        rest.push(parts[i].clone());
        assert(texts(rest@) =~= before.push(parts@[i as int]@));
        assert(all.skip(k as int).take(i - k + 1) =~= all.skip(k as int).take(i - k).push(
            parts@[i as int]@,
        ));
        i += 1;
    }
    assert(all.skip(k as int).take(i - k) =~= all.skip(k as int));
    (scope, rest)
}


fn has_path(files: &Vec<FileNode>, path: &str) -> (r: bool)
    ensures
        r == has_file(file_views(files@), path@),
{
    find_in_files(files, path).is_some()
}

fn step_into(files: &Vec<FileNode>, dir: &str, seg: &str) -> (r: Option<String>)
    ensures
        crate::model::opt_text(r) == step_dir(file_views(files@), dir@, seg@),
{
    let next = join_path(dir, seg);
    let as_mod = join_path(next.as_str(), "mod.rs");
    if has_path(files, as_mod.as_str()) {
        return Some(next);
    }
    let as_lib = join_path(next.as_str(), "lib.rs");
    if has_path(files, as_lib.as_str()) {
        return Some(next);
    }
    let file = concat(seg, ".rs");
    let sibling = join_path(dir, file.as_str());
    if has_path(files, sibling.as_str()) {
        return Some(next);
    }
    None
}

fn walk_dirs(files: &Vec<FileNode>, dir: &str, parts: &Vec<String>, upto: usize) -> (r: Option<
    String,
>)
    requires
        upto <= parts.len(),
    ensures
        crate::model::opt_text(r) == walk(file_views(files@), dir@, texts(parts@).take(upto as int)),
{
    let ghost ahead = texts(parts@).take(upto as int);
    let mut cur = String::from_str(dir);
    let mut i: usize = 0;
    assert(ahead.skip(0) =~= ahead);
    while i < upto
        invariant
            i <= upto <= parts.len(),
            ahead == texts(parts@).take(upto as int),
            walk(file_views(files@), dir@, ahead) == walk(
                file_views(files@),
                cur@,
                ahead.skip(i as int),
            ),
        decreases upto - i,
    {
        assert(ahead.skip(i as int)[0] == parts@[i as int]@);
        assert(ahead.skip(i as int).drop_first() =~= ahead.skip(i + 1));
        match step_into(files, cur.as_str(), parts[i].as_str()) {
            Some(d) => {
                cur = d;
            },
            None => {
                return None;
            },
        }
        i += 1;
    }
    Some(cur)
}

fn join_dirs(base: String, segs: &Vec<String>, upto: usize) -> (r: String)
    requires
        upto <= segs.len(),
    ensures
        r@ == join_all(base@, texts(segs@).take(upto as int)),
{
    let ghost ahead = texts(segs@).take(upto as int);
    let ghost start = base@;
    let mut dir = base;
    let mut i: usize = 0;
    assert(ahead.skip(0) =~= ahead);
    while i < upto
        invariant
            i <= upto <= segs.len(),
            ahead == texts(segs@).take(upto as int),
            join_all(start, ahead) == join_all(dir@, ahead.skip(i as int)),
        decreases upto - i,
    {
        assert(ahead.skip(i as int)[0] == segs@[i as int]@);
        assert(ahead.skip(i as int).drop_first() =~= ahead.skip(i + 1));
        dir = join_path(dir.as_str(), segs[i].as_str());
        i += 1;
    }
    dir
}

fn named_in(files: &Vec<FileNode>, path: &str, name: &str) -> (r: Vec<ItemId>)
    ensures
        id_texts(r@) == named_in_file(file_views(files@), path@, name@),
{
    let mut out: Vec<ItemId> = Vec::new();
    assert(id_texts(out@) =~= Seq::<Seq<char>>::empty());
    match find_in_files(files, path) {
        Some(f) => {
            push_named(&f.items, name, &mut out);
            assert(Seq::<Seq<char>>::empty() + named_ids(item_views(f.items@), name@)
                =~= named_ids(item_views(f.items@), name@));
        },
        None => {},
    }
    out
}

fn resolve_last_in(files: &Vec<FileNode>, dir: &str, last: &str) -> (r: Option<Vec<ItemId>>)
    ensures
        match r {
            Some(v) => resolve_last(file_views(files@), dir@, last@) == Some(id_texts(v@)),
            None => resolve_last(file_views(files@), dir@, last@) is None,
        },
{
    let file = concat(last, ".rs");
    let own_path = join_path(dir, file.as_str());
    let direct = named_in(files, own_path.as_str(), last);
    if direct.len() > 0 {
        return Some(direct);
    }
    match find_in_files(files, own_path.as_str()) {
        Some(f) => {
            if f.items.len() > 0 {
                assert(item_views(f.items@)[0] == f.items@[0]@);
                let mut one: Vec<ItemId> = Vec::new();
                one.push(f.items[0].id.copy());
                assert(id_texts(one@) =~= seq![f.items[0].id@]);
                return Some(one);
            }
        },
        None => {},
    }
    let mod_path = join_path(dir, "mod.rs");
    let in_mod = named_in(files, mod_path.as_str(), last);
    if in_mod.len() > 0 {
        return Some(in_mod);
    }
    let lib_path = join_path(dir, "lib.rs");
    let in_lib = named_in(files, lib_path.as_str(), last);
    if in_lib.len() > 0 {
        return Some(in_lib);
    }
    None
}

fn resolve_scoped_chain(
    files: &Vec<FileNode>,
    from_file: &str,
    scope: &Vec<String>,
    parts: &Vec<String>,
) -> (r: Option<Vec<ItemId>>)
    ensures
        match r {
            Some(v) => chain_walk(file_views(files@), from_file@, texts(scope@), texts(parts@))
                == Some(id_texts(v@)),
            None => chain_walk(file_views(files@), from_file@, texts(scope@), texts(parts@))
                is None,
        },
{
    if parts.len() == 0 {
        return None;
    }
    let base = match base_src_dir_of(from_file) {
        Some(b) => b,
        None => {
            return None;
        },
    };
    let is_leaf = file_name_of(from_file).is_some() && !is_module_root_path(from_file);
    let upto = if is_leaf && scope.len() > 0 {
        scope.len() - 1
    } else {
        scope.len()
    };
    assert(texts(scope@).take(scope.len() as int) =~= texts(scope@));
    assert(scope.len() > 0 ==> texts(scope@).take(scope.len() - 1) =~= texts(scope@).drop_last());
    let start = join_dirs(base, scope, upto);
    assert(texts(parts@).take(parts.len() - 1) =~= texts(parts@).drop_last());
    let dir = match walk_dirs(files, start.as_str(), parts, parts.len() - 1) {
        Some(d) => d,
        None => {
            return None;
        },
    };
    assert(texts(parts@).last() == parts@.last()@);
    resolve_last_in(files, dir.as_str(), parts[parts.len() - 1].as_str())
}

/// Answers which items a path denotes, for one graph. It keeps the
/// bindings that the imports of the graph's files state.
pub struct Resolver<'a> {
    graph: &'a KnowledgeGraph,
    bindings: Vec<Vec<ImportBinding>>,
}

impl<'a> Resolver<'a> {
    /// The graph that the resolver answers for.
    pub closed spec fn graph(&self) -> GraphView {
        self.graph@
    }

    #[verifier::type_invariant]
    closed spec fn bindings_kept(&self) -> bool {
        binding_rows(self.bindings@) == graph_bindings(self.graph@.files)
    }

    /// A resolver for `graph`.
    pub fn new(graph: &'a KnowledgeGraph) -> (r: Resolver<'a>)
        ensures
            r.graph() == graph@,
    {
        let files = graph.files();
        let ghost views = file_views(files@);
        let mut bindings: Vec<Vec<ImportBinding>> = Vec::new();
        let mut i: usize = 0;
        while i < files.len()
            invariant
                i <= files.len(),
                views == file_views(files@),
                binding_rows(bindings@) == graph_bindings(views.take(i as int)),
            decreases files.len() - i,
        {
            let ghost before = binding_rows(bindings@);
            let row = bindings_for(&files[i].imports);
            bindings.push(row);
            assert(binding_rows(bindings@) =~= before.push(binding_views(row@)));
            assert(graph_bindings(views.take(i + 1)) =~= graph_bindings(views.take(i as int)).push(
                bindings_of(files@[i as int]@.imports),
            ));
            i += 1;
        }
        assert(views.take(i as int) =~= views);
        Resolver { graph, bindings }
    }

    /// Whether `id` names a function.
    pub fn is_item_function(&self, id: &ItemId) -> (r: bool)
        ensures
            r == crate::graph::is_function_id(self.graph().files, id@),
    {
        crate::graph::id_is_function(self.graph.files(), id.0.as_str())
    }

    /// Whether `id` names the item that stands for a file.
    pub fn is_file_level_module(&self, id: &ItemId) -> (r: bool)
        ensures
            r == crate::graph::is_file_level(self.graph().files, id@),
    {
        crate::graph::id_is_file_level(self.graph.files(), id.0.as_str())
    }

    /// The identifiers of all functions named `name`.
    pub fn functions_named(&self, name: &str) -> (r: Vec<ItemId>)
        ensures
            id_texts(r@) == crate::analysis::functions_named(self.graph().files, name@),
    {
        crate::analysis::function_ids_named(self.graph.files(), name)
    }

    /// The identifiers of the items that `raw_path` denotes, seen from
    /// `from_file`; see `resolve`.
    pub fn resolve_import(&self, from_file: &str, raw_path: &str) -> (r: Vec<ItemId>)
        ensures
            id_texts(r@) == resolve(
                self.graph().files,
                self.graph().module_segments,
                from_file@,
                raw_path@,
            ),
    {
        proof {
            use_type_invariant(self);
        }
        let files = self.graph.files();
        let ghost views = file_views(files@);
        let path = strip_alias_of(raw_path);
        let parts = split_text(path.as_str(), "::");
        let scope = self.graph.module_segments_for(from_file);
        let (scope, parts) = take_anchors(scope, &parts);
        let mut none: Vec<ItemId> = Vec::new();
        assert(id_texts(none@) =~= Seq::<Seq<char>>::empty());
        if parts.len() == 0 {
            return none;
        }
        let ghost parts1 = texts(parts@);
        assert(parts1[0] == parts@[0]@);
        proof {
            lemma_targets_nonempty(graph_bindings(views), Seq::empty(), parts1[0]);
        }
        let parts = match find_alias(&self.bindings, parts[0].as_str()) {
            Some(m) => splice_parts(m, &parts),
            None => parts,
        };
        let ghost parts2 = texts(parts@);
        assert(parts2.len() > 0);
        assert(parts2[0] == parts@[0]@);
        let parts = match position_of(files, from_file) {
            Some(i) => {
                proof {
                    assert(binding_rows(self.bindings@)[i as int] == binding_views(
                        self.bindings@[i as int]@,
                    ));
                    lemma_targets_nonempty(Seq::empty(), bindings_of(views[i as int].imports), parts2[0]);
                }
                match find_exposed(&self.bindings[i], parts[0].as_str()) {
                    Some(m) => splice_parts(m, &parts),
                    None => parts,
                }
            },
            None => parts,
        };
        assert(texts(parts@) == expand_first(views, from_file@, parts1));
        match resolve_scoped_chain(files, from_file, &scope, &parts) {
            Some(ids) => {
                return ids;
            },
            None => {},
        }
        assert(texts(parts@).len() > 0);
        assert(texts(parts@).last() == parts@.last()@);
        let last = parts[parts.len() - 1].as_str();
        let by_name = ids_named(files, last);
        if by_name.len() > 0 {
            return by_name;
        }
        match module_id_of(files, last) {
            Some(m) => {
                none.push(m);
                assert(id_texts(none@) =~= seq![m@]);
                none
            },
            None => none,
        }
    }
}

} // verus!
