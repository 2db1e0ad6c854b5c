//! The extractor: it finds the functions, structs, enums and `use`
//! statements of one source file by matching patterns against its text.

use crate::errors::ParseError;
use crate::model::{
    import_views, item_views, FileMetrics, FileNode, FileNodeView, Import, ImportView, Item,
    ItemId, ItemType, ItemTypeView, ItemView, Location, LocationView, Visibility,
    VisibilityView,
};
use crate::text::{
    bytes_contain, bytes_of, chars_at, chars_of, concat, count_newlines, decimal, decimal_string,
    newlines, occurs_in, same_chars, slice_chars, slice_str, span_ok, span_text, string_of,
    trim_chars, trimmed,
};
use crate::regexes::{all_captures, compile_one, find_captures, pattern_of, span_rows};
use vstd::prelude::*;
use vstd::string::StringExecFns;

verus! {

/// The pattern of a function signature at the start of a line.
pub const FN_SIG_PATTERN: &'static str =
    r"(?m)^\s*(?P<vis>pub(?:\([^)]*\))?\s+)?(?:async\s+)?(?:const\s+)?fn\s+(?P<name>[a-zA-Z_][a-zA-Z0-9_]*)\s*\(";

/// The pattern of a struct definition at the start of a line.
pub const STRUCT_DEF_PATTERN: &'static str =
    r"(?m)^\s*(?P<vis>pub(?:\([^)]*\))?\s+)?struct\s+(?P<name>[A-Za-z_][A-Za-z0-9_]*)";

/// The pattern of an enum definition at the start of a line.
pub const ENUM_DEF_PATTERN: &'static str =
    r"(?m)^\s*(?P<vis>pub(?:\([^)]*\))?\s+)?enum\s+(?P<name>[A-Za-z_][A-Za-z0-9_]*)";

/// The pattern of a `use` statement on a line of its own.
pub const IMPORT_PATTERN: &'static str =
    r"(?m)^\s*(?:pub\s+)?use\s+([^;{]+?)(?:\s+as\s+([A-Za-z_][A-Za-z0-9_]*))?\s*;\s*$";

/// The compiled patterns of the extractor.
pub struct RegexPatterns {
    pub fn_sig: regex::Regex,
    pub struct_def: regex::Regex,
    pub enum_def: regex::Regex,
    pub import_stmt: regex::Regex,
}

impl RegexPatterns {
    /// Whether these are the extractor's own four patterns.
    pub open spec fn standard(&self) -> bool {
        &&& pattern_of(self.fn_sig) == FN_SIG_PATTERN@
        &&& pattern_of(self.struct_def) == STRUCT_DEF_PATTERN@
        &&& pattern_of(self.enum_def) == ENUM_DEF_PATTERN@
        &&& pattern_of(self.import_stmt) == IMPORT_PATTERN@
    }

    /// Compiles the extractor's patterns. The error is `ParseError::Regex`,
    /// with what the regex engine said of the pattern it refused.
    pub fn compile() -> (r: Result<RegexPatterns, ParseError>)
        ensures
            r matches Ok(p) ==> p.standard(),
            r matches Err(e) ==> e is Regex,
    {
        let fn_sig = match compile_one(FN_SIG_PATTERN) {
            Ok(x) => x,
            Err(e) => {
                return Err(e);
            },
        };
        let struct_def = match compile_one(STRUCT_DEF_PATTERN) {
            Ok(x) => x,
            Err(e) => {
                return Err(e);
            },
        };
        let enum_def = match compile_one(ENUM_DEF_PATTERN) {
            Ok(x) => x,
            Err(e) => {
                return Err(e);
            },
        };
        let import_stmt = match compile_one(IMPORT_PATTERN) {
            Ok(x) => x,
            Err(e) => {
                return Err(e);
            },
        };
        Ok(RegexPatterns { fn_sig, struct_def, enum_def, import_stmt })
    }
}


/// Whether `t` reads `pub(`, a scope of at least one character without `)`,
/// and `)`.
pub open spec fn is_scoped(t: Seq<char>) -> bool {
    &&& t.len() >= 6
    &&& t.take(4) == "pub("@
    &&& t.last() == ')'
    &&& forall|i: int| 4 <= i < t.len() - 1 ==> t[i] != ')'
}

/// The visibility that the text before a declaration stands for, white
/// space at its ends aside: nothing is private, `pub` public, `pub(crate)`
/// and `pub(super)` their own, `pub(` scope `)` is `PubIn` of that scope, and
/// anything else private.
pub open spec fn visibility_of(v: Seq<char>) -> VisibilityView {
    let t = trimmed(v);
    if t.len() == 0 {
        VisibilityView::Private
    } else if t == "pub"@ {
        VisibilityView::Public
    } else if t == "pub(crate)"@ {
        VisibilityView::PubCrate
    } else if t == "pub(super)"@ {
        VisibilityView::PubSuper
    } else if is_scoped(t) {
        VisibilityView::PubIn(t.subrange(4, t.len() - 1))
    } else {
        VisibilityView::Private
    }
}

/// Decodes the visibility written before a declaration.
pub fn parse_visibility(vis: &str) -> (r: Visibility)
    ensures
        r@ == visibility_of(vis@),
{
    let raw = chars_of(vis);
    let t = trim_chars(raw.as_slice());
    if t.len() == 0 {
        return Visibility::Private;
    }
    let p = chars_of("pub");
    if same_chars(t.as_slice(), p.as_slice()) {
        return Visibility::Public;
    }
    let pc = chars_of("pub(crate)");
    if same_chars(t.as_slice(), pc.as_slice()) {
        return Visibility::PubCrate;
    }
    let ps = chars_of("pub(super)");
    if same_chars(t.as_slice(), ps.as_slice()) {
        return Visibility::PubSuper;
    }
    let open = chars_of("pub(");
    proof {
        reveal_strlit("pub(");
    }
    if t.len() < 6 || !chars_at(t.as_slice(), open.as_slice(), 0) || t[t.len() - 1] != ')' {
        if t.len() >= 6 {
            assert(t@.take(4) =~= t@.subrange(0, 4));
        }
        return Visibility::Private;
    }
    assert(t@.take(4) =~= t@.subrange(0, 4));
    let mut i: usize = 4;
    while i < t.len() - 1
        invariant
            4 <= i <= t.len() - 1,
            t.len() >= 6,
            forall|j: int| 4 <= j < i ==> t@[j] != ')',
            visibility_of(vis@) == if is_scoped(t@) {
                VisibilityView::PubIn(t@.subrange(4, t.len() - 1))
            } else {
                VisibilityView::Private
            },
        decreases t.len() - i,
    {
        if t[i] == ')' {
            return Visibility::Private;
        }
        i += 1;
    }
    let inner = slice_chars(t.as_slice(), 4, t.len() - 1);
    Visibility::PubIn(string_of(inner.as_slice()))
}

/// The kinds of declaration that the extractor recognises.
#[derive(Debug, Clone, Copy, PartialEq, Eq)]
pub enum DeclKind {
    Function,
    Struct,
    Enum,
}

/// The length in bytes of the shortest text that can declare such an item:
/// `fn f(`, `struct S`, `enum E`.
pub open spec fn min_decl_len(kind: DeclKind) -> int {
    match kind {
        DeclKind::Function => 5,
        DeclKind::Struct => 8,
        DeclKind::Enum => 6,
    }
}

/// The length in bytes of the shortest `use` statement, `use a;`.
pub open spec fn min_import_len() -> int {
    6
}

/// The span of group `k` of a match, where the match has that group and it
/// took part.
pub open spec fn group(row: Seq<Option<(usize, usize)>>, k: int) -> Option<(usize, usize)> {
    if 0 <= k < row.len() {
        row[k]
    } else {
        None
    }
}

/// The text of group `k` of a match; empty where there is no such text.
pub open spec fn group_text(content: Seq<char>, row: Seq<Option<(usize, usize)>>, k: int) -> Seq<
    char,
> {
    match group(row, k) {
        Some(span) => if span_ok(content, span.0 as int, span.1 as int) {
            span_text(content, span.0 as int, span.1 as int)
        } else {
            Seq::empty()
        },
        None => Seq::empty(),
    }
}

/// Whether a match is taken: its whole span is a piece of the content, at
/// least `min` bytes long, and starts no earlier than `prev_end`, where the
/// match taken before it ended.
pub open spec fn taken(
    content: Seq<char>,
    row: Seq<Option<(usize, usize)>>,
    min: int,
    prev_end: int,
) -> bool {
    match group(row, 0) {
        Some(span) => span_ok(content, span.0 as int, span.1 as int) && span.1 - span.0 >= min
            && span.0 >= prev_end,
        None => false,
    }
}

/// Where the last match taken among the first `n` ends; 0 where none is.
pub open spec fn end_after(
    content: Seq<char>,
    rows: Seq<Seq<Option<(usize, usize)>>>,
    min: int,
    n: int,
) -> int
    decreases n,
{
    if n <= 0 || n > rows.len() {
        0
    } else {
        let prev = end_after(content, rows, min, n - 1);
        if taken(content, rows[n - 1], min, prev) {
            let span = rows[n - 1][0]->0;
            span.1 as int
        } else {
            prev
        }
    }
}

/// The line, counted from one, on which byte `idx` of the content stands.
pub open spec fn line_of(content: Seq<char>, idx: int) -> nat {
    newlines(bytes_of(content).take(idx)) + 1
}

/// The item that a taken match declares: its name is the text of group 2,
/// its visibility that of group 1, its line the one on which the match
/// starts, its identifier the kind's prefix, the name, a colon and the line.
/// A function is async, or const, where the matched text holds that word
/// and a space.
pub open spec fn decl_item(
    content: Seq<char>,
    path: Seq<char>,
    row: Seq<Option<(usize, usize)>>,
    kind: DeclKind,
) -> ItemView {
    let span = row[0]->0;
    let name = group_text(content, row, 2);
    let line = line_of(content, span.0 as int);
    let matched = bytes_of(content).subrange(span.0 as int, span.1 as int);
    ItemView {
        id: match kind {
            DeclKind::Function => "fn:"@,
            DeclKind::Struct => "struct:"@,
            DeclKind::Enum => "enum:"@,
        } + name + ":"@ + decimal(line),
        item_type: match kind {
            DeclKind::Function => ItemTypeView::Function {
                is_async: occurs_in(matched, bytes_of("async "@)),
                is_const: occurs_in(matched, bytes_of("const "@)),
            },
            DeclKind::Struct => ItemTypeView::Struct { is_tuple: false },
            DeclKind::Enum => ItemTypeView::Enum { variant_count: 0 },
        },
        name,
        visibility: visibility_of(group_text(content, row, 1)),
        location: LocationView { file: path, line_start: line as usize, line_end: line as usize },
        attributes: Seq::empty(),
    }
}

/// The items that the first `n` matches declare, in order.
pub open spec fn decl_items(
    content: Seq<char>,
    path: Seq<char>,
    rows: Seq<Seq<Option<(usize, usize)>>>,
    kind: DeclKind,
    n: int,
) -> Seq<ItemView>
    decreases n,
{
    if n <= 0 || n > rows.len() {
        Seq::empty()
    } else {
        let init = decl_items(content, path, rows, kind, n - 1);
        if taken(
            content,
            rows[n - 1],
            min_decl_len(kind),
            end_after(content, rows, min_decl_len(kind), n - 1),
        ) {
            init.push(decl_item(content, path, rows[n - 1], kind))
        } else {
            init
        }
    }
}

/// The import that a taken match states: its path is the text of group 1
/// without the white space at its ends, its alias the text of group 2 where
/// that group took part.
pub open spec fn import_of(content: Seq<char>, row: Seq<Option<(usize, usize)>>) -> ImportView {
    ImportView {
        path: trimmed(group_text(content, row, 1)),
        alias: match group(row, 2) {
            Some(_) => Some(group_text(content, row, 2)),
            None => None,
        },
    }
}

/// The imports that the first `n` matches state, in order.
pub open spec fn imports_from(
    content: Seq<char>,
    rows: Seq<Seq<Option<(usize, usize)>>>,
    n: int,
) -> Seq<ImportView>
    decreases n,
{
    if n <= 0 || n > rows.len() {
        Seq::empty()
    } else {
        let init = imports_from(content, rows, n - 1);
        if taken(
            content,
            rows[n - 1],
            min_import_len(),
            end_after(content, rows, min_import_len(), n - 1),
        ) {
            init.push(import_of(content, rows[n - 1]))
        } else {
            init
        }
    }
}

/// Matches that are taken do not overlap, so `min` times their number is at
/// most where the last of them ends, which is inside the content.
pub proof fn lemma_decl_items_bound(
    content: Seq<char>,
    path: Seq<char>,
    rows: Seq<Seq<Option<(usize, usize)>>>,
    kind: DeclKind,
    n: int,
)
    ensures
        decl_items(content, path, rows, kind, n).len() * min_decl_len(kind) <= end_after(
            content,
            rows,
            min_decl_len(kind),
            n,
        ) <= bytes_of(content).len(),
    decreases n,
{
    if n > 0 && n <= rows.len() {
        lemma_decl_items_bound(content, path, rows, kind, n - 1);
    }
}

/// The same bound for imports.
pub proof fn lemma_imports_bound(
    content: Seq<char>,
    rows: Seq<Seq<Option<(usize, usize)>>>,
    n: int,
)
    ensures
        imports_from(content, rows, n).len() * min_import_len() <= end_after(
            content,
            rows,
            min_import_len(),
            n,
        ) <= bytes_of(content).len(),
    decreases n,
{
    if n > 0 && n <= rows.len() {
        lemma_imports_bound(content, rows, n - 1);
    }
}


/// The file node that the matches of the four patterns in `content` give:
/// the functions, then the structs, then the enums, each in the order of
/// their matches, and the imports.
pub open spec fn extracted(
    content: Seq<char>,
    path: Seq<char>,
    fn_rows: Seq<Seq<Option<(usize, usize)>>>,
    struct_rows: Seq<Seq<Option<(usize, usize)>>>,
    enum_rows: Seq<Seq<Option<(usize, usize)>>>,
    import_rows: Seq<Seq<Option<(usize, usize)>>>,
) -> FileNodeView {
    let items = decl_items(content, path, fn_rows, DeclKind::Function, fn_rows.len() as int)
        + decl_items(content, path, struct_rows, DeclKind::Struct, struct_rows.len() as int)
        + decl_items(content, path, enum_rows, DeclKind::Enum, enum_rows.len() as int);
    let imports = imports_from(content, import_rows, import_rows.len() as int);
    FileNodeView {
        path,
        items,
        imports,
        metrics: FileMetrics {
            item_count: items.len() as usize,
            import_count: imports.len() as usize,
        },
    }
}

fn min_len_of(kind: DeclKind) -> (r: usize)
    ensures
        r == min_decl_len(kind),
{
    match kind {
        DeclKind::Function => 5,
        DeclKind::Struct => 8,
        DeclKind::Enum => 6,
    }
}

pub(crate) fn group_of(row: &Vec<Option<(usize, usize)>>, k: usize) -> (r: Option<(usize, usize)>)
    ensures
        r == group(row@, k as int),
{
    if k < row.len() {
        row[k]
    } else {
        None
    }
}

pub(crate) fn text_of_group<'a>(content: &'a str, row: &Vec<Option<(usize, usize)>>, k: usize) -> (r:
    &'a str)
    ensures
        r@ == group_text(content@, row@, k as int),
{
    proof {
        reveal_strlit("");
    }
    match group_of(row, k) {
        Some(span) => match slice_str(content, span.0, span.1) {
            Some(t) => t,
            None => {
                assert(""@ =~= Seq::<char>::empty());
                ""
            },
        },
        None => {
            assert(""@ =~= Seq::<char>::empty());
            ""
        },
    }
}

fn is_taken(content: &str, row: &Vec<Option<(usize, usize)>>, min: usize, prev_end: usize) -> (r:
    bool)
    ensures
        r == taken(content@, row@, min as int, prev_end as int),
{
    match group_of(row, 0) {
        Some(span) => slice_str(content, span.0, span.1).is_some() && span.1 - span.0 >= min
            && span.0 >= prev_end,
        None => false,
    }
}

fn make_decl(content: &str, path: &str, row: &Vec<Option<(usize, usize)>>, kind: DeclKind) -> (r:
    Item)
    requires
        taken(content@, row@, min_decl_len(kind), 0),
    ensures
        r@ == decl_item(content@, path@, row@, kind),
{
    let span = row[0].unwrap();
    let bytes = content.as_bytes();
    let name = text_of_group(content, row, 2);
    let vis = text_of_group(content, row, 1);
    let line: usize = count_newlines(bytes, span.0) + 1;
    assert(bytes@.take(span.0 as int) == bytes_of(content@).take(span.0 as int));
    let prefix = match kind {
        DeclKind::Function => "fn:",
        DeclKind::Struct => "struct:",
        DeclKind::Enum => "enum:",
    };
    let id = concat(prefix, name);
    let id = concat(id.as_str(), ":");
    let number = decimal_string(line as u128);
    let id = concat(id.as_str(), number.as_str());
    let item_type = match kind {
        DeclKind::Function => ItemType::Function {
            is_async: bytes_contain(bytes, span.0, span.1, "async ".as_bytes()),
            is_const: bytes_contain(bytes, span.0, span.1, "const ".as_bytes()),
        },
        DeclKind::Struct => ItemType::Struct { is_tuple: false },
        DeclKind::Enum => ItemType::Enum { variant_count: 0 },
    };
    let attributes: Vec<String> = Vec::new();
    let r = Item {
        id: ItemId(id),
        item_type,
        name: String::from_str(name),
        visibility: parse_visibility(vis),
        location: Location { file: String::from_str(path), line_start: line, line_end: line },
        attributes,
    };
    proof {
        assert(crate::model::texts(r.attributes@) =~= Seq::<Seq<char>>::empty());
    }
    r
}

/// The items that the matches of one pattern declare. A match is taken
/// where `taken` says so; the others are passed over.
pub fn extract_items(
    content: &str,
    path: &str,
    rows: &Vec<Vec<Option<(usize, usize)>>>,
    kind: DeclKind,
) -> (r: Vec<Item>)
    ensures
        item_views(r@) == decl_items(content@, path@, span_rows(rows@), kind, rows.len() as int),
        r.len() * min_decl_len(kind) <= bytes_of(content@).len(),
{
    let min = min_len_of(kind);
    let mut out: Vec<Item> = Vec::new();
    let mut prev_end: usize = 0;
    let mut i: usize = 0;
    assert(item_views(out@) =~= Seq::<ItemView>::empty());
    while i < rows.len()
        invariant
            i <= rows.len(),
            min == min_decl_len(kind),
            prev_end == end_after(content@, span_rows(rows@), min as int, i as int),
            item_views(out@) == decl_items(content@, path@, span_rows(rows@), kind, i as int),
        decreases rows.len() - i,
    {
        let ghost before = item_views(out@);
        assert(span_rows(rows@)[i as int] == rows@[i as int]@);
        if is_taken(content, &rows[i], min, prev_end) {
            let item = make_decl(content, path, &rows[i], kind);
            out.push(item);
            assert(item_views(out@) =~= before.push(item@));
            prev_end = rows[i][0].unwrap().1;
        }
        i += 1;
    }
    proof {
        lemma_decl_items_bound(content@, path@, span_rows(rows@), kind, rows.len() as int);
        assert(item_views(out@).len() == out@.len());
    }
    out
}

/// The imports that the matches of the import pattern state.
pub fn extract_imports(content: &str, rows: &Vec<Vec<Option<(usize, usize)>>>) -> (r: Vec<
    Import,
>)
    ensures
        import_views(r@) == imports_from(content@, span_rows(rows@), rows.len() as int),
        r.len() * min_import_len() <= bytes_of(content@).len(),
{
    let mut out: Vec<Import> = Vec::new();
    let mut prev_end: usize = 0;
    let mut i: usize = 0;
    assert(import_views(out@) =~= Seq::<ImportView>::empty());
    while i < rows.len()
        invariant
            i <= rows.len(),
            prev_end == end_after(content@, span_rows(rows@), min_import_len(), i as int),
            import_views(out@) == imports_from(content@, span_rows(rows@), i as int),
        decreases rows.len() - i,
    {
        let ghost before = import_views(out@);
        assert(span_rows(rows@)[i as int] == rows@[i as int]@);
        if is_taken(content, &rows[i], 6, prev_end) {
            let raw = chars_of(text_of_group(content, &rows[i], 1));
            let path = trim_chars(raw.as_slice());
            let alias = match group_of(&rows[i], 2) {
                Some(_) => Some(String::from_str(text_of_group(content, &rows[i], 2))),
                None => None,
            };
            let import = Import { path: string_of(path.as_slice()), alias };
            out.push(import);
            assert(import_views(out@) =~= before.push(import@));
            prev_end = rows[i][0].unwrap().1;
        }
        i += 1;
    }
    proof {
        lemma_imports_bound(content@, span_rows(rows@), rows.len() as int);
        assert(import_views(out@).len() == out@.len());
    }
    out
}

/// The file node for `path` that the four lists of matches give. It has no
/// more items, and no more imports, than the content has bytes.
pub fn file_node_from_matches(
    content: &str,
    path: &str,
    fn_rows: &Vec<Vec<Option<(usize, usize)>>>,
    struct_rows: &Vec<Vec<Option<(usize, usize)>>>,
    enum_rows: &Vec<Vec<Option<(usize, usize)>>>,
    import_rows: &Vec<Vec<Option<(usize, usize)>>>,
) -> (r: FileNode)
    ensures
        r@ == extracted(
            content@,
            path@,
            span_rows(fn_rows@),
            span_rows(struct_rows@),
            span_rows(enum_rows@),
            span_rows(import_rows@),
        ),
        r.items.len() <= bytes_of(content@).len(),
        r.imports.len() <= bytes_of(content@).len(),
{
    let mut items = extract_items(content, path, fn_rows, DeclKind::Function);
    let ghost first = item_views(items@);
    let mut structs = extract_items(content, path, struct_rows, DeclKind::Struct);
    let ghost second = item_views(structs@);
    let mut enums = extract_items(content, path, enum_rows, DeclKind::Enum);
    let ghost third = item_views(enums@);
    items.append(&mut structs);
    items.append(&mut enums);
    assert(item_views(items@) =~= first + second + third);
    let imports = extract_imports(content, import_rows);
    let metrics = FileMetrics { item_count: items.len(), import_count: imports.len() };
    FileNode { path: String::from_str(path), items, imports, metrics }
}

/// The extractor, with its patterns compiled.
pub struct RustParser {
    pub patterns: RegexPatterns,
}

impl RustParser {
    /// An extractor with the standard patterns; the error is that of
    /// `RegexPatterns::compile`.
    pub fn new() -> (r: Result<RustParser, ParseError>)
        ensures
            r matches Ok(p) ==> p.patterns.standard(),
            r matches Err(e) ==> e is Regex,
    {
        match RegexPatterns::compile() {
            Ok(patterns) => Ok(RustParser { patterns }),
            Err(e) => Err(e),
        }
    }

    /// What the extractor finds in `content`, as the file node of `path`;
    /// see `extracted`. It succeeds on every content, and the node has no
    /// more items, and no more imports, than the content has bytes.
    pub fn parse_file(&self, content: &str, path: &str) -> (r: Result<FileNode, ParseError>)
        ensures
            r matches Ok(node) && node@ == extracted(
                content@,
                path@,
                all_captures(pattern_of(self.patterns.fn_sig), content@),
                all_captures(pattern_of(self.patterns.struct_def), content@),
                all_captures(pattern_of(self.patterns.enum_def), content@),
                all_captures(pattern_of(self.patterns.import_stmt), content@),
            ) && node.items.len() <= bytes_of(content@).len() && node.imports.len() <= bytes_of(
                content@,
            ).len(),
    {
        let fn_rows = find_captures(&self.patterns.fn_sig, content);
        let struct_rows = find_captures(&self.patterns.struct_def, content);
        let enum_rows = find_captures(&self.patterns.enum_def, content);
        let import_rows = find_captures(&self.patterns.import_stmt, content);
        Ok(file_node_from_matches(content, path, &fn_rows, &struct_rows, &enum_rows, &import_rows))
    }
}

/// The line, counted from one, on which byte `byte_idx` of `content`
/// stands; a count that does not fit is given as the largest number.
pub fn line_number_for(content: &str, byte_idx: usize) -> (r: usize)
    requires
        span_ok(content@, 0, byte_idx as int),
    ensures
        r == if line_of(content@, byte_idx as int) <= usize::MAX {
            line_of(content@, byte_idx as int)
        } else {
            usize::MAX as nat
        },
{
    let bytes = content.as_bytes();
    let n = count_newlines(bytes, byte_idx);
    if n < usize::MAX {
        n + 1
    } else {
        usize::MAX
    }
}

} // verus!
