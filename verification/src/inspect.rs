//! The queries that look at single items: which items nothing refers to,
//! and what the graph knows of one item.

use crate::graph::{
    find_item, first_item_with, owner_index, owner_of, GraphView, KnowledgeGraph,
};
use crate::model::{
    file_views, item_views, relationship_views, FileNode, FileNodeView, Item, ItemId, ItemType,
    ItemTypeView, ItemView, Relationship, RelationshipType, RelationshipTypeView,
    RelationshipView, Visibility, VisibilityView,
};
use crate::regexes::{matches_somewhere, pattern_of, regex_is_match};
use crate::query::Query;
use crate::text::{
    char_rows, chars_of, concat, find_chars, find_from, lemma_find_from, lemma_find_from_skip,
    same_text, slice_chars, string_of,
};
use vstd::prelude::*;
use vstd::string::StringExecFns;

verus! {

/// The name of a kind of item.
pub open spec fn kind_name(kind: ItemTypeView) -> Seq<char> {
    match kind {
        ItemTypeView::Module { .. } => "Module"@,
        ItemTypeView::Function { .. } => "Function"@,
        ItemTypeView::Struct { .. } => "Struct"@,
        ItemTypeView::Enum { .. } => "Enum"@,
        ItemTypeView::Trait { .. } => "Trait"@,
        ItemTypeView::Impl { .. } => "Impl"@,
        ItemTypeView::Const => "Const"@,
        ItemTypeView::Static { .. } => "Static"@,
        ItemTypeView::Type => "Type"@,
        ItemTypeView::Macro => "Macro"@,
    }
}

/// The name of a kind of item.
pub fn kind_text(kind: &ItemType) -> (r: &'static str)
    ensures
        r@ == kind_name(kind@),
{
    match kind {
        ItemType::Module { .. } => "Module",
        ItemType::Function { .. } => "Function",
        ItemType::Struct { .. } => "Struct",
        ItemType::Enum { .. } => "Enum",
        ItemType::Trait { .. } => "Trait",
        ItemType::Impl { .. } => "Impl",
        ItemType::Const => "Const",
        ItemType::Static { .. } => "Static",
        ItemType::Type => "Type",
        ItemType::Macro => "Macro",
    }
}

/// A visibility in few words; every scope reads `pub(in)`.
pub open spec fn visibility_name(v: VisibilityView) -> Seq<char> {
    match v {
        VisibilityView::Public => "public"@,
        VisibilityView::Private => "private"@,
        VisibilityView::PubCrate => "pub(crate)"@,
        VisibilityView::PubSuper => "pub(super)"@,
        VisibilityView::PubIn(_) => "pub(in)"@,
    }
}

/// Whether an import or a call goes to the item `id`.
pub open spec fn referenced_within(rels: Seq<RelationshipView>, id: Seq<char>, n: int) -> bool {
    exists|k: int|
        0 <= k < n && k < rels.len() && (#[trigger] rels[k]).to_item == id && (
        rels[k].relationship_type is Uses || rels[k].relationship_type is Calls)
}

/// One row of the answer: the path of the file, then the identifier, the
/// name, the kind and the visibility of the item.
pub open spec fn item_row(path: Seq<char>, item: ItemView) -> (
    Seq<char>,
    Seq<char>,
    Seq<char>,
    Seq<char>,
    Seq<char>,
) {
    (path, item.id, item.name, kind_name(item.item_type), visibility_name(item.visibility))
}

/// Whether an item is listed: it is not public, unless public items are
/// asked for too, and no import and no call goes to it.
pub open spec fn is_listed(g: GraphView, item: ItemView, include_public: bool) -> bool {
    (include_public || !(item.visibility is Public)) && !referenced_within(
        g.relationships,
        item.id,
        g.relationships.len() as int,
    )
}

/// The rows of the first `n` items of a file; the first item, which stands
/// for the file, is never listed.
pub open spec fn unreferenced_in(g: GraphView, file: FileNodeView, include_public: bool, n: int)
    -> Seq<(Seq<char>, Seq<char>, Seq<char>, Seq<char>, Seq<char>)>
    decreases n,
{
    if n <= 1 || n > file.items.len() {
        Seq::empty()
    } else if is_listed(g, file.items[n - 1], include_public) {
        unreferenced_in(g, file, include_public, n - 1).push(
            item_row(file.path, file.items[n - 1]),
        )
    } else {
        unreferenced_in(g, file, include_public, n - 1)
    }
}

/// Whether file `f` is left out: `excluded` marks it.
pub open spec fn left_out(excluded: Seq<bool>, f: int) -> bool {
    0 <= f < excluded.len() && excluded[f]
}

/// The answer of the query for unreferenced items, for the first `n` files,
/// in the order of the files and of their items.
pub open spec fn unreferenced(g: GraphView, excluded: Seq<bool>, include_public: bool, n: int)
    -> Seq<(Seq<char>, Seq<char>, Seq<char>, Seq<char>, Seq<char>)>
    decreases n,
{
    if n <= 0 || n > g.files.len() {
        Seq::empty()
    } else if left_out(excluded, n - 1) {
        unreferenced(g, excluded, include_public, n - 1)
    } else {
        unreferenced(g, excluded, include_public, n - 1) + unreferenced_in(
            g,
            g.files[n - 1],
            include_public,
            g.files[n - 1].items.len() as int,
        )
    }
}

/// The views of rows of five texts.
pub open spec fn five_texts(v: Seq<(String, String, String, String, String)>) -> Seq<
    (Seq<char>, Seq<char>, Seq<char>, Seq<char>, Seq<char>),
> {
    v.map_values(|r: (String, String, String, String, String)| (r.0@, r.1@, r.2@, r.3@, r.4@))
}

fn is_referenced(rels: &Vec<Relationship>, id: &str) -> (r: bool)
    ensures
        r == referenced_within(relationship_views(rels@), id@, rels.len() as int),
{
    let ghost views = relationship_views(rels@);
    let mut k: usize = 0;
    while k < rels.len()
        invariant
            k <= rels.len(),
            views == relationship_views(rels@),
            !referenced_within(views, id@, k as int),
        decreases rels.len() - k,
    {
        assert(views[k as int] == rels@[k as int]@);
        let counts = match &rels[k].relationship_type {
            RelationshipType::Uses { .. } => true,
            RelationshipType::Calls { .. } => true,
            _ => false,
        };
        if counts && same_text(rels[k].to_item.0.as_str(), id) {
            return true;
        }
        proof {
            if referenced_within(views, id@, k + 1) {
                let w = choose|w: int|
                    0 <= w < k + 1 && w < views.len() && (#[trigger] views[w]).to_item == id@ && (
                    views[w].relationship_type is Uses || views[w].relationship_type is Calls);
                assert(w == k);
            }
        }
        k += 1;
    }
    false
}

fn visibility_text(v: &Visibility) -> (r: &'static str)
    ensures
        r@ == visibility_name(v@),
{
    match v {
        Visibility::Public => "public",
        Visibility::Private => "private",
        Visibility::PubCrate => "pub(crate)",
        Visibility::PubSuper => "pub(super)",
        Visibility::PubIn(_) => "pub(in)",
    }
}

/// The items that no import and no call goes to, except in the files that
/// `excluded` marks; see `unreferenced`.
pub fn unreferenced_items(graph: &KnowledgeGraph, include_public: bool, excluded: &Vec<bool>) -> (r:
    Vec<(String, String, String, String, String)>)
    ensures
        five_texts(r@) == unreferenced(
            graph@,
            excluded@,
            include_public,
            graph@.files.len() as int,
        ),
{
    let files = graph.files();
    let rels = graph.relationships();
    let ghost g = graph@;
    let mut out: Vec<(String, String, String, String, String)> = Vec::new();
    let mut i: usize = 0;
    assert(five_texts(out@) =~= Seq::empty());
    while i < files.len()
        invariant
            i <= files.len(),
            g == graph@,
            file_views(files@) == g.files,
            relationship_views(rels@) == g.relationships,
            five_texts(out@) == unreferenced(g, excluded@, include_public, i as int),
        decreases files.len() - i,
    {
        assert(g.files[i as int] == files@[i as int]@);
        let skip = i < excluded.len() && excluded[i];
        if !skip {
            let file = &files[i];
            let ghost start = five_texts(out@);
            let ghost rows = item_views(file.items@);
            let mut k: usize = 1;
            assert(start + Seq::empty() =~= start);
            while k < file.items.len()
                invariant
                    1 <= k <= file.items.len() || (k == 1 && file.items.len() == 0),
                    g == graph@,
                    relationship_views(rels@) == g.relationships,
                    rows == item_views(file.items@),
                    file@ == g.files[i as int],
                    five_texts(out@) == start + unreferenced_in(
                        g,
                        file@,
                        include_public,
                        k as int,
                    ),
                decreases file.items.len() - k,
            {
                let item = &file.items[k];
                let ghost before = five_texts(out@);
                assert(rows[k as int] == item@);
                let public = match &item.visibility {
                    Visibility::Public => true,
                    _ => false,
                };
                if (include_public || !public) && !is_referenced(rels, item.id.0.as_str()) {
                    let row = (
                        file.path.clone(),
                        item.id.0.clone(),
                        item.name.clone(),
                        String::from_str(kind_text(&item.item_type)),
                        String::from_str(visibility_text(&item.visibility)),
                    );
                    out.push(row);
                    assert(five_texts(out@) =~= before.push(item_row(file.path@, item@)));
                    assert(start + unreferenced_in(g, file@, include_public, k as int).push(
                        item_row(file.path@, item@),
                    ) =~= before.push(item_row(file.path@, item@)));
                }
                k += 1;
            }
            proof {
                if file.items.len() == 0 {
                    assert(unreferenced_in(g, file@, include_public, 0) =~= unreferenced_in(
                        g,
                        file@,
                        include_public,
                        1,
                    ));
                }
            }
        }
        i += 1;
    }
    out
}

/// The items that nothing refers to: that no import and no call goes to.
pub struct UnreferencedItemsQuery {
    pub include_public: bool,
    pub exclude: Option<regex::Regex>,
}

/// Which files a pattern leaves out: those whose path it matches somewhere.
pub open spec fn excluded_files(files: Seq<FileNodeView>, pattern: Option<Seq<char>>) -> Seq<
    bool,
> {
    Seq::new(
        files.len(),
        |f: int|
            match pattern {
                Some(p) => matches_somewhere(p, files[f].path),
                None => false,
            },
    )
}

impl UnreferencedItemsQuery {
    /// The query for the items that nothing refers to. Public items are
    /// listed only with `include_public`; the files whose path `exclude`
    /// matches are passed over.
    pub fn new(include_public: bool, exclude: Option<regex::Regex>) -> (q: UnreferencedItemsQuery)
        ensures
            q.include_public == include_public,
            q.exclude == exclude,
    {
        UnreferencedItemsQuery { include_public, exclude }
    }

    /// The pattern of the files to pass over.
    pub open spec fn exclude_pattern(&self) -> Option<Seq<char>> {
        match self.exclude {
            Some(re) => Some(pattern_of(re)),
            None => None,
        }
    }
}

impl Query<Vec<(String, String, String, String, String)>> for UnreferencedItemsQuery {
    fn run(&self, graph: &KnowledgeGraph) -> (r: Vec<(String, String, String, String, String)>)
        ensures
            five_texts(r@) == unreferenced(
                graph@,
                excluded_files(graph@.files, self.exclude_pattern()),
                self.include_public,
                graph@.files.len() as int,
            ),
    {
        let files = graph.files();
        let ghost views = file_views(files@);
        let mut excluded: Vec<bool> = Vec::new();
        let mut i: usize = 0;
        while i < files.len()
            invariant
                i <= files.len(),
                views == file_views(files@),
                excluded.len() == i,
                forall|f: int|
                    0 <= f < i ==> excluded@[f] == #[trigger] excluded_files(
                        views,
                        self.exclude_pattern(),
                    )[f],
            decreases files.len() - i,
        {
            assert(views[i as int] == files@[i as int]@);
            let out = match &self.exclude {
                Some(re) => regex_is_match(re, files[i].path.as_str()),
                None => false,
            };
            excluded.push(out);
            i += 1;
        }
        assert(excluded@ =~= excluded_files(views, self.exclude_pattern()));
        unreferenced_items(graph, self.include_public, &excluded)
    }
}


/// One relationship of an item, seen from the item: the other end, with
/// its name and the path of its file, and what relates the two.
#[derive(Debug, Clone, PartialEq, Eq)]
pub struct ItemInfoRelationEntry {
    pub id: String,
    pub name: String,
    pub path: String,
    pub relation: String,
    pub context: String,
}

pub struct EntryView {
    pub id: Seq<char>,
    pub name: Seq<char>,
    pub path: Seq<char>,
    pub relation: Seq<char>,
    pub context: Seq<char>,
}

impl View for ItemInfoRelationEntry {
    type V = EntryView;

    open spec fn view(&self) -> EntryView {
        EntryView {
            id: self.id@,
            name: self.name@,
            path: self.path@,
            relation: self.relation@,
            context: self.context@,
        }
    }
}

/// What the graph knows of one item.
#[derive(Debug, Clone, PartialEq, Eq)]
pub struct ItemInfoResult {
    pub id: String,
    pub name: String,
    pub kind: String,
    pub visibility: String,
    pub path: String,
    pub line_start: usize,
    pub line_end: usize,
    pub code: Option<String>,
    pub inbound: Vec<ItemInfoRelationEntry>,
    pub outbound: Vec<ItemInfoRelationEntry>,
}

pub struct InfoView {
    pub id: Seq<char>,
    pub name: Seq<char>,
    pub kind: Seq<char>,
    pub visibility: Seq<char>,
    pub path: Seq<char>,
    pub line_start: usize,
    pub line_end: usize,
    pub code: Option<Seq<char>>,
    pub inbound: Seq<EntryView>,
    pub outbound: Seq<EntryView>,
}

/// The views of a sequence of entries.
pub open spec fn entry_views(v: Seq<ItemInfoRelationEntry>) -> Seq<EntryView> {
    v.map_values(|e: ItemInfoRelationEntry| e@)
}

impl View for ItemInfoResult {
    type V = InfoView;

    open spec fn view(&self) -> InfoView {
        InfoView {
            id: self.id@,
            name: self.name@,
            kind: self.kind@,
            visibility: self.visibility@,
            path: self.path@,
            line_start: self.line_start,
            line_end: self.line_end,
            code: crate::model::opt_text(self.code),
            inbound: entry_views(self.inbound@),
            outbound: entry_views(self.outbound@),
        }
    }
}

/// The item that `id` names, with its file: the first item with that
/// identifier in the first file that has one.
pub open spec fn locate(files: Seq<FileNodeView>, id: Seq<char>) -> Option<
    (FileNodeView, ItemView),
> {
    match owner_of(files, id) {
        Some(o) => match first_item_with(files[o].items, id) {
            Some(item) => Some((files[o], item)),
            None => None,
        },
        None => None,
    }
}

/// A relationship type as text: its kind, a colon, and what it carries.
pub open spec fn relation_name(t: RelationshipTypeView) -> Seq<char> {
    match t {
        RelationshipTypeView::Uses { import_type } => "Uses:"@ + import_type,
        RelationshipTypeView::Implements { trait_name } => "Implements:"@ + trait_name,
        RelationshipTypeView::Contains { containment_type } => "Contains:"@ + containment_type,
        RelationshipTypeView::Extends { extension_type } => "Extends:"@ + extension_type,
        RelationshipTypeView::Calls { call_type } => "Calls:"@ + call_type,
    }
}

/// A visibility as text, with its scope where it has one.
pub open spec fn visibility_full(v: VisibilityView) -> Seq<char> {
    match v {
        VisibilityView::Public => "public"@,
        VisibilityView::Private => "private"@,
        VisibilityView::PubCrate => "pub(crate)"@,
        VisibilityView::PubSuper => "pub(super)"@,
        VisibilityView::PubIn(p) => "pub(in "@ + p + ")"@,
    }
}

/// The entry for the other end `peer` of a relationship, where the graph
/// has that item.
pub open spec fn peer_entry(files: Seq<FileNodeView>, peer: Seq<char>, rel: RelationshipView)
    -> Option<EntryView> {
    match locate(files, peer) {
        Some(found) => Some(
            EntryView {
                id: peer,
                name: found.1.name,
                path: found.0.path,
                relation: relation_name(rel.relationship_type),
                context: rel.context,
            },
        ),
        None => None,
    }
}

/// The entries of the relationships, among the first `n`, that come into
/// the item `id`, or that go out of it, in order.
pub open spec fn entries(g: GraphView, id: Seq<char>, inbound: bool, n: int) -> Seq<EntryView>
    decreases n,
{
    if n <= 0 || n > g.relationships.len() {
        Seq::empty()
    } else {
        let rel = g.relationships[n - 1];
        let near = if inbound {
            rel.to_item
        } else {
            rel.from_item
        };
        let far = if inbound {
            rel.from_item
        } else {
            rel.to_item
        };
        match peer_entry(g.files, far, rel) {
            Some(e) => if near == id {
                entries(g, id, inbound, n - 1).push(e)
            } else {
                entries(g, id, inbound, n - 1)
            },
            None => entries(g, id, inbound, n - 1),
        }
    }
}

/// A line without the carriage return at its end, if it has one.
pub open spec fn strip_cr(line: Seq<char>) -> Seq<char> {
    if line.len() > 0 && line.last() == '\r' {
        line.drop_last()
    } else {
        line
    }
}

/// The lines of a text. A line ends with a line feed, or a carriage return
/// and a line feed, which are not part of it; the last line need not end
/// so.
pub open spec fn text_lines(s: Seq<char>) -> Seq<Seq<char>>
    decreases s.len(),
{
    let i = find_from(s, seq!['\n'], 0);
    if s.len() == 0 {
        Seq::empty()
    } else if i >= s.len() {
        seq![s]
    } else {
        seq![strip_cr(s.take(i as int))] + text_lines(s.skip((i + 1) as int))
    }
}

/// The lines joined by line feeds.
pub open spec fn join_lines(lines: Seq<Seq<char>>) -> Seq<char>
    decreases lines.len(),
{
    if lines.len() == 0 {
        Seq::empty()
    } else if lines.len() == 1 {
        lines[0]
    } else {
        join_lines(lines.drop_last()) + seq!['\n'] + lines.last()
    }
}

/// The lines `start` to `end` of a text, counted from one and both
/// included, as far as the text has them; none where that is no line.
pub open spec fn snippet(content: Seq<char>, start: usize, end: usize) -> Option<Seq<char>> {
    let lines = text_lines(content);
    let s = if start > 0 {
        start - 1
    } else {
        0
    };
    let e = if end <= lines.len() {
        end as int
    } else {
        lines.len() as int
    };
    if s < e {
        Some(join_lines(lines.subrange(s, e)))
    } else {
        None
    }
}

/// The answer of the query for one item: none where the graph has no item
/// with the identifier. The code is given where it is asked for and the
/// text of the file is at hand.
pub open spec fn item_info(
    g: GraphView,
    id: Seq<char>,
    show_code: bool,
    source: Option<Seq<char>>,
) -> Option<InfoView> {
    match locate(g.files, id) {
        Some(found) => Some(
            InfoView {
                id: found.1.id,
                name: found.1.name,
                kind: kind_name(found.1.item_type),
                visibility: visibility_full(found.1.visibility),
                path: found.0.path,
                line_start: found.1.location.line_start,
                line_end: found.1.location.line_end,
                code: match source {
                    Some(content) => if show_code {
                        snippet(content, found.1.location.line_start, found.1.location.line_end)
                    } else {
                        None
                    },
                    None => None,
                },
                inbound: entries(g, found.1.id, true, g.relationships.len() as int),
                outbound: entries(g, found.1.id, false, g.relationships.len() as int),
            },
        ),
        None => None,
    }
}

/// The lines of a text.
pub fn lines_of(content: &[char]) -> (r: Vec<Vec<char>>)
    ensures
        char_rows(r@) == text_lines(content@),
{
    let mut out: Vec<Vec<char>> = Vec::new();
    let mut sep: Vec<char> = Vec::new();
    sep.push('\n');
    assert(sep@ =~= seq!['\n']);
    let mut pos: usize = 0;
    assert(content@.skip(0) =~= content@);
    assert(char_rows(out@) =~= Seq::<Seq<char>>::empty());
    loop
        invariant_except_break
            pos <= content.len(),
            sep@ == seq!['\n'],
            text_lines(content@) == char_rows(out@) + text_lines(content@.skip(pos as int)),
        ensures
            char_rows(out@) == text_lines(content@),
        decreases content.len() - pos,
    {
        let ghost rest = content@.skip(pos as int);
        let ghost before = char_rows(out@);
        if pos >= content.len() {
            assert(before + Seq::<Seq<char>>::empty() =~= before);
            break;
        }
        let i = find_chars(content, sep.as_slice(), pos);
        proof {
            lemma_find_from_skip(content@, sep@, pos as nat, pos as nat);
            lemma_find_from(content@, sep@, pos as nat);
        }
        if i >= content.len() {
            out.push(slice_chars(content, pos, content.len()));
            proof {
                assert(content@.subrange(pos as int, content.len() as int) =~= rest);
                assert(char_rows(out@) =~= before + seq![rest]);
            }
            break;
        }
        let end = if i > pos && content[i - 1] == '\r' {
            i - 1
        } else {
            i
        };
        out.push(slice_chars(content, pos, end));
        proof {
            let line = rest.take(i - pos);
            assert(line =~= content@.subrange(pos as int, i as int));
            if i > pos {
                assert(line.last() == content@[i - 1]);
            }
            assert(content@.subrange(pos as int, end as int) =~= strip_cr(line));
            assert(char_rows(out@) =~= before + seq![strip_cr(line)]);
            assert(rest.skip(i - pos + 1) =~= content@.skip(i + 1));
            assert(before + (seq![strip_cr(line)] + text_lines(content@.skip(i + 1)))
                =~= char_rows(out@) + text_lines(content@.skip(i + 1)));
        }
        pos = i + 1;
    }
    out
}

/// The lines from index `from` up to index `to`, joined by line feeds.
pub fn join_range(lines: &Vec<Vec<char>>, from: usize, to: usize) -> (r: Vec<char>)
    requires
        from <= to <= lines.len(),
    ensures
        r@ == join_lines(char_rows(lines@).subrange(from as int, to as int)),
{
    let ghost rows = char_rows(lines@);
    let mut out: Vec<char> = Vec::new();
    let mut i: usize = from;
    assert(rows.subrange(from as int, from as int) =~= Seq::<Seq<char>>::empty());
    while i < to
        invariant
            from <= i <= to <= lines.len(),
            rows == char_rows(lines@),
            out@ == join_lines(rows.subrange(from as int, i as int)),
        decreases to - i,
    {
        let ghost done = rows.subrange(from as int, i as int);
        let ghost next = rows.subrange(from as int, i + 1);
        assert(next.drop_last() =~= done);
        assert(next.last() == lines@[i as int]@);
        if i > from {
            out.push('\n');
        }
        let line = &lines[i];
        let ghost base = out@;
        let mut j: usize = 0;
        assert(base + line@.take(0) =~= base);
        while j < line.len()
            invariant
                j <= line.len(),
                out@ == base + line@.take(j as int),
            decreases line.len() - j,
        {
            out.push(line[j]);
            assert(base + line@.take(j + 1) =~= (base + line@.take(j as int)).push(line@[j as int]));
            j += 1;
        }
        assert(line@.take(j as int) =~= line@);
        proof {
            if i == from {
                assert(done.len() == 0);
                assert(next.len() == 1);
                assert(next[0] == line@);
                assert(Seq::<char>::empty() + line@ =~= line@);
            } else {
                assert(join_lines(done).push('\n') =~= join_lines(done) + seq!['\n']);
            }
        }
        i += 1;
    }
    out
}

/// The lines `start` to `end` of a text.
pub fn snippet_of(content: &str, start: usize, end: usize) -> (r: Option<String>)
    ensures
        crate::model::opt_text(r) == snippet(content@, start, end),
{
    let chars = chars_of(content);
    let lines = lines_of(chars.as_slice());
    let s = if start > 0 {
        start - 1
    } else {
        0
    };
    let e = if end <= lines.len() {
        end
    } else {
        lines.len()
    };
    if s < e {
        let joined = join_range(&lines, s, e);
        Some(string_of(joined.as_slice()))
    } else {
        None
    }
}


/// What the graph knows of one item: its definition and its relationships.
pub struct ItemInfoQuery {
    pub item_id: ItemId,
    pub show_code: bool,
}

/// The item that `id` names, with its file.
pub fn locate_in<'a>(files: &'a Vec<FileNode>, id: &str) -> (r: Option<(&'a FileNode, &'a Item)>)
    ensures
        match r {
            Some(found) => locate(file_views(files@), id@) == Some((found.0@, found.1@)),
            None => locate(file_views(files@), id@) is None,
        },
{
    match owner_index(files, id) {
        Some(o) => {
            assert(file_views(files@)[o as int] == files@[o as int]@);
            match find_item(&files[o].items, id) {
                Some(item) => Some((&files[o], item)),
                None => None,
            }
        },
        None => None,
    }
}

fn relation_text(t: &RelationshipType) -> (r: String)
    ensures
        r@ == relation_name(t@),
{
    match t {
        RelationshipType::Uses { import_type } => concat("Uses:", import_type.as_str()),
        RelationshipType::Implements { trait_name } => concat("Implements:", trait_name.as_str()),
        RelationshipType::Contains { containment_type } => concat(
            "Contains:",
            containment_type.as_str(),
        ),
        RelationshipType::Extends { extension_type } => concat(
            "Extends:",
            extension_type.as_str(),
        ),
        RelationshipType::Calls { call_type } => concat("Calls:", call_type.as_str()),
    }
}

fn visibility_full_text(v: &Visibility) -> (r: String)
    ensures
        r@ == visibility_full(v@),
{
    match v {
        Visibility::Public => String::from_str("public"),
        Visibility::Private => String::from_str("private"),
        Visibility::PubCrate => String::from_str("pub(crate)"),
        Visibility::PubSuper => String::from_str("pub(super)"),
        Visibility::PubIn(p) => {
            let head = concat("pub(in ", p.as_str());
            concat(head.as_str(), ")")
        },
    }
}

fn collect_entries(graph: &KnowledgeGraph, id: &str, inbound: bool) -> (r: Vec<
    ItemInfoRelationEntry,
>)
    ensures
        entry_views(r@) == entries(graph@, id@, inbound, graph@.relationships.len() as int),
{
    let files = graph.files();
    let rels = graph.relationships();
    let ghost g = graph@;
    let mut out: Vec<ItemInfoRelationEntry> = Vec::new();
    let mut k: usize = 0;
    assert(entry_views(out@) =~= Seq::<EntryView>::empty());
    while k < rels.len()
        invariant
            k <= rels.len(),
            g == graph@,
            file_views(files@) == g.files,
            relationship_views(rels@) == g.relationships,
            entry_views(out@) == entries(g, id@, inbound, k as int),
        decreases rels.len() - k,
    {
        let rel = &rels[k];
        let ghost before = entry_views(out@);
        assert(g.relationships[k as int] == rel@);
        let (near, far) = if inbound {
            (&rel.to_item, &rel.from_item)
        } else {
            (&rel.from_item, &rel.to_item)
        };
        if same_text(near.0.as_str(), id) {
            match locate_in(files, far.0.as_str()) {
                Some(found) => {
                    let entry = ItemInfoRelationEntry {
                        id: far.0.clone(),
                        name: found.1.name.clone(),
                        path: found.0.path.clone(),
                        relation: relation_text(&rel.relationship_type),
                        context: rel.context.clone(),
                    };
                    out.push(entry);
                    assert(entry_views(out@) =~= before.push(entry@));
                },
                None => {},
            }
        }
        k += 1;
    }
    out
}

impl ItemInfoQuery {
    /// The query for the item `item_id`; with `show_code`, its code is
    /// asked for too.
    pub fn new(item_id: ItemId, show_code: bool) -> (q: ItemInfoQuery)
        ensures
            q.item_id == item_id,
            q.show_code == show_code,
    {
        ItemInfoQuery { item_id, show_code }
    }

    /// The answer, with the code of the item taken from `source`, the text
    /// of its file, where that is given and the code is asked for.
    pub fn run_with_source(&self, graph: &KnowledgeGraph, source: Option<&str>) -> (r: Option<
        ItemInfoResult,
    >)
        ensures
            match r {
                Some(info) => item_info(
                    graph@,
                    self.item_id@,
                    self.show_code,
                    match source {
                        Some(c) => Some(c@),
                        None => None,
                    },
                ) == Some(info@),
                None => locate(graph@.files, self.item_id@) is None,
            },
    {
        let files = graph.files();
        let found = match locate_in(files, self.item_id.0.as_str()) {
            Some(found) => found,
            None => {
                return None;
            },
        };
        let item = found.1;
        let code = match source {
            Some(content) => {
                if self.show_code {
                    snippet_of(content, item.location.line_start, item.location.line_end)
                } else {
                    None
                }
            },
            None => None,
        };
        Some(
            ItemInfoResult {
                id: item.id.0.clone(),
                name: item.name.clone(),
                kind: String::from_str(kind_text(&item.item_type)),
                visibility: visibility_full_text(&item.visibility),
                path: found.0.path.clone(),
                line_start: item.location.line_start,
                line_end: item.location.line_end,
                code,
                inbound: collect_entries(graph, item.id.0.as_str(), true),
                outbound: collect_entries(graph, item.id.0.as_str(), false),
            },
        )
    }
}

impl Query<Option<ItemInfoResult>> for ItemInfoQuery {
    /// The answer without the code of the item.
    fn run(&self, graph: &KnowledgeGraph) -> (r: Option<ItemInfoResult>)
        ensures
            match r {
                Some(info) => item_info(graph@, self.item_id@, self.show_code, None) == Some(info@),
                None => locate(graph@.files, self.item_id@) is None,
            },
    {
        self.run_with_source(graph, None)
    }
}

} // verus!
