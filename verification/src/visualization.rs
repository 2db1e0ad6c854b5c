//! Drawings of a graph: the options of a drawing, the style of its nodes,
//! and the texts that go into it.

use crate::errors::KnowledgeGraphError;
use crate::graph::{
    children_of, find_file, lemma_children_found, lookup, GraphView, KnowledgeGraph,
};
use crate::model::{
    file_views, item_views, relationship_views, texts, FileNodeView, Item, ItemType, ItemTypeView,
    ItemView, Relationship, RelationshipType, RelationshipTypeView, RelationshipView,
};
use crate::paths::{file_name, file_name_of};
use crate::text::{chars_at, chars_of, decimal, decimal_string, string_of};
use vstd::string::StringExecFns;
use vstd::prelude::*;

verus! {

/// The colours of a drawing.
#[derive(Debug, Clone, Copy, PartialEq, Eq, Structural)]
pub enum DotTheme {
    Light,
    Dark,
}

/// The direction in which a drawing is laid out.
#[derive(Debug, Clone, Copy, PartialEq, Eq, Structural)]
pub enum RankDir {
    LR,
    TB,
}

/// How the edges of a drawing are drawn.
#[derive(Debug, Clone, Copy, PartialEq, Eq, Structural)]
pub enum EdgeStyle {
    Curved,
    Ortho,
    Polyline,
}

/// The options of a drawing in DOT.
#[derive(Debug, Clone, Copy, PartialEq, Eq, Structural)]
pub struct DotOptions {
    pub clusters: bool,
    pub legend: bool,
    pub theme: DotTheme,
    pub rankdir: RankDir,
    pub splines: EdgeStyle,
    pub rounded: bool,
}

impl Default for DotOptions {
    fn default() -> (r: DotOptions)
        ensures
            r == (DotOptions {
                clusters: true,
                legend: true,
                theme: DotTheme::Light,
                rankdir: RankDir::LR,
                splines: EdgeStyle::Curved,
                rounded: true,
            }),
    {
        DotOptions {
            clusters: true,
            legend: true,
            theme: DotTheme::Light,
            rankdir: RankDir::LR,
            splines: EdgeStyle::Curved,
            rounded: true,
        }
    }
}

/// The options of a drawing in SVG.
#[derive(Debug, Clone, Copy, PartialEq, Eq, Structural)]
pub struct SvgOptions {
    pub dot: DotOptions,
    pub interactive: bool,
}

impl Default for SvgOptions {
    fn default() -> (r: SvgOptions)
        ensures
            r == (SvgOptions {
                dot: DotOptions {
                    clusters: true,
                    legend: true,
                    theme: DotTheme::Light,
                    rankdir: RankDir::LR,
                    splines: EdgeStyle::Curved,
                    rounded: true,
                },
                interactive: true,
            }),
    {
        SvgOptions { dot: DotOptions::default(), interactive: true }
    }
}

/// Makes drawings in SVG.
#[derive(Debug, Clone, Copy, PartialEq, Eq, Default)]
pub struct SvgGenerator;

impl SvgGenerator {
    /// A generator of drawings in SVG.
    pub fn new() -> SvgGenerator {
        SvgGenerator
    }
}

/// Makes drawings in DOT.
#[derive(Debug, Clone, Copy, PartialEq, Eq, Default)]
pub struct DotGenerator;

impl DotGenerator {
    /// A generator of drawings in DOT.
    pub fn new() -> DotGenerator {
        DotGenerator
    }
}

/// Whether a character may stand in an identifier of a drawing: a letter
/// or a digit of ASCII, or the underscore.
pub open spec fn is_id_char(c: char) -> bool {
    let u = c as u32;
    ('a' as u32 <= u <= 'z' as u32) || ('A' as u32 <= u <= 'Z' as u32) || ('0' as u32 <= u
        <= '9' as u32) || c == '_'
}

/// A text as an identifier of a drawing: every character that may not
/// stand in one gives way to an underscore.
pub open spec fn sanitized(s: Seq<char>) -> Seq<char> {
    s.map_values(
        |c: char|
            if is_id_char(c) {
                c
            } else {
                '_'
            },
    )
}

/// A text as an identifier of a drawing.
pub fn sanitize_id(s: &str) -> (r: String)
    ensures
        r@ == sanitized(s@),
{
    let chars = chars_of(s);
    let mut out: Vec<char> = Vec::new();
    let mut i: usize = 0;
    while i < chars.len()
        invariant
            i <= chars.len(),
            chars@ == s@,
            out@ == sanitized(s@).take(i as int),
        decreases chars.len() - i,
    {
        let c = chars[i];
        let u: u32 = c as u32;
        let ok = ('a' as u32 <= u && u <= 'z' as u32) || ('A' as u32 <= u && u <= 'Z' as u32) || (
        '0' as u32 <= u && u <= '9' as u32) || c == '_';
        assert(ok == is_id_char(c));
        assert(sanitized(s@)[i as int] == if is_id_char(c) {
            c
        } else {
            '_'
        });
        out.push(
            if ok {
                c
            } else {
                '_'
            },
        );
        assert(sanitized(s@).take(i + 1) =~= sanitized(s@).take(i as int).push(sanitized(s@)[i as int]));
        i += 1;
    }
    assert(sanitized(s@).take(i as int) =~= sanitized(s@));
    string_of(out.as_slice())
}

/// A text as a label of a drawing: a backslash is put before every double
/// quote.
pub open spec fn escaped(s: Seq<char>) -> Seq<char>
    decreases s.len(),
{
    if s.len() == 0 {
        Seq::empty()
    } else if s.last() == '"' {
        escaped(s.drop_last()) + seq!['\\', '"']
    } else {
        escaped(s.drop_last()).push(s.last())
    }
}

/// A text as a label of a drawing.
pub fn escape_label(s: &str) -> (r: String)
    ensures
        r@ == escaped(s@),
{
    let chars = chars_of(s);
    let mut out: Vec<char> = Vec::new();
    let mut i: usize = 0;
    assert(chars@.take(0) =~= Seq::<char>::empty());
    while i < chars.len()
        invariant
            i <= chars.len(),
            chars@ == s@,
            out@ == escaped(chars@.take(i as int)),
        decreases chars.len() - i,
    {
        let ghost before = out@;
        assert(chars@.take(i + 1).drop_last() =~= chars@.take(i as int));
        assert(chars@.take(i + 1).last() == chars@[i as int]);
        if chars[i] == '"' {
            out.push('\\');
            out.push('"');
            assert(out@ =~= before + seq!['\\', '"']);
        } else {
            out.push(chars[i]);
        }
        i += 1;
    }
    assert(chars@.take(i as int) =~= chars@);
    string_of(out.as_slice())
}

/// The colour and the shape of the node of an item of kind `kind`.
pub open spec fn style_of(theme: DotTheme, kind: ItemTypeView) -> (Seq<char>, Seq<char>) {
    match theme {
        DotTheme::Light => match kind {
            ItemTypeView::Module { .. } => ("#e0f3ff"@, "component"@),
            ItemTypeView::Function { .. } => ("#e8ffe0"@, "oval"@),
            ItemTypeView::Struct { .. } => ("#fff4e0"@, "box"@),
            ItemTypeView::Enum { .. } => ("#ffe0f0"@, "hexagon"@),
            ItemTypeView::Trait { .. } => ("#f0e0ff"@, "parallelogram"@),
            ItemTypeView::Impl { .. } => ("#f0fff0"@, "box3d"@),
            ItemTypeView::Const => ("#ffffe0"@, "note"@),
            ItemTypeView::Static { .. } => ("#ffffe0"@, "folder"@),
            ItemTypeView::Type => ("#f0ffff"@, "box"@),
            ItemTypeView::Macro => ("#e0ffe8"@, "cds"@),
        },
        DotTheme::Dark => match kind {
            ItemTypeView::Module { .. } => ("#124559"@, "component"@),
            ItemTypeView::Function { .. } => ("#0b6e4f"@, "oval"@),
            ItemTypeView::Struct { .. } => ("#7a4c00"@, "box"@),
            ItemTypeView::Enum { .. } => ("#6a1e44"@, "hexagon"@),
            ItemTypeView::Trait { .. } => ("#3c2a5a"@, "parallelogram"@),
            ItemTypeView::Impl { .. } => ("#1a5e1a"@, "box3d"@),
            ItemTypeView::Const => ("#6b6b00"@, "note"@),
            ItemTypeView::Static { .. } => ("#6b6b00"@, "folder"@),
            ItemTypeView::Type => ("#004f4f"@, "box"@),
            ItemTypeView::Macro => ("#0f5e3a"@, "cds"@),
        },
    }
}

/// The colour and the shape of the node of an item.
pub fn style_for_item_with_theme(t: &ItemType, theme: DotTheme) -> (r: (
    &'static str,
    &'static str,
))
    ensures
        (r.0@, r.1@) == style_of(theme, t@),
{
    match theme {
        DotTheme::Light => match t {
            ItemType::Module { .. } => ("#e0f3ff", "component"),
            ItemType::Function { .. } => ("#e8ffe0", "oval"),
            ItemType::Struct { .. } => ("#fff4e0", "box"),
            ItemType::Enum { .. } => ("#ffe0f0", "hexagon"),
            ItemType::Trait { .. } => ("#f0e0ff", "parallelogram"),
            ItemType::Impl { .. } => ("#f0fff0", "box3d"),
            ItemType::Const => ("#ffffe0", "note"),
            ItemType::Static { .. } => ("#ffffe0", "folder"),
            ItemType::Type => ("#f0ffff", "box"),
            ItemType::Macro => ("#e0ffe8", "cds"),
        },
        DotTheme::Dark => match t {
            ItemType::Module { .. } => ("#124559", "component"),
            ItemType::Function { .. } => ("#0b6e4f", "oval"),
            ItemType::Struct { .. } => ("#7a4c00", "box"),
            ItemType::Enum { .. } => ("#6a1e44", "hexagon"),
            ItemType::Trait { .. } => ("#3c2a5a", "parallelogram"),
            ItemType::Impl { .. } => ("#1a5e1a", "box3d"),
            ItemType::Const => ("#6b6b00", "note"),
            ItemType::Static { .. } => ("#6b6b00", "folder"),
            ItemType::Type => ("#004f4f", "box"),
            ItemType::Macro => ("#0f5e3a", "cds"),
        },
    }
}

/// What is put into a drawing in SVG to make it answer to the pointer: a
/// style for nodes and edges under the pointer, and a script for clicks on
/// nodes.
pub const SVG_INJECTION: &'static str = r"
<style>
svg .node:hover ellipse, svg .node:hover polygon, svg .node:hover path, svg .node:hover rect { filter: brightness(1.15); stroke-width: 2; }
svg .edge:hover path { stroke-width: 2.2; }
</style>
<script><![CDATA[
(function(){
  document.querySelectorAll('g.node a').forEach(function(a){
    a.addEventListener('click', function(ev){
      ev.preventDefault();
      const href = a.getAttribute('xlink:href') || a.getAttribute('href');
      if (href) { console.log('clicked', href); }
    });
  });
})();
]]></script>
";

/// The index of the last occurrence of `needle` in `hay`, or -1.
pub open spec fn last_occurrence(hay: Seq<char>, needle: Seq<char>) -> int
    decreases hay.len(),
{
    if hay.len() < needle.len() {
        -1
    } else if hay.subrange(hay.len() - needle.len(), hay.len() as int) == needle {
        hay.len() - needle.len()
    } else if hay.len() == 0 {
        -1
    } else {
        last_occurrence(hay.drop_last(), needle)
    }
}

/// A drawing in SVG with `injection` put in before its last closing tag;
/// after all of it where it has no closing tag.
pub open spec fn enhanced(svg: Seq<char>, injection: Seq<char>) -> Seq<char> {
    let at = last_occurrence(svg, "</svg>"@);
    if at >= 0 {
        svg.take(at) + injection + svg.skip(at)
    } else {
        svg + injection
    }
}

fn find_last(hay: &Vec<char>, needle: &Vec<char>) -> (r: Option<usize>)
    ensures
        match r {
            Some(i) => i == last_occurrence(hay@, needle@) && i <= hay.len(),
            None => last_occurrence(hay@, needle@) == -1,
        },
{
    if hay.len() < needle.len() {
        return None;
    }
    let mut end: usize = hay.len();
    assert(hay@.take(end as int) =~= hay@);
    loop
        invariant_except_break
            needle.len() <= end <= hay.len(),
            last_occurrence(hay@, needle@) == last_occurrence(hay@.take(end as int), needle@),
        ensures
            end < needle.len() || end == 0,
            end <= hay.len(),
            last_occurrence(hay@, needle@) == -1,
        decreases end,
    {
        let ghost part = hay@.take(end as int);
        assert(part.subrange(part.len() - needle.len(), part.len() as int) =~= hay@.subrange(
            end - needle.len(),
            end as int,
        ));
        if chars_at(hay.as_slice(), needle.as_slice(), end - needle.len()) {
            return Some(end - needle.len());
        }
        if end == 0 {
            assert(hay@.subrange(0, 0) =~= needle@);
            break;
        }
        assert(part.drop_last() =~= hay@.take(end - 1));
        assert(last_occurrence(part, needle@) == last_occurrence(part.drop_last(), needle@));
        end -= 1;
        if end < needle.len() {
            assert(last_occurrence(hay@.take(end as int), needle@) == -1);
            break;
        }
    }
    None
}

/// A drawing in SVG made to answer to the pointer.
pub fn enhance_svg(svg: &str) -> (r: String)
    ensures
        r@ == enhanced(svg@, SVG_INJECTION@),
{
    let chars = chars_of(svg);
    let tag = chars_of("</svg>");
    let extra = chars_of(SVG_INJECTION);
    let mut out: Vec<char> = Vec::new();
    let cut = match find_last(&chars, &tag) {
        Some(at) => at,
        None => chars.len(),
    };
    let mut i: usize = 0;
    while i < cut
        invariant
            i <= cut <= chars.len(),
            out@ == chars@.take(i as int),
        decreases cut - i,
    {
        out.push(chars[i]);
        assert(chars@.take(i + 1) =~= chars@.take(i as int).push(chars@[i as int]));
        i += 1;
    }
    let mut j: usize = 0;
    assert(chars@.take(cut as int) + extra@.take(0) =~= chars@.take(cut as int));
    while j < extra.len()
        invariant
            j <= extra.len(),
            cut <= chars.len(),
            out@ == chars@.take(cut as int) + extra@.take(j as int),
        decreases extra.len() - j,
    {
        out.push(extra[j]);
        assert(chars@.take(cut as int) + extra@.take(j + 1) =~= (chars@.take(cut as int)
            + extra@.take(j as int)).push(extra@[j as int]));
        j += 1;
    }
    assert(extra@.take(j as int) =~= extra@);
    let ghost head = out@;
    let mut k: usize = cut;
    assert(head + chars@.skip(cut as int).take(0) =~= head);
    while k < chars.len()
        invariant
            cut <= k <= chars.len(),
            out@ == head + chars@.skip(cut as int).take(k - cut),
        decreases chars.len() - k,
    {
        out.push(chars[k]);
        assert(head + chars@.skip(cut as int).take(k - cut + 1) =~= (head + chars@.skip(
            cut as int,
        ).take(k - cut)).push(chars@[k as int]));
        k += 1;
    }
    assert(chars@.skip(cut as int).take(k - cut) =~= chars@.skip(cut as int));
    assert(chars@.skip(chars.len() as int) =~= Seq::<char>::empty());
    assert(chars@.take(chars.len() as int) =~= chars@);
    string_of(out.as_slice())
}


/// The line of a node in a drawing, after `indent`: its identifier, its
/// label, its colour and shape, a link to the item and a tooltip.
pub open spec fn node_line(indent: Seq<char>, item: ItemView, theme: DotTheme) -> Seq<char> {
    let id = sanitized(item.id);
    let style = style_of(theme, item.item_type);
    indent + "\""@ + id + "\" [label=\""@ + escaped(item.name) + "\", fillcolor=\""@ + style.0
        + "\", shape=\""@ + style.1 + "\", URL=\"item://"@ + id + "\", tooltip=\""@ + escaped(
        item.name,
    ) + "\"];\n"@
}

/// The lines of the first `n` nodes of a file.
pub open spec fn node_lines(indent: Seq<char>, items: Seq<ItemView>, theme: DotTheme, n: int)
    -> Seq<char>
    decreases n,
{
    if n <= 0 || n > items.len() {
        Seq::empty()
    } else {
        node_lines(indent, items, theme, n - 1) + node_line(indent, items[n - 1], theme)
    }
}

/// A strength as the width of a pen: at least 0.8, written as a decimal
/// number without zeros at its end.
pub open spec fn pen_width(strength: u8) -> Seq<char> {
    let v: nat = if strength < 80 {
        80
    } else {
        strength as nat
    };
    let whole = decimal(v / 100);
    let frac = v % 100;
    if frac == 0 {
        whole
    } else if frac % 10 == 0 {
        whole + "."@ + decimal(frac / 10)
    } else {
        whole + "."@ + decimal(frac / 10) + decimal(frac % 10)
    }
}

/// The label, the colour and the style of an edge.
pub open spec fn edge_look(t: RelationshipTypeView) -> (Seq<char>, Seq<char>, Seq<char>) {
    match t {
        RelationshipTypeView::Uses { import_type } => (
            "uses:"@ + import_type,
            "#1f77b4"@,
            "dashed"@,
        ),
        RelationshipTypeView::Implements { trait_name } => (
            "impl:"@ + trait_name,
            "#2ca02c"@,
            "dotted"@,
        ),
        RelationshipTypeView::Contains { containment_type } => (
            "contains:"@ + containment_type,
            "#7f7f7f"@,
            "solid"@,
        ),
        RelationshipTypeView::Extends { extension_type } => (
            "extends:"@ + extension_type,
            "#9467bd"@,
            "dashed"@,
        ),
        RelationshipTypeView::Calls { call_type } => ("calls:"@ + call_type, "#d62728"@, "solid"@),
    }
}

/// The line of an edge in a drawing.
pub open spec fn edge_line(rel: RelationshipView) -> Seq<char> {
    let look = edge_look(rel.relationship_type);
    "  \""@ + sanitized(rel.from_item) + "\" -> \""@ + sanitized(rel.to_item) + "\" [label=\""@
        + escaped(look.0) + "\", color=\""@ + look.1 + "\", style=\""@ + look.2
        + "\", penwidth="@ + pen_width(rel.strength) + "];\n"@
}

/// The lines of the first `n` edges.
pub open spec fn edge_lines(rels: Seq<RelationshipView>, n: int) -> Seq<char>
    decreases n,
{
    if n <= 0 || n > rels.len() {
        Seq::empty()
    } else {
        edge_lines(rels, n - 1) + edge_line(rels[n - 1])
    }
}

/// The entry of the legend for a kind of item.
pub open spec fn legend_line(name: Seq<char>, kind: ItemTypeView, theme: DotTheme) -> Seq<char> {
    let style = style_of(theme, kind);
    "    \""@ + sanitized("legend_"@ + name) + "\" [label=\""@ + name + "\", fillcolor=\""@
        + style.0 + "\", shape=\""@ + style.1 + "\"]; \n"@
}

/// The legend: one entry for each of the five commonest kinds of item.
pub open spec fn legend(theme: DotTheme) -> Seq<char> {
    "  subgraph cluster_legend {\n    label=\"Legend\";\n    color=grey;\n"@ + legend_line(
        "Module"@,
        ItemTypeView::Module { is_inline: false },
        theme,
    ) + legend_line(
        "Function"@,
        ItemTypeView::Function { is_async: false, is_const: false },
        theme,
    ) + legend_line("Struct"@, ItemTypeView::Struct { is_tuple: false }, theme) + legend_line(
        "Enum"@,
        ItemTypeView::Enum { variant_count: 0 },
        theme,
    ) + legend_line("Trait"@, ItemTypeView::Trait { is_object_safe: false }, theme) + "  }\n"@
}

/// The head of a drawing: its name and its settings.
pub open spec fn dot_head(opts: DotOptions) -> Seq<char> {
    "digraph KnowledgeRS\n{\n  rankdir="@ + match opts.rankdir {
        RankDir::LR => "LR"@,
        RankDir::TB => "TB"@,
    } + ";\n  graph [fontname=Helvetica, splines="@ + match opts.splines {
        EdgeStyle::Curved => "curved"@,
        EdgeStyle::Ortho => "ortho"@,
        EdgeStyle::Polyline => "polyline"@,
    } + "] ;\n  node [shape=box, fontsize=10, style="@ + if opts.rounded {
        "filled,rounded"@
    } else {
        "filled"@
    } + "] ;\n  edge [fontname=Helvetica, fontsize=9];\n"@
}

/// The nodes of the first `n` files, file after file, without clusters.
pub open spec fn flat_nodes(files: Seq<FileNodeView>, theme: DotTheme, n: int) -> Seq<char>
    decreases n,
{
    if n <= 0 || n > files.len() {
        Seq::empty()
    } else {
        flat_nodes(files, theme, n - 1) + node_lines(
            "  "@,
            files[n - 1].items,
            theme,
            files[n - 1].items.len() as int,
        )
    }
}

/// The opening of the cluster of the module with file `path`: its name,
/// and the name of the file as its label.
pub open spec fn cluster_open(path: Seq<char>) -> Seq<char> {
    "  subgraph \"cluster_"@ + sanitized(path) + "\" {\n    label=\""@ + escaped(
        match file_name(path) {
            Some(name) => name,
            None => Seq::empty(),
        },
    ) + "\";\n    color=lightgrey;\n"@
}

/// The nodes of the file `path`; none where the graph has no such file.
pub open spec fn cluster_nodes(g: GraphView, path: Seq<char>, theme: DotTheme) -> Seq<char> {
    match find_file(g.files, path) {
        Some(f) => node_lines("    "@, f.items, theme, f.items.len() as int),
        None => Seq::empty(),
    }
}

/// The cluster of the module with file `path`, and the paths drawn after
/// it: nothing where the path is drawn already or `depth` is used up; else
/// a frame with the name of the file as its label, the nodes of the file,
/// and the clusters of the child modules, each drawn with one less of
/// `depth`.
pub open spec fn cluster(
    g: GraphView,
    path: Seq<char>,
    drawn: Seq<Seq<char>>,
    theme: DotTheme,
    depth: nat,
) -> (Seq<char>, Seq<Seq<char>>)
    decreases depth, 0nat,
{
    if drawn.contains(path) || depth == 0 {
        (Seq::empty(), drawn)
    } else {
        let inner = clusters(
            g,
            children_of(g.module_parent, path),
            drawn.push(path),
            theme,
            (depth - 1) as nat,
        );
        (
            cluster_open(path) + cluster_nodes(g, path, theme) + inner.0 + "  }\n"@,
            inner.1,
        )
    }
}

/// The clusters of the modules with files `paths`, one after the other,
/// and the paths drawn after them.
pub open spec fn clusters(
    g: GraphView,
    paths: Seq<Seq<char>>,
    drawn: Seq<Seq<char>>,
    theme: DotTheme,
    depth: nat,
) -> (Seq<char>, Seq<Seq<char>>)
    decreases depth, 1 + paths.len(),
{
    if paths.len() == 0 {
        (Seq::empty(), drawn)
    } else {
        let first = cluster(g, paths[0], drawn, theme, depth);
        let rest = clusters(g, paths.drop_first(), first.1, theme, depth);
        (first.0 + rest.0, rest.1)
    }
}

/// The paths of the files, among the first `n`, that have no parent
/// module, in order.
pub open spec fn root_paths(g: GraphView, n: int) -> Seq<Seq<char>>
    decreases n,
{
    if n <= 0 || n > g.files.len() {
        Seq::empty()
    } else if lookup(g.module_parent, g.files[n - 1].path) is None {
        root_paths(g, n - 1).push(g.files[n - 1].path)
    } else {
        root_paths(g, n - 1)
    }
}

/// How deep clusters may nest: one more than the hierarchy has pairs, which
/// is as deep as modules can nest.
pub open spec fn cluster_depth(g: GraphView) -> nat {
    if g.module_parent.len() < usize::MAX {
        g.module_parent.len() + 1
    } else {
        usize::MAX as nat
    }
}

/// The drawing of a graph in DOT: the head, the nodes, in the clusters of
/// their modules or file after file, the edges, the legend where it is
/// asked for, and a closing brace. Clusters nest as modules do, from the
/// files without a parent module down.
pub open spec fn dot_text(g: GraphView, opts: DotOptions) -> Seq<char> {
    dot_head(opts) + if opts.clusters {
        clusters(g, root_paths(g, g.files.len() as int), Seq::empty(), opts.theme, cluster_depth(g)).0
    } else {
        flat_nodes(g.files, opts.theme, g.files.len() as int)
    } + edge_lines(g.relationships, g.relationships.len() as int) + if opts.legend {
        legend(opts.theme)
    } else {
        Seq::empty()
    } + "}\n"@
}


/// How many of the pairs of child and parent have a child that is not
/// among `drawn`.
pub open spec fn pending(pairs: Seq<(Seq<char>, Seq<char>)>, drawn: Seq<Seq<char>>) -> nat
    decreases pairs.len(),
{
    if pairs.len() == 0 {
        0
    } else {
        pending(pairs.drop_last(), drawn) + if drawn.contains(pairs.last().0) {
            0nat
        } else {
            1nat
        }
    }
}

/// Whether `path` is the child of some pair.
pub open spec fn is_child(pairs: Seq<(Seq<char>, Seq<char>)>, path: Seq<char>) -> bool {
    exists|i: int| 0 <= i < pairs.len() && (#[trigger] pairs[i]).0 == path
}

proof fn lemma_pending_bound(pairs: Seq<(Seq<char>, Seq<char>)>, drawn: Seq<Seq<char>>)
    ensures
        pending(pairs, drawn) <= pairs.len(),
    decreases pairs.len(),
{
    if pairs.len() > 0 {
        lemma_pending_bound(pairs.drop_last(), drawn);
    }
}

/// Where more is drawn, no more is pending.
proof fn lemma_pending_falls(
    pairs: Seq<(Seq<char>, Seq<char>)>,
    drawn: Seq<Seq<char>>,
    more: Seq<Seq<char>>,
)
    requires
        forall|x: Seq<char>| drawn.contains(x) ==> more.contains(x),
    ensures
        pending(pairs, more) <= pending(pairs, drawn),
    decreases pairs.len(),
{
    if pairs.len() > 0 {
        lemma_pending_falls(pairs.drop_last(), drawn, more);
    }
}

/// Where a child is drawn that was not, less is pending.
proof fn lemma_pending_drops(pairs: Seq<(Seq<char>, Seq<char>)>, drawn: Seq<Seq<char>>, i: int)
    requires
        0 <= i < pairs.len(),
        !drawn.contains(pairs[i].0),
    ensures
        pending(pairs, drawn.push(pairs[i].0)) < pending(pairs, drawn),
    decreases pairs.len(),
{
    let more = drawn.push(pairs[i].0);
    assert(more[more.len() - 1] == pairs[i].0);
    assert forall|x: Seq<char>| drawn.contains(x) implies more.contains(x) by {
        let k = choose|k: int| 0 <= k < drawn.len() && drawn[k] == x;
        assert(more[k] == x);
    }
    if i == pairs.len() - 1 {
        lemma_pending_falls(pairs.drop_last(), drawn, more);
    } else {
        lemma_pending_drops(pairs.drop_last(), drawn, i);
    }
}

/// What was drawn before a cluster, or before clusters, is drawn after.
proof fn lemma_drawn_stays(
    g: GraphView,
    paths: Seq<Seq<char>>,
    drawn: Seq<Seq<char>>,
    theme: DotTheme,
    depth: nat,
    one: bool,
)
    requires
        one ==> paths.len() == 1,
    ensures
        forall|x: Seq<char>|
            drawn.contains(x) ==> (if one {
                cluster(g, paths[0], drawn, theme, depth).1
            } else {
                clusters(g, paths, drawn, theme, depth).1
            }).contains(x),
    decreases depth, if one {
        0nat
    } else {
        1 + paths.len()
    },
{
    if one {
        let path = paths[0];
        if !drawn.contains(path) && depth > 0 {
            let next = drawn.push(path);
            lemma_drawn_stays(
                g,
                children_of(g.module_parent, path),
                next,
                theme,
                (depth - 1) as nat,
                false,
            );
            assert forall|x: Seq<char>| drawn.contains(x) implies cluster(
                g,
                path,
                drawn,
                theme,
                depth,
            ).1.contains(x) by {
                let k = choose|k: int| 0 <= k < drawn.len() && drawn[k] == x;
                assert(next[k] == x);
                assert(next.contains(x));
                let inner = clusters(
                    g,
                    children_of(g.module_parent, path),
                    next,
                    theme,
                    (depth - 1) as nat,
                );
                assert(inner.1.contains(x));
                assert(cluster(g, path, drawn, theme, depth).1 == inner.1);
            }
        }
    } else if paths.len() > 0 {
        lemma_drawn_stays(g, seq![paths[0]], drawn, theme, depth, true);
        let first = cluster(g, paths[0], drawn, theme, depth);
        lemma_drawn_stays(g, paths.drop_first(), first.1, theme, depth, false);
    }
}

/// Each of the children that the pairs give a parent is the child of a
/// pair.
proof fn lemma_children_are_children(pairs: Seq<(Seq<char>, Seq<char>)>, parent: Seq<char>)
    ensures
        forall|k: int|
            0 <= k < children_of(pairs, parent).len() ==> is_child(
                pairs,
                #[trigger] children_of(pairs, parent)[k],
            ),
{
    lemma_children_found(pairs, parent);
    assert forall|k: int| 0 <= k < children_of(pairs, parent).len() implies is_child(
        pairs,
        #[trigger] children_of(pairs, parent)[k],
    ) by {
        let c = children_of(pairs, parent)[k];
        let i = choose|i: int| 0 <= i < pairs.len() && pairs[i] == (c, parent);
        assert(pairs[i].0 == c);
    }
}

/// The clusters of children do not depend on the depth, where it is no
/// less than what is pending.
proof fn lemma_depth_is_enough(
    g: GraphView,
    paths: Seq<Seq<char>>,
    drawn: Seq<Seq<char>>,
    theme: DotTheme,
    a: nat,
    b: nat,
    one: bool,
)
    requires
        one ==> paths.len() == 1,
        forall|k: int| 0 <= k < paths.len() ==> is_child(g.module_parent, #[trigger] paths[k]),
        a >= pending(g.module_parent, drawn),
        b >= pending(g.module_parent, drawn),
    ensures
        one ==> cluster(g, paths[0], drawn, theme, a) == cluster(g, paths[0], drawn, theme, b),
        !one ==> clusters(g, paths, drawn, theme, a) == clusters(g, paths, drawn, theme, b),
    decreases a, if one {
        0nat
    } else {
        1 + paths.len()
    },
{
    let pairs = g.module_parent;
    if one {
        let path = paths[0];
        if !drawn.contains(path) {
            let i = choose|i: int| 0 <= i < pairs.len() && (#[trigger] pairs[i]).0 == path;
            lemma_pending_drops(pairs, drawn, i);
            lemma_children_are_children(pairs, path);
            lemma_depth_is_enough(
                g,
                children_of(pairs, path),
                drawn.push(path),
                theme,
                (a - 1) as nat,
                (b - 1) as nat,
                false,
            );
        }
    } else if paths.len() > 0 {
        assert(is_child(pairs, paths[0]));
        lemma_depth_is_enough(g, seq![paths[0]], drawn, theme, a, b, true);
        let first = cluster(g, paths[0], drawn, theme, a);
        lemma_drawn_stays(g, seq![paths[0]], drawn, theme, a, true);
        lemma_pending_falls(pairs, drawn, first.1);
        assert forall|k: int| 0 <= k < paths.drop_first().len() implies is_child(
            pairs,
            #[trigger] paths.drop_first()[k],
        ) by {
            assert(paths.drop_first()[k] == paths[k + 1]);
        }
        lemma_depth_is_enough(g, paths.drop_first(), first.1, theme, a, b, false);
    }
}

/// The clusters of any modules do not depend on the depth, where it is
/// more than what is pending.
proof fn lemma_depth_is_enough_above(
    g: GraphView,
    paths: Seq<Seq<char>>,
    drawn: Seq<Seq<char>>,
    theme: DotTheme,
    a: nat,
    b: nat,
)
    requires
        a > pending(g.module_parent, drawn),
        b > pending(g.module_parent, drawn),
    ensures
        clusters(g, paths, drawn, theme, a) == clusters(g, paths, drawn, theme, b),
    decreases paths.len(),
{
    let pairs = g.module_parent;
    if paths.len() > 0 {
        let path = paths[0];
        if !drawn.contains(path) {
            let next = drawn.push(path);
            assert forall|x: Seq<char>| drawn.contains(x) implies next.contains(x) by {
                let k = choose|k: int| 0 <= k < drawn.len() && drawn[k] == x;
                assert(next[k] == x);
            }
            lemma_pending_falls(pairs, drawn, next);
            lemma_children_are_children(pairs, path);
            lemma_depth_is_enough(
                g,
                children_of(pairs, path),
                next,
                theme,
                (a - 1) as nat,
                (b - 1) as nat,
                false,
            );
        }
        let first = cluster(g, path, drawn, theme, a);
        assert(first == cluster(g, path, drawn, theme, b));
        lemma_drawn_stays(g, seq![path], drawn, theme, a, true);
        lemma_pending_falls(pairs, drawn, first.1);
        lemma_depth_is_enough_above(g, paths.drop_first(), first.1, theme, a, b);
    }
}

/// Clusters nest as deep as the modules do: a drawing allows for as much
/// depth as it can need, and with more it would be the same.
pub proof fn lemma_clusters_are_whole(g: GraphView, paths: Seq<Seq<char>>, theme: DotTheme, depth: nat)
    requires
        g.module_parent.len() < usize::MAX,
        depth >= cluster_depth(g),
    ensures
        clusters(g, paths, Seq::empty(), theme, depth) == clusters(
            g,
            paths,
            Seq::empty(),
            theme,
            cluster_depth(g),
        ),
{
    lemma_pending_bound(g.module_parent, Seq::empty());
    lemma_depth_is_enough_above(g, paths, Seq::empty(), theme, depth, cluster_depth(g));
}

fn push_node_line(out: &mut String, indent: &str, item: &Item, theme: DotTheme)
    ensures
        final(out)@ == old(out)@ + node_line(indent@, item@, theme),
{
    let ghost start = out@;
    let id = sanitize_id(item.id.0.as_str());
    let label = escape_label(item.name.as_str());
    let style = style_for_item_with_theme(&item.item_type, theme);
    out.append(indent);
    out.append("\"");
    out.append(id.as_str());
    out.append("\" [label=\"");
    out.append(label.as_str());
    out.append("\", fillcolor=\"");
    out.append(style.0);
    out.append("\", shape=\"");
    out.append(style.1);
    out.append("\", URL=\"item://");
    out.append(id.as_str());
    out.append("\", tooltip=\"");
    out.append(label.as_str());
    out.append("\"];\n");
    assert(out@ =~= start + node_line(indent@, item@, theme));
}

fn push_node_lines(out: &mut String, indent: &str, items: &Vec<Item>, theme: DotTheme)
    ensures
        final(out)@ == old(out)@ + node_lines(
            indent@,
            item_views(items@),
            theme,
            items.len() as int,
        ),
{
    let ghost start = out@;
    let ghost views = item_views(items@);
    let mut k: usize = 0;
    assert(start + node_lines(indent@, views, theme, 0) =~= start);
    while k < items.len()
        invariant
            k <= items.len(),
            views == item_views(items@),
            out@ == start + node_lines(indent@, views, theme, k as int),
        decreases items.len() - k,
    {
        assert(views[k as int] == items@[k as int]@);
        push_node_line(out, indent, &items[k], theme);
        assert(out@ =~= start + node_lines(indent@, views, theme, k + 1));
        k += 1;
    }
}

fn pen_width_text(strength: u8) -> (r: String)
    ensures
        r@ == pen_width(strength),
{
    let v: u128 = if strength < 80 {
        80
    } else {
        strength as u128
    };
    let mut out = decimal_string(v / 100);
    let frac = v % 100;
    if frac != 0 {
        out.append(".");
        let tens = decimal_string(frac / 10);
        out.append(tens.as_str());
        if frac % 10 != 0 {
            let ones = decimal_string(frac % 10);
            out.append(ones.as_str());
        }
    }
    out
}

fn edge_look_of(t: &RelationshipType) -> (r: (String, &'static str, &'static str))
    ensures
        (r.0@, r.1@, r.2@) == edge_look(t@),
{
    match t {
        RelationshipType::Uses { import_type } => (
            crate::text::concat("uses:", import_type.as_str()),
            "#1f77b4",
            "dashed",
        ),
        RelationshipType::Implements { trait_name } => (
            crate::text::concat("impl:", trait_name.as_str()),
            "#2ca02c",
            "dotted",
        ),
        RelationshipType::Contains { containment_type } => (
            crate::text::concat("contains:", containment_type.as_str()),
            "#7f7f7f",
            "solid",
        ),
        RelationshipType::Extends { extension_type } => (
            crate::text::concat("extends:", extension_type.as_str()),
            "#9467bd",
            "dashed",
        ),
        RelationshipType::Calls { call_type } => (
            crate::text::concat("calls:", call_type.as_str()),
            "#d62728",
            "solid",
        ),
    }
}

fn push_edge_line(out: &mut String, rel: &Relationship)
    ensures
        final(out)@ == old(out)@ + edge_line(rel@),
{
    let ghost start = out@;
    let from = sanitize_id(rel.from_item.0.as_str());
    let to = sanitize_id(rel.to_item.0.as_str());
    let look = edge_look_of(&rel.relationship_type);
    let label = escape_label(look.0.as_str());
    let width = pen_width_text(rel.strength);
    out.append("  \"");
    out.append(from.as_str());
    out.append("\" -> \"");
    out.append(to.as_str());
    out.append("\" [label=\"");
    out.append(label.as_str());
    out.append("\", color=\"");
    out.append(look.1);
    out.append("\", style=\"");
    out.append(look.2);
    out.append("\", penwidth=");
    out.append(width.as_str());
    out.append("];\n");
    assert(out@ =~= start + edge_line(rel@));
}

fn push_legend_line(out: &mut String, name: &str, kind: &ItemType, theme: DotTheme)
    ensures
        final(out)@ == old(out)@ + legend_line(name@, kind@, theme),
{
    let ghost start = out@;
    let style = style_for_item_with_theme(kind, theme);
    let raw = crate::text::concat("legend_", name);
    let id = sanitize_id(raw.as_str());
    out.append("    \"");
    out.append(id.as_str());
    out.append("\" [label=\"");
    out.append(name);
    out.append("\", fillcolor=\"");
    out.append(style.0);
    out.append("\", shape=\"");
    out.append(style.1);
    out.append("\"]; \n");
    assert(out@ =~= start + legend_line(name@, kind@, theme));
}

fn push_legend(out: &mut String, theme: DotTheme)
    ensures
        final(out)@ == old(out)@ + legend(theme),
{
    let ghost start = out@;
    out.append("  subgraph cluster_legend {\n    label=\"Legend\";\n    color=grey;\n");
    push_legend_line(out, "Module", &ItemType::Module { is_inline: false }, theme);
    push_legend_line(
        out,
        "Function",
        &ItemType::Function { is_async: false, is_const: false },
        theme,
    );
    push_legend_line(out, "Struct", &ItemType::Struct { is_tuple: false }, theme);
    push_legend_line(out, "Enum", &ItemType::Enum { variant_count: 0 }, theme);
    push_legend_line(out, "Trait", &ItemType::Trait { is_object_safe: false }, theme);
    out.append("  }\n");
    assert(out@ =~= start + legend(theme));
}

fn push_head(out: &mut String, opts: DotOptions)
    ensures
        final(out)@ == old(out)@ + dot_head(opts),
{
    let ghost start = out@;
    out.append("digraph KnowledgeRS\n{\n  rankdir=");
    out.append(
        match opts.rankdir {
            RankDir::LR => "LR",
            RankDir::TB => "TB",
        },
    );
    out.append(";\n  graph [fontname=Helvetica, splines=");
    out.append(
        match opts.splines {
            EdgeStyle::Curved => "curved",
            EdgeStyle::Ortho => "ortho",
            EdgeStyle::Polyline => "polyline",
        },
    );
    out.append("] ;\n  node [shape=box, fontsize=10, style=");
    out.append(
        if opts.rounded {
            "filled,rounded"
        } else {
            "filled"
        },
    );
    out.append("] ;\n  edge [fontname=Helvetica, fontsize=9];\n");
    assert(out@ =~= start + dot_head(opts));
}

fn push_cluster_open(out: &mut String, path: &str)
    ensures
        final(out)@ == old(out)@ + cluster_open(path@),
{
    let ghost start = out@;
    let id = sanitize_id(path);
    let label = match file_name_of(path) {
        Some(name) => escape_label(name.as_str()),
        None => {
            proof {
                reveal_strlit("");
                assert(""@ =~= Seq::<char>::empty());
            }
            escape_label("")
        },
    };
    out.append("  subgraph \"cluster_");
    out.append(id.as_str());
    out.append("\" {\n    label=\"");
    out.append(label.as_str());
    out.append("\";\n    color=lightgrey;\n");
    assert(out@ =~= start + cluster_open(path@));
}

fn push_cluster_nodes(out: &mut String, graph: &KnowledgeGraph, path: &str, theme: DotTheme)
    ensures
        final(out)@ == old(out)@ + cluster_nodes(graph@, path@, theme),
{
    match graph.get_file(path) {
        Some(f) => {
            push_node_lines(out, "    ", &f.items, theme);
        },
        None => {
            assert(out@ + Seq::<char>::empty() =~= out@);
        },
    }
}

fn write_module_cluster(
    graph: &KnowledgeGraph,
    path: &str,
    drawn: &mut Vec<String>,
    out: &mut String,
    theme: DotTheme,
    depth: usize,
)
    ensures
        final(out)@ == old(out)@ + cluster(
            graph@,
            path@,
            texts(old(drawn)@),
            theme,
            depth as nat,
        ).0,
        texts(final(drawn)@) == cluster(graph@, path@, texts(old(drawn)@), theme, depth as nat).1,
    decreases depth, 0nat,
{
    let ghost start = out@;
    let ghost before = texts(drawn@);
    if crate::cache::contains_text(drawn, path) || depth == 0 {
        assert(start + Seq::<char>::empty() =~= start);
        return;
    }
    drawn.push(path.to_owned());
    assert(texts(drawn@) =~= before.push(path@));
    push_cluster_open(out, path);
    push_cluster_nodes(out, graph, path, theme);
    let ghost mid = out@;
    assert(mid =~= start + cluster_open(path@) + cluster_nodes(graph@, path@, theme));
    let children = graph.get_module_children(path);
    assert(texts(children@).skip(0) =~= texts(children@));
    let ghost inner = clusters(
        graph@,
        texts(children@),
        before.push(path@),
        theme,
        (depth - 1) as nat,
    );
    write_module_clusters(graph, &children, 0, drawn, out, theme, depth - 1);
    assert(out@ == mid + inner.0);
    out.append("  }\n");
    assert(out@ =~= start + (cluster_open(path@) + cluster_nodes(graph@, path@, theme) + inner.0
        + "  }\n"@));
}

fn write_module_clusters(
    graph: &KnowledgeGraph,
    paths: &Vec<String>,
    from: usize,
    drawn: &mut Vec<String>,
    out: &mut String,
    theme: DotTheme,
    depth: usize,
)
    requires
        from <= paths.len(),
    ensures
        final(out)@ == old(out)@ + clusters(
            graph@,
            texts(paths@).skip(from as int),
            texts(old(drawn)@),
            theme,
            depth as nat,
        ).0,
        texts(final(drawn)@) == clusters(
            graph@,
            texts(paths@).skip(from as int),
            texts(old(drawn)@),
            theme,
            depth as nat,
        ).1,
    decreases depth, 1 + paths.len() - from,
{
    let ghost start = out@;
    let ghost before = texts(drawn@);
    let ghost rest = texts(paths@).skip(from as int);
    if from >= paths.len() {
        assert(start + Seq::<char>::empty() =~= start);
        return;
    }
    assert(rest[0] == paths@[from as int]@);
    assert(rest.drop_first() =~= texts(paths@).skip(from + 1));
    write_module_cluster(graph, paths[from].as_str(), drawn, out, theme, depth);
    write_module_clusters(graph, paths, from + 1, drawn, out, theme, depth);
    let ghost first = cluster(graph@, rest[0], before, theme, depth as nat);
    let ghost tail = clusters(graph@, rest.drop_first(), first.1, theme, depth as nat);
    assert(out@ =~= start + (first.0 + tail.0));
}

impl DotGenerator {
    /// The drawing of `graph` with the default options.
    pub fn generate_dot(&self, graph: &KnowledgeGraph) -> (r: Result<String, KnowledgeGraphError>)
        ensures
            r matches Ok(s) && s@ == dot_text(
                graph@,
                DotOptions {
                    clusters: true,
                    legend: true,
                    theme: DotTheme::Light,
                    rankdir: RankDir::LR,
                    splines: EdgeStyle::Curved,
                    rounded: true,
                },
            ),
    {
        self.generate_dot_with_options(graph, DotOptions::default())
    }

    /// The drawing of `graph` with the options `opts`; it never fails.
    pub fn generate_dot_with_options(&self, graph: &KnowledgeGraph, opts: DotOptions) -> (r:
        Result<String, KnowledgeGraphError>)
        ensures
            r matches Ok(s) && s@ == dot_text(graph@, opts),
    {
        let files = graph.files();
        let rels = graph.relationships();
        let ghost g = graph@;
        let mut out = String::new();
        push_head(&mut out, opts);
        assert(out@ =~= dot_head(opts));
        if opts.clusters {
            let mut roots: Vec<String> = Vec::new();
            let mut i: usize = 0;
            assert(texts(roots@) =~= Seq::<Seq<char>>::empty());
            while i < files.len()
                invariant
                    i <= files.len(),
                    g == graph@,
                    file_views(files@) == g.files,
                    texts(roots@) == root_paths(g, i as int),
                decreases files.len() - i,
            {
                let ghost before = texts(roots@);
                assert(g.files[i as int] == files@[i as int]@);
                if graph.get_module_parent(files[i].path.as_str()).is_none() {
                    roots.push(files[i].path.clone());
                    assert(texts(roots@) =~= before.push(files@[i as int].path@));
                }
                i += 1;
            }
            let parents = graph.module_parents();
            let pairs = parents.len();
            let depth = if pairs < usize::MAX {
                pairs + 1
            } else {
                usize::MAX
            };
            assert(crate::graph::pair_texts(parents@).len() == pairs);
            let mut drawn: Vec<String> = Vec::new();
            assert(texts(drawn@) =~= Seq::<Seq<char>>::empty());
            assert(texts(roots@).skip(0) =~= texts(roots@));
            write_module_clusters(graph, &roots, 0, &mut drawn, &mut out, opts.theme, depth);
        } else {
            let ghost start = out@;
            let mut i: usize = 0;
            assert(start + flat_nodes(g.files, opts.theme, 0) =~= start);
            while i < files.len()
                invariant
                    i <= files.len(),
                    g == graph@,
                    file_views(files@) == g.files,
                    out@ == start + flat_nodes(g.files, opts.theme, i as int),
                decreases files.len() - i,
            {
                assert(g.files[i as int] == files@[i as int]@);
                push_node_lines(&mut out, "  ", &files[i].items, opts.theme);
                assert(out@ =~= start + flat_nodes(g.files, opts.theme, i + 1));
                i += 1;
            }
        }
        let ghost nodes = out@;
        let mut k: usize = 0;
        assert(nodes + edge_lines(g.relationships, 0) =~= nodes);
        while k < rels.len()
            invariant
                k <= rels.len(),
                g == graph@,
                relationship_views(rels@) == g.relationships,
                out@ == nodes + edge_lines(g.relationships, k as int),
            decreases rels.len() - k,
        {
            assert(g.relationships[k as int] == rels@[k as int]@);
            push_edge_line(&mut out, &rels[k]);
            assert(out@ =~= nodes + edge_lines(g.relationships, k + 1));
            k += 1;
        }
        if opts.legend {
            push_legend(&mut out, opts.theme);
        } else {
            assert(out@ + Seq::<char>::empty() =~= out@);
        }
        out.append("}\n");
        assert(out@ =~= dot_text(g, opts));
        Ok(out)
    }
}

} // verus!
