//! Finding an item by its name: every item of the name is a candidate, the
//! candidates are ranked, and the first is taken unless another is as
//! good.

use crate::cli::{kind_matches, ItemKindArg};
use crate::graph::{GraphView, KnowledgeGraph};
use crate::inspect::locate;
use crate::model::{file_views, FileNodeView, ItemId, ItemType, ItemTypeView};
use crate::paths::is_normal;
use crate::resolver::{all_named, id_texts, ids_named, split_text};
use crate::text::{lex_lt, same_text, segments, text_less};
use vstd::prelude::*;
use vstd::string::StringExecFns;

verus! {

/// An item that carries the name looked for: its identifier, its kind in a
/// word, and the path of its file.
#[derive(Debug, Clone, PartialEq, Eq)]
pub struct Candidate {
    pub id: ItemId,
    pub kind: String,
    pub path: String,
}

pub struct CandidateView {
    pub id: Seq<char>,
    pub kind: Seq<char>,
    pub path: Seq<char>,
}

impl View for Candidate {
    type V = CandidateView;

    open spec fn view(&self) -> CandidateView {
        CandidateView { id: self.id@, kind: self.kind@, path: self.path@ }
    }
}

/// The views of a sequence of candidates.
pub open spec fn candidate_views(v: Seq<Candidate>) -> Seq<CandidateView> {
    v.map_values(|c: Candidate| c@)
}

/// A kind of item in a word.
pub open spec fn kind_word(kind: ItemTypeView) -> Seq<char> {
    match kind {
        ItemTypeView::Module { .. } => "module"@,
        ItemTypeView::Function { .. } => "function"@,
        ItemTypeView::Struct { .. } => "struct"@,
        ItemTypeView::Enum { .. } => "enum"@,
        ItemTypeView::Trait { .. } => "trait"@,
        ItemTypeView::Impl { .. } => "impl"@,
        ItemTypeView::Const => "const"@,
        ItemTypeView::Static { .. } => "static"@,
        ItemTypeView::Type => "type"@,
        ItemTypeView::Macro => "macro"@,
    }
}

/// Whether an item of kind `kind` is of the kind that `arg` names; every
/// kind is, where none is named.
pub open spec fn kind_fits(arg: Option<ItemKindArg>, kind: ItemTypeView) -> bool {
    match arg {
        None => true,
        Some(ItemKindArg::Module) => kind is Module,
        Some(ItemKindArg::Function) => kind is Function,
        Some(ItemKindArg::Struct) => kind is Struct,
        Some(ItemKindArg::Enum) => kind is Enum,
        Some(ItemKindArg::Trait) => kind is Trait,
        Some(ItemKindArg::Impl) => kind is Impl,
        Some(ItemKindArg::Const) => kind is Const,
        Some(ItemKindArg::Static) => kind is Static,
        Some(ItemKindArg::Type) => kind is Type,
        Some(ItemKindArg::Macro) => kind is Macro,
    }
}

/// The candidates among the first `n` identifiers: for each identifier that
/// names an item of a fitting kind, that item, as the graph finds it.
pub open spec fn candidates(
    files: Seq<FileNodeView>,
    ids: Seq<Seq<char>>,
    kind: Option<ItemKindArg>,
    n: int,
) -> Seq<CandidateView>
    decreases n,
{
    if n <= 0 || n > ids.len() {
        Seq::empty()
    } else {
        match locate(files, ids[n - 1]) {
            Some(found) => if kind_fits(kind, found.1.item_type) {
                candidates(files, ids, kind, n - 1).push(
                    CandidateView {
                        id: ids[n - 1],
                        kind: kind_word(found.1.item_type),
                        path: found.0.path,
                    },
                )
            } else {
                candidates(files, ids, kind, n - 1)
            },
            None => candidates(files, ids, kind, n - 1),
        }
    }
}

/// How many normal components other than `src` the components have after
/// the first `src`; `seen` says that a `src` came before.
pub open spec fn depth_in(comps: Seq<Seq<char>>, seen: bool) -> nat
    decreases comps.len(),
{
    if comps.len() == 0 {
        0
    } else if comps[0] == "src"@ {
        depth_in(comps.drop_first(), true)
    } else if seen && is_normal(comps[0]) {
        1 + depth_in(comps.drop_first(), seen)
    } else {
        depth_in(comps.drop_first(), seen)
    }
}

/// How deep a path lies below its directory of sources.
pub open spec fn depth_below_src(path: Seq<char>) -> nat {
    depth_in(segments(path, seq!['/']), false)
}

/// Whether the components of `prefix` are the first components of `whole`.
pub open spec fn is_prefix(prefix: Seq<Seq<char>>, whole: Seq<Seq<char>>) -> bool {
    prefix.len() <= whole.len() && whole.take(prefix.len() as int) == prefix
}

/// Whether `path` lies in the directory `root`: both start at the root of
/// the file system or neither does, and the components of `root` are the
/// first components of `path`, components `.` aside.
pub open spec fn lies_in(path: Seq<char>, root: Seq<char>) -> bool {
    ((path.len() > 0 && path[0] == '/') == (root.len() > 0 && root[0] == '/')) && is_prefix(
        drop_dots(segments(root, seq!['/'])),
        drop_dots(segments(path, seq!['/'])),
    )
}

/// The components without those that read `.`.
pub open spec fn drop_dots(comps: Seq<Seq<char>>) -> Seq<Seq<char>>
    decreases comps.len(),
{
    if comps.len() == 0 {
        Seq::empty()
    } else if comps.last() == seq!['.'] {
        drop_dots(comps.drop_last())
    } else {
        drop_dots(comps.drop_last()).push(comps.last())
    }
}

/// Whether a candidate lies in the directory of sources that is preferred;
/// none does where none is preferred.
pub open spec fn preferred(c: CandidateView, root: Option<Seq<char>>) -> bool {
    match root {
        Some(r) => lies_in(c.path, r),
        None => false,
    }
}

/// Whether two candidates are equally good but for their paths: both lie
/// in the preferred directory or neither does, and they lie equally deep.
pub open spec fn same_rank(a: CandidateView, b: CandidateView, root: Option<Seq<char>>) -> bool {
    preferred(a, root) == preferred(b, root) && depth_below_src(a.path) == depth_below_src(b.path)
}

/// Whether `a` ranks before `b`: with a preferred directory, by lying in
/// it, then by lying less deep, then by path; without one, by path alone.
pub open spec fn ranks_first(a: CandidateView, b: CandidateView, root: Option<Seq<char>>) -> bool {
    match root {
        Some(_) => {
            ||| preferred(a, root) && !preferred(b, root)
            ||| preferred(a, root) == preferred(b, root) && depth_below_src(a.path)
                < depth_below_src(b.path)
            ||| same_rank(a, b, root) && lex_lt(a.path, b.path, true)
        },
        None => lex_lt(a.path, b.path, true),
    }
}

/// `ranked` with `x` put in before the first candidate that `x` ranks
/// before.
pub open spec fn rank_in(ranked: Seq<CandidateView>, x: CandidateView, root: Option<Seq<char>>)
    -> Seq<CandidateView>
    decreases ranked.len(),
{
    if ranked.len() == 0 {
        seq![x]
    } else if ranks_first(x, ranked[0], root) {
        seq![x] + ranked
    } else {
        seq![ranked[0]] + rank_in(ranked.drop_first(), x, root)
    }
}

/// The candidates in the order of their rank; candidates of one rank and
/// one path stay in the order in which they came.
pub open spec fn ranked(cands: Seq<CandidateView>, root: Option<Seq<char>>) -> Seq<CandidateView>
    decreases cands.len(),
{
    if cands.len() == 0 {
        Seq::empty()
    } else {
        rank_in(ranked(cands.drop_last(), root), cands.last(), root)
    }
}

/// What a search by name comes to.
#[derive(Debug, Clone, PartialEq, Eq)]
pub enum NameLookup {
    /// No item of a fitting kind has the name.
    NoMatch,
    /// Several items are equally good; they are given in the order of their
    /// rank.
    Ambiguous(Vec<Candidate>),
    /// The item found.
    Found(ItemId),
}

pub enum NameLookupView {
    NoMatch,
    Ambiguous(Seq<CandidateView>),
    Found(Seq<char>),
}

impl View for NameLookup {
    type V = NameLookupView;

    open spec fn view(&self) -> NameLookupView {
        match *self {
            NameLookup::NoMatch => NameLookupView::NoMatch,
            NameLookup::Ambiguous(c) => NameLookupView::Ambiguous(candidate_views(c@)),
            NameLookup::Found(id) => NameLookupView::Found(id@),
        }
    }
}

/// What the search for the item named `name` comes to: no match where there
/// is no candidate; else the first of the ranked candidates, unless the
/// second is of the same rank, which makes the name ambiguous.
pub open spec fn name_lookup(
    g: GraphView,
    name: Seq<char>,
    kind: Option<ItemKindArg>,
    root: Option<Seq<char>>,
) -> NameLookupView {
    let ids = all_named(g.files, name);
    let order = ranked(candidates(g.files, ids, kind, ids.len() as int), root);
    if order.len() == 0 {
        NameLookupView::NoMatch
    } else if order.len() > 1 && same_rank(order[1], order[0], root) {
        NameLookupView::Ambiguous(order)
    } else {
        NameLookupView::Found(order[0].id)
    }
}

fn kind_word_of(kind: &ItemType) -> (r: &'static str)
    ensures
        r@ == kind_word(kind@),
{
    match kind {
        ItemType::Module { .. } => "module",
        ItemType::Function { .. } => "function",
        ItemType::Struct { .. } => "struct",
        ItemType::Enum { .. } => "enum",
        ItemType::Trait { .. } => "trait",
        ItemType::Impl { .. } => "impl",
        ItemType::Const => "const",
        ItemType::Static { .. } => "static",
        ItemType::Type => "type",
        ItemType::Macro => "macro",
    }
}

fn slash() -> (r: &'static str)
    ensures
        r@ == seq!['/'],
{
    proof {
        reveal_strlit("/");
    }
    let r = "/";
    assert(r@ =~= seq!['/']);
    r
}

fn depth_of(path: &str) -> (r: usize)
    ensures
        r == depth_below_src(path@),
{
    let comps = split_text(path, slash());
    let ghost all = crate::model::texts(comps@);
    let mut seen = false;
    let mut count: usize = 0;
    let mut i: usize = 0;
    assert(all.skip(0) =~= all);
    while i < comps.len()
        invariant
            i <= comps.len(),
            all == crate::model::texts(comps@),
            count <= i,
            depth_in(all, false) == count + depth_in(all.skip(i as int), seen),
        decreases comps.len() - i,
    {
        assert(all.skip(i as int)[0] == comps@[i as int]@);
        assert(all.skip(i as int).drop_first() =~= all.skip(i + 1));
        let c = comps[i].as_str();
        if same_text(c, "src") {
            seen = true;
        } else if seen && !is_dots(c) {
            count += 1;
        }
        i += 1;
    }
    count
}

fn is_dots(c: &str) -> (r: bool)
    ensures
        r == !is_normal(c@),
{
    proof {
        reveal_strlit(".");
        reveal_strlit("..");
        assert("."@ =~= seq!['.']);
        assert(".."@ =~= seq!['.', '.']);
    }
    same_text(c, ".") || same_text(c, "..")
}

fn without_dots(comps: &Vec<String>) -> (r: Vec<String>)
    ensures
        crate::model::texts(r@) == drop_dots(crate::model::texts(comps@)),
{
    let ghost all = crate::model::texts(comps@);
    let mut out: Vec<String> = Vec::new();
    let mut i: usize = 0;
    assert(all.take(0) =~= Seq::<Seq<char>>::empty());
    assert(crate::model::texts(out@) =~= Seq::<Seq<char>>::empty());
    proof {
        reveal_strlit(".");
        assert("."@ =~= seq!['.']);
    }
    while i < comps.len()
        invariant
            i <= comps.len(),
            all == crate::model::texts(comps@),
            "."@ == seq!['.'],
            crate::model::texts(out@) == drop_dots(all.take(i as int)),
        decreases comps.len() - i,
    {
        let ghost before = crate::model::texts(out@);
        assert(all.take(i + 1).drop_last() =~= all.take(i as int));
        assert(all.take(i + 1).last() == comps@[i as int]@);
        if !same_text(comps[i].as_str(), ".") {
            out.push(comps[i].clone());
            assert(crate::model::texts(out@) =~= before.push(comps@[i as int]@));
        }
        i += 1;
    }
    assert(all.take(i as int) =~= all);
    out
}

fn starts_with_slash(s: &str) -> (r: bool)
    ensures
        r == (s@.len() > 0 && s@[0] == '/'),
{
    let chars = crate::text::chars_of(s);
    chars.len() > 0 && chars[0] == '/'
}

fn path_lies_in(path: &str, root: &str) -> (r: bool)
    ensures
        r == lies_in(path@, root@),
{
    if starts_with_slash(path) != starts_with_slash(root) {
        return false;
    }
    let whole = without_dots(&split_text(path, slash()));
    let prefix = without_dots(&split_text(root, slash()));
    if prefix.len() > whole.len() {
        return false;
    }
    let ghost w = crate::model::texts(whole@);
    let ghost p = crate::model::texts(prefix@);
    let mut i: usize = 0;
    assert(w.take(0) =~= p.take(0));
    while i < prefix.len()
        invariant
            i <= prefix.len() <= whole.len(),
            w == crate::model::texts(whole@),
            p == crate::model::texts(prefix@),
            lies_in(path@, root@) == is_prefix(p, w),
            w.take(i as int) == p.take(i as int),
        decreases prefix.len() - i,
    {
        if !same_text(prefix[i].as_str(), whole[i].as_str()) {
            assert(w.take(prefix.len() as int)[i as int] != p[i as int]);
            return false;
        }
        assert(w.take(i + 1) =~= w.take(i as int).push(whole@[i as int]@));
        assert(p.take(i + 1) =~= p.take(i as int).push(prefix@[i as int]@));
        i += 1;
    }
    assert(p.take(prefix.len() as int) =~= p);
    true
}

fn is_preferred(c: &Candidate, root: Option<&str>) -> (r: bool)
    ensures
        r == preferred(
            c@,
            match root {
                Some(x) => Some(x@),
                None => None,
            },
        ),
{
    match root {
        Some(x) => path_lies_in(c.path.as_str(), x),
        None => false,
    }
}

fn of_same_rank(a: &Candidate, b: &Candidate, root: Option<&str>) -> (r: bool)
    ensures
        r == same_rank(
            a@,
            b@,
            match root {
                Some(x) => Some(x@),
                None => None,
            },
        ),
{
    is_preferred(a, root) == is_preferred(b, root) && depth_of(a.path.as_str()) == depth_of(
        b.path.as_str(),
    )
}

fn goes_first(a: &Candidate, b: &Candidate, root: Option<&str>) -> (r: bool)
    ensures
        r == ranks_first(
            a@,
            b@,
            match root {
                Some(x) => Some(x@),
                None => None,
            },
        ),
{
    let by_path = text_less(a.path.as_str(), b.path.as_str(), true);
    match root {
        Some(_) => {
            let pa = is_preferred(a, root);
            let pb = is_preferred(b, root);
            let da = depth_of(a.path.as_str());
            let db = depth_of(b.path.as_str());
            (pa && !pb) || (pa == pb && da < db) || (pa == pb && da == db && by_path)
        },
        None => by_path,
    }
}

/// The candidates for the name `name`, in the order in which their items
/// stand in the graph.
pub fn candidates_for(graph: &KnowledgeGraph, name: &str, kind: Option<ItemKindArg>) -> (r: Vec<
    Candidate,
>)
    ensures
        candidate_views(r@) == candidates(
            graph@.files,
            all_named(graph@.files, name@),
            kind,
            all_named(graph@.files, name@).len() as int,
        ),
{
    let files = graph.files();
    let ids = ids_named(files, name);
    let ghost all = id_texts(ids@);
    let mut out: Vec<Candidate> = Vec::new();
    let mut i: usize = 0;
    assert(candidate_views(out@) =~= Seq::<CandidateView>::empty());
    while i < ids.len()
        invariant
            i <= ids.len(),
            all == id_texts(ids@),
            file_views(files@) == graph@.files,
            candidate_views(out@) == candidates(graph@.files, all, kind, i as int),
        decreases ids.len() - i,
    {
        let ghost before = candidate_views(out@);
        assert(all[i as int] == ids@[i as int]@);
        match crate::inspect::locate_in(files, ids[i].0.as_str()) {
            Some(found) => {
                let fits = match kind {
                    Some(k) => kind_matches(k, &found.1.item_type),
                    None => true,
                };
                if fits {
                    let c = Candidate {
                        id: ids[i].copy(),
                        kind: String::from_str(kind_word_of(&found.1.item_type)),
                        path: found.0.path.clone(),
                    };
                    out.push(c);
                    assert(candidate_views(out@) =~= before.push(c@));
                }
            },
            None => {},
        }
        i += 1;
    }
    out
}

/// The candidates in the order of their rank.
pub fn rank_candidates(cands: Vec<Candidate>, root: Option<&str>) -> (r: Vec<Candidate>)
    ensures
        candidate_views(r@) == ranked(
            candidate_views(cands@),
            match root {
                Some(x) => Some(x@),
                None => None,
            },
        ),
{
    let ghost want = candidate_views(cands@);
    let ghost base: Option<Seq<char>> = match root {
        Some(x) => Some(x@),
        None => None,
    };
    let mut rest = crate::cache::reversed(cands);
    let ghost total = want.len();
    assert(rest.len() == total);
    let mut out: Vec<Candidate> = Vec::new();
    let mut n: usize = 0;
    assert(want.take(0) =~= Seq::<CandidateView>::empty());
    assert(candidate_views(out@) =~= Seq::<CandidateView>::empty());
    while rest.len() > 0
        invariant
            n + rest.len() == total,
            total == want.len(),
            total <= usize::MAX,
            base == match root {
                Some(x) => Some(x@),
                None => None,
            },
            forall|k: int|
                0 <= k < rest.len() ==> (#[trigger] rest@[k])@ == want[total - 1 - k],
            candidate_views(out@) == ranked(want.take(n as int), base),
        decreases rest.len(),
    {
        let ghost sorted = candidate_views(out@);
        let x = rest.pop().unwrap();
        assert(x@ == want[n as int]);
        assert(want.take(n + 1).drop_last() =~= want.take(n as int));
        assert(want.take(n + 1).last() == want[n as int]);
        let mut pos: usize = 0;
        assert(sorted.skip(0) =~= sorted);
        assert(sorted.take(0) + rank_in(sorted, x@, base) =~= rank_in(sorted, x@, base));
        while pos < out.len() && !goes_first(&x, &out[pos], root)
            invariant
                pos <= out.len(),
                sorted == candidate_views(out@),
                base == match root {
                    Some(r) => Some(r@),
                    None => None,
                },
                rank_in(sorted, x@, base) == sorted.take(pos as int) + rank_in(
                    sorted.skip(pos as int),
                    x@,
                    base,
                ),
            decreases out.len() - pos,
        {
            assert(sorted.skip(pos as int)[0] == out@[pos as int]@);
            assert(sorted.skip(pos as int).drop_first() =~= sorted.skip(pos + 1));
            assert(sorted.take(pos as int) + (seq![sorted[pos as int]] + rank_in(
                sorted.skip(pos + 1),
                x@,
                base,
            )) =~= sorted.take(pos + 1) + rank_in(sorted.skip(pos + 1), x@, base));
            pos += 1;
        }
        proof {
            if pos < out.len() {
                assert(sorted.skip(pos as int)[0] == out@[pos as int]@);
            }
            assert(sorted.take(pos as int) + (seq![x@] + sorted.skip(pos as int))
                =~= sorted.insert(pos as int, x@));
        }
        out.insert(pos, x);
        assert(candidate_views(out@) =~= sorted.insert(pos as int, x@));
        n += 1;
    }
    assert(want.take(n as int) =~= want);
    out
}

/// Finds the item named `name`, of the kind `kind` where one is given;
/// candidates in the directory of sources `root_src` are preferred. See
/// `name_lookup`.
pub fn lookup_by_name(
    graph: &KnowledgeGraph,
    name: &str,
    kind: Option<ItemKindArg>,
    root_src: Option<&str>,
) -> (r: NameLookup)
    ensures
        r@ == name_lookup(
            graph@,
            name@,
            kind,
            match root_src {
                Some(x) => Some(x@),
                None => None,
            },
        ),
{
    let found = candidates_for(graph, name, kind);
    let order = rank_candidates(found, root_src);
    if order.len() == 0 {
        return NameLookup::NoMatch;
    }
    assert(candidate_views(order@)[0] == order@[0]@);
    if order.len() > 1 {
        assert(candidate_views(order@)[1] == order@[1]@);
        if of_same_rank(&order[1], &order[0], root_src) {
            return NameLookup::Ambiguous(order);
        }
    }
    NameLookup::Found(order[0].id.copy())
}

} // verus!
