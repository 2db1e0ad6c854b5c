//! The knowledge graph: the files of a source tree with their items, and
//! the relationships between items.

use crate::model::{
    file_views, item_views, relationship_views, texts, FileNode, FileNodeView, GraphMetadata,
    Item, ItemView, Relationship, RelationshipView,
};
use crate::paths::{module_segments, module_segments_of};
use crate::text::{
    lemma_lex_irreflexive, lemma_lex_total, lemma_lex_transitive, lex_lt, same_text, text_less,
};
use vstd::prelude::*;

verus! {

/// Whether the files stand in strictly ascending order of their paths. Paths
/// are ordered component by component: character by character, the
/// separator before every other character.
pub open spec fn paths_ascending(files: Seq<FileNodeView>) -> bool {
    forall|i: int, j: int|
        0 <= i < j < files.len() ==> lex_lt(
            (#[trigger] files[i]).path,
            (#[trigger] files[j]).path,
            true,
        )
}

/// In an ascending sequence a path names at most one file.
pub proof fn lemma_index_unique(files: Seq<FileNodeView>, i: int, j: int)
    requires
        paths_ascending(files),
        0 <= i < files.len(),
        0 <= j < files.len(),
        files[i].path == files[j].path,
    ensures
        i == j,
{
    lemma_lex_irreflexive(files[i].path, true);
}

/// The index of the first file with path `path`, if there is one.
pub open spec fn index_of_file(files: Seq<FileNodeView>, path: Seq<char>) -> Option<int>
    decreases files.len(),
{
    if files.len() == 0 {
        None
    } else if files.last().path == path && index_of_file(files.drop_last(), path) is None {
        Some(files.len() - 1)
    } else {
        index_of_file(files.drop_last(), path)
    }
}

/// The first file with path `path`, if there is one.
pub open spec fn find_file(files: Seq<FileNodeView>, path: Seq<char>) -> Option<FileNodeView> {
    match index_of_file(files, path) {
        Some(i) => Some(files[i]),
        None => None,
    }
}

/// Whether some file has path `path`.
pub open spec fn has_file(files: Seq<FileNodeView>, path: Seq<char>) -> bool {
    index_of_file(files, path) is Some
}

/// What `index_of_file` finds is the least index of a file with that path.
pub proof fn lemma_index_of_file(files: Seq<FileNodeView>, path: Seq<char>)
    ensures
        match index_of_file(files, path) {
            Some(i) => 0 <= i < files.len() && files[i].path == path && forall|k: int|
                0 <= k < i ==> (#[trigger] files[k]).path != path,
            None => forall|k: int| 0 <= k < files.len() ==> (#[trigger] files[k]).path != path,
        },
    decreases files.len(),
{
    if files.len() > 0 {
        lemma_index_of_file(files.drop_last(), path);
        assert forall|k: int| 0 <= k < files.len() - 1 implies files.drop_last()[k]
            == files[k] by {}
        match index_of_file(files.drop_last(), path) {
            Some(i) => {
                assert(files.drop_last()[i] == files[i]);
                assert forall|k: int| 0 <= k < i implies (#[trigger] files[k]).path != path by {
                    assert(files.drop_last()[k] == files[k]);
                }
            },
            None => {
                assert forall|k: int| 0 <= k < files.len() - 1 implies (#[trigger] files[k]).path
                    != path by {
                    assert(files.drop_last()[k] == files[k]);
                }
            },
        }
    }
}

/// Whether one of `items` has identifier `id`.
pub open spec fn has_item(items: Seq<ItemView>, id: Seq<char>) -> bool {
    exists|k: int| 0 <= k < items.len() && (#[trigger] items[k]).id == id
}

/// The first file that holds an item with identifier `id`: its index.
pub open spec fn owner_of(files: Seq<FileNodeView>, id: Seq<char>) -> Option<int>
    decreases files.len(),
{
    if files.len() == 0 {
        None
    } else if has_item(files.last().items, id) && owner_of(files.drop_last(), id) is None {
        Some(files.len() - 1)
    } else {
        owner_of(files.drop_last(), id)
    }
}

/// What `owner_of` finds is the least index of a file with such an item.
pub proof fn lemma_owner_of(files: Seq<FileNodeView>, id: Seq<char>)
    ensures
        match owner_of(files, id) {
            Some(i) => 0 <= i < files.len() && has_item(files[i].items, id) && forall|k: int|
                0 <= k < i ==> !has_item((#[trigger] files[k]).items, id),
            None => forall|k: int| 0 <= k < files.len() ==> !has_item(
                (#[trigger] files[k]).items,
                id,
            ),
        },
    decreases files.len(),
{
    if files.len() > 0 {
        lemma_owner_of(files.drop_last(), id);
        assert forall|k: int| 0 <= k < files.len() - 1 implies files.drop_last()[k]
            == files[k] by {}
        match owner_of(files.drop_last(), id) {
            Some(i) => {
                assert(files.drop_last()[i] == files[i]);
                assert forall|k: int| 0 <= k < i implies !has_item(
                    (#[trigger] files[k]).items,
                    id,
                ) by {
                    assert(files.drop_last()[k] == files[k]);
                }
            },
            None => {
                assert forall|k: int| 0 <= k < files.len() - 1 implies !has_item(
                    (#[trigger] files[k]).items,
                    id,
                ) by {
                    assert(files.drop_last()[k] == files[k]);
                }
            },
        }
    }
}

/// The first of `items` with identifier `id`.
pub open spec fn first_item_with(items: Seq<ItemView>, id: Seq<char>) -> Option<ItemView>
    decreases items.len(),
{
    if items.len() == 0 {
        None
    } else if items[0].id == id {
        Some(items[0])
    } else {
        first_item_with(items.drop_first(), id)
    }
}

/// Whether `id` is the identifier of the first item of the file that owns
/// it: the item that stands for the file itself.
pub open spec fn is_file_level(files: Seq<FileNodeView>, id: Seq<char>) -> bool {
    match owner_of(files, id) {
        Some(i) => files[i].items.len() > 0 && files[i].items[0].id == id,
        None => false,
    }
}

/// Whether the item that `id` names, in the file that owns it, is a
/// function.
pub open spec fn is_function_id(files: Seq<FileNodeView>, id: Seq<char>) -> bool {
    match owner_of(files, id) {
        Some(i) => match first_item_with(files[i].items, id) {
            Some(item) => item.item_type is Function,
            None => false,
        },
        None => false,
    }
}

/// Child and parent, or a path and what belongs to it: the value that the
/// first pair with key `key` holds.
pub open spec fn lookup<V>(pairs: Seq<(Seq<char>, V)>, key: Seq<char>) -> Option<V>
    decreases pairs.len(),
{
    if pairs.len() == 0 {
        None
    } else if pairs[0].0 == key {
        Some(pairs[0].1)
    } else {
        lookup(pairs.drop_first(), key)
    }
}

/// The module path of `path`: the one recorded for it, else the one that
/// the path itself gives.
pub open spec fn scope_for(stored: Seq<(Seq<char>, Seq<Seq<char>>)>, path: Seq<char>) -> Seq<
    Seq<char>,
> {
    match lookup(stored, path) {
        Some(v) => v,
        None => module_segments(path),
    }
}

/// The views of pairs of two paths.
pub open spec fn pair_texts(v: Seq<(String, String)>) -> Seq<(Seq<char>, Seq<char>)> {
    v.map_values(|p: (String, String)| (p.0@, p.1@))
}

/// The views of pairs of a path and a list of segments.
pub open spec fn segment_pair_texts(v: Seq<(String, Vec<String>)>) -> Seq<
    (Seq<char>, Seq<Seq<char>>),
> {
    v.map_values(|p: (String, Vec<String>)| (p.0@, texts(p.1@)))
}

/// The children that the pairs of child and parent give `parent`, in the
/// order of the pairs.
pub open spec fn children_of(pairs: Seq<(Seq<char>, Seq<char>)>, parent: Seq<char>) -> Seq<
    Seq<char>,
>
    decreases pairs.len(),
{
    if pairs.len() == 0 {
        Seq::empty()
    } else if pairs.last().1 == parent {
        children_of(pairs.drop_last(), parent).push(pairs.last().0)
    } else {
        children_of(pairs.drop_last(), parent)
    }
}

/// The index of the first of `files` with path `path`.
pub fn position_of(files: &Vec<FileNode>, path: &str) -> (r: Option<usize>)
    ensures
        match r {
            Some(i) => index_of_file(file_views(files@), path@) == Some(i as int) && i
                < files.len(),
            None => index_of_file(file_views(files@), path@) is None,
        },
{
    let ghost views = file_views(files@);
    let mut i: usize = 0;
    while i < files.len()
        invariant
            i <= files.len(),
            views == file_views(files@),
            forall|k: int| 0 <= k < i ==> (#[trigger] views[k]).path != path@,
        decreases files.len() - i,
    {
        assert(views[i as int] == files@[i as int]@);
        if same_text(files[i].path.as_str(), path) {
            proof {
                lemma_index_of_file(views, path@);
            }
            return Some(i);
        }
        i += 1;
    }
    proof {
        lemma_index_of_file(views, path@);
    }
    None
}

/// The first of `files` with path `path`.
pub fn find_in_files<'a>(files: &'a Vec<FileNode>, path: &str) -> (r: Option<&'a FileNode>)
    ensures
        match r {
            Some(f) => find_file(file_views(files@), path@) == Some(f@),
            None => find_file(file_views(files@), path@) is None,
        },
{
    match position_of(files, path) {
        Some(i) => {
            assert(file_views(files@)[i as int] == files@[i as int]@);
            Some(&files[i])
        },
        None => None,
    }
}

/// Whether one of `items` has identifier `id`.
pub fn items_have(items: &Vec<Item>, id: &str) -> (r: bool)
    ensures
        r == has_item(item_views(items@), id@),
{
    let ghost views = item_views(items@);
    let mut k: usize = 0;
    while k < items.len()
        invariant
            k <= items.len(),
            views == item_views(items@),
            forall|j: int| 0 <= j < k ==> (#[trigger] views[j]).id != id@,
        decreases items.len() - k,
    {
        assert(views[k as int] == items@[k as int]@);
        if same_text(items[k].id.0.as_str(), id) {
            return true;
        }
        k += 1;
    }
    false
}

/// The first of `items` with identifier `id`.
pub fn find_item<'a>(items: &'a Vec<Item>, id: &str) -> (r: Option<&'a Item>)
    ensures
        match r {
            Some(item) => first_item_with(item_views(items@), id@) == Some(item@),
            None => first_item_with(item_views(items@), id@) is None,
        },
{
    let ghost views = item_views(items@);
    let mut k: usize = 0;
    assert(views.skip(0) =~= views);
    while k < items.len()
        invariant
            k <= items.len(),
            views == item_views(items@),
            first_item_with(views, id@) == first_item_with(views.skip(k as int), id@),
        decreases items.len() - k,
    {
        assert(views.skip(k as int)[0] == items@[k as int]@);
        assert(views.skip(k as int).drop_first() =~= views.skip(k + 1));
        if same_text(items[k].id.0.as_str(), id) {
            return Some(&items[k]);
        }
        k += 1;
    }
    None
}

/// The index of the first of `files` that holds an item with identifier
/// `id`.
pub fn owner_index(files: &Vec<FileNode>, id: &str) -> (r: Option<usize>)
    ensures
        match r {
            Some(i) => owner_of(file_views(files@), id@) == Some(i as int) && i < files.len(),
            None => owner_of(file_views(files@), id@) is None,
        },
{
    let ghost views = file_views(files@);
    let mut i: usize = 0;
    while i < files.len()
        invariant
            i <= files.len(),
            views == file_views(files@),
            forall|k: int| 0 <= k < i ==> !has_item((#[trigger] views[k]).items, id@),
        decreases files.len() - i,
    {
        assert(views[i as int] == files@[i as int]@);
        if items_have(&files[i].items, id) {
            proof {
                lemma_owner_of(views, id@);
            }
            return Some(i);
        }
        i += 1;
    }
    proof {
        lemma_owner_of(views, id@);
    }
    None
}

/// Whether `id` names the first item of the file that owns it.
pub fn id_is_file_level(files: &Vec<FileNode>, id: &str) -> (r: bool)
    ensures
        r == is_file_level(file_views(files@), id@),
{
    match owner_index(files, id) {
        Some(i) => {
            assert(file_views(files@)[i as int] == files@[i as int]@);
            if files[i].items.len() > 0 {
                assert(item_views(files@[i as int].items@)[0] == files@[i as int].items@[0]@);
                same_text(files[i].items[0].id.0.as_str(), id)
            } else {
                false
            }
        },
        None => false,
    }
}

/// Whether `id` names a function.
pub fn id_is_function(files: &Vec<FileNode>, id: &str) -> (r: bool)
    ensures
        r == is_function_id(file_views(files@), id@),
{
    match owner_index(files, id) {
        Some(i) => {
            assert(file_views(files@)[i as int] == files@[i as int]@);
            match find_item(&files[i].items, id) {
                Some(item) => item.item_type.is_function(),
                None => false,
            }
        },
        None => false,
    }
}

/// The files of a source tree, ordered by path, with the relationships
/// between their items and the module hierarchy that the layout of the
/// files gives.
pub struct KnowledgeGraph {
    files: Vec<FileNode>,
    relationships: Vec<Relationship>,
    metadata: GraphMetadata,
    module_parent: Vec<(String, String)>,
    module_segments: Vec<(String, Vec<String>)>,
}

/// A graph as a mathematical value.
pub struct GraphView {
    /// The files, in ascending order of path.
    pub files: Seq<FileNodeView>,
    /// The relationships, in the order in which they were added.
    pub relationships: Seq<RelationshipView>,
    /// Pairs of a file and the file of its parent module: child, parent.
    pub module_parent: Seq<(Seq<char>, Seq<char>)>,
    /// Pairs of a file and its module path.
    pub module_segments: Seq<(Seq<char>, Seq<Seq<char>>)>,
    /// When the graph was generated, in seconds, as a decimal numeral.
    pub generated_at: Seq<char>,
}

impl View for KnowledgeGraph {
    type V = GraphView;

    closed spec fn view(&self) -> GraphView {
        GraphView {
            files: file_views(self.files@),
            relationships: relationship_views(self.relationships@),
            module_parent: pair_texts(self.module_parent@),
            module_segments: segment_pair_texts(self.module_segments@),
            generated_at: self.metadata.generated_at@,
        }
    }
}

impl KnowledgeGraph {
    /// What holds of every graph: its files are in ascending order of path,
    /// so no two of them have the same path.
    #[verifier::type_invariant]
    pub closed spec fn well_formed(&self) -> bool {
        paths_ascending(file_views(self.files@))
    }

    /// A graph without files.
    pub fn new() -> (g: KnowledgeGraph)
        ensures
            g@.files.len() == 0,
            g@.relationships.len() == 0,
            g@.module_parent.len() == 0,
            g@.module_segments.len() == 0,
            g@.generated_at.len() == 0,
    {
        KnowledgeGraph {
            files: Vec::new(),
            relationships: Vec::new(),
            metadata: GraphMetadata { generated_at: String::new() },
            module_parent: Vec::new(),
            module_segments: Vec::new(),
        }
    }

    /// The files, in ascending order of path.
    pub fn files(&self) -> (r: &Vec<FileNode>)
        ensures
            file_views(r@) == self@.files,
            paths_ascending(self@.files),
    {
        proof {
            use_type_invariant(self);
        }
        &self.files
    }

    /// The relationships.
    pub fn relationships(&self) -> (r: &Vec<Relationship>)
        ensures
            relationship_views(r@) == self@.relationships,
    {
        &self.relationships
    }

    /// When the graph was generated.
    pub fn metadata(&self) -> (r: &GraphMetadata)
        ensures
            r.generated_at@ == self@.generated_at,
    {
        &self.metadata
    }

    /// The file with path `path`.
    pub fn get_file(&self, path: &str) -> (r: Option<&FileNode>)
        ensures
            match r {
                Some(f) => find_file(self@.files, path@) == Some(f@),
                None => find_file(self@.files, path@) is None,
            },
    {
        find_in_files(&self.files, path)
    }

    /// Puts `node` into the graph under its path, in place of the file that
    /// had the path before, if there was one. Nothing else changes.
    pub fn insert_file(&mut self, node: FileNode)
        ensures
            find_file(final(self)@.files, node.path@) == Some(node@),
            forall|p: Seq<char>|
                p != node.path@ ==> find_file(final(self)@.files, p) == find_file(
                    old(self)@.files,
                    p,
                ),
            final(self)@.files.len() == old(self)@.files.len() + if has_file(
                old(self)@.files,
                node.path@,
            ) {
                0int
            } else {
                1int
            },
            final(self)@.relationships == old(self)@.relationships,
            final(self)@.module_parent == old(self)@.module_parent,
            final(self)@.module_segments == old(self)@.module_segments,
            final(self)@.generated_at == old(self)@.generated_at,
    {
        proof {
            use_type_invariant(&*self);
        }
        let ghost before = file_views(self.files@);
        let mut files: Vec<FileNode> = Vec::new();
        core::mem::swap(&mut self.files, &mut files);
        let mut pos: usize = 0;
        while pos < files.len() && text_less(files[pos].path.as_str(), node.path.as_str(), true)
            invariant
                pos <= files.len(),
                file_views(files@) == before,
                forall|k: int| 0 <= k < pos ==> lex_lt((#[trigger] before[k]).path, node.path@, true),
            decreases files.len() - pos,
        {
            assert(before[pos as int] == files@[pos as int]@);
            pos += 1;
        }
        if pos < files.len() {
            assert(before[pos as int] == files@[pos as int]@);
        }
        if pos < files.len() && same_text(files[pos].path.as_str(), node.path.as_str()) {
            let ghost after = before.update(pos as int, node@);
            proof {
                assert forall|i: int, j: int| 0 <= i < j < after.len() implies lex_lt(
                    (#[trigger] after[i]).path,
                    (#[trigger] after[j]).path,
                    true,
                ) by {
                    assert(lex_lt(before[i].path, before[j].path, true));
                }
                lemma_same_paths(before, after, node.path@);
                lemma_index_of_file(before, node.path@);
                lemma_index_of_file(after, node.path@);
                lemma_index_unique(
                    after,
                    index_of_file(after, node.path@)->0,
                    pos as int,
                );
            }
            files.set(pos, node);
            assert(file_views(files@) =~= after);
        } else {
            let ghost after = before.insert(pos as int, node@);
            proof {
                if pos < before.len() {
                    lemma_lex_total(before[pos as int].path, node.path@, true);
                }
                assert forall|i: int, j: int| 0 <= i < j < after.len() implies lex_lt(
                    (#[trigger] after[i]).path,
                    (#[trigger] after[j]).path,
                    true,
                ) by {
                    if j < pos {
                        assert(after[i] == before[i] && after[j] == before[j]);
                    } else if j == pos {
                        assert(after[i] == before[i]);
                    } else if i == pos {
                        assert(after[j] == before[j - 1]);
                        if j - 1 > pos {
                            assert(lex_lt(before[pos as int].path, before[j - 1].path, true));
                            lemma_lex_transitive(
                                node.path@,
                                before[pos as int].path,
                                before[j - 1].path,
                                true,
                            );
                        }
                    } else if i < pos {
                        assert(after[i] == before[i] && after[j] == before[j - 1]);
                        if j - 1 == pos {
                            lemma_lex_transitive(
                                before[i].path,
                                node.path@,
                                before[pos as int].path,
                                true,
                            );
                        }
                    } else {
                        assert(after[i] == before[i - 1] && after[j] == before[j - 1]);
                    }
                }
                assert(after[pos as int] == node@);
                lemma_index_of_file(before, node.path@);
                if index_of_file(before, node.path@) is Some {
                    let k = index_of_file(before, node.path@)->0;
                    if k < pos {
                        lemma_lex_irreflexive(node.path@, true);
                    } else {
                        assert(after[k + 1] == before[k]);
                        assert(lex_lt(after[pos as int].path, after[k + 1].path, true));
                        lemma_lex_irreflexive(node.path@, true);
                    }
                }
                lemma_index_of_file(after, node.path@);
                lemma_index_unique(after, index_of_file(after, node.path@)->0, pos as int);
                assert forall|p: Seq<char>| p != node.path@ implies find_file(after, p)
                    == find_file(before, p) by {
                    lemma_index_of_file(before, p);
                    lemma_index_of_file(after, p);
                    match index_of_file(before, p) {
                        Some(k) => {
                            let k2 = if k < pos {
                                k
                            } else {
                                k + 1
                            };
                            assert(after[k2] == before[k]);
                            lemma_index_unique(after, index_of_file(after, p)->0, k2);
                        },
                        None => {
                            if index_of_file(after, p) is Some {
                                let k = index_of_file(after, p)->0;
                                if k < pos {
                                    assert(before[k] == after[k]);
                                } else {
                                    assert(before[k - 1] == after[k]);
                                }
                            }
                        },
                    }
                }
            }
            files.insert(pos, node);
            assert(file_views(files@) =~= after);
        }
        core::mem::swap(&mut self.files, &mut files);
    }

    /// Adds a relationship after those that the graph has.
    pub fn add_relationship(&mut self, relationship: Relationship)
        ensures
            final(self)@.relationships == old(self)@.relationships.push(relationship@),
            final(self)@.files == old(self)@.files,
            final(self)@.module_parent == old(self)@.module_parent,
            final(self)@.module_segments == old(self)@.module_segments,
            final(self)@.generated_at == old(self)@.generated_at,
    {
        proof {
            use_type_invariant(&*self);
        }
        let ghost before = relationship_views(self.relationships@);
        let mut all: Vec<Relationship> = Vec::new();
        core::mem::swap(&mut self.relationships, &mut all);
        all.push(relationship);
        assert(relationship_views(all@) =~= before.push(relationship@));
        core::mem::swap(&mut self.relationships, &mut all);
    }

    /// Adds `more` after the relationships that the graph has.
    pub fn add_relationships(&mut self, more: Vec<Relationship>)
        ensures
            final(self)@.relationships == old(self)@.relationships + relationship_views(more@),
            final(self)@.files == old(self)@.files,
            final(self)@.module_parent == old(self)@.module_parent,
            final(self)@.module_segments == old(self)@.module_segments,
            final(self)@.generated_at == old(self)@.generated_at,
    {
        proof {
            use_type_invariant(&*self);
        }
        let ghost before = relationship_views(self.relationships@);
        let ghost added = relationship_views(more@);
        let mut more = more;
        let mut all: Vec<Relationship> = Vec::new();
        core::mem::swap(&mut self.relationships, &mut all);
        all.append(&mut more);
        assert(relationship_views(all@) =~= before + added);
        core::mem::swap(&mut self.relationships, &mut all);
    }

    /// The module path of `path`: the one recorded for it in the graph, else
    /// the one that the path itself gives.
    pub fn module_segments_for(&self, path: &str) -> (r: Vec<String>)
        ensures
            texts(r@) == scope_for(self@.module_segments, path@),
    {
        let ghost views = segment_pair_texts(self.module_segments@);
        let mut i: usize = 0;
        assert(views.skip(0) =~= views);
        while i < self.module_segments.len()
            invariant
                i <= self.module_segments.len(),
                views == segment_pair_texts(self.module_segments@),
                lookup(views, path@) == lookup(views.skip(i as int), path@),
            decreases self.module_segments.len() - i,
        {
            assert(views.skip(i as int)[0] == (
                self.module_segments@[i as int].0@,
                texts(self.module_segments@[i as int].1@),
            ));
            assert(views.skip(i as int).drop_first() =~= views.skip(i + 1));
            if same_text(self.module_segments[i].0.as_str(), path) {
                return crate::model::copy_strings(&self.module_segments[i].1);
            }
            i += 1;
        }
        module_segments_of(path)
    }

    /// The file of the parent module of `file`.
    pub fn get_module_parent(&self, file: &str) -> (r: Option<&String>)
        ensures
            crate::model::opt_text(
                match r {
                    Some(p) => Some(*p),
                    None => None,
                },
            ) == lookup(self@.module_parent, file@),
    {
        let ghost views = pair_texts(self.module_parent@);
        let mut i: usize = 0;
        assert(views.skip(0) =~= views);
        while i < self.module_parent.len()
            invariant
                i <= self.module_parent.len(),
                views == pair_texts(self.module_parent@),
                lookup(views, file@) == lookup(views.skip(i as int), file@),
            decreases self.module_parent.len() - i,
        {
            assert(views.skip(i as int)[0] == (
                self.module_parent@[i as int].0@,
                self.module_parent@[i as int].1@,
            ));
            assert(views.skip(i as int).drop_first() =~= views.skip(i + 1));
            if same_text(self.module_parent[i].0.as_str(), file) {
                return Some(&self.module_parent[i].1);
            }
            i += 1;
        }
        None
    }

    /// The files of the child modules of `file`: every file whose parent
    /// is `file`, in the order in which the hierarchy recorded them.
    pub fn get_module_children(&self, file: &str) -> (r: Vec<String>)
        ensures
            texts(r@) == children_of(self@.module_parent, file@),
    {
        let ghost views = pair_texts(self.module_parent@);
        let mut out: Vec<String> = Vec::new();
        let mut i: usize = 0;
        assert(views.take(0) =~= Seq::<(Seq<char>, Seq<char>)>::empty());
        assert(texts(out@) =~= Seq::<Seq<char>>::empty());
        while i < self.module_parent.len()
            invariant
                i <= self.module_parent.len(),
                views == pair_texts(self.module_parent@),
                texts(out@) == children_of(views.take(i as int), file@),
            decreases self.module_parent.len() - i,
        {
            let ghost before = texts(out@);
            assert(views.take(i + 1).drop_last() =~= views.take(i as int));
            assert(views.take(i + 1).last() == (
                self.module_parent@[i as int].0@,
                self.module_parent@[i as int].1@,
            ));
            if same_text(self.module_parent[i].1.as_str(), file) {
                out.push(self.module_parent[i].0.clone());
                assert(texts(out@) =~= before.push(self.module_parent@[i as int].0@));
            }
            i += 1;
        }
        assert(views.take(i as int) =~= views);
        out
    }

    /// The pairs of a file and the file of its parent module.
    pub fn module_parents(&self) -> (r: &Vec<(String, String)>)
        ensures
            pair_texts(r@) == self@.module_parent,
    {
        &self.module_parent
    }

    /// The pairs of a file and its module path.
    pub fn module_segments(&self) -> (r: &Vec<(String, Vec<String>)>)
        ensures
            segment_pair_texts(r@) == self@.module_segments,
    {
        &self.module_segments
    }

    /// Replaces the module hierarchy by `pairs` of child and parent.
    pub fn set_module_parents(&mut self, pairs: Vec<(String, String)>)
        ensures
            final(self)@.module_parent == pair_texts(pairs@),
            final(self)@.files == old(self)@.files,
            final(self)@.relationships == old(self)@.relationships,
            final(self)@.module_segments == old(self)@.module_segments,
            final(self)@.generated_at == old(self)@.generated_at,
    {
        proof {
            use_type_invariant(&*self);
        }
        self.module_parent = pairs;
    }

    /// Replaces the recorded module paths by `pairs` of file and segments.
    pub fn set_module_segments(&mut self, pairs: Vec<(String, Vec<String>)>)
        ensures
            final(self)@.module_segments == segment_pair_texts(pairs@),
            final(self)@.files == old(self)@.files,
            final(self)@.relationships == old(self)@.relationships,
            final(self)@.module_parent == old(self)@.module_parent,
            final(self)@.generated_at == old(self)@.generated_at,
    {
        proof {
            use_type_invariant(&*self);
        }
        self.module_segments = pairs;
    }

    /// Sets when the graph was generated.
    pub fn set_generated_at(&mut self, when: String)
        ensures
            final(self)@.generated_at == when@,
            final(self)@.files == old(self)@.files,
            final(self)@.relationships == old(self)@.relationships,
            final(self)@.module_parent == old(self)@.module_parent,
            final(self)@.module_segments == old(self)@.module_segments,
    {
        proof {
            use_type_invariant(&*self);
        }
        self.metadata = GraphMetadata { generated_at: when };
    }
}

/// Replacing a file by one with the same path leaves every path where it
/// was.
proof fn lemma_same_paths(before: Seq<FileNodeView>, after: Seq<FileNodeView>, changed: Seq<char>)
    requires
        before.len() == after.len(),
        forall|k: int| 0 <= k < before.len() ==> (#[trigger] before[k]).path == after[k].path,
        forall|k: int|
            0 <= k < before.len() && (#[trigger] before[k]).path != changed ==> before[k]
                == after[k],
    ensures
        forall|p: Seq<char>| index_of_file(after, p) == #[trigger] index_of_file(before, p),
        forall|p: Seq<char>|
            p != changed ==> find_file(after, p) == #[trigger] find_file(before, p),
    decreases before.len(),
{
    if before.len() > 0 {
        assert forall|k: int| 0 <= k < before.drop_last().len() implies (
        #[trigger] before.drop_last()[k]).path == after.drop_last()[k].path by {
            assert(before.drop_last()[k] == before[k]);
            assert(after.drop_last()[k] == after[k]);
        }
        assert forall|k: int|
            0 <= k < before.drop_last().len() && (#[trigger] before.drop_last()[k]).path
                != changed implies before.drop_last()[k] == after.drop_last()[k] by {
            assert(before.drop_last()[k] == before[k]);
            assert(after.drop_last()[k] == after[k]);
        }
        lemma_same_paths(before.drop_last(), after.drop_last(), changed);
        assert(before.last().path == after.last().path) by {
            assert(before[before.len() - 1].path == after[before.len() - 1].path);
        }
        assert forall|p: Seq<char>| index_of_file(after, p) == #[trigger] index_of_file(
            before,
            p,
        ) by {
            assert(index_of_file(after.drop_last(), p) == index_of_file(before.drop_last(), p));
        }
        assert forall|p: Seq<char>| p != changed implies find_file(after, p)
            == #[trigger] find_file(before, p) by {
            assert(index_of_file(after, p) == index_of_file(before, p));
            lemma_index_of_file(before, p);
            if index_of_file(before, p) is Some {
                let k = index_of_file(before, p)->0;
                assert(before[k].path != changed);
            }
        }
    }
}

/// Without its last file, an ascending sequence of files is ascending, and
/// holds under each path but that of the last file what it held.
pub proof fn lemma_without_last(files: Seq<FileNodeView>)
    requires
        paths_ascending(files),
        files.len() > 0,
    ensures
        paths_ascending(files.drop_last()),
        forall|p: Seq<char>|
            #[trigger] find_file(files.drop_last(), p) == if p == files.last().path {
                None
            } else {
                find_file(files, p)
            },
{
    let rest = files.drop_last();
    assert forall|i: int, j: int| 0 <= i < j < rest.len() implies lex_lt(
        (#[trigger] rest[i]).path,
        (#[trigger] rest[j]).path,
        true,
    ) by {
        assert(lex_lt(files[i].path, files[j].path, true));
    }
    assert forall|p: Seq<char>| #[trigger]
        find_file(rest, p) == if p == files.last().path {
            None
        } else {
            find_file(files, p)
        } by {
        lemma_index_of_file(rest, p);
        lemma_index_of_file(files, p);
        if p == files.last().path {
            if index_of_file(rest, p) is Some {
                let i = index_of_file(rest, p)->0;
                assert(rest[i] == files[i]);
                lemma_index_unique(files, i, files.len() - 1);
            }
        }
    }
}

/// Two ascending sequences of files that hold the same under every path
/// are one sequence: what is found under each path says what the files
/// of a graph are.
pub proof fn lemma_files_determined(a: Seq<FileNodeView>, b: Seq<FileNodeView>)
    requires
        paths_ascending(a),
        paths_ascending(b),
        forall|p: Seq<char>| find_file(a, p) == #[trigger] find_file(b, p),
    ensures
        a == b,
    decreases a.len(),
{
    if a.len() == 0 {
        if b.len() > 0 {
            lemma_index_of_file(b, b[0].path);
            lemma_index_of_file(a, b[0].path);
            assert(find_file(a, b[0].path) == find_file(b, b[0].path));
        }
        assert(a =~= b);
    } else {
        let x = a.last();
        lemma_index_of_file(a, x.path);
        lemma_index_of_file(b, x.path);
        assert(find_file(a, x.path) == find_file(b, x.path));
        lemma_index_unique(a, index_of_file(a, x.path)->0, a.len() - 1);
        let j = index_of_file(b, x.path)->0;
        assert(b[j] == x);
        let y = b.last();
        lemma_index_of_file(a, y.path);
        lemma_index_of_file(b, y.path);
        assert(find_file(a, y.path) == find_file(b, y.path));
        let i = index_of_file(a, y.path)->0;
        if j < b.len() - 1 {
            assert(lex_lt(b[j].path, b[b.len() - 1].path, true));
            if i < a.len() - 1 {
                assert(lex_lt(a[i].path, a[a.len() - 1].path, true));
                lemma_lex_transitive(x.path, y.path, x.path, true);
            }
            lemma_lex_irreflexive(x.path, true);
        }
        lemma_without_last(a);
        lemma_without_last(b);
        assert forall|p: Seq<char>| find_file(a.drop_last(), p) == #[trigger] find_file(
            b.drop_last(),
            p,
        ) by {
            assert(find_file(a, p) == find_file(b, p));
        }
        lemma_files_determined(a.drop_last(), b.drop_last());
        assert(a =~= a.drop_last().push(x));
        assert(b =~= b.drop_last().push(x));
    }
}

/// The child of every pair is among the children of its parent.
pub proof fn lemma_child_is_listed(pairs: Seq<(Seq<char>, Seq<char>)>, k: int)
    requires
        0 <= k < pairs.len(),
    ensures
        children_of(pairs, pairs[k].1).contains(pairs[k].0),
    decreases pairs.len(),
{
    let parent = pairs[k].1;
    let all = children_of(pairs, parent);
    if k == pairs.len() - 1 {
        assert(all.last() == pairs[k].0);
        assert(all[all.len() - 1] == pairs[k].0);
    } else {
        assert(pairs.drop_last()[k] == pairs[k]);
        lemma_child_is_listed(pairs.drop_last(), k);
        let before = children_of(pairs.drop_last(), parent);
        let at = choose|at: int| 0 <= at < before.len() && before[at] == pairs[k].0;
        assert(all[at] == pairs[k].0);
    }
}

/// Each child that the pairs give a parent has a pair with that parent.
pub proof fn lemma_children_found(pairs: Seq<(Seq<char>, Seq<char>)>, parent: Seq<char>)
    ensures
        forall|k: int|
            0 <= k < children_of(pairs, parent).len() ==> pairs.contains(
                (#[trigger] children_of(pairs, parent)[k], parent),
            ),
    decreases pairs.len(),
{
    if pairs.len() > 0 {
        lemma_children_found(pairs.drop_last(), parent);
        let rest = children_of(pairs.drop_last(), parent);
        assert forall|k: int| 0 <= k < children_of(pairs, parent).len() implies pairs.contains(
            (#[trigger] children_of(pairs, parent)[k], parent),
        ) by {
            if k < rest.len() {
                assert(children_of(pairs, parent)[k] == rest[k]);
                let i = choose|i: int|
                    0 <= i < pairs.drop_last().len() && pairs.drop_last()[i] == (rest[k], parent);
                assert(pairs[i] == (rest[k], parent));
            } else {
                assert(pairs[pairs.len() - 1] == (pairs.last().0, parent));
            }
        }
    }
}

} // verus!
