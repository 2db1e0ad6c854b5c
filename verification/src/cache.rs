//! The cache of a build: for each source file, the metadata it had when it
//! was last read and the file node that was extracted from it then.

use crate::model::{
    item_views, texts, FileNode, FileNodeView, Item, ItemId, ItemType, ItemTypeView, ItemView,
    Location, LocationView, Visibility, VisibilityView,
};
use crate::paths::{file_stem, file_stem_of};
use crate::text::{concat, same_text};
use vstd::prelude::*;
use vstd::string::StringExecFns;

verus! {

/// What is known of a file without reading it: when it was last modified,
/// in seconds, and how long it is, in bytes.
#[derive(Debug, Clone, Copy, PartialEq, Eq, Structural, Default)]
pub struct CacheEntryMeta {
    pub mtime: u64,
    pub len: u64,
}

/// A source file as it was found: its path, its metadata, and its text, or
/// else why the text could not be read.
#[derive(Debug, PartialEq, Eq)]
pub struct SourceFile {
    pub path: String,
    pub meta: CacheEntryMeta,
    pub content: Result<String, String>,
}

/// What the cache keeps of one file.
#[derive(Debug, Clone, PartialEq, Eq)]
pub struct CacheEntry {
    pub meta: CacheEntryMeta,
    pub node: FileNode,
}

/// How a build treats the cache.
#[derive(Debug, Clone, Copy, PartialEq, Eq, Structural)]
pub enum CacheMode {
    /// Reuse what the cache holds of the files that have not changed.
    Use,
    /// Read every file anew.
    Ignore,
    /// Read every file anew; the cache on disk is deleted beforehand.
    Rebuild,
}

/// The item that stands for the file `path` as a module: first among the
/// items of its file node.
pub open spec fn file_item(path: Seq<char>) -> ItemView {
    ItemView {
        id: "file:"@ + path,
        item_type: ItemTypeView::Module { is_inline: false },
        name: match file_stem(path) {
            Some(s) => s,
            None => "(file)"@,
        },
        visibility: VisibilityView::PubCrate,
        location: LocationView { file: path, line_start: 1, line_end: 1 },
        attributes: Seq::empty(),
    }
}

/// Whether the node is that of a file in a built graph: its first item is
/// the one that stands for the file.
pub open spec fn is_file_node(node: FileNodeView) -> bool {
    node.items.len() > 0 && node.items[0] == file_item(node.path)
}

/// The item that stands for the file `path`.
pub fn file_level_item(path: &str) -> (r: Item)
    ensures
        r@ == file_item(path@),
{
    let name = match file_stem_of(path) {
        Some(s) => s,
        None => String::from_str("(file)"),
    };
    let attributes: Vec<String> = Vec::new();
    assert(texts(attributes@) =~= Seq::<Seq<char>>::empty());
    Item {
        id: ItemId(concat("file:", path)),
        item_type: ItemType::Module { is_inline: false },
        name,
        visibility: Visibility::PubCrate,
        location: Location { file: String::from_str(path), line_start: 1, line_end: 1 },
        attributes,
    }
}

/// Whether `node` is the node of a file in a built graph.
pub fn node_is_file_node(node: &FileNode) -> (r: bool)
    ensures
        r == is_file_node(node@),
{
    if node.items.len() == 0 {
        return false;
    }
    let first = &node.items[0];
    assert(item_views(node.items@)[0] == first@);
    let expected = file_level_item(node.path.as_str());
    let kind_ok = match &first.item_type {
        ItemType::Module { is_inline } => !*is_inline,
        _ => false,
    };
    let vis_ok = match &first.visibility {
        Visibility::PubCrate => true,
        _ => false,
    };
    let r = same_text(first.id.0.as_str(), expected.id.0.as_str()) && kind_ok && same_text(
        first.name.as_str(),
        expected.name.as_str(),
    ) && vis_ok && same_text(first.location.file.as_str(), node.path.as_str())
        && first.location.line_start == 1 && first.location.line_end == 1
        && first.attributes.len() == 0;
    proof {
        if r {
            assert(texts(first.attributes@) =~= Seq::<Seq<char>>::empty());
            assert(first@.item_type == file_item(node.path@).item_type);
            assert(first@.visibility == file_item(node.path@).visibility);
            assert(first@.location == file_item(node.path@).location);
            assert(first@ == file_item(node.path@));
        } else {
            if first@ == file_item(node.path@) {
                assert(texts(first.attributes@).len() == 0);
            }
        }
    }
    r
}

/// The first entry for the file `path`.
pub open spec fn entry_for(entries: Seq<CacheEntry>, path: Seq<char>) -> Option<CacheEntry>
    decreases entries.len(),
{
    if entries.len() == 0 {
        None
    } else if entries[0].node.path@ == path {
        Some(entries[0])
    } else {
        entry_for(entries.drop_first(), path)
    }
}

/// Whether every entry holds the node of a file in a built graph.
pub open spec fn entries_sound(entries: Seq<CacheEntry>) -> bool {
    forall|i: int| 0 <= i < entries.len() ==> is_file_node((#[trigger] entries[i]).node@)
}

/// An entry that `entry_for` finds is one of the entries.
pub proof fn lemma_entry_for(entries: Seq<CacheEntry>, path: Seq<char>)
    ensures
        match entry_for(entries, path) {
            Some(e) => entries.contains(e) && e.node.path@ == path,
            None => forall|i: int|
                0 <= i < entries.len() ==> (#[trigger] entries[i]).node.path@ != path,
        },
    decreases entries.len(),
{
    if entries.len() > 0 {
        if entries[0].node.path@ == path {
            assert(entries.contains(entries[0]));
        } else {
            lemma_entry_for(entries.drop_first(), path);
            match entry_for(entries.drop_first(), path) {
                Some(e) => {
                    let k = choose|k: int|
                        0 <= k < entries.drop_first().len() && entries.drop_first()[k] == e;
                    assert(entries[k + 1] == e);
                },
                None => {
                    assert forall|i: int| 0 <= i < entries.len() implies (
                    #[trigger] entries[i]).node.path@ != path by {
                        if i > 0 {
                            assert(entries.drop_first()[i - 1] == entries[i]);
                        }
                    }
                },
            }
        }
    }
}

/// The cache: at most one entry for a file counts, the first; every entry
/// holds the node of a file in a built graph.
pub struct Cache {
    entries: Vec<CacheEntry>,
}

impl Cache {
    /// The entries, in the order in which they were put in.
    pub closed spec fn entry_seq(&self) -> Seq<CacheEntry> {
        self.entries@
    }

    #[verifier::type_invariant]
    closed spec fn sound(&self) -> bool {
        entries_sound(self.entries@)
    }

    /// A cache without entries.
    pub fn new() -> (c: Cache)
        ensures
            c.entry_seq().len() == 0,
    {
        Cache { entries: Vec::new() }
    }

    /// The entries.
    pub fn entries(&self) -> (r: &Vec<CacheEntry>)
        ensures
            r@ == self.entry_seq(),
            entries_sound(r@),
    {
        proof {
            use_type_invariant(self);
        }
        &self.entries
    }

    /// The entry for the file `path`.
    pub fn get(&self, path: &str) -> (r: Option<&CacheEntry>)
        ensures
            match r {
                Some(e) => entry_for(self.entry_seq(), path@) == Some(*e) && is_file_node(e.node@),
                None => entry_for(self.entry_seq(), path@) is None,
            },
    {
        proof {
            use_type_invariant(self);
            lemma_entry_for(self.entries@, path@);
        }
        let mut i: usize = 0;
        assert(self.entries@.skip(0) =~= self.entries@);
        while i < self.entries.len()
            invariant
                i <= self.entries.len(),
                entry_for(self.entries@, path@) == entry_for(self.entries@.skip(i as int), path@),
            decreases self.entries.len() - i,
        {
            assert(self.entries@.skip(i as int)[0] == self.entries@[i as int]);
            assert(self.entries@.skip(i as int).drop_first() =~= self.entries@.skip(i + 1));
            if same_text(self.entries[i].node.path.as_str(), path) {
                proof {
                    use_type_invariant(self);
                }
                return Some(&self.entries[i]);
            }
            i += 1;
        }
        None
    }

    /// Puts `entry` into the cache, in place of the entry that its file
    /// had, if it had one. An entry whose node is not that of a file in a
    /// built graph is refused, and the cache stays as it is. Says whether
    /// the entry was taken.
    pub fn insert(&mut self, entry: CacheEntry) -> (taken: bool)
        ensures
            taken == is_file_node(entry.node@),
            !taken ==> final(self).entry_seq() == old(self).entry_seq(),
            taken ==> entry_for(final(self).entry_seq(), entry.node.path@) == Some(entry),
            taken ==> forall|p: Seq<char>|
                p != entry.node.path@ ==> entry_for(final(self).entry_seq(), p) == entry_for(
                    old(self).entry_seq(),
                    p,
                ),
    {
        proof {
            use_type_invariant(&*self);
        }
        if !node_is_file_node(&entry.node) {
            return false;
        }
        let ghost before = self.entries@;
        let mut all: Vec<CacheEntry> = Vec::new();
        core::mem::swap(&mut self.entries, &mut all);
        let mut i: usize = 0;
        while i < all.len() && !same_text(
            all[i].node.path.as_str(),
            entry.node.path.as_str(),
        )
            invariant
                i <= all.len(),
                all@ == before,
                forall|k: int| 0 <= k < i ==> (#[trigger] before[k]).node.path@ != entry.node.path@,
            decreases all.len() - i,
        {
            i += 1;
        }
        if i < all.len() {
            all.set(i, entry);
        } else {
            all.push(entry);
        }
        proof {
            let after = all@;
            lemma_entry_at(after, i as int);
            assert forall|p: Seq<char>| p != entry.node.path@ implies entry_for(after, p)
                == entry_for(before, p) by {
                lemma_entry_replaced(before, after, i as int, p);
            }
        }
        core::mem::swap(&mut self.entries, &mut all);
        true
    }

    /// Drops the entries of the files that are not among `present`.
    pub fn retain_paths(&mut self, present: &Vec<String>)
        ensures
            final(self).entry_seq() == kept_entries(old(self).entry_seq(), texts(present@)),
    {
        proof {
            use_type_invariant(&*self);
        }
        let ghost before = self.entries@;
        let ghost wanted = texts(present@);
        let mut all: Vec<CacheEntry> = Vec::new();
        core::mem::swap(&mut self.entries, &mut all);
        let mut rev: Vec<CacheEntry> = Vec::new();
        assert(before.skip(before.len() as int) =~= Seq::<CacheEntry>::empty());
        assert(rev@ =~= kept_entries(Seq::<CacheEntry>::empty(), wanted).reverse());
        while all.len() > 0
            invariant
                all@ == before.take(all@.len() as int),
                all@.len() <= before.len(),
                wanted == texts(present@),
                rev@ == kept_entries(before.skip(all@.len() as int), wanted).reverse(),
            decreases all.len(),
        {
            let ghost len = all@.len();
            let ghost rev_before = rev@;
            let e = all.pop().unwrap();
            assert(e == before[len - 1]);
            assert(all@ =~= before.take(len - 1));
            assert(before.skip(len - 1)[0] == e);
            assert(before.skip(len - 1).drop_first() =~= before.skip(len as int));
            if contains_text(present, e.node.path.as_str()) {
                rev.push(e);
                assert(rev@ =~= (seq![e] + kept_entries(before.skip(len as int), wanted)).reverse());
            }
        }
        assert(before.skip(0) =~= before);
        let mut kept = reversed(rev);
        proof {
            let k = kept_entries(before, wanted);
            assert(k.reverse().reverse() =~= k);
            lemma_kept_sound(before, wanted);
        }
        core::mem::swap(&mut self.entries, &mut kept);
    }
}

/// The entries among `entries` whose file is one of `present`, in order.
pub open spec fn kept_entries(entries: Seq<CacheEntry>, present: Seq<Seq<char>>) -> Seq<CacheEntry>
    decreases entries.len(),
{
    if entries.len() == 0 {
        Seq::empty()
    } else if present.contains(entries[0].node.path@) {
        seq![entries[0]] + kept_entries(entries.drop_first(), present)
    } else {
        kept_entries(entries.drop_first(), present)
    }
}

/// Dropping entries keeps the others sound.
pub proof fn lemma_kept_sound(entries: Seq<CacheEntry>, present: Seq<Seq<char>>)
    requires
        entries_sound(entries),
    ensures
        entries_sound(kept_entries(entries, present)),
    decreases entries.len(),
{
    if entries.len() > 0 {
        assert forall|i: int| 0 <= i < entries.drop_first().len() implies is_file_node(
            (#[trigger] entries.drop_first()[i]).node@,
        ) by {
            assert(entries.drop_first()[i] == entries[i + 1]);
        }
        lemma_kept_sound(entries.drop_first(), present);
    }
}

/// Among the entries kept, a file that is present has the entry it had, and
/// a file that is not has none.
pub proof fn lemma_kept_entry_for(entries: Seq<CacheEntry>, present: Seq<Seq<char>>, p: Seq<char>)
    ensures
        entry_for(kept_entries(entries, present), p) == if present.contains(p) {
            entry_for(entries, p)
        } else {
            None
        },
    decreases entries.len(),
{
    if entries.len() > 0 {
        lemma_kept_entry_for(entries.drop_first(), present, p);
        if present.contains(entries[0].node.path@) {
            let k = seq![entries[0]] + kept_entries(entries.drop_first(), present);
            assert(k[0] == entries[0]);
            assert(k.drop_first() =~= kept_entries(entries.drop_first(), present));
        }
    }
}

/// The elements of `v` in the opposite order.
pub fn reversed<T>(v: Vec<T>) -> (r: Vec<T>)
    ensures
        r@ == v@.reverse(),
{
    let ghost start = v@;
    let mut v = v;
    let mut out: Vec<T> = Vec::new();
    assert(out@ =~= start.reverse().take(0));
    while v.len() > 0
        invariant
            v@ == start.take(v@.len() as int),
            v@.len() <= start.len(),
            out@ == start.reverse().take(start.len() - v@.len()),
        decreases v.len(),
    {
        let ghost len = v@.len();
        let ghost before = out@;
        let e = v.pop().unwrap();
        out.push(e);
        assert(v@ =~= start.take(len - 1));
        assert(out@ =~= start.reverse().take(start.len() - len + 1));
    }
    assert(out@ =~= start.reverse());
    out
}

proof fn lemma_entry_at(entries: Seq<CacheEntry>, i: int)
    requires
        0 <= i < entries.len(),
        forall|k: int| 0 <= k < i ==> (#[trigger] entries[k]).node.path@ != entries[i].node.path@,
    ensures
        entry_for(entries, entries[i].node.path@) == Some(entries[i]),
    decreases i,
{
    if i > 0 {
        assert(entries[0].node.path@ != entries[i].node.path@);
        assert forall|k: int| 0 <= k < i - 1 implies (#[trigger] entries.drop_first()[k]).node.path@
            != entries.drop_first()[i - 1].node.path@ by {
            assert(entries.drop_first()[k] == entries[k + 1]);
        }
        lemma_entry_at(entries.drop_first(), i - 1);
    }
}

proof fn lemma_entry_replaced(
    before: Seq<CacheEntry>,
    after: Seq<CacheEntry>,
    i: int,
    p: Seq<char>,
)
    requires
        0 <= i <= before.len(),
        after.len() == if i < before.len() {
            before.len()
        } else {
            before.len() + 1
        },
        forall|k: int| 0 <= k < before.len() && k != i ==> after[k] == before[k],
        after[i].node.path@ != p,
        i < before.len() ==> before[i].node.path@ == after[i].node.path@,
    ensures
        entry_for(after, p) == entry_for(before, p),
    decreases before.len(),
{
    if before.len() == 0 {
        assert(entry_for(after.drop_first(), p) is None);
    } else if i == 0 {
        assert(after.drop_first() =~= before.drop_first());
    } else {
        assert(after[0] == before[0]);
        if before[0].node.path@ != p {
            assert forall|k: int|
                0 <= k < before.drop_first().len() && k != i - 1 implies after.drop_first()[k]
                == before.drop_first()[k] by {
                assert(after[k + 1] == before[k + 1]);
            }
            lemma_entry_replaced(before.drop_first(), after.drop_first(), i - 1, p);
        }
    }
}

/// Whether `s` is one of `list`.
pub fn contains_text(list: &Vec<String>, s: &str) -> (r: bool)
    ensures
        r == texts(list@).contains(s@),
{
    let mut i: usize = 0;
    while i < list.len()
        invariant
            i <= list.len(),
            forall|k: int| 0 <= k < i ==> #[trigger] texts(list@)[k] != s@,
        decreases list.len() - i,
    {
        if same_text(list[i].as_str(), s) {
            assert(texts(list@)[i as int] == s@);
            return true;
        }
        i += 1;
    }
    false
}

} // verus!
