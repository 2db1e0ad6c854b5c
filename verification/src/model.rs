//! The data model of the knowledge graph: items, imports, files and
//! relationships, each with its mathematical view.

use vstd::prelude::*;

verus! {

/// The views of a sequence of strings.
pub open spec fn texts(v: Seq<String>) -> Seq<Seq<char>> {
    v.map_values(|s: String| s@)
}

/// A copy of a list of strings.
pub fn copy_strings(v: &Vec<String>) -> (r: Vec<String>)
    ensures
        r@ == v@,
{
    let mut r: Vec<String> = Vec::new();
    let mut i: usize = 0;
    while i < v.len()
        invariant
            i <= v.len(),
            r@ == v@.take(i as int),
        decreases v.len() - i,
    {
        r.push(v[i].clone());
        assert(v@.take(i + 1) =~= v@.take(i as int).push(v@[i as int]));
        i += 1;
    }
    assert(v@.take(i as int) =~= v@);
    r
}

/// A copy of an optional string.
pub fn copy_opt_string(v: &Option<String>) -> (r: Option<String>)
    ensures
        r == *v,
{
    match v {
        Some(s) => Some(s.clone()),
        None => None,
    }
}

/// The view of an optional string.
pub open spec fn opt_text(v: Option<String>) -> Option<Seq<char>> {
    match v {
        Some(s) => Some(s@),
        None => None,
    }
}

/// The identifier of an item; equality is by value.
#[derive(Debug, Clone, PartialEq, Eq, Hash)]
pub struct ItemId(pub String);

impl View for ItemId {
    type V = Seq<char>;

    open spec fn view(&self) -> Seq<char> {
        self.0@
    }
}

impl ItemId {
    /// A copy of this identifier.
    pub fn copy(&self) -> (r: ItemId)
        ensures
            r == *self,
    {
        ItemId(self.0.clone())
    }
}

/// Where an item stands: a file and an inclusive range of lines, counted
/// from one.
#[derive(Debug, Clone, PartialEq, Eq)]
pub struct Location {
    pub file: String,
    pub line_start: usize,
    pub line_end: usize,
}

pub struct LocationView {
    pub file: Seq<char>,
    pub line_start: usize,
    pub line_end: usize,
}

impl View for Location {
    type V = LocationView;

    open spec fn view(&self) -> LocationView {
        LocationView { file: self.file@, line_start: self.line_start, line_end: self.line_end }
    }
}

impl Location {
    /// A copy of this location.
    pub fn copy(&self) -> (r: Location)
        ensures
            r == *self,
    {
        Location { file: self.file.clone(), line_start: self.line_start, line_end: self.line_end }
    }
}

/// What kind of declaration an item is.
#[derive(Debug, Clone, PartialEq, Eq)]
pub enum ItemType {
    Module { is_inline: bool },
    Function { is_async: bool, is_const: bool },
    Struct { is_tuple: bool },
    Enum { variant_count: usize },
    Trait { is_object_safe: bool },
    Impl { trait_name: Option<String>, for_type: String },
    Const,
    Static { is_mut: bool },
    Type,
    Macro,
}

pub enum ItemTypeView {
    Module { is_inline: bool },
    Function { is_async: bool, is_const: bool },
    Struct { is_tuple: bool },
    Enum { variant_count: usize },
    Trait { is_object_safe: bool },
    Impl { trait_name: Option<Seq<char>>, for_type: Seq<char> },
    Const,
    Static { is_mut: bool },
    Type,
    Macro,
}

impl View for ItemType {
    type V = ItemTypeView;

    open spec fn view(&self) -> ItemTypeView {
        match *self {
            ItemType::Module { is_inline } => ItemTypeView::Module { is_inline },
            ItemType::Function { is_async, is_const } => ItemTypeView::Function {
                is_async,
                is_const,
            },
            ItemType::Struct { is_tuple } => ItemTypeView::Struct { is_tuple },
            ItemType::Enum { variant_count } => ItemTypeView::Enum { variant_count },
            ItemType::Trait { is_object_safe } => ItemTypeView::Trait { is_object_safe },
            ItemType::Impl { trait_name, for_type } => ItemTypeView::Impl {
                trait_name: opt_text(trait_name),
                for_type: for_type@,
            },
            ItemType::Const => ItemTypeView::Const,
            ItemType::Static { is_mut } => ItemTypeView::Static { is_mut },
            ItemType::Type => ItemTypeView::Type,
            ItemType::Macro => ItemTypeView::Macro,
        }
    }
}

impl ItemType {
    /// A copy of this kind.
    pub fn copy(&self) -> (r: ItemType)
        ensures
            r == *self,
    {
        match self {
            ItemType::Module { is_inline } => ItemType::Module { is_inline: *is_inline },
            ItemType::Function { is_async, is_const } => ItemType::Function {
                is_async: *is_async,
                is_const: *is_const,
            },
            ItemType::Struct { is_tuple } => ItemType::Struct { is_tuple: *is_tuple },
            ItemType::Enum { variant_count } => ItemType::Enum { variant_count: *variant_count },
            ItemType::Trait { is_object_safe } => ItemType::Trait {
                is_object_safe: *is_object_safe,
            },
            ItemType::Impl { trait_name, for_type } => ItemType::Impl {
                trait_name: copy_opt_string(trait_name),
                for_type: for_type.clone(),
            },
            ItemType::Const => ItemType::Const,
            ItemType::Static { is_mut } => ItemType::Static { is_mut: *is_mut },
            ItemType::Type => ItemType::Type,
            ItemType::Macro => ItemType::Macro,
        }
    }

    /// Whether this is a function.
    pub fn is_function(&self) -> (r: bool)
        ensures
            r == (self@ is Function),
    {
        match self {
            ItemType::Function { .. } => true,
            _ => false,
        }
    }
}

/// Who may see an item.
#[derive(Debug, Clone, PartialEq, Eq)]
pub enum Visibility {
    Public,
    Private,
    PubCrate,
    PubSuper,
    PubIn(String),
}

pub enum VisibilityView {
    Public,
    Private,
    PubCrate,
    PubSuper,
    PubIn(Seq<char>),
}

impl View for Visibility {
    type V = VisibilityView;

    open spec fn view(&self) -> VisibilityView {
        match *self {
            Visibility::Public => VisibilityView::Public,
            Visibility::Private => VisibilityView::Private,
            Visibility::PubCrate => VisibilityView::PubCrate,
            Visibility::PubSuper => VisibilityView::PubSuper,
            Visibility::PubIn(s) => VisibilityView::PubIn(s@),
        }
    }
}

impl Visibility {
    /// A copy of this visibility.
    pub fn copy(&self) -> (r: Visibility)
        ensures
            r == *self,
    {
        match self {
            Visibility::Public => Visibility::Public,
            Visibility::Private => Visibility::Private,
            Visibility::PubCrate => Visibility::PubCrate,
            Visibility::PubSuper => Visibility::PubSuper,
            Visibility::PubIn(s) => Visibility::PubIn(s.clone()),
        }
    }
}

/// A named declaration in a source file.
#[derive(Debug, Clone, PartialEq, Eq)]
pub struct Item {
    pub id: ItemId,
    pub item_type: ItemType,
    pub name: String,
    pub visibility: Visibility,
    pub location: Location,
    pub attributes: Vec<String>,
}

pub struct ItemView {
    pub id: Seq<char>,
    pub item_type: ItemTypeView,
    pub name: Seq<char>,
    pub visibility: VisibilityView,
    pub location: LocationView,
    pub attributes: Seq<Seq<char>>,
}

impl View for Item {
    type V = ItemView;

    open spec fn view(&self) -> ItemView {
        ItemView {
            id: self.id@,
            item_type: self.item_type@,
            name: self.name@,
            visibility: self.visibility@,
            location: self.location@,
            attributes: texts(self.attributes@),
        }
    }
}

impl Item {
    /// A copy of this item.
    pub fn copy(&self) -> (r: Item)
        ensures
            r@ == self@,
    {
        Item {
            id: self.id.copy(),
            item_type: self.item_type.copy(),
            name: self.name.clone(),
            visibility: self.visibility.copy(),
            location: self.location.copy(),
            attributes: copy_strings(&self.attributes),
        }
    }
}

/// The views of a sequence of items.
pub open spec fn item_views(v: Seq<Item>) -> Seq<ItemView> {
    v.map_values(|i: Item| i@)
}

/// One `use` statement: its path and, where it has one, its alias.
#[derive(Debug, Clone, PartialEq, Eq)]
pub struct Import {
    pub path: String,
    pub alias: Option<String>,
}

pub struct ImportView {
    pub path: Seq<char>,
    pub alias: Option<Seq<char>>,
}

impl View for Import {
    type V = ImportView;

    open spec fn view(&self) -> ImportView {
        ImportView { path: self.path@, alias: opt_text(self.alias) }
    }
}

impl Import {
    /// A copy of this import.
    pub fn copy(&self) -> (r: Import)
        ensures
            r == *self,
    {
        Import { path: self.path.clone(), alias: copy_opt_string(&self.alias) }
    }
}

/// The views of a sequence of imports.
pub open spec fn import_views(v: Seq<Import>) -> Seq<ImportView> {
    v.map_values(|i: Import| i@)
}

/// What relates two items.
#[derive(Debug, Clone, PartialEq, Eq)]
pub enum RelationshipType {
    Uses { import_type: String },
    Implements { trait_name: String },
    Contains { containment_type: String },
    Extends { extension_type: String },
    Calls { call_type: String },
}

pub enum RelationshipTypeView {
    Uses { import_type: Seq<char> },
    Implements { trait_name: Seq<char> },
    Contains { containment_type: Seq<char> },
    Extends { extension_type: Seq<char> },
    Calls { call_type: Seq<char> },
}

impl View for RelationshipType {
    type V = RelationshipTypeView;

    open spec fn view(&self) -> RelationshipTypeView {
        match *self {
            RelationshipType::Uses { import_type } => RelationshipTypeView::Uses {
                import_type: import_type@,
            },
            RelationshipType::Implements { trait_name } => RelationshipTypeView::Implements {
                trait_name: trait_name@,
            },
            RelationshipType::Contains { containment_type } => RelationshipTypeView::Contains {
                containment_type: containment_type@,
            },
            RelationshipType::Extends { extension_type } => RelationshipTypeView::Extends {
                extension_type: extension_type@,
            },
            RelationshipType::Calls { call_type } => RelationshipTypeView::Calls {
                call_type: call_type@,
            },
        }
    }
}

impl RelationshipType {
    /// A copy of this relationship type.
    pub fn copy(&self) -> (r: RelationshipType)
        ensures
            r == *self,
    {
        match self {
            RelationshipType::Uses { import_type } => RelationshipType::Uses {
                import_type: import_type.clone(),
            },
            RelationshipType::Implements { trait_name } => RelationshipType::Implements {
                trait_name: trait_name.clone(),
            },
            RelationshipType::Contains { containment_type } => RelationshipType::Contains {
                containment_type: containment_type.clone(),
            },
            RelationshipType::Extends { extension_type } => RelationshipType::Extends {
                extension_type: extension_type.clone(),
            },
            RelationshipType::Calls { call_type } => RelationshipType::Calls {
                call_type: call_type.clone(),
            },
        }
    }
}

/// A directed edge between two items. `strength` is in hundredths: 100
/// stands for the full strength 1.0.
#[derive(Debug, Clone, PartialEq, Eq)]
pub struct Relationship {
    pub from_item: ItemId,
    pub to_item: ItemId,
    pub relationship_type: RelationshipType,
    pub strength: u8,
    pub context: String,
}

pub struct RelationshipView {
    pub from_item: Seq<char>,
    pub to_item: Seq<char>,
    pub relationship_type: RelationshipTypeView,
    pub strength: u8,
    pub context: Seq<char>,
}

impl View for Relationship {
    type V = RelationshipView;

    open spec fn view(&self) -> RelationshipView {
        RelationshipView {
            from_item: self.from_item@,
            to_item: self.to_item@,
            relationship_type: self.relationship_type@,
            strength: self.strength,
            context: self.context@,
        }
    }
}

impl Relationship {
    /// A copy of this relationship.
    pub fn copy(&self) -> (r: Relationship)
        ensures
            r == *self,
    {
        Relationship {
            from_item: self.from_item.copy(),
            to_item: self.to_item.copy(),
            relationship_type: self.relationship_type.copy(),
            strength: self.strength,
            context: self.context.clone(),
        }
    }
}

/// The views of a sequence of relationships.
pub open spec fn relationship_views(v: Seq<Relationship>) -> Seq<RelationshipView> {
    v.map_values(|r: Relationship| r@)
}

/// Counts kept with a file.
#[derive(Debug, Clone, Copy, PartialEq, Eq, Default)]
pub struct FileMetrics {
    pub item_count: usize,
    pub import_count: usize,
}

/// One source file: its path, its items in order, and its imports.
#[derive(Debug, Clone, PartialEq, Eq, Default)]
pub struct FileNode {
    pub path: String,
    pub items: Vec<Item>,
    pub imports: Vec<Import>,
    pub metrics: FileMetrics,
}

pub struct FileNodeView {
    pub path: Seq<char>,
    pub items: Seq<ItemView>,
    pub imports: Seq<ImportView>,
    pub metrics: FileMetrics,
}

impl View for FileNode {
    type V = FileNodeView;

    open spec fn view(&self) -> FileNodeView {
        FileNodeView {
            path: self.path@,
            items: item_views(self.items@),
            imports: import_views(self.imports@),
            metrics: self.metrics,
        }
    }
}

impl FileNode {
    /// A copy of this file node.
    pub fn copy(&self) -> (r: FileNode)
        ensures
            r@ == self@,
    {
        let mut items: Vec<Item> = Vec::new();
        let mut i: usize = 0;
        while i < self.items.len()
            invariant
                i <= self.items.len(),
                item_views(items@) == item_views(self.items@.take(i as int)),
            decreases self.items.len() - i,
        {
            let ghost before = items@;
            items.push(self.items[i].copy());
            assert(self.items@.take(i + 1) =~= self.items@.take(i as int).push(
                self.items@[i as int],
            ));
            assert(item_views(items@) =~= item_views(before).push(self.items@[i as int]@));
            assert(item_views(self.items@.take(i + 1)) =~= item_views(
                self.items@.take(i as int),
            ).push(self.items@[i as int]@));
            i += 1;
        }
        assert(self.items@.take(i as int) =~= self.items@);
        let mut imports: Vec<Import> = Vec::new();
        let mut j: usize = 0;
        while j < self.imports.len()
            invariant
                j <= self.imports.len(),
                imports@ == self.imports@.take(j as int),
            decreases self.imports.len() - j,
        {
            imports.push(self.imports[j].copy());
            assert(self.imports@.take(j + 1) =~= self.imports@.take(j as int).push(
                self.imports@[j as int],
            ));
            j += 1;
        }
        assert(self.imports@.take(j as int) =~= self.imports@);
        FileNode { path: self.path.clone(), items, imports, metrics: self.metrics }
    }
}

/// The views of a sequence of file nodes.
pub open spec fn file_views(v: Seq<FileNode>) -> Seq<FileNodeView> {
    v.map_values(|f: FileNode| f@)
}

/// When a graph was generated, as a decimal count of seconds.
#[derive(Debug, Clone, PartialEq, Eq, Default)]
pub struct GraphMetadata {
    pub generated_at: String,
}

} // verus!
