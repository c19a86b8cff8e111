//! The data model: items, their payloads, and the snapshot of one package.

use vstd::prelude::*;

verus! {

/// The kind of an item, as shown to a reader.
#[derive(Clone, Copy, Debug, PartialEq, Eq, Structural)]
pub enum ItemKind {
    Module,
    ExternCrate,
    Use,
    Union,
    Struct,
    StructField,
    Enum,
    Variant,
    Function,
    Trait,
    TraitAlias,
    Impl,
    TypeAlias,
    Constant,
    Static,
    ExternType,
    ProcAttribute,
    ProcDerive,
    Macro,
    Primitive,
    AssocConst,
    AssocType,
}

/// The flavour of a procedural macro.
#[derive(Clone, Copy, Debug, PartialEq, Eq, Structural)]
pub enum MacroKind {
    Bang,
    Attr,
    Derive,
}

/// The shape of a compound type.
#[derive(Clone, Debug)]
pub enum StructKind {
    Unit,
    /// Positional fields; a hidden field leaves a gap.
    Tuple(Vec<Option<u32>>),
    /// Named fields.
    Plain(Vec<u32>),
}

/// A re-export.
#[derive(Clone, Debug)]
pub struct Alias {
    /// The path that the alias names, as written.
    pub source: String,
    /// The name under which the target is re-exported.
    pub name: String,
    /// The target's id, where the snapshot knows it.
    pub target: Option<u32>,
    /// A glob alias stands for all children of its target.
    pub is_glob: bool,
}

/// An implementation block.
#[derive(Clone, Debug)]
pub struct ImplBlock {
    /// The id of the type that the block is for, where it is a plain path.
    pub target: Option<u32>,
    /// The path of the interface that the block implements; none for a
    /// block of inherent members.
    pub interface: Option<String>,
    /// The members of the block.
    pub items: Vec<u32>,
}

/// Who may name an item.
#[derive(Clone, Debug)]
pub enum Visibility {
    /// Everyone.
    Public,
    /// Those who may name the item that it belongs to.
    Default,
    /// The package.
    Crate,
    /// The module with this path.
    Restricted(String),
}

/// The type and the value of a constant or a static, as written.
#[derive(Clone, Debug)]
pub struct Valued {
    pub type_text: String,
    pub value: String,
}

/// What an item is, with the ids of the items it holds.
#[derive(Clone, Debug)]
pub enum ItemPayload {
    Module(Vec<u32>),
    ExternCrate,
    Use(Alias),
    Union,
    Struct(StructKind),
    StructField,
    Enum(Vec<u32>),
    Variant,
    /// A function, with its signature as written.
    Function(String),
    Trait(Vec<u32>),
    TraitAlias,
    Impl(ImplBlock),
    TypeAlias,
    Constant(Valued),
    Static(Valued),
    ExternType,
    Macro,
    ProcMacro(MacroKind),
    Primitive,
    AssocConst,
    AssocType,
}

/// Where an item is declared.
#[derive(Clone, Debug)]
pub struct Span {
    pub file: String,
    pub line: usize,
    pub column: usize,
}

/// One documented node of a package's item graph.
#[derive(Clone, Debug)]
pub struct Item {
    pub id: u32,
    pub name: Option<String>,
    pub visibility: Visibility,
    pub docs: Option<String>,
    pub span: Option<Span>,
    pub payload: ItemPayload,
}

/// The kind that a payload stands for.
pub open spec fn kind_of(p: ItemPayload) -> ItemKind {
    match p {
        ItemPayload::Module(_) => ItemKind::Module,
        ItemPayload::ExternCrate => ItemKind::ExternCrate,
        ItemPayload::Use(_) => ItemKind::Use,
        ItemPayload::Union => ItemKind::Union,
        ItemPayload::Struct(_) => ItemKind::Struct,
        ItemPayload::StructField => ItemKind::StructField,
        ItemPayload::Enum(_) => ItemKind::Enum,
        ItemPayload::Variant => ItemKind::Variant,
        ItemPayload::Function(_) => ItemKind::Function,
        ItemPayload::Trait(_) => ItemKind::Trait,
        ItemPayload::TraitAlias => ItemKind::TraitAlias,
        ItemPayload::Impl(_) => ItemKind::Impl,
        ItemPayload::TypeAlias => ItemKind::TypeAlias,
        ItemPayload::Constant(_) => ItemKind::Constant,
        ItemPayload::Static(_) => ItemKind::Static,
        ItemPayload::ExternType => ItemKind::ExternType,
        ItemPayload::Macro => ItemKind::Macro,
        ItemPayload::ProcMacro(MacroKind::Bang) => ItemKind::Macro,
        ItemPayload::ProcMacro(MacroKind::Attr) => ItemKind::ProcAttribute,
        ItemPayload::ProcMacro(MacroKind::Derive) => ItemKind::ProcDerive,
        ItemPayload::Primitive => ItemKind::Primitive,
        ItemPayload::AssocConst => ItemKind::AssocConst,
        ItemPayload::AssocType => ItemKind::AssocType,
    }
}

impl Item {
    /// The item's kind.
    pub fn kind(&self) -> (k: ItemKind)
        ensures
            k == kind_of(self.payload),
    {
        match &self.payload {
            ItemPayload::Module(_) => ItemKind::Module,
            ItemPayload::ExternCrate => ItemKind::ExternCrate,
            ItemPayload::Use(_) => ItemKind::Use,
            ItemPayload::Union => ItemKind::Union,
            ItemPayload::Struct(_) => ItemKind::Struct,
            ItemPayload::StructField => ItemKind::StructField,
            ItemPayload::Enum(_) => ItemKind::Enum,
            ItemPayload::Variant => ItemKind::Variant,
            ItemPayload::Function(_) => ItemKind::Function,
            ItemPayload::Trait(_) => ItemKind::Trait,
            ItemPayload::TraitAlias => ItemKind::TraitAlias,
            ItemPayload::Impl(_) => ItemKind::Impl,
            ItemPayload::TypeAlias => ItemKind::TypeAlias,
            ItemPayload::Constant(_) => ItemKind::Constant,
            ItemPayload::Static(_) => ItemKind::Static,
            ItemPayload::ExternType => ItemKind::ExternType,
            ItemPayload::Macro => ItemKind::Macro,
            ItemPayload::ProcMacro(m) => match m {
                MacroKind::Bang => ItemKind::Macro,
                MacroKind::Attr => ItemKind::ProcAttribute,
                MacroKind::Derive => ItemKind::ProcDerive,
            },
            ItemPayload::Primitive => ItemKind::Primitive,
            ItemPayload::AssocConst => ItemKind::AssocConst,
            ItemPayload::AssocType => ItemKind::AssocType,
        }
    }
}

/// Ids rise strictly along the sequence, so no id occurs twice.
pub open spec fn ids_ascend(items: Seq<Item>) -> bool {
    forall|i: int, j: int| 0 <= i < j < items.len() ==> items[i].id < items[j].id
}

/// The position of the item with this id, if the sequence holds one.
pub open spec fn position_of(items: Seq<Item>, id: u32) -> Option<int> {
    if exists|i: int| 0 <= i < items.len() && items[i].id == id {
        Some(choose|i: int| 0 <= i < items.len() && items[i].id == id)
    } else {
        None
    }
}

/// In a sequence with ascending ids, an item's position is where it stands.
pub proof fn lemma_position_unique(items: Seq<Item>, i: int)
    requires
        ids_ascend(items),
        0 <= i < items.len(),
    ensures
        position_of(items, items[i].id) == Some(i),
{
    let j = choose|j: int| 0 <= j < items.len() && items[j].id == items[i].id;
    if j < i {
        assert(items[j].id < items[i].id);
    } else if i < j {
        assert(items[i].id < items[j].id);
    }
}

/// The parsed metadata of one package: its items by id, and its root.
/// Never changed once made.
#[derive(Debug)]
pub struct Snapshot {
    name: String,
    items: Vec<Item>,
    root: u32,
    external: Vec<ExternalPackage>,
}

/// A package that the items of a snapshot refer to.
#[derive(Clone, Debug)]
pub struct ExternalPackage {
    /// The number by which the snapshot refers to the package.
    pub reference: u32,
    /// The name of the package.
    pub name: String,
}

/// The name of the first of `external[from..]` with this reference.
pub open spec fn external_name(external: Seq<ExternalPackage>, reference: u32, from: int) -> Option<
    Seq<char>,
>
    decreases external.len() - from,
{
    if from < 0 || from >= external.len() {
        None
    } else if external[from].reference == reference {
        Some(external[from].name@)
    } else {
        external_name(external, reference, from + 1)
    }
}

impl Snapshot {
    /// The package's name.
    pub closed spec fn name(&self) -> Seq<char> {
        self.name@
    }

    /// The items, by ascending id.
    pub closed spec fn items(&self) -> Seq<Item> {
        self.items@
    }

    /// The id of the root module.
    pub closed spec fn root(&self) -> u32 {
        self.root
    }

    /// The packages that the items refer to.
    pub closed spec fn external(&self) -> Seq<ExternalPackage> {
        self.external@
    }

    /// Every id names one item.
    pub open spec fn wf(&self) -> bool {
        ids_ascend(self.items())
    }

    #[verifier::type_invariant]
    spec fn ascending(&self) -> bool {
        ids_ascend(self.items@)
    }

    /// Where the item with this id stands. A dangling id has no position.
    pub open spec fn position(&self, id: u32) -> Option<int> {
        position_of(self.items(), id)
    }

    /// Makes a snapshot from items listed by strictly ascending id. Any
    /// other list is refused.
    pub fn new(name: String, items: Vec<Item>, root: u32) -> (r: Option<Snapshot>)
        ensures
            r is Some <==> ids_ascend(items@),
            r is Some ==> r->0.wf() && r->0.name() == name@ && r->0.items() == items@
                && r->0.root() == root && r->0.external().len() == 0,
    {
        let n: usize = items.len();
        let mut i: usize = 1;
        while i < n
            invariant
                n == items@.len(),
                1 <= i,
                forall|a: int, b: int| 0 <= a < b < i && b < n ==> items@[a].id < items@[b].id,
            decreases n - i,
        {
            if items[i - 1].id >= items[i].id {
                assert(!ids_ascend(items@)) by {
                    if ids_ascend(items@) {
                        assert(items@[i - 1].id < items@[i as int].id);
                    }
                }
                return None;
            }
            assert forall|a: int, b: int| 0 <= a < b < i + 1 && b < n implies items@[a].id
                < items@[b].id by {
                if b == i && a < i - 1 {
                    assert(items@[a].id < items@[i - 1].id);
                }
            }
            i += 1;
        }
        Some(Snapshot { name, items, root, external: Vec::new() })
    }

    /// The same snapshot with the packages that its items refer to.
    pub fn with_external_packages(self, external: Vec<ExternalPackage>) -> (r: Snapshot)
        ensures
            r.wf(),
            r.name() == self.name(),
            r.items() == self.items(),
            r.root() == self.root(),
            r.external() == external@,
    {
        proof {
            use_type_invariant(&self);
        }
        Snapshot { name: self.name, items: self.items, root: self.root, external }
    }

    /// The name of the package that the snapshot refers to by a number.
    pub fn external_package(&self, reference: u32) -> (r: Option<&str>)
        ensures
            match r {
                Some(name) => external_name(self.external(), reference, 0) == Some(name@),
                None => external_name(self.external(), reference, 0) is None,
            },
    {
        let mut i: usize = 0;
        while i < self.external.len()
            invariant
                i <= self.external@.len(),
                external_name(self.external@, reference, 0) == external_name(
                    self.external@,
                    reference,
                    i as int,
                ),
            decreases self.external@.len() - i,
        {
            if self.external[i].reference == reference {
                return Some(self.external[i].name.as_str());
            }
            i += 1;
        }
        None
    }

    /// The package's name.
    pub fn package_name(&self) -> (r: &str)
        ensures
            r@ == self.name(),
            self.wf(),
    {
        proof {
            use_type_invariant(self);
        }
        self.name.as_str()
    }

    /// The id of the root module.
    pub fn root_id(&self) -> (r: u32)
        ensures
            r == self.root(),
    {
        self.root
    }

    /// How many items the snapshot holds.
    pub fn len(&self) -> (n: usize)
        ensures
            n == self.items().len(),
            self.wf(),
    {
        proof {
            use_type_invariant(self);
        }
        self.items.len()
    }

    /// The item at a position.
    pub fn item(&self, index: usize) -> (r: &Item)
        requires
            index < self.items().len(),
        ensures
            *r == self.items()[index as int],
    {
        &self.items[index]
    }

    /// Finds the item with this id. A dangling id gives `None`.
    pub fn find(&self, id: u32) -> (r: Option<usize>)
        ensures
            self.wf(),
            match r {
                Some(i) => self.position(id) == Some(i as int) && i < self.items().len()
                    && self.items()[i as int].id == id,
                None => self.position(id) is None,
            },
    {
        proof {
            use_type_invariant(self);
        }
        let mut lo: usize = 0;
        let mut hi: usize = self.items.len();
        while lo < hi
            invariant
                lo <= hi <= self.items@.len(),
                ids_ascend(self.items@),
                forall|k: int| 0 <= k < lo ==> self.items@[k].id < id,
                forall|k: int| hi <= k < self.items@.len() ==> self.items@[k].id > id,
            decreases hi - lo,
        {
            let mid: usize = lo + (hi - lo) / 2;
            let here: u32 = self.items[mid].id;
            if here == id {
                proof {
                    lemma_position_unique(self.items@, mid as int);
                }
                return Some(mid);
            } else if here < id {
                assert forall|k: int| 0 <= k < mid + 1 implies self.items@[k].id < id by {
                    if k < mid {
                        assert(self.items@[k].id < self.items@[mid as int].id);
                    }
                }
                lo = mid + 1;
            } else {
                assert forall|k: int| mid <= k < self.items@.len() implies self.items@[k].id
                    > id by {
                    if mid < k {
                        assert(self.items@[mid as int].id < self.items@[k].id);
                    }
                }
                hi = mid;
            }
        }
        None
    }
}

} // verus!
