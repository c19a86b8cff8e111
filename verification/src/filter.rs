//! Filters on the kind of the items that a listing shows.

use vstd::prelude::*;
use crate::model::ItemKind;

verus! {

/// A kind of item that a listing can be limited to.
#[derive(Debug, Clone, Copy, PartialEq, Eq, Hash, Structural)]
pub enum Filter {
    Struct,
    Enum,
    Trait,
    Function,
    Constant,
    Static,
    Module,
    Union,
    Macro,
    Type,
    Variant,
}

/// Whether a filter lets an item of this kind through. A filter for which
/// no kind is singled out lets every item through.
pub open spec fn lets_through(filter: Filter, kind: ItemKind) -> bool {
    match filter {
        Filter::Struct => kind == ItemKind::Struct,
        Filter::Enum => kind == ItemKind::Enum,
        Filter::Trait => kind == ItemKind::Trait,
        Filter::Function => kind == ItemKind::Function,
        Filter::Constant => kind == ItemKind::Constant,
        Filter::Static => kind == ItemKind::Static,
        Filter::Module => kind == ItemKind::Module,
        Filter::Macro => kind == ItemKind::Macro || kind == ItemKind::ProcAttribute || kind
            == ItemKind::ProcDerive,
        Filter::Type => kind == ItemKind::TypeAlias,
        Filter::Variant => kind == ItemKind::Variant,
        Filter::Union => true,
    }
}

/// Every filter, in the order of their declaration.
pub open spec fn all_filters() -> Seq<Filter> {
    seq![
        Filter::Struct,
        Filter::Enum,
        Filter::Trait,
        Filter::Function,
        Filter::Constant,
        Filter::Static,
        Filter::Module,
        Filter::Union,
        Filter::Macro,
        Filter::Type,
        Filter::Variant,
    ]
}

/// Some filter of the list lets an item of this kind through.
pub open spec fn any_lets_through(filters: Seq<Filter>, kind: ItemKind) -> bool {
    exists|i: int| 0 <= i < filters.len() && lets_through(#[trigger] filters[i], kind)
}

impl Filter {
    /// Whether the filter lets an item of this kind through.
    pub fn matches_kind(&self, kind: ItemKind) -> (r: bool)
        ensures
            r == lets_through(*self, kind),
    {
        match self {
            Filter::Struct => kind == ItemKind::Struct,
            Filter::Enum => kind == ItemKind::Enum,
            Filter::Trait => kind == ItemKind::Trait,
            Filter::Function => kind == ItemKind::Function,
            Filter::Constant => kind == ItemKind::Constant,
            Filter::Static => kind == ItemKind::Static,
            Filter::Module => kind == ItemKind::Module,
            Filter::Macro => kind == ItemKind::Macro || kind == ItemKind::ProcAttribute || kind
                == ItemKind::ProcDerive,
            Filter::Type => kind == ItemKind::TypeAlias,
            Filter::Variant => kind == ItemKind::Variant,
            _ => true,
        }
    }

    /// Every filter, in the order of their declaration.
    pub fn all() -> (r: Vec<Filter>)
        ensures
            r@ == all_filters(),
    {
        let mut v: Vec<Filter> = Vec::new();
        v.push(Filter::Struct);
        v.push(Filter::Enum);
        v.push(Filter::Trait);
        v.push(Filter::Function);
        v.push(Filter::Constant);
        v.push(Filter::Static);
        v.push(Filter::Module);
        v.push(Filter::Union);
        v.push(Filter::Macro);
        v.push(Filter::Type);
        v.push(Filter::Variant);
        assert(v@ =~= all_filters());
        v
    }
}

/// A copy of a list of filters.
pub fn copy_filters(filters: &Vec<Filter>) -> (r: Vec<Filter>)
    ensures
        r@ == filters@,
{
    let mut out: Vec<Filter> = Vec::new();
    let mut i: usize = 0;
    while i < filters.len()
        invariant
            i <= filters@.len(),
            out@ == filters@.take(i as int),
        decreases filters@.len() - i,
    {
        out.push(filters[i]);
        assert(filters@.take(i + 1) =~= filters@.take(i as int).push(filters@[i as int]));
        i += 1;
    }
    assert(filters@.take(i as int) =~= filters@);
    out
}

} // verus!
