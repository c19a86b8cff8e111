//! What a caller wants shown of an item.

use vstd::prelude::*;
use crate::filter::{all_filters, any_lets_through, copy_filters, lets_through, Filter};
use crate::model::ItemKind;
use crate::tools::GetItem;
use crate::verbosity::Verbosity;

verus! {

/// Context for formatting operations.
#[derive(Debug)]
pub struct FormatContext {
    include_source: bool,
    recursive: bool,
    verbosity: Verbosity,
    filters: Vec<Filter>,
}

impl Default for FormatContext {
    fn default() -> (r: Self)
        ensures
            !r.shows_source(),
            !r.recurses(),
            r.level() == Verbosity::Brief,
            r.filter_list() == all_filters(),
    {
        FormatContext {
            include_source: false,
            recursive: false,
            verbosity: Verbosity::Brief,
            filters: Filter::all(),
        }
    }
}

impl FormatContext {
    /// Whether source code is shown.
    pub closed spec fn shows_source(&self) -> bool {
        self.include_source
    }

    /// Whether nested content is shown.
    pub closed spec fn recurses(&self) -> bool {
        self.recursive
    }

    /// How much documentation is shown.
    pub closed spec fn level(&self) -> Verbosity {
        self.verbosity
    }

    /// The filters on the kinds shown.
    pub closed spec fn filter_list(&self) -> Seq<Filter> {
        self.filters@
    }

    /// The context that the arguments of the tool ask for, defaults filled in.
    pub fn from_get_item(item: &GetItem) -> (r: Self)
        ensures
            r.shows_source() == (item.include_source == Some(true)),
            r.recurses() == (item.recursive == Some(true)),
            r.level() == match item.verbosity {
                Some(v) => v,
                None => Verbosity::Brief,
            },
            r.filter_list() == match item.filter {
                Some(f) => f@,
                None => all_filters(),
            },
    {
        FormatContext {
            include_source: item.include_source(),
            recursive: item.recursive(),
            verbosity: item.verbosity(),
            filters: item.filters(),
        }
    }

    /// Whether to include source code snippets.
    pub fn include_source(&self) -> (r: bool)
        ensures
            r == self.shows_source(),
    {
        self.include_source
    }

    /// Whether to show nested content.
    pub fn is_recursive(&self) -> (r: bool)
        ensures
            r == self.recurses(),
    {
        self.recursive
    }

    /// How much documentation to show.
    pub fn verbosity(&self) -> (r: Verbosity)
        ensures
            r == self.level(),
    {
        self.verbosity
    }

    /// The filters on the kinds shown.
    pub fn filters(&self) -> (r: Vec<Filter>)
        ensures
            r@ == self.filter_list(),
    {
        copy_filters(&self.filters)
    }

    /// Whether some filter lets an item of this kind through.
    pub fn filter_match_kind(&self, kind: ItemKind) -> (r: bool)
        ensures
            r == any_lets_through(self.filter_list(), kind),
    {
        let mut i: usize = 0;
        while i < self.filters.len()
            invariant
                i <= self.filters@.len(),
                forall|j: int| 0 <= j < i ==> !lets_through(#[trigger] self.filters@[j], kind),
            decreases self.filters@.len() - i,
        {
            if self.filters[i].matches_kind(kind) {
                return true;
            }
            i += 1;
        }
        false
    }
}

} // verus!
