//! The arguments of the tools, with their defaults.

use vstd::prelude::*;
use crate::filter::{all_filters, copy_filters, Filter};
use crate::verbosity::Verbosity;

verus! {

/// Get detailed information about a specific item or list items in a
/// module or package.
#[derive(Debug)]
pub struct GetItem {
    /// The path of the item to show.
    pub name: String,
    /// Whether to include source code snippets (default: false).
    pub include_source: Option<bool>,
    /// Show all items of a module and of its submodules (default: false).
    pub recursive: Option<bool>,
    /// Limit a listing to items of these kinds (default: all).
    pub filter: Option<Vec<Filter>>,
    /// How much documentation to show (default: brief).
    pub verbosity: Option<Verbosity>,
}

impl Default for GetItem {
    fn default() -> (r: Self)
        ensures
            r.name@.len() == 0,
            r.include_source is None,
            r.recursive is None,
            r.filter is None,
            r.verbosity is None,
    {
        GetItem {
            name: String::new(),
            include_source: None,
            recursive: None,
            filter: None,
            verbosity: None,
        }
    }
}

impl GetItem {
    /// Whether to include source code, `false` unless set.
    pub fn include_source(&self) -> (r: bool)
        ensures
            r == (self.include_source == Some(true)),
    {
        match self.include_source {
            Some(b) => b,
            None => false,
        }
    }

    /// Whether to list submodules too, `false` unless set.
    pub fn recursive(&self) -> (r: bool)
        ensures
            r == (self.recursive == Some(true)),
    {
        match self.recursive {
            Some(b) => b,
            None => false,
        }
    }

    /// The verbosity, brief unless set.
    pub fn verbosity(&self) -> (r: Verbosity)
        ensures
            r == match self.verbosity {
                Some(v) => v,
                None => Verbosity::Brief,
            },
    {
        match self.verbosity {
            Some(v) => v,
            None => Verbosity::Brief,
        }
    }

    /// The filters, all of them unless set.
    pub fn filters(&self) -> (r: Vec<Filter>)
        ensures
            r@ == match self.filter {
                Some(f) => f@,
                None => all_filters(),
            },
    {
        match &self.filter {
            Some(f) => copy_filters(f),
            None => Filter::all(),
        }
    }
}

/// List the packages of the workspace and their dependencies.
#[derive(Debug)]
pub struct ListCrates {
    /// The workspace member whose dependencies are listed, if any.
    pub workspace_member: Option<String>,
}

impl Default for ListCrates {
    fn default() -> (r: Self)
        ensures
            r.workspace_member is None,
    {
        ListCrates { workspace_member: None }
    }
}

/// Search for items within one package.
#[derive(Debug)]
pub struct Search {
    /// The package to search within.
    pub crate_name: String,
    /// The query. Its terms add up.
    pub query: String,
    /// The most results to return (default: 10).
    pub limit: Option<usize>,
}

/// The default for the most results of a search.
pub const DEFAULT_SEARCH_LIMIT: usize = 10;

impl Search {
    /// The most results to return, ten unless set.
    pub fn limit(&self) -> (r: usize)
        ensures
            r == match self.limit {
                Some(n) => n,
                None => DEFAULT_SEARCH_LIMIT,
            },
    {
        match self.limit {
            Some(n) => n,
            None => DEFAULT_SEARCH_LIMIT,
        }
    }
}

/// Set the working directory of a session.
#[derive(Debug)]
pub struct SetWorkingDirectory {
    /// The directory of the project's manifest.
    pub path: String,
}

} // verus!
