//! Navigation and search over snapshots of documentation item graphs.
//!
//! A snapshot holds the documented items of one package: modules, types,
//! functions, aliases and implementation blocks, each under an id. This
//! library
//!
//! - lists the children of an item, looking through aliases ([`graph`]),
//! - resolves typed paths such as `package::module::Item` to items, with
//!   guesses at what was meant where a path names nothing ([`graph`]),
//! - builds a search index over all items that can be reached from the root
//!   of a package, each filed under a shortest path of ids, and looks queries
//!   up in it ([`indexer`], [`tokenizer`], [`hashing`], [`paths`]),
//! - writes what is shown of an item: its documentation, the listing of a
//!   module, the members of a type and the interfaces implemented for it
//!   ([`documentation`], [`listing`], [`show`], [`order`]),
//! - keeps the rules by which a project lists its packages and finds their
//!   snapshots ([`names`], [`project`]).
//!
//! The library does no input or output. A package that is needed and not
//! loaded is asked for by name ([`request`]); scores, which are floating
//! point numbers, are computed by the caller and ranked here by whole-number
//! keys ([`ranking`]).
//!
//! The functions carry contracts, and the contracts are proved. What is
//! taken on trust is named where it stands: the character properties and
//! the lowercase form of the standard library ([`chars`]), the digest of
//! `rustc_hash` ([`hashing`]), and the insert-only map of `elsa`
//! ([`request`]).

pub mod chars;
pub mod documentation;
pub mod filter;
pub mod format_context;
pub mod graph;
pub mod hashing;
pub mod indent;
pub mod indexer;
pub mod lines;
pub mod listing;
pub mod model;
pub mod names;
pub mod order;
pub mod paths;
pub mod project;
pub mod ranking;
pub mod request;
pub mod show;
pub mod string_utils;
pub mod tokenizer;
pub mod tools;
pub mod verbosity;
