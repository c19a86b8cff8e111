//! Term hashing: the keys under which the search index files its postings.

use std::hash::Hash;
use std::hash::Hasher;
use vstd::prelude::*;
use crate::chars::{lowercase, to_lowercase};

verus! {

/// The 64-bit digest that a default `rustc_hash::FxHasher` reports after a
/// string with these characters has been fed to it through `Hash`.
pub uninterp spec fn fx_digest(s: Seq<char>) -> u64;

/// Feeds `s` to a fresh `rustc_hash::FxHasher` and finishes it. Trusted: the
/// hasher starts from a fixed state and has no per-process seed, so the digest
/// is a function of the characters alone (for a given pointer width).
#[verifier::external_body]
fn fx_hash(s: &str) -> (h: u64)
    ensures
        h == fx_digest(s@),
{
    let mut hasher = rustc_hash::FxHasher::default();
    s.hash(&mut hasher);
    hasher.finish()
}

/// The key of a term: the digest of its lowercase form.
pub open spec fn term_key(term: Seq<char>) -> u64 {
    fx_digest(lowercase(term))
}

/// Hash a term for use as an index key. Case is ignored.
pub fn hash_term(term: &str) -> (h: u64)
    ensures
        h == term_key(term@),
{
    let lower = to_lowercase(term);
    fx_hash(lower.as_str())
}

/// Terms that agree after lowercasing share one key.
pub proof fn lemma_term_key_ignores_case(a: Seq<char>, b: Seq<char>)
    requires
        lowercase(a) == lowercase(b),
    ensures
        term_key(a) == term_key(b),
{
}

} // verus!
