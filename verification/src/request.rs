//! The state of one request: the names that the project knows and the
//! snapshots loaded so far.
//!
//! The context never loads a snapshot itself. A lookup of a package that is
//! neither loaded nor known to be missing answers with the name to load; the
//! caller loads it, hands the outcome to the context and asks again.

use vstd::prelude::*;
use crate::hashing::{hash_term, term_key};
use crate::model::Snapshot;
use crate::names::{normalized, ProjectNames};

verus! {

/// The insert-only map `elsa::FrozenMap`, as a type whose inside is not seen.
#[verifier::external_type_specification]
#[verifier::external_body]
#[verifier::reject_recursive_types(K)]
#[verifier::reject_recursive_types(V)]
#[verifier::reject_recursive_types(S)]
pub struct ExFrozenMap<K, V, S>(elsa::FrozenMap<K, V, S>);

/// The snapshots that an insert-only map holds, by package name.
pub uninterp spec fn cache_contents(m: elsa::FrozenMap<String, Box<Snapshot>>) -> Map<
    Seq<char>,
    Snapshot,
>;

/// Calls `FrozenMap::new`. Trusted: the new map is empty.
#[verifier::external_body]
fn cache_new() -> (m: elsa::FrozenMap<String, Box<Snapshot>>)
    ensures
        cache_contents(m).dom() == Set::<Seq<char>>::empty(),
{
    elsa::FrozenMap::new()
}

/// Calls `FrozenMap::get`. Trusted: the entry under the key, if the map
/// holds one.
#[verifier::external_body]
fn cache_get<'a>(m: &'a elsa::FrozenMap<String, Box<Snapshot>>, k: &str) -> (r: Option<
    &'a Snapshot,
>)
    ensures
        r is Some <==> cache_contents(*m).contains_key(k@),
        r is Some ==> *r->0 == cache_contents(*m)[k@],
{
    m.get(k)
}

/// Calls `FrozenMap::insert`. Trusted: a key that the map holds keeps its
/// entry and the new value is dropped; any other key gets the new value.
/// No other entry changes.
#[verifier::external_body]
fn cache_insert(m: &mut elsa::FrozenMap<String, Box<Snapshot>>, k: String, v: Snapshot)
    ensures
        cache_contents(*final(m)) == if cache_contents(*old(m)).contains_key(k@) {
            cache_contents(*old(m))
        } else {
            cache_contents(*old(m)).insert(k@, v)
        },
{
    m.insert(k, Box::new(v));
}

/// What a request knows: the project's names, the loaded snapshots and the
/// packages that could not be loaded.
pub struct World {
    pub names: ProjectNames,
    pub loaded: Map<Seq<char>, Snapshot>,
    pub missing: Set<Seq<char>>,
}

impl World {
    /// Each snapshot is well formed and filed under its own name, and no two
    /// loaded packages share a name key.
    pub open spec fn wf(self) -> bool {
        &&& forall|k: Seq<char>| #[trigger]
            self.loaded.contains_key(k) ==> self.loaded[k].wf() && self.loaded[k].name() == k
        &&& forall|a: Seq<char>, b: Seq<char>|
            #![trigger self.loaded.contains_key(a), self.loaded.contains_key(b)]
            self.loaded.contains_key(a) && self.loaded.contains_key(b) && term_key(a) == term_key(
                b,
            ) ==> a == b
    }

    /// Some loaded package has this name key.
    pub open spec fn holds_key(self, key: u64) -> bool {
        exists|k: Seq<char>| #[trigger] self.loaded.contains_key(k) && term_key(k) == key
    }

    /// Some loaded package has the name key of `name`.
    pub open spec fn key_taken(self, name: Seq<char>) -> bool {
        self.holds_key(term_key(name))
    }

    /// The outcome of loading this package is known.
    pub open spec fn knows(self, name: Seq<char>) -> bool {
        self.loaded.contains_key(name) || self.missing.contains(name)
    }

    /// `later` knows all that `self` knows, with the same snapshots, and
    /// has no snapshot of a package that `self` knows to be missing.
    pub open spec fn grows_to(self, later: World) -> bool {
        &&& later.names == self.names
        &&& forall|k: Seq<char>| #[trigger]
            self.loaded.contains_key(k) ==> later.loaded.contains_key(k) && later.loaded[k]
                == self.loaded[k]
        &&& forall|k: Seq<char>| #[trigger] self.missing.contains(k) ==> later.missing.contains(k)
        &&& forall|k: Seq<char>|
            self.missing.contains(k) && !self.loaded.contains_key(k) ==> !(
            #[trigger] later.loaded.contains_key(k))
    }
}

/// The outcome of a step that may need a package that is not loaded yet.
pub enum Stage<T> {
    /// The step is complete.
    Done(T),
    /// The package with this canonical name must be loaded first.
    Load(Seq<char>),
}

/// The executable form of [`Stage`].
#[derive(Debug)]
pub enum Step<T> {
    /// The step is complete.
    Done(T),
    /// The package with this canonical name must be loaded first.
    Load(String),
}

/// The snapshot that a typed package name stands for.
///
/// A name that the project does not know, or whose package is known to be
/// missing, gives `Done(None)`. A known package whose outcome is not known
/// yet gives `Load`.
pub open spec fn lookup(w: World, raw: Seq<char>) -> Stage<Option<Snapshot>> {
    match normalized(w.names, raw) {
        None => Stage::Done(None),
        Some(c) => if w.loaded.contains_key(c) {
            Stage::Done(Some(w.loaded[c]))
        } else if w.missing.contains(c) {
            Stage::Done(None)
        } else {
            Stage::Load(c)
        },
    }
}

/// A lookup asks only for packages whose outcome is unknown. Once a
/// package has been handed to the context, no lookup asks for it again, and
/// a lookup that gave an answer gives the same answer from then on.
pub proof fn lemma_lookup_asks_once(earlier: World, later: World, raw: Seq<char>)
    requires
        earlier.grows_to(later),
    ensures
        lookup(later, raw) matches Stage::Load(c) ==> !later.knows(c) && !earlier.knows(c),
        lookup(earlier, raw) is Done ==> lookup(later, raw) == lookup(earlier, raw),
{
}

/// The per-request cache of snapshots.
pub struct RequestContext {
    names: ProjectNames,
    cache: elsa::FrozenMap<String, Box<Snapshot>>,
    missing: Vec<String>,
    keys: Vec<u64>,
}

/// The outcome of [`RequestContext::load`].
pub enum Loaded<'a> {
    /// The package is loaded.
    Ready(&'a Snapshot),
    /// The name stands for no package, or the package is missing.
    Absent,
    /// The package with this canonical name must be loaded first.
    Needed(String),
}

/// The names that a list of strings holds.
pub open spec fn name_set(v: Seq<String>) -> Set<Seq<char>> {
    Set::new(|k: Seq<char>| exists|i: int| 0 <= i < v.len() && #[trigger] v[i]@ == k)
}

impl RequestContext {
    /// What the request knows.
    pub closed spec fn view(&self) -> World {
        World {
            names: self.names,
            loaded: cache_contents(self.cache),
            missing: name_set(self.missing@),
        }
    }

    /// The name keys of the loaded packages.
    pub closed spec fn keys(&self) -> Seq<u64> {
        self.keys@
    }

    /// The world is well formed and the name keys on record are those of
    /// the loaded packages.
    pub open spec fn wf(&self) -> bool {
        &&& self@.wf()
        &&& forall|k: Seq<char>| #[trigger]
            self@.loaded.contains_key(k) ==> self.keys().contains(term_key(k))
        &&& forall|i: int|
            0 <= i < self.keys().len() ==> self@.holds_key(#[trigger] self.keys()[i])
    }

    #[verifier::type_invariant]
    spec fn sound(&self) -> bool {
        self.wf()
    }

    /// A context that knows the project's names and no snapshot.
    pub fn new(names: ProjectNames) -> (r: Self)
        ensures
            r.wf(),
            r@.names == names,
            r@.loaded.dom() == Set::<Seq<char>>::empty(),
            r@.missing == Set::<Seq<char>>::empty(),
    {
        let r = RequestContext {
            names,
            cache: cache_new(),
            missing: Vec::new(),
            keys: Vec::new(),
        };
        assert(r@.missing =~= Set::<Seq<char>>::empty());
        assert forall|k: Seq<char>| !r@.loaded.contains_key(k) by {
            assert(!r@.loaded.dom().contains(k));
        }
        r
    }

    /// The project's names.
    pub fn names(&self) -> (r: &ProjectNames)
        ensures
            *r == self@.names,
            self.wf(),
    {
        proof {
            use_type_invariant(self);
        }
        &self.names
    }

    fn is_missing(&self, name: &str) -> (r: bool)
        ensures
            r == self@.missing.contains(name@),
    {
        let mut i: usize = 0;
        while i < self.missing.len()
            invariant
                i <= self.missing@.len(),
                forall|j: int| 0 <= j < i ==> self.missing@[j]@ != name@,
            decreases self.missing@.len() - i,
        {
            if crate::chars::str_eq(self.missing[i].as_str(), name) {
                return true;
            }
            i += 1;
        }
        false
    }

    fn has_key(&self, key: u64) -> (r: bool)
        ensures
            r == self.keys().contains(key),
    {
        let mut i: usize = 0;
        while i < self.keys.len()
            invariant
                i <= self.keys@.len(),
                forall|j: int| 0 <= j < i ==> self.keys@[j] != key,
            decreases self.keys@.len() - i,
        {
            if self.keys[i] == key {
                return true;
            }
            i += 1;
        }
        false
    }

    /// Looks a typed package name up in the cache.
    pub fn load<'a>(&'a self, crate_name: &str) -> (r: Loaded<'a>)
        ensures
            self.wf(),
            match r {
                Loaded::Ready(s) => lookup(self@, crate_name@) == Stage::Done(Some(*s)),
                Loaded::Absent => lookup(self@, crate_name@) == Stage::<Option<Snapshot>>::Done(
                    None,
                ),
                Loaded::Needed(c) => lookup(self@, crate_name@) == Stage::<Option<Snapshot>>::Load(
                    c@,
                ),
            },
    {
        proof {
            use_type_invariant(self);
        }
        match self.names.normalize_crate_name(crate_name) {
            None => Loaded::Absent,
            Some(c) => {
                match cache_get(&self.cache, c.as_str()) {
                    Some(s) => Loaded::Ready(s),
                    None => {
                        if self.is_missing(c.as_str()) {
                            Loaded::Absent
                        } else {
                            Loaded::Needed(c.as_str().to_owned())
                        }
                    },
                }
            },
        }
    }

    /// Records that the package with this name could not be loaded.
    pub fn mark_missing(self, name: String) -> (r: Self)
        ensures
            self.wf(),
            r.wf(),
            r@.names == self@.names,
            r@.loaded == self@.loaded,
            r@.missing == self@.missing.insert(name@),
            self@.grows_to(r@),
    {
        proof {
            use_type_invariant(&self);
        }
        let ghost before = self.missing@;
        let ghost old_view = self@;
        let ghost old_keys = self.keys();
        assert(old_view.wf());
        let RequestContext { names, cache, missing, keys } = self;
        let mut missing = missing;
        missing.push(name);
        assert(cache_contents(cache) == old_view.loaded);
        assert(keys@ == old_keys);
        assert forall|k: Seq<char>| #[trigger]
            cache_contents(cache).contains_key(k) implies keys@.contains(term_key(k)) by {
            assert(old_view.loaded.contains_key(k));
        }
        let ghost new_view = World {
            names,
            loaded: cache_contents(cache),
            missing: name_set(missing@),
        };
        assert forall|i: int| 0 <= i < keys@.len() implies new_view.holds_key(
            #[trigger] keys@[i],
        ) by {
            assert(old_view.holds_key(old_keys[i]));
            let k = choose|k: Seq<char>| #[trigger]
                old_view.loaded.contains_key(k) && term_key(k) == old_keys[i];
            assert(new_view.loaded.contains_key(k) && term_key(k) == keys@[i]);
        }
        assert(name_set(missing@) =~= old_view.missing.insert(name@)) by {
            assert forall|k: Seq<char>| name_set(missing@).contains(k) <==> old_view.missing.insert(
                name@,
            ).contains(k) by {
                if name_set(missing@).contains(k) {
                    let i = choose|i: int| 0 <= i < missing@.len() && missing@[i]@ == k;
                    if i < before.len() {
                        assert(before[i]@ == k);
                    }
                }
                if old_view.missing.contains(k) {
                    let i = choose|i: int| 0 <= i < before.len() && before[i]@ == k;
                    assert(missing@[i]@ == k);
                }
                if k == name@ {
                    assert(missing@[before.len() as int]@ == k);
                }
            }
        }
        RequestContext { names, cache, missing, keys }
    }

    /// Hands a loaded snapshot to the context.
    ///
    /// A package that is loaded already keeps its snapshot. A snapshot whose
    /// name key is taken by a package of another name cannot be told from
    /// that package in an index, and is recorded as missing.
    #[verifier::rlimit(40)]
    pub fn provide(self, snapshot: Snapshot) -> (r: Self)
        ensures
            self.wf(),
            snapshot.wf(),
            r.wf(),
            self@.grows_to(r@),
            r@.knows(snapshot.name()),
            self@.loaded.contains_key(snapshot.name()) ==> r@ == self@,
            !self@.knows(snapshot.name()) && !self@.key_taken(snapshot.name()) ==> r@.loaded
                == self@.loaded.insert(snapshot.name(), snapshot) && r@.missing == self@.missing,
            !self@.loaded.contains_key(snapshot.name()) && (self@.missing.contains(snapshot.name())
                || self@.key_taken(snapshot.name())) ==> r@.loaded == self@.loaded && r@.missing
                == self@.missing.insert(snapshot.name()),
    {
        proof {
            use_type_invariant(&self);
        }
        let name: String = snapshot.package_name().to_owned();
        if cache_get(&self.cache, name.as_str()).is_some() {
            return self;
        }
        let key = hash_term(name.as_str());
        proof {
            if self.keys().contains(key) {
                let i = choose|i: int| 0 <= i < self.keys().len() && self.keys()[i] == key;
                assert(self@.holds_key(self.keys()[i]));
            }
            if self@.key_taken(snapshot.name()) {
                let k = choose|k: Seq<char>| #[trigger]
                    self@.loaded.contains_key(k) && term_key(k) == key;
                assert(self.keys().contains(term_key(k)));
            }
        }
        if self.has_key(key) || self.is_missing(name.as_str()) {
            return self.mark_missing(name);
        }
        let ghost old_view = self@;
        let ghost old_keys = self.keys();
        assert(forall|i: int|
            0 <= i < old_keys.len() ==> old_view.holds_key(#[trigger] old_keys[i]));
        let RequestContext { names, cache, missing, keys } = self;
        let mut keys = keys;
        let mut cache = cache;
        keys.push(key);
        cache_insert(&mut cache, name, snapshot);
        let ghost loaded = cache_contents(cache);
        assert forall|k: Seq<char>| #[trigger] loaded.contains_key(k) implies keys@.contains(
            term_key(k),
        ) by {
            if k == snapshot.name() {
                assert(keys@[keys@.len() - 1] == key);
            } else {
                assert(old_view.loaded.contains_key(k));
                let i = choose|i: int| 0 <= i < old_keys.len() && old_keys[i] == term_key(k);
                assert(keys@[i] == term_key(k));
            }
        }
        let ghost new_view = World { names, loaded, missing: name_set(missing@) };
        assert forall|i: int| 0 <= i < keys@.len() implies new_view.holds_key(
            #[trigger] keys@[i],
        ) by {
            if i < old_keys.len() {
                assert(keys@[i] == old_keys[i]);
                assert(old_view.holds_key(old_keys[i]));
                let k = choose|k: Seq<char>| #[trigger]
                    old_view.loaded.contains_key(k) && term_key(k) == old_keys[i];
                assert(new_view.loaded.contains_key(k) && term_key(k) == keys@[i]);
            } else {
                assert(keys@[i] == key);
                assert(new_view.loaded.contains_key(snapshot.name()) && term_key(snapshot.name())
                    == key);
            }
        }
        assert forall|k: Seq<char>| #[trigger] loaded.contains_key(k) implies loaded[k].wf()
            && loaded[k].name() == k by {
            if k != snapshot.name() {
                assert(old_view.loaded.contains_key(k));
            }
        }
        assert forall|a: Seq<char>, b: Seq<char>|
            loaded.contains_key(a) && loaded.contains_key(b) && term_key(a) == term_key(
                b,
            ) implies a == b by {
            if a != b {
                if a == snapshot.name() {
                    assert(old_view.loaded.contains_key(b));
                } else if b == snapshot.name() {
                    assert(old_view.loaded.contains_key(a));
                } else {
                    assert(old_view.loaded.contains_key(a));
                    assert(old_view.loaded.contains_key(b));
                }
            }
        }
        RequestContext { names, cache, missing, keys }
    }
}

} // verus!
