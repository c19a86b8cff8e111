//! The search index of one package.
//!
//! The item graph is walked from the package root, level by level, so that
//! every item is filed under a shortest path of ids from the root. The name and
//! the documentation of each item are cut into tokens, and each token adds to
//! the raw frequency of its term in the item's document: two for a token
//! of the name, one for a token of the documentation. Relevance scores are
//! computed from these counts by the caller.

use std::collections::BTreeMap;
use vstd::prelude::*;
use vstd::string::StrSliceExecFns;
use vstd::string::StringExecFns;
use crate::chars::chars_of;
use crate::graph::{
    candidates, children, lemma_children_sound, lemma_resolve_sound, members, resolve, views,
    ItemRef, Node, Suggestion, ALIAS_DEPTH,
};
use crate::hashing::{hash_term, term_key};
use crate::model::{ItemPayload, StructKind};
use crate::request::{RequestContext, Stage, Step, World};
use crate::tokenizer::{tokenize, tokens_of};

verus! {

broadcast use vstd::std_specs::btree::group_btree_axioms;

/// One entry of a term's list: a document and the raw frequency of the term
/// in it.
#[derive(Clone, Copy, Debug, PartialEq, Eq, Structural)]
pub struct Posting {
    pub doc: usize,
    pub tf: u64,
}

/// A term and its postings.
#[derive(Debug)]
pub struct TermEntry {
    pub key: u64,
    pub postings: Vec<Posting>,
}

/// The identity of an indexed item: the key of its package's name, and its id.
#[derive(Clone, Copy, Debug, PartialEq, Eq, Structural)]
pub struct DocKey {
    pub package: u64,
    pub id: u32,
}

/// What one token adds to a document: the key of its term and its weight.
pub struct Share {
    pub key: u64,
    pub weight: u64,
}

/// The weight of a token of an item's name.
pub const NAME_WEIGHT: u64 = 2;

/// The weight of a token of an item's documentation.
pub const DOCS_WEIGHT: u64 = 1;

/// The key under which an item is filed.
pub open spec fn key_of(n: Node) -> DocKey {
    DocKey { package: term_key(n.snapshot.name()), id: n.item().id }
}

/// A document key as one number.
pub open spec fn pack(k: DocKey) -> u128 {
    (k.package * 0x1_0000_0000 + k.id) as u128
}

/// A count as a raw frequency: counts beyond the range of `u64` stay at its
/// top.
pub open spec fn clamp(n: int) -> u64 {
    if n > u64::MAX {
        u64::MAX
    } else if n < 0 {
        0
    } else {
        n as u64
    }
}

/// A raw frequency after more weight was added to it.
pub open spec fn raised(was: nat, more: nat) -> nat {
    clamp((was + more) as int) as nat
}

/// The documents of a list rise strictly, so no document occurs twice.
pub open spec fn ascending(postings: Seq<Posting>) -> bool {
    forall|i: int, j: int| 0 <= i < j < postings.len() ==> postings[i].doc < postings[j].doc
}

/// The raw frequency that a list records for a document.
pub open spec fn tf_in(postings: Seq<Posting>, doc: usize) -> nat
    decreases postings.len(),
{
    if postings.len() == 0 {
        0
    } else {
        tf_in(postings.drop_last(), doc) + if postings.last().doc == doc {
            postings.last().tf as nat
        } else {
            0
        }
    }
}

/// The raw frequency of a term in a document.
pub open spec fn tf(postings: Map<u64, Seq<Posting>>, key: u64, doc: usize) -> nat {
    if postings.contains_key(key) {
        tf_in(postings[key], doc)
    } else {
        0
    }
}

/// The shares of the tokens of a text, each of the same weight.
pub open spec fn shares_of_text(text: Seq<char>, weight: u64) -> Seq<Share> {
    Seq::new(
        tokens_of(text).len(),
        |j: int| Share { key: term_key(tokens_of(text)[j]), weight },
    )
}

/// The shares of an item's name and documentation.
pub open spec fn shares_of_item(name: Option<Seq<char>>, docs: Option<String>) -> Seq<Share> {
    (match name {
        Some(n) => shares_of_text(n, NAME_WEIGHT),
        None => Seq::empty(),
    }) + (match docs {
        Some(d) => shares_of_text(d@, DOCS_WEIGHT),
        None => Seq::empty(),
    })
}

/// What the shares add up to for one term.
pub open spec fn weight_of(shares: Seq<Share>, key: u64) -> nat
    decreases shares.len(),
{
    if shares.len() == 0 {
        0
    } else {
        weight_of(shares.drop_last(), key) + if shares.last().key == key {
            shares.last().weight as nat
        } else {
            0
        }
    }
}

proof fn lemma_weight_of_concat(a: Seq<Share>, b: Seq<Share>, key: u64)
    ensures
        weight_of(a + b, key) == weight_of(a, key) + weight_of(b, key),
    decreases b.len(),
{
    if b.len() == 0 {
        assert(a + b =~= a);
    } else {
        assert((a + b).drop_last() =~= a + b.drop_last());
        lemma_weight_of_concat(a, b.drop_last(), key);
    }
}

/// The ids among `ids[from..]` that are there.
pub open spec fn present_ids(ids: Seq<Option<u32>>, from: int) -> Seq<u32>
    decreases ids.len() - from,
{
    if from < 0 || from >= ids.len() {
        Seq::empty()
    } else {
        match ids[from] {
            Some(id) => seq![id] + present_ids(ids, from + 1),
            None => present_ids(ids, from + 1),
        }
    }
}

/// The parts of an item whose text is filed under the item itself: the
/// fields of a compound type and the associated items of an interface.
pub open spec fn parts(n: Node) -> Seq<Node> {
    match n.item().payload {
        ItemPayload::Struct(StructKind::Tuple(fields)) => members(
            n.snapshot,
            present_ids(fields@, 0),
            0,
        ),
        ItemPayload::Struct(StructKind::Plain(fields)) => members(n.snapshot, fields@, 0),
        ItemPayload::Trait(items) => members(n.snapshot, items@, 0),
        _ => Seq::empty(),
    }
}

/// The shares of the parts `ps[from..]`.
pub open spec fn shares_of_parts(ps: Seq<Node>, from: int) -> Seq<Share>
    decreases ps.len() - from,
{
    if from < 0 || from >= ps.len() {
        Seq::empty()
    } else {
        shares_of_item(ps[from].display_name(), ps[from].item().docs) + shares_of_parts(
            ps,
            from + 1,
        )
    }
}

/// All that an item adds to its document: the shares of its own name and
/// documentation, then those of its parts.
pub open spec fn shares_of_doc(n: Node) -> Seq<Share> {
    shares_of_item(n.display_name(), n.item().docs) + shares_of_parts(parts(n), 0)
}

/// The raw frequency of a term in the document of an item.
pub open spec fn doc_weight(n: Node, key: u64) -> nat {
    weight_of(shares_of_doc(n), key)
}

proof fn lemma_tf_in_absent(postings: Seq<Posting>, doc: usize)
    requires
        forall|j: int| 0 <= j < postings.len() ==> (#[trigger] postings[j]).doc != doc,
    ensures
        tf_in(postings, doc) == 0,
    decreases postings.len(),
{
    if postings.len() > 0 {
        assert(postings.last() == postings[postings.len() - 1]);
        assert forall|j: int| 0 <= j < postings.drop_last().len() implies (
        #[trigger] postings.drop_last()[j]).doc != doc by {
            assert(postings.drop_last()[j] == postings[j]);
        }
        lemma_tf_in_absent(postings.drop_last(), doc);
    }
}

/// Where the documents rise, a document's frequency stands in its one posting.
proof fn lemma_tf_in_at(postings: Seq<Posting>, at: int)
    requires
        ascending(postings),
        0 <= at < postings.len(),
    ensures
        tf_in(postings, postings[at].doc) == postings[at].tf,
    decreases postings.len(),
{
    let doc = postings[at].doc;
    let front = postings.drop_last();
    if at == postings.len() - 1 {
        assert forall|j: int| 0 <= j < front.len() implies (#[trigger] front[j]).doc != doc by {
            assert(front[j] == postings[j]);
        }
        lemma_tf_in_absent(front, doc);
    } else {
        assert(front[at] == postings[at]);
        assert(ascending(front)) by {
            assert forall|i: int, j: int| 0 <= i < j < front.len() implies front[i].doc
                < front[j].doc by {
                assert(front[i] == postings[i] && front[j] == postings[j]);
            }
        }
        lemma_tf_in_at(front, at);
        assert(postings[at].doc < postings[postings.len() - 1].doc);
    }
}

/// The document `doc` gained the shares, and no other document changed.
pub open spec fn grown_by(
    before: Map<u64, Seq<Posting>>,
    after: Map<u64, Seq<Posting>>,
    doc: usize,
    shares: Seq<Share>,
) -> bool {
    forall|key: u64, d: usize|
        #![trigger tf(after, key, d)]
        tf(after, key, d) == if d == doc {
            raised(tf(before, key, d), weight_of(shares, key))
        } else {
            tf(before, key, d)
        }
}

proof fn lemma_grown_twice(
    a: Map<u64, Seq<Posting>>,
    b: Map<u64, Seq<Posting>>,
    c: Map<u64, Seq<Posting>>,
    doc: usize,
    first: Seq<Share>,
    second: Seq<Share>,
)
    requires
        grown_by(a, b, doc, first),
        grown_by(b, c, doc, second),
    ensures
        grown_by(a, c, doc, first + second),
{
    assert forall|key: u64, d: usize|
        #![trigger tf(c, key, d)]
        tf(c, key, d) == if d == doc {
            raised(tf(a, key, d), weight_of(first + second, key))
        } else {
            tf(a, key, d)
        } by {
        lemma_weight_of_concat(first, second, key);
        assert(tf(b, key, d) == if d == doc {
            raised(tf(a, key, d), weight_of(first, key))
        } else {
            tf(a, key, d)
        });
    }
}

proof fn lemma_grown_by_nothing(a: Map<u64, Seq<Posting>>, doc: usize)
    requires
        forall|key: u64| tf(a, key, doc) <= u64::MAX,
    ensures
        grown_by(a, a, doc, Seq::empty()),
{
}

/// The walk visits `b` right after `a`: `b` is among the children of `a`,
/// aliases shown as they are.
pub open spec fn steps_to(w: World, a: Node, b: Node) -> bool {
    children(w, a, true, ALIAS_DEPTH as nat) matches Stage::Done(kids) && kids.contains(b)
}

/// A walk from the root: each item is a child of the one before it.
pub open spec fn is_walk(w: World, root: Node, walk: Seq<Node>) -> bool {
    &&& walk.len() > 0
    &&& walk[0] == root
    &&& forall|i: int| 0 <= i < walk.len() - 1 ==> #[trigger] steps_to(w, walk[i], walk[i + 1])
}

/// The id path of a walk: the ids of the items after the root.
pub open spec fn walk_ids(walk: Seq<Node>) -> Seq<u32> {
    Seq::new((walk.len() - 1) as nat, |i: int| walk[i + 1].item().id)
}

/// Packed keys tell document keys apart.
pub proof fn lemma_pack_injective(a: DocKey, b: DocKey)
    requires
        pack(a) == pack(b),
    ensures
        a == b,
{
}

/// Two items of the world with one key stand at one place.
pub proof fn lemma_key_place(w: World, a: Node, b: Node)
    requires
        w.wf(),
        a.wf(),
        a.owned_by(w),
        b.wf(),
        b.owned_by(w),
        key_of(a) == key_of(b),
    ensures
        a.snapshot == b.snapshot,
        a.index == b.index,
{
    assert(w.loaded.contains_key(a.snapshot.name()));
    assert(w.loaded.contains_key(b.snapshot.name()));
    assert(a.snapshot.name() == b.snapshot.name());
    crate::model::lemma_position_unique(a.snapshot.items(), a.index);
    crate::model::lemma_position_unique(a.snapshot.items(), b.index);
}

/// The children of an item do not depend on the name under which it is shown.
pub proof fn lemma_children_by_place(w: World, a: Node, b: Node, include_aliases: bool, fuel: nat)
    requires
        a.snapshot == b.snapshot,
        a.index == b.index,
    ensures
        children(w, a, include_aliases, fuel) == children(w, b, include_aliases, fuel),
{
}

/// Every item of a walk from an item of the world is an item of the world.
pub proof fn lemma_walk_sound(w: World, root: Node, walk: Seq<Node>, at: int)
    requires
        w.wf(),
        root.wf(),
        root.owned_by(w),
        is_walk(w, root, walk),
        0 <= at < walk.len(),
    ensures
        walk[at].wf(),
        walk[at].owned_by(w),
    decreases at,
{
    if at > 0 {
        lemma_walk_sound(w, root, walk, at - 1);
        lemma_children_sound(w, walk[at - 1], true, ALIAS_DEPTH as nat);
        assert(steps_to(w, walk[at - 1], walk[at - 1 + 1]));
        let kids = children(w, walk[at - 1], true, ALIAS_DEPTH as nat)->Done_0;
        let j = choose|j: int| 0 <= j < kids.len() && kids[j] == walk[at];
        assert(kids[j].wf());
    }
}

/// A document key as one number.
fn pack_key(key: DocKey) -> (r: u128)
    ensures
        r == pack(key),
{
    (key.package as u128) * 0x1_0000_0000 + (key.id as u128)
}

/// The key under which an item is filed.
fn doc_key<'a>(item: ItemRef<'a>) -> (r: DocKey)
    ensures
        r == key_of(item@),
{
    DocKey { package: hash_term(item.snapshot().package_name()), id: item.id() }
}

/// The ids of a list that are there.
fn present(ids: &Vec<Option<u32>>) -> (r: Vec<u32>)
    ensures
        r@ == present_ids(ids@, 0),
{
    let mut out: Vec<u32> = Vec::new();
    let mut i: usize = 0;
    assert(out@ + present_ids(ids@, 0) =~= present_ids(ids@, 0));
    while i < ids.len()
        invariant
            i <= ids@.len(),
            out@ + present_ids(ids@, i as int) == present_ids(ids@, 0),
        decreases ids@.len() - i,
    {
        let ghost before = out@;
        match ids[i] {
            Some(id) => {
                out.push(id);
                assert((before + seq![id]) + present_ids(ids@, i + 1) =~= before + present_ids(
                    ids@,
                    i as int,
                ));
                assert(out@ =~= before + seq![id]);
            },
            None => {},
        }
        i += 1;
    }
    assert(out@ + Seq::<u32>::empty() =~= out@);
    out
}

/// The parts of an item whose text is filed under the item itself.
fn parts_of<'a>(item: ItemRef<'a>) -> (r: Vec<ItemRef<'a>>)
    ensures
        views(r@) == parts(item@),
{
    let mut out: Vec<ItemRef<'a>> = Vec::new();
    assert(views(out@) =~= Seq::<Node>::empty());
    match &item.item().payload {
        ItemPayload::Struct(kind) => match kind {
            StructKind::Unit => {},
            StructKind::Tuple(fields) => {
                let ids = present(fields);
                crate::graph::push_members(item.snapshot(), &ids, &mut out);
            },
            StructKind::Plain(fields) => {
                crate::graph::push_members(item.snapshot(), fields, &mut out);
            },
        },
        ItemPayload::Trait(items) => {
            crate::graph::push_members(item.snapshot(), items, &mut out);
        },
        _ => {},
    }
    assert(Seq::<Node>::empty() + parts(item@) =~= parts(item@));
    out
}

/// The children of an item as the walk sees them; none where a package is
/// yet to be loaded.
spec fn kids_of(w: World, n: Node) -> Seq<Node> {
    match children(w, n, true, ALIAS_DEPTH as nat) {
        Stage::Done(kids) => kids,
        Stage::Load(_) => Seq::empty(),
    }
}

/// An item with this key waits among `nodes[from..]`.
spec fn pending(nodes: Seq<Node>, from: int, key: DocKey) -> bool {
    exists|e: int| from <= e < nodes.len() && key_of(#[trigger] nodes[e]) == key
}

/// An item that waits to be visited, with the id path that led to it.
struct Visit<'a> {
    item: ItemRef<'a>,
    path: Vec<u32>,
}

/// The items of a list of visits.
spec fn visit_nodes<'a>(v: Seq<Visit<'a>>) -> Seq<Node> {
    Seq::new(v.len(), |e: int| v[e].item@)
}

/// The visits stand at the ends of walks of `depth` steps from the root.
spec fn visits_ok<'a>(
    w: World,
    root: Node,
    v: Seq<Visit<'a>>,
    walks: Seq<Seq<Node>>,
    depth: int,
) -> bool {
    &&& walks.len() == v.len()
    &&& forall|e: int|
        0 <= e < v.len() ==> {
            &&& is_walk(w, root, #[trigger] walks[e])
            &&& walks[e].last() == v[e].item@
            &&& walk_ids(walks[e]) == v[e].path@
            &&& v[e].path@.len() == depth
        }
}

/// A copy of a path with one more id.
fn extend_path(path: &Vec<u32>, id: u32) -> (r: Vec<u32>)
    ensures
        r@ == path@.push(id),
{
    let mut out: Vec<u32> = Vec::new();
    let mut i: usize = 0;
    while i < path.len()
        invariant
            i <= path@.len(),
            out@ == path@.take(i as int),
        decreases path@.len() - i,
    {
        out.push(path[i]);
        assert(path@.take(i + 1) =~= path@.take(i as int).push(path@[i as int]));
        i += 1;
    }
    assert(path@.take(i as int) =~= path@);
    out.push(id);
    out
}

/// A copy of a path.
fn copy_path(path: &Vec<u32>) -> (r: Vec<u32>)
    ensures
        r@ == path@,
{
    let mut out: Vec<u32> = Vec::new();
    let mut i: usize = 0;
    while i < path.len()
        invariant
            i <= path@.len(),
            out@ == path@.take(i as int),
        decreases path@.len() - i,
    {
        out.push(path[i]);
        assert(path@.take(i + 1) =~= path@.take(i as int).push(path@[i as int]));
        i += 1;
    }
    assert(path@.take(i as int) =~= path@);
    out
}

/// Some walk of fewer than `limit` steps from the root ends at an item whose
/// children cannot be listed before the package `c` is loaded.
pub open spec fn walk_asks(w: World, root: Node, limit: int, c: Seq<char>) -> bool {
    exists|walk: Seq<Node>|
        #[trigger] is_walk(w, root, walk) && walk.len() - 1 < limit && children(
            w,
            walk.last(),
            true,
            ALIAS_DEPTH as nat,
        ) == Stage::<Seq<Node>>::Load(c)
}

/// The children of the item at the end of every walk of fewer than `limit`
/// steps from the root can be listed: no package has to be loaded for them.
pub open spec fn walks_complete(w: World, root: Node, limit: int) -> bool {
    forall|walk: Seq<Node>|
        #[trigger] is_walk(w, root, walk) && walk.len() - 1 < limit ==> children(
            w,
            walk.last(),
            true,
            ALIAS_DEPTH as nat,
        ) is Done
}

/// The index under construction.
pub struct Terms {
    entries: Vec<TermEntry>,
    slot_of: BTreeMap<u64, usize>,
    paths: Vec<Vec<u32>>,
    keys: Vec<DocKey>,
    seen: BTreeMap<u128, usize>,
    walks: Ghost<Seq<Seq<Node>>>,
}

impl Terms {
    /// The postings of each term.
    pub closed spec fn postings(&self) -> Map<u64, Seq<Posting>> {
        Map::new(
            |k: u64| self.slot_of@.contains_key(k),
            |k: u64| self.entries@[self.slot_of@[k] as int].postings@,
        )
    }

    /// The id path of each document.
    pub closed spec fn paths(&self) -> Seq<Vec<u32>> {
        self.paths@
    }

    /// The key of each document.
    pub closed spec fn keys(&self) -> Seq<DocKey> {
        self.keys@
    }

    /// The walk by which each document was reached.
    pub closed spec fn walks(&self) -> Seq<Seq<Node>> {
        self.walks@
    }

    /// The tables agree with one another.
    pub closed spec fn wf(&self) -> bool {
        &&& self.paths@.len() == self.keys@.len()
        &&& self.paths@.len() == self.walks@.len()
        &&& forall|k: u64| #[trigger]
            self.slot_of@.contains_key(k) ==> self.slot_of@[k] < self.entries@.len()
                && self.entries@[self.slot_of@[k] as int].key == k
        &&& forall|i: int|
            0 <= i < self.entries@.len() ==> self.slot_of@.contains_key(
                (#[trigger] self.entries@[i]).key,
            ) && self.slot_of@[self.entries@[i].key] == i
        &&& forall|i: int|
            0 <= i < self.entries@.len() ==> ascending((#[trigger] self.entries@[i]).postings@)
        &&& forall|i: int, j: int|
            0 <= i < self.entries@.len() && 0 <= j < self.entries@[i].postings@.len() ==> (
            #[trigger] self.entries@[i].postings@[j]).doc < self.paths@.len()
        &&& forall|k: u128| #[trigger]
            self.seen@.contains_key(k) ==> self.seen@[k] < self.keys@.len() && pack(
                self.keys@[self.seen@[k] as int],
            ) == k
        &&& forall|d: int|
            0 <= d < self.keys@.len() ==> self.seen@.contains_key(pack(#[trigger] self.keys@[d]))
                && self.seen@[pack(self.keys@[d])] == d
    }

    /// The document filed under each packed key.
    spec fn seen(&self) -> Map<u128, usize> {
        self.seen@
    }

    /// Adds `weight` to the raw frequency of a word's term in the newest
    /// document.
    #[verifier::rlimit(40)]
    fn add(&mut self, word: &str, weight: u64, doc: usize)
        requires
            old(self).wf(),
            doc + 1 == old(self).paths().len(),
        ensures
            final(self).wf(),
            final(self).paths() == old(self).paths(),
            final(self).keys() == old(self).keys(),
            final(self).seen() == old(self).seen(),
            final(self).walks() == old(self).walks(),
            forall|key: u64, d: usize|
                tf(final(self).postings(), key, d) == if key == term_key(word@) && d == doc {
                    raised(tf(old(self).postings(), key, d), weight as nat)
                } else {
                    tf(old(self).postings(), key, d)
                },
    {
        let key = hash_term(word);
        let ghost before = old(self).postings();
        let found: Option<usize> = match self.slot_of.get(&key) {
            Some(slot) => Some(*slot),
            None => None,
        };
        match found {
            Some(slot) => {
                let n: usize = self.entries[slot].postings.len();
                let ghost list = self.entries@[slot as int].postings@;
                assert(before[key] == list);
                if n > 0 && self.entries[slot].postings[n - 1].doc == doc {
                    let was: u64 = self.entries[slot].postings[n - 1].tf;
                    let now: u64 = if was > u64::MAX - weight {
                        u64::MAX
                    } else {
                        was + weight
                    };
                    self.entries[slot].postings[n - 1].tf = now;
                    let ghost changed = self.entries@[slot as int].postings@;
                    proof {
                        assert(changed =~= list.update(n - 1, Posting { doc, tf: now }));
                        assert(changed.drop_last() =~= list.drop_last());
                        lemma_tf_in_at(list, n - 1);
                        assert(ascending(changed)) by {
                            assert forall|i: int, j: int| 0 <= i < j < changed.len() implies changed[i].doc
                                < changed[j].doc by {
                                assert(list[i].doc < list[j].doc);
                            }
                        }
                        lemma_tf_in_at(changed, n - 1);
                    }
                } else {
                    self.entries[slot].postings.push(Posting { doc, tf: weight });
                    let ghost changed = self.entries@[slot as int].postings@;
                    proof {
                        assert(changed.drop_last() =~= list);
                        assert forall|j: int| 0 <= j < list.len() implies (#[trigger] list[j]).doc
                            < doc by {
                            assert(old(self).entries@[slot as int].postings@[j].doc <= doc);
                            if n > 0 && j < n - 1 {
                                assert(list[j].doc < list[n - 1].doc);
                            }
                        }
                        lemma_tf_in_absent(list, doc);
                        assert(ascending(changed)) by {
                            assert forall|i: int, j: int| 0 <= i < j < changed.len() implies changed[i].doc
                                < changed[j].doc by {
                                if j < list.len() {
                                    assert(list[i].doc < list[j].doc);
                                } else {
                                    assert(list[i].doc < doc);
                                }
                            }
                        }
                    }
                }
                proof {
                    let changed = self.entries@[slot as int].postings@;
                    assert(self.postings() =~= before.insert(key, changed));
                    assert forall|i: int| 0 <= i < self.entries@.len() implies ascending(
                        (#[trigger] self.entries@[i]).postings@,
                    ) by {
                        if i != slot {
                            assert(self.entries@[i] == old(self).entries@[i]);
                        }
                    }
                    assert forall|i: int, j: int|
                        0 <= i < self.entries@.len() && 0 <= j
                            < self.entries@[i].postings@.len() implies (
                    #[trigger] self.entries@[i].postings@[j]).doc < self.paths@.len() by {
                        if i != slot {
                            assert(self.entries@[i] == old(self).entries@[i]);
                        } else if j < list.len() {
                            assert(old(self).entries@[i].postings@[j].doc < self.paths@.len());
                        }
                    }
                    assert forall|k: u64, d: usize|
                        tf(self.postings(), k, d) == if k == term_key(word@) && d == doc {
                            raised(tf(before, k, d), weight as nat)
                        } else {
                            tf(before, k, d)
                        } by {
                        if k == key && d != doc {
                            assert(changed.last().doc == doc);
                            if changed.len() == list.len() {
                                assert(list.last().doc == doc);
                            }
                        }
                    }
                }
            },
            None => {
                let slot: usize = self.entries.len();
                let mut postings: Vec<Posting> = Vec::new();
                postings.push(Posting { doc, tf: weight });
                let ghost list = postings@;
                self.entries.push(TermEntry { key, postings });
                self.slot_of.insert(key, slot);
                proof {
                    assert(list.drop_last() =~= Seq::<Posting>::empty());
                    assert(self.postings() =~= before.insert(key, list));
                    assert forall|i: int| 0 <= i < self.entries@.len() implies ascending(
                        (#[trigger] self.entries@[i]).postings@,
                    ) by {
                        if i != slot {
                            assert(self.entries@[i] == old(self).entries@[i]);
                        }
                    }
                    assert forall|i: int, j: int|
                        0 <= i < self.entries@.len() && 0 <= j
                            < self.entries@[i].postings@.len() implies (
                    #[trigger] self.entries@[i].postings@[j]).doc < self.paths@.len() by {
                        if i != slot {
                            assert(self.entries@[i] == old(self).entries@[i]);
                        }
                    }
                    assert forall|i: int| 0 <= i < self.entries@.len() implies self.slot_of@.contains_key(
                        (#[trigger] self.entries@[i]).key,
                    ) && self.slot_of@[self.entries@[i].key] == i by {
                        if i != slot {
                            assert(self.entries@[i] == old(self).entries@[i]);
                        }
                    }
                    assert forall|k: u64, d: usize|
                        tf(self.postings(), k, d) == if k == term_key(word@) && d == doc {
                            raised(tf(before, k, d), weight as nat)
                        } else {
                            tf(before, k, d)
                        } by {
                        if k == key {
                            assert(list.last() == Posting { doc, tf: weight });
                            assert(!before.contains_key(key));
                            assert(self.postings()[key] == list);
                            assert(list.drop_last().len() == 0);
                            assert(tf_in(list.drop_last(), d) == 0);
                        } else {
                            assert(self.postings().contains_key(k) == before.contains_key(k));
                            if before.contains_key(k) {
                                assert(self.postings()[k] == before[k]);
                            }
                        }
                    }
                }
            },
        }
    }

    /// No frequency exceeds the range of its posting.
    proof fn lemma_tf_bounded(&self, key: u64, doc: usize)
        requires
            self.wf(),
        ensures
            tf(self.postings(), key, doc) <= u64::MAX,
            doc >= self.paths().len() ==> tf(self.postings(), key, doc) == 0,
    {
        if self.postings().contains_key(key) {
            let list = self.postings()[key];
            let slot = self.slot_of@[key] as int;
            assert(self.entries@[slot].postings@ == list);
            if exists|j: int| 0 <= j < list.len() && list[j].doc == doc {
                let j = choose|j: int| 0 <= j < list.len() && list[j].doc == doc;
                lemma_tf_in_at(list, j);
                assert(self.entries@[slot].postings@[j].doc < self.paths@.len());
            } else {
                lemma_tf_in_absent(list, doc);
            }
        }
    }

    /// Adds the tokens of a text to the newest document, each with the
    /// weight `base_score`.
    fn add_terms(&mut self, text: &str, doc: usize, base_score: u64)
        requires
            old(self).wf(),
            doc + 1 == old(self).paths().len(),
        ensures
            final(self).wf(),
            final(self).paths() == old(self).paths(),
            final(self).keys() == old(self).keys(),
            final(self).seen() == old(self).seen(),
            final(self).walks() == old(self).walks(),
            grown_by(
                old(self).postings(),
                final(self).postings(),
                doc,
                shares_of_text(text@, base_score),
            ),
    {
        let words = tokenize(text);
        let ghost all = shares_of_text(text@, base_score);
        let ghost start = self.postings();
        let mut j: usize = 0;
        proof {
            assert(all.take(0) =~= Seq::<Share>::empty());
            assert forall|key: u64| tf(start, key, doc) <= u64::MAX by {
                self.lemma_tf_bounded(key, doc);
            }
            lemma_grown_by_nothing(start, doc);
        }
        while j < words.len()
            invariant
                j <= words@.len(),
                words@.len() == tokens_of(text@).len(),
                forall|i: int|
                    0 <= i < words@.len() ==> (#[trigger] words@[i])@ == tokens_of(text@)[i],
                all == shares_of_text(text@, base_score),
                self.wf(),
                doc + 1 == self.paths().len(),
                self.paths() == old(self).paths(),
                self.keys() == old(self).keys(),
                self.seen() == old(self).seen(),
                self.walks() == old(self).walks(),
                start == old(self).postings(),
                grown_by(start, self.postings(), doc, all.take(j as int)),
            decreases words@.len() - j,
        {
            let ghost mid = self.postings();
            self.add(words[j], base_score, doc);
            proof {
                let one = seq![all[j as int]];
                assert(all.take(j + 1) =~= all.take(j as int) + one);
                assert(one.drop_last() =~= Seq::<Share>::empty());
                assert forall|key: u64, d: usize|
                    #![trigger tf(self.postings(), key, d)]
                    tf(self.postings(), key, d) == if d == doc {
                        raised(tf(mid, key, d), weight_of(one, key))
                    } else {
                        tf(mid, key, d)
                    } by {
                    assert(weight_of(one.drop_last(), key) == 0);
                    assert(one.last().key == term_key(words@[j as int]@));
                    assert(tf(mid, key, d) == if d == doc {
                        raised(tf(start, key, d), weight_of(all.take(j as int), key))
                    } else {
                        tf(start, key, d)
                    });
                }
                lemma_grown_twice(start, mid, self.postings(), doc, all.take(j as int), one);
            }
            j += 1;
        }
        assert(all.take(j as int) =~= all);
    }

    /// Adds the name and the documentation of an item to the newest
    /// document.
    fn add_for_item<'a>(&mut self, item: ItemRef<'a>, doc: usize)
        requires
            old(self).wf(),
            doc + 1 == old(self).paths().len(),
        ensures
            final(self).wf(),
            final(self).paths() == old(self).paths(),
            final(self).keys() == old(self).keys(),
            final(self).seen() == old(self).seen(),
            final(self).walks() == old(self).walks(),
            grown_by(
                old(self).postings(),
                final(self).postings(),
                doc,
                shares_of_item(item@.display_name(), item@.item().docs),
            ),
    {
        let ghost start = self.postings();
        let ghost first = match item@.display_name() {
            Some(n) => shares_of_text(n, NAME_WEIGHT),
            None => Seq::empty(),
        };
        let ghost second = match item@.item().docs {
            Some(d) => shares_of_text(d@, DOCS_WEIGHT),
            None => Seq::empty(),
        };
        proof {
            assert forall|key: u64| tf(start, key, doc) <= u64::MAX by {
                self.lemma_tf_bounded(key, doc);
            }
            lemma_grown_by_nothing(start, doc);
        }
        match item.name() {
            Some(name) => {
                self.add_terms(name, doc, NAME_WEIGHT);
            },
            None => {},
        }
        let ghost mid = self.postings();
        proof {
            assert forall|key: u64| tf(mid, key, doc) <= u64::MAX by {
                self.lemma_tf_bounded(key, doc);
            }
            lemma_grown_by_nothing(mid, doc);
        }
        match &item.item().docs {
            Some(docs) => {
                self.add_terms(docs.as_str(), doc, DOCS_WEIGHT);
            },
            None => {},
        }
        proof {
            lemma_grown_twice(start, mid, self.postings(), doc, first, second);
        }
    }

    /// Adds all that an item brings to the newest document: its own name
    /// and documentation, and those of its parts.
    fn index_doc<'a>(&mut self, item: ItemRef<'a>, doc: usize)
        requires
            old(self).wf(),
            doc + 1 == old(self).paths().len(),
        ensures
            final(self).wf(),
            final(self).paths() == old(self).paths(),
            final(self).keys() == old(self).keys(),
            final(self).seen() == old(self).seen(),
            final(self).walks() == old(self).walks(),
            grown_by(old(self).postings(), final(self).postings(), doc, shares_of_doc(item@)),
    {
        let ghost start = self.postings();
        let ghost own = shares_of_item(item@.display_name(), item@.item().docs);
        self.add_for_item(item, doc);
        let pieces = parts_of(item);
        let ghost ps = views(pieces@);
        let ghost acc = own;
        let mut k: usize = 0;
        while k < pieces.len()
            invariant
                k <= pieces@.len(),
                ps == views(pieces@),
                self.wf(),
                doc + 1 == self.paths().len(),
                self.paths() == old(self).paths(),
                self.keys() == old(self).keys(),
                self.seen() == old(self).seen(),
                self.walks() == old(self).walks(),
                start == old(self).postings(),
                grown_by(start, self.postings(), doc, acc),
                acc + shares_of_parts(ps, k as int) == own + shares_of_parts(ps, 0),
            decreases pieces@.len() - k,
        {
            let ghost mid = self.postings();
            let piece = pieces[k];
            assert(ps[k as int] == piece@);
            self.add_for_item(piece, doc);
            proof {
                let more = shares_of_item(piece@.display_name(), piece@.item().docs);
                lemma_grown_twice(start, mid, self.postings(), doc, acc, more);
                assert((acc + more) + shares_of_parts(ps, k + 1) =~= acc + shares_of_parts(
                    ps,
                    k as int,
                ));
                acc = acc + more;
            }
            k += 1;
        }
        assert(acc + Seq::<Share>::empty() =~= acc);
    }

    /// The document filed under a key, if there is one.
    fn lookup_doc(&self, key: DocKey) -> (r: Option<usize>)
        requires
            self.wf(),
        ensures
            match r {
                Some(d) => self.seen().contains_key(pack(key)) && self.seen()[pack(key)] == d && d
                    < self.keys().len() && self.keys()[d as int] == key,
                None => !self.seen().contains_key(pack(key)),
            },
    {
        match self.seen.get(&pack_key(key)) {
            Some(d) => {
                proof {
                    lemma_pack_injective(self.keys@[*d as int], key);
                }
                Some(*d)
            },
            None => None,
        }
    }

    /// Files a new document under a key that has none.
    fn record(&mut self, key: DocKey, path: Vec<u32>, walk: Ghost<Seq<Node>>) -> (doc: usize)
        requires
            old(self).wf(),
            !old(self).seen().contains_key(pack(key)),
        ensures
            final(self).wf(),
            doc == old(self).paths().len(),
            final(self).paths() == old(self).paths().push(path),
            final(self).keys() == old(self).keys().push(key),
            final(self).walks() == old(self).walks().push(walk@),
            final(self).seen() == old(self).seen().insert(pack(key), doc),
            final(self).postings() == old(self).postings(),
            forall|term: u64| tf(final(self).postings(), term, doc) == 0,
    {
        let doc: usize = self.paths.len();
        proof {
            assert forall|term: u64| tf(self.postings(), term, doc) == 0 by {
                self.lemma_tf_bounded(term, doc);
            }
        }
        self.paths.push(path);
        self.keys.push(key);
        self.seen.insert(pack_key(key), doc);
        self.walks = Ghost(self.walks@.push(walk@));
        proof {
            assert(self.postings() =~= old(self).postings());
            assert forall|d: int| 0 <= d < self.keys@.len() implies self.seen@.contains_key(
                pack(#[trigger] self.keys@[d]),
            ) && self.seen@[pack(self.keys@[d])] == d by {
                if d < doc {
                    assert(self.keys@[d] == old(self).keys@[d]);
                    assert(old(self).seen@.contains_key(pack(old(self).keys@[d])));
                }
            }
            assert forall|k: u128| #[trigger] self.seen@.contains_key(k) implies self.seen@[k]
                < self.keys@.len() && pack(self.keys@[self.seen@[k] as int]) == k by {
                if k != pack(key) {
                    assert(old(self).seen@.contains_key(k));
                }
            }
            assert forall|i: int, j: int|
                0 <= i < self.entries@.len() && 0 <= j < self.entries@[i].postings@.len() implies (
            #[trigger] self.entries@[i].postings@[j]).doc < self.paths@.len() by {
                assert(old(self).entries@[i].postings@[j].doc < old(self).paths@.len());
            }
        }
        doc
    }

    /// The table of keys finds a document for the key, filed under a path of
    /// at most `depth` ids.
    spec fn covered(&self, key: DocKey, depth: int) -> bool {
        self.seen().contains_key(pack(key)) && self.paths()[self.seen()[pack(key)] as int]@.len()
            <= depth
    }

    /// The key has a document, filed under a path of at most `depth` ids.
    pub open spec fn files(&self, key: DocKey, depth: int) -> bool {
        exists|d: int|
            0 <= d < self.keys().len() && #[trigger] self.keys()[d] == key
                && self.paths()[d]@.len() <= depth
    }

    /// No two documents have one key.
    pub open spec fn distinct(&self) -> bool {
        forall|a: int, b: int|
            0 <= a < b < self.keys().len() ==> #[trigger] self.keys()[a] != #[trigger] self.keys()[b]
    }

    /// Every path is shorter than `limit`.
    pub open spec fn within(&self, limit: int) -> bool {
        forall|d: int| 0 <= d < self.paths().len() ==> (#[trigger] self.paths()[d])@.len() < limit
    }

    /// What the table of keys finds is a document with that key.
    proof fn lemma_covered_files(&self, key: DocKey, depth: int)
        requires
            self.wf(),
            self.covered(key, depth),
        ensures
            self.files(key, depth),
    {
        let d = self.seen()[pack(key)] as int;
        lemma_pack_injective(self.keys()[d], key);
        assert(self.keys()[d] == key);
    }

    /// The table of keys keeps the documents apart.
    proof fn lemma_distinct(&self)
        requires
            self.wf(),
        ensures
            self.distinct(),
            self.paths().len() == self.keys().len(),
            self.paths().len() == self.walks().len(),
    {
        assert forall|a: int, b: int| 0 <= a < b < self.keys().len() implies #[trigger] self.keys()[a]
            != #[trigger] self.keys()[b] by {
            assert(self.seen()[pack(self.keys()[a])] == a);
            assert(self.seen()[pack(self.keys()[b])] == b);
        }
    }

    /// The document `d` stands for the item at the end of a walk from the
    /// root: its path lists the ids along the walk, its key is the item's,
    /// the children of the item could be listed, and each term has the raw
    /// frequency that the item gives it.
    pub open spec fn doc_filed(&self, w: World, root: Node, d: int) -> bool {
        let walk = self.walks()[d];
        &&& is_walk(w, root, walk)
        &&& walk_ids(walk) == self.paths()[d]@
        &&& key_of(walk.last()) == self.keys()[d]
        &&& children(w, walk.last(), true, ALIAS_DEPTH as nat) is Done
        &&& forall|term: u64|
            tf(self.postings(), term, d as usize) == clamp(doc_weight(walk.last(), term) as int)
    }

    /// Every document is filed as [`Terms::doc_filed`] says.
    pub open spec fn filed(&self, w: World, root: Node) -> bool {
        forall|d: int| 0 <= d < self.paths().len() ==> #[trigger] self.doc_filed(w, root, d)
    }

    /// Whatever walk of fewer than `limit` steps leads from the root to an
    /// item, the item has a document, and its path is no longer than the walk.
    pub open spec fn shortest(&self, w: World, root: Node, limit: int) -> bool {
        forall|walk: Seq<Node>|
            #[trigger] is_walk(w, root, walk) && walk.len() - 1 < limit ==> self.files(
                key_of(walk.last()),
                walk.len() - 1,
            )
    }

    /// `later` holds all the documents of `self`, unchanged.
    spec fn kept_by(&self, later: &Terms) -> bool {
        &&& self.paths().len() <= later.paths().len()
        &&& forall|d: int|
            0 <= d < self.paths().len() ==> (#[trigger] later.paths()[d]) == self.paths()[d]
                && later.walks()[d] == self.walks()[d]
        &&& forall|k: u128| #[trigger]
            self.seen().contains_key(k) ==> later.seen().contains_key(k) && later.seen()[k]
                == self.seen()[k]
    }

    /// The child `j` of the document `d` is accounted for: it has a document
    /// no deeper than it stands, or it waits in the level that is being
    /// worked off, or in the level that is being made.
    spec fn settled(
        &self,
        w: World,
        d: int,
        j: int,
        depth: int,
        now: Seq<Node>,
        from: int,
        next: Seq<Node>,
    ) -> bool {
        let key = key_of(kids_of(w, self.walks()[d].last())[j]);
        let m: int = (self.paths()[d]@.len() + 1) as int;
        self.covered(key, m) || (m == depth && pending(now, from, key)) || (m == depth + 1
            && pending(next, 0, key))
    }

    /// Every child of every document is accounted for.
    spec fn closed(&self, w: World, depth: int, now: Seq<Node>, from: int, next: Seq<Node>) -> bool {
        forall|d: int, j: int|
            0 <= d < self.paths().len() && 0 <= j < kids_of(w, self.walks()[d].last()).len()
                ==> #[trigger] self.settled(w, d, j, depth, now, from, next)
    }

    /// Working one visit off keeps every child accounted for.
    #[verifier::rlimit(40)]
    proof fn lemma_step(
        t0: &Terms,
        t1: &Terms,
        w: World,
        depth: int,
        now: Seq<Node>,
        i: int,
        n0: Seq<Node>,
        n1: Seq<Node>,
    )
        requires
            t0.wf(),
            t0.closed(w, depth, now, i, n0),
            t0.kept_by(t1),
            0 <= i < now.len(),
            t1.covered(key_of(now[i]), depth),
            n0.len() <= n1.len(),
            forall|e: int| 0 <= e < n0.len() ==> n1[e] == n0[e],
            forall|d: int, j: int|
                t0.paths().len() <= d < t1.paths().len() && 0 <= j < kids_of(
                    w,
                    t1.walks()[d].last(),
                ).len() ==> #[trigger] t1.settled(w, d, j, depth, now, i + 1, n1),
        ensures
            t1.closed(w, depth, now, i + 1, n1),
    {
        assert forall|d: int, j: int|
            0 <= d < t1.paths().len() && 0 <= j < kids_of(
                w,
                t1.walks()[d].last(),
            ).len() implies #[trigger] t1.settled(w, d, j, depth, now, i + 1, n1) by {
            if d < t0.paths().len() {
                assert(t1.paths()[d] == t0.paths()[d]);
                assert(t1.walks()[d] == t0.walks()[d]);
                assert(t0.settled(w, d, j, depth, now, i, n0));
                let key = key_of(kids_of(w, t0.walks()[d].last())[j]);
                let m: int = (t0.paths()[d]@.len() + 1) as int;
                if t0.covered(key, m) {
                    let at = t0.seen()[pack(key)] as int;
                    assert(t1.seen().contains_key(pack(key)));
                    assert(t1.paths()[at] == t0.paths()[at]);
                } else if m == depth && pending(now, i, key) {
                    let e = choose|e: int| i <= e < now.len() && key_of(#[trigger] now[e]) == key;
                    if e == i {
                        assert(t1.covered(key, m));
                    } else {
                        assert(pending(now, i + 1, key));
                    }
                } else {
                    let e = choose|e: int| 0 <= e < n0.len() && key_of(#[trigger] n0[e]) == key;
                    assert(n1[e] == n0[e]);
                    assert(key_of(n1[e]) == key);
                    assert(pending(n1, 0, key));
                }
            }
        }
    }

    /// A level that has been worked off hands the next level on.
    proof fn lemma_level(t: &Terms, w: World, depth: int, now: Seq<Node>, next: Seq<Node>)
        requires
            t.closed(w, depth, now, now.len() as int, next),
        ensures
            t.closed(w, depth + 1, next, 0, Seq::empty()),
    {
        assert forall|d: int, j: int|
            0 <= d < t.paths().len() && 0 <= j < kids_of(
                w,
                t.walks()[d].last(),
            ).len() implies #[trigger] t.settled(w, d, j, depth + 1, next, 0, Seq::empty()) by {
            assert(t.settled(w, d, j, depth, now, now.len() as int, next));
        }
    }

    /// Once the walk of the graph has ended, every item along a walk of
    /// fewer than `limit` steps has a document no deeper than it stands.
    #[verifier::rlimit(40)]
    proof fn lemma_walk_covered(
        t: &Terms,
        w: World,
        root: Node,
        depth: int,
        now: Seq<Node>,
        limit: int,
        walk: Seq<Node>,
        at: int,
    )
        requires
            t.wf(),
            w.wf(),
            root.wf(),
            root.owned_by(w),
            t.filed(w, root),
            t.closed(w, depth, now, 0, Seq::empty()),
            t.covered(key_of(root), 0) || (depth == 0 && pending(now, 0, key_of(root))),
            depth >= limit || now.len() == 0,
            is_walk(w, root, walk),
            walk.len() - 1 < limit,
            0 <= at < walk.len(),
        ensures
            t.covered(key_of(walk[at]), at),
        decreases at,
    {
        if at == 0 {
            if !t.covered(key_of(root), 0) {
                let e = choose|e: int| 0 <= e < now.len() && key_of(#[trigger] now[e]) == key_of(root);
                assert(false);
            }
        } else {
            Self::lemma_walk_covered(t, w, root, depth, now, limit, walk, at - 1);
            let prev = walk[at - 1];
            let d = t.seen()[pack(key_of(prev))] as int;
            assert(t.seen().contains_key(pack(key_of(prev))));
            lemma_pack_injective(t.keys()[d], key_of(prev));
            assert(t.doc_filed(w, root, d));
            let here = t.walks()[d].last();
            lemma_walk_sound(w, root, t.walks()[d], t.walks()[d].len() - 1);
            lemma_walk_sound(w, root, walk, at - 1);
            lemma_key_place(w, here, prev);
            lemma_children_by_place(w, here, prev, true, ALIAS_DEPTH as nat);
            assert(steps_to(w, walk[at - 1], walk[at - 1 + 1]));
            let kids = kids_of(w, here);
            let j = choose|j: int| 0 <= j < kids.len() && kids[j] == walk[at];
            assert(t.settled(w, d, j, depth, now, 0, Seq::empty()));
            let key = key_of(walk[at]);
            let m: int = (t.paths()[d]@.len() + 1) as int;
            if !t.covered(key, m) {
                if m == depth && pending(now, 0, key) {
                    let e = choose|e: int| 0 <= e < now.len() && key_of(#[trigger] now[e]) == key;
                    assert(false);
                } else {
                    let none = Seq::<Node>::empty();
                    let e = choose|e: int| 0 <= e < none.len() && key_of(#[trigger] none[e]) == key;
                    assert(false);
                }
            }
        }
    }

    /// Walks the item graph from `root`, level by level, to at most `limit`
    /// levels, and files every item that it meets for the first time.
    #[verifier::rlimit(40)]
    pub fn walk_graph<'a>(ctx: &'a RequestContext, root: ItemRef<'a>, limit: usize) -> (r: Step<
        Terms,
    >)
        requires
            root@.owned_by(ctx@),
        ensures
            match r {
                Step::Load(c) => !ctx@.knows(c@) && walk_asks(ctx@, root@, limit as int, c@),
                Step::Done(t) => {
                    &&& t.wf()
                    &&& t.paths().len() == t.keys().len()
                    &&& t.paths().len() == t.walks().len()
                    &&& t.distinct()
                    &&& t.within(limit as int)
                    &&& t.filed(ctx@, root@)
                    &&& t.shortest(ctx@, root@, limit as int)
                    &&& walks_complete(ctx@, root@, limit as int)
                },
            },
    {
        let _ = ctx.names();
        let _ = root.item();
        let mut t = Terms::new();
        let mut frontier: Vec<Visit<'a>> = Vec::new();
        frontier.push(Visit { item: root, path: Vec::new() });
        let ghost mut fwalks: Seq<Seq<Node>> = seq![seq![root@]];
        let mut depth: usize = 0;
        proof {
            assert(walk_ids(seq![root@]) =~= Seq::<u32>::empty());
            assert(visit_nodes(frontier@)[0] == root@);
            assert(pending(visit_nodes(frontier@), 0, key_of(root@)));
        }
        while depth < limit && frontier.len() > 0
            invariant
                ctx@.wf(),
                root@.wf(),
                root@.owned_by(ctx@),
                t.wf(),
                t.filed(ctx@, root@),
                depth <= limit,
                forall|d: int| 0 <= d < t.paths().len() ==> (#[trigger] t.paths()[d])@.len() < depth,
                visits_ok(ctx@, root@, frontier@, fwalks, depth as int),
                t.closed(ctx@, depth as int, visit_nodes(frontier@), 0, Seq::empty()),
                t.covered(key_of(root@), 0) || (depth == 0 && pending(
                    visit_nodes(frontier@),
                    0,
                    key_of(root@),
                )),
            decreases limit - depth,
        {
            let mut next: Vec<Visit<'a>> = Vec::new();
            let ghost mut nwalks: Seq<Seq<Node>> = Seq::empty();
            let ghost now = visit_nodes(frontier@);
            let mut i: usize = 0;
            proof {
                assert(visit_nodes(next@) =~= Seq::<Node>::empty());
            }
            while i < frontier.len()
                invariant
                    ctx@.wf(),
                    root@.wf(),
                    root@.owned_by(ctx@),
                    t.wf(),
                    t.filed(ctx@, root@),
                    depth < limit,
                    forall|d: int|
                        0 <= d < t.paths().len() ==> (#[trigger] t.paths()[d])@.len() <= depth,
                    i <= frontier@.len(),
                    now == visit_nodes(frontier@),
                    visits_ok(ctx@, root@, frontier@, fwalks, depth as int),
                    visits_ok(ctx@, root@, next@, nwalks, depth + 1),
                    t.closed(ctx@, depth as int, now, i as int, visit_nodes(next@)),
                    t.covered(key_of(root@), 0) || (depth == 0 && pending(
                        now,
                        i as int,
                        key_of(root@),
                    )),
                decreases frontier@.len() - i,
            {
                let item = frontier[i].item;
                let key = doc_key(item);
                let ghost t0 = t;
                let ghost n0 = visit_nodes(next@);
                assert(now[i as int] == item@);
                assert(fwalks[i as int].last() == item@);
                match t.lookup_doc(key) {
                    Some(d) => {
                        proof {
                            assert(t.paths()[d as int]@.len() <= depth);
                        }
                    },
                    None => {
                        proof {
                            lemma_walk_sound(
                                ctx@,
                                root@,
                                fwalks[i as int],
                                fwalks[i as int].len() - 1,
                            );
                            lemma_children_sound(ctx@, item@, true, ALIAS_DEPTH as nat);
                        }
                        let kids = match item.child_items(ctx, true) {
                            Step::Load(c) => {
                                assert(is_walk(ctx@, root@, fwalks[i as int]));
                                assert(fwalks[i as int].len() - 1 < limit) by {
                                    assert(walk_ids(fwalks[i as int]).len() == depth);
                                }
                                return Step::Load(c);
                            },
                            Step::Done(kids) => kids,
                        };
                        let ghost kid_nodes = views(kids@);
                        assert(kids_of(ctx@, item@) == kid_nodes);
                        let path = copy_path(&frontier[i].path);
                        let doc = t.record(key, path, Ghost(fwalks[i as int]));
                        let ghost t_mid = t;
                        t.index_doc(item, doc);
                        proof {
                            assert forall|d: int| 0 <= d < t.paths().len() implies #[trigger] t.doc_filed(
                                ctx@,
                                root@,
                                d,
                            ) by {
                                if d < doc {
                                    assert(t0.doc_filed(ctx@, root@, d));
                                    assert(t.paths()[d] == t0.paths()[d]);
                                    assert(t.walks()[d] == t0.walks()[d]);
                                    assert(t.keys()[d] == t0.keys()[d]);
                                    assert forall|term: u64|
                                        tf(t.postings(), term, d as usize) == clamp(
                                            doc_weight(t.walks()[d].last(), term) as int,
                                        ) by {
                                        assert(tf(t.postings(), term, d as usize) == tf(
                                            t_mid.postings(),
                                            term,
                                            d as usize,
                                        ));
                                    }
                                } else {
                                    assert forall|term: u64|
                                        tf(t.postings(), term, d as usize) == clamp(
                                            doc_weight(t.walks()[d].last(), term) as int,
                                        ) by {
                                        assert(tf(t.postings(), term, d as usize) == raised(
                                            tf(t_mid.postings(), term, d as usize),
                                            weight_of(shares_of_doc(item@), term),
                                        ));
                                    }
                                }
                            }
                        }
                        let ghost next0 = next@;
                        let mut q: usize = 0;
                        while q < kids.len()
                            invariant
                                q <= kids@.len(),
                                depth < limit,
                                i < frontier@.len(),
                                kid_nodes == views(kids@),
                                kids_of(ctx@, item@) == kid_nodes,
                                children(ctx@, item@, true, ALIAS_DEPTH as nat) == Stage::Done(
                                    kid_nodes,
                                ),
                                visits_ok(ctx@, root@, frontier@, fwalks, depth as int),
                                fwalks[i as int].last() == item@,
                                visits_ok(ctx@, root@, next@, nwalks, depth + 1),
                                next@.len() == next0.len() + q,
                                forall|e: int| 0 <= e < next0.len() ==> next@[e] == next0[e],
                                forall|e: int|
                                    0 <= e < q ==> (#[trigger] next@[next0.len() + e]).item@
                                        == kid_nodes[e],
                            decreases kids@.len() - q,
                        {
                            let kid = kids[q];
                            assert(kid_nodes[q as int] == kid@);
                            let kid_path = extend_path(&frontier[i].path, kid.id());
                            let ghost kid_walk = fwalks[i as int].push(kid@);
                            let ghost before = next@;
                            next.push(Visit { item: kid, path: kid_path });
                            proof {
                                let base = fwalks[i as int];
                                assert(kid_nodes.contains(kid@));
                                assert(is_walk(ctx@, root@, kid_walk)) by {
                                    assert forall|x: int| 0 <= x < kid_walk.len() - 1 implies #[trigger] steps_to(
                                        ctx@,
                                        kid_walk[x],
                                        kid_walk[x + 1],
                                    ) by {
                                        if x < base.len() - 1 {
                                            assert(steps_to(ctx@, base[x], base[x + 1]));
                                        }
                                    }
                                }
                                assert(walk_ids(kid_walk) =~= walk_ids(base).push(kid@.item().id));
                                nwalks = nwalks.push(kid_walk);
                                assert forall|e: int| 0 <= e < next@.len() implies {
                                    &&& is_walk(ctx@, root@, #[trigger] nwalks[e])
                                    &&& nwalks[e].last() == next@[e].item@
                                    &&& walk_ids(nwalks[e]) == next@[e].path@
                                    &&& next@[e].path@.len() == depth + 1
                                } by {
                                    if e < before.len() {
                                        assert(next@[e] == before[e]);
                                    }
                                }
                            }
                            q += 1;
                        }
                        proof {
                            let n1 = visit_nodes(next@);
                            assert forall|d: int, j: int|
                                t0.paths().len() <= d < t.paths().len() && 0 <= j < kids_of(
                                    ctx@,
                                    t.walks()[d].last(),
                                ).len() implies #[trigger] t.settled(
                                ctx@,
                                d,
                                j,
                                depth as int,
                                now,
                                i + 1,
                                n1,
                            ) by {
                                assert(d == doc);
                                assert(t.walks()[d] == fwalks[i as int]);
                                assert(n1[next0.len() + j] == next@[next0.len() + j].item@);
                                assert(key_of(n1[next0.len() + j]) == key_of(kid_nodes[j]));
                                assert(pending(n1, 0, key_of(kid_nodes[j])));
                            }
                        }
                    },
                }
                proof {
                    let n1 = visit_nodes(next@);
                    assert(n0.len() <= n1.len());
                    assert forall|e: int| 0 <= e < n0.len() implies n1[e] == n0[e] by {}
                    Self::lemma_step(&t0, &t, ctx@, depth as int, now, i as int, n0, n1);
                    if !t.covered(key_of(root@), 0) {
                        let e = choose|e: int|
                            i <= e < now.len() && key_of(#[trigger] now[e]) == key_of(root@);
                        if e == i {
                            assert(false);
                        }
                        assert(pending(now, i + 1, key_of(root@)));
                    }
                }
                i += 1;
            }
            proof {
                Self::lemma_level(&t, ctx@, depth as int, now, visit_nodes(next@));
                if !t.covered(key_of(root@), 0) {
                    let e = choose|e: int|
                        i <= e < now.len() && key_of(#[trigger] now[e]) == key_of(root@);
                    assert(false);
                }
                fwalks = nwalks;
            }
            frontier = next;
            depth += 1;
        }
        proof {
            assert forall|walk: Seq<Node>|
                #[trigger] is_walk(ctx@, root@, walk) && walk.len() - 1 < limit implies t.files(
                    key_of(walk.last()),
                    walk.len() - 1,
                ) by {
                Self::lemma_walk_covered(
                    &t,
                    ctx@,
                    root@,
                    depth as int,
                    visit_nodes(frontier@),
                    limit as int,
                    walk,
                    walk.len() - 1,
                );
                t.lemma_covered_files(key_of(walk.last()), walk.len() - 1);
            }
            t.lemma_distinct();
            assert forall|walk: Seq<Node>|
                #[trigger] is_walk(ctx@, root@, walk) && walk.len() - 1 < limit implies children(
                    ctx@,
                    walk.last(),
                    true,
                    ALIAS_DEPTH as nat,
                ) is Done by {
                let key = key_of(walk.last());
                assert(t.files(key, walk.len() - 1));
                let d = choose|d: int|
                    0 <= d < t.keys().len() && #[trigger] t.keys()[d] == key
                        && t.paths()[d]@.len() <= walk.len() - 1;
                assert(t.doc_filed(ctx@, root@, d));
                let filed = t.walks()[d].last();
                lemma_walk_sound(ctx@, root@, t.walks()[d], t.walks()[d].len() - 1);
                lemma_walk_sound(ctx@, root@, walk, walk.len() - 1);
                lemma_key_place(ctx@, filed, walk.last());
                lemma_children_by_place(ctx@, filed, walk.last(), true, ALIAS_DEPTH as nat);
            }
        }
        Step::Done(t)
    }

    /// An index of no documents.
    pub fn new() -> (r: Terms)
        ensures
            r.wf(),
            r.paths().len() == 0,
            r.keys().len() == 0,
            r.walks().len() == 0,
            r.postings() == Map::<u64, Seq<Posting>>::empty(),
    {
        let r = Terms {
            entries: Vec::new(),
            slot_of: BTreeMap::new(),
            paths: Vec::new(),
            keys: Vec::new(),
            seen: BTreeMap::new(),
            walks: Ghost(Seq::empty()),
        };
        assert(r.postings() =~= Map::<u64, Seq<Posting>>::empty());
        r
    }
}

/// One posting that a query reaches: the document, the raw frequency of
/// the term in it, and the number of documents that hold the term.
#[derive(Clone, Copy, Debug, PartialEq, Eq, Structural)]
pub struct Match {
    pub doc: usize,
    pub tf: u64,
    pub df: usize,
}

/// What one posting adds to the score of its document: the raw frequency of
/// the term in the document, and the number of documents that hold the term.
#[derive(Clone, Copy, Debug, PartialEq, Eq, Structural)]
pub struct Part {
    pub tf: u64,
    pub df: usize,
}

/// A document that a query reached, with the parts of its score in the
/// order in which the query reached them.
#[derive(Debug)]
pub struct DocMatches {
    pub doc: usize,
    pub parts: Vec<Part>,
}

/// The parts that the first `upto` matches hold for a document, in order.
pub open spec fn picked(matches: Seq<Match>, doc: usize, upto: int) -> Seq<Part>
    decreases upto,
{
    if upto <= 0 || upto > matches.len() {
        Seq::empty()
    } else {
        picked(matches, doc, upto - 1) + if matches[upto - 1].doc == doc {
            seq![Part { tf: matches[upto - 1].tf, df: matches[upto - 1].df }]
        } else {
            Seq::empty()
        }
    }
}

/// Whether some group is for the document.
pub open spec fn has_group(groups: Seq<DocMatches>, doc: usize) -> bool {
    exists|g: int| 0 <= g < groups.len() && (#[trigger] groups[g]).doc == doc
}

/// The groups hold the first `upto` matches by document: the documents rise,
/// each group holds the parts of its document, in order, and has some, and
/// each of the matches has its document among the groups.
pub open spec fn grouped(matches: Seq<Match>, groups: Seq<DocMatches>, upto: int) -> bool {
    &&& forall|i: int, j: int|
        0 <= i < j < groups.len() ==> (#[trigger] groups[i]).doc < (#[trigger] groups[j]).doc
    &&& forall|g: int|
        0 <= g < groups.len() ==> (#[trigger] groups[g]).parts@ == picked(
            matches,
            groups[g].doc,
            upto,
        ) && groups[g].parts@.len() > 0
    &&& forall|k: int| 0 <= k < upto ==> has_group(groups, (#[trigger] matches[k]).doc)
}

proof fn lemma_picked_none(matches: Seq<Match>, doc: usize, upto: int)
    requires
        0 <= upto <= matches.len(),
        forall|k: int| 0 <= k < upto ==> (#[trigger] matches[k]).doc != doc,
    ensures
        picked(matches, doc, upto) == Seq::<Part>::empty(),
    decreases upto,
{
    if upto > 0 {
        lemma_picked_none(matches, doc, upto - 1);
        assert(picked(matches, doc, upto - 1) + Seq::<Part>::empty() =~= Seq::<Part>::empty());
    }
}

/// Groups the postings that a query reached by document: the documents in
/// rising order, each with its postings in the order in which they came.
#[verifier::rlimit(60)]
pub fn group_by_document(matches: &Vec<Match>) -> (groups: Vec<DocMatches>)
    ensures
        grouped(matches@, groups@, matches@.len() as int),
{
    let mut groups: Vec<DocMatches> = Vec::new();
    let mut i: usize = 0;
    while i < matches.len()
        invariant
            i <= matches@.len(),
            grouped(matches@, groups@, i as int),
        decreases matches@.len() - i,
    {
        let found = matches[i];
        let part = Part { tf: found.tf, df: found.df };
        let ghost before = groups@;
        let mut p: usize = 0;
        while p < groups.len() && groups[p].doc < found.doc
            invariant
                p <= groups@.len(),
                forall|q: int| 0 <= q < p ==> (#[trigger] groups@[q]).doc < found.doc,
            decreases groups@.len() - p,
        {
            p += 1;
        }
        if p < groups.len() && groups[p].doc == found.doc {
            groups[p].parts.push(part);
            proof {
                assert forall|a: int, b: int| 0 <= a < b < groups@.len() implies (
                #[trigger] groups@[a]).doc < (#[trigger] groups@[b]).doc by {
                    assert(before[a].doc < before[b].doc);
                }
                assert forall|g: int| 0 <= g < groups@.len() implies (
                #[trigger] groups@[g]).parts@ == picked(matches@, groups@[g].doc, i + 1)
                    && groups@[g].parts@.len() > 0 by {
                    assert(before[g].parts@ == picked(matches@, before[g].doc, i as int));
                    if g != p {
                        assert(groups@[g] == before[g]);
                        if g < p {
                            assert(before[g].doc < before[p as int].doc);
                        } else {
                            assert(before[p as int].doc < before[g].doc);
                        }
                        assert(picked(matches@, before[g].doc, i as int) + Seq::<Part>::empty()
                            =~= picked(matches@, before[g].doc, i as int));
                    }
                }
                assert forall|k: int| 0 <= k < i + 1 implies has_group(
                    groups@,
                    (#[trigger] matches@[k]).doc,
                ) by {
                    if k < i {
                        assert(has_group(before, matches@[k].doc));
                        let g = choose|g: int|
                            0 <= g < before.len() && (#[trigger] before[g]).doc == matches@[k].doc;
                        assert(groups@[g].doc == matches@[k].doc);
                    } else {
                        assert(groups@[p as int].doc == matches@[k].doc);
                    }
                }
            }
        } else {
            let mut parts: Vec<Part> = Vec::new();
            parts.push(part);
            groups.insert(p, DocMatches { doc: found.doc, parts });
            proof {
                assert forall|k: int| 0 <= k < i implies (#[trigger] matches@[k]).doc
                    != found.doc by {
                    assert(has_group(before, matches@[k].doc));
                    let g = choose|g: int|
                        0 <= g < before.len() && (#[trigger] before[g]).doc == matches@[k].doc;
                    if g < p {
                        assert(before[g].doc < found.doc);
                    } else {
                        if g > p {
                            assert(before[p as int].doc < before[g].doc);
                        }
                        assert(before[g].doc > found.doc);
                    }
                }
                lemma_picked_none(matches@, found.doc, i as int);
                assert forall|a: int, b: int| 0 <= a < b < groups@.len() implies (
                #[trigger] groups@[a]).doc < (#[trigger] groups@[b]).doc by {
                    let x = if a < p {
                        a
                    } else {
                        a - 1
                    };
                    let y = if b < p {
                        b
                    } else {
                        b - 1
                    };
                    if a == p {
                        assert(groups@[b] == before[b - 1]);
                        if b - 1 > p {
                            assert(before[p as int].doc < before[b - 1].doc);
                        }
                    } else if b == p {
                        assert(groups@[a] == before[a]);
                    } else {
                        assert(groups@[a] == before[x] && groups@[b] == before[y]);
                        assert(before[x].doc < before[y].doc);
                    }
                }
                assert forall|g: int| 0 <= g < groups@.len() implies (
                #[trigger] groups@[g]).parts@ == picked(matches@, groups@[g].doc, i + 1)
                    && groups@[g].parts@.len() > 0 by {
                    if g == p {
                        assert(Seq::<Part>::empty() + seq![part] =~= seq![part]);
                    } else {
                        let x = if g < p {
                            g
                        } else {
                            g - 1
                        };
                        assert(groups@[g] == before[x]);
                        assert(before[x].parts@ == picked(matches@, before[x].doc, i as int));
                        if x < p {
                            assert(before[x].doc < found.doc);
                        } else {
                            if x > p {
                                assert(before[p as int].doc < before[x].doc);
                            }
                            assert(before[x].doc > found.doc);
                        }
                        assert(picked(matches@, before[x].doc, i as int) + Seq::<Part>::empty()
                            =~= picked(matches@, before[x].doc, i as int));
                    }
                }
                assert forall|k: int| 0 <= k < i + 1 implies has_group(
                    groups@,
                    (#[trigger] matches@[k]).doc,
                ) by {
                    if k < i {
                        assert(has_group(before, matches@[k].doc));
                        let g = choose|g: int|
                            0 <= g < before.len() && (#[trigger] before[g]).doc == matches@[k].doc;
                        let at = if g < p {
                            g
                        } else {
                            g + 1
                        };
                        assert(groups@[at] == before[g]);
                    } else {
                        assert(groups@[p as int].doc == matches@[k].doc);
                    }
                }
            }
        }
        i += 1;
    }
    groups
}

/// Whether some entry is for the term.
pub open spec fn has_term(entries: Seq<TermEntry>, key: u64) -> bool {
    exists|i: int| 0 <= i < entries.len() && (#[trigger] entries[i]).key == key
}

/// The postings of each term of a list of entries.
pub open spec fn postings_of(entries: Seq<TermEntry>) -> Map<u64, Seq<Posting>> {
    Map::new(
        |k: u64| has_term(entries, k),
        |k: u64|
            entries[choose|i: int| 0 <= i < entries.len() && (#[trigger] entries[i]).key
                == k].postings@,
    )
}

/// A list of entries and a number of documents that make an index: no term
/// has two entries, the documents of each entry rise, and each is a
/// document of the index.
pub open spec fn parts_valid(entries: Seq<TermEntry>, docs: int) -> bool {
    &&& forall|i: int, j: int|
        0 <= i < j < entries.len() ==> (#[trigger] entries[i]).key != (#[trigger] entries[j]).key
    &&& forall|i: int| 0 <= i < entries.len() ==> ascending((#[trigger] entries[i]).postings@)
    &&& forall|i: int, j: int|
        0 <= i < entries.len() && 0 <= j < entries[i].postings@.len() ==> (
        #[trigger] entries[i].postings@[j]).doc < docs
}

/// The table finds each term's entry, and nothing else.
pub open spec fn slots_agree(entries: Seq<TermEntry>, slot_of: Map<u64, usize>) -> bool {
    &&& forall|k: u64| #[trigger]
        slot_of.contains_key(k) ==> slot_of[k] < entries.len() && entries[slot_of[k] as int].key
            == k
    &&& forall|i: int|
        0 <= i < entries.len() ==> slot_of.contains_key((#[trigger] entries[i]).key)
            && slot_of[entries[i].key] == i
}

/// The postings of a term, each with the number of its documents.
pub open spec fn matches_of_term(postings: Seq<Posting>) -> Seq<Match> {
    Seq::new(
        postings.len(),
        |j: int| Match { doc: postings[j].doc, tf: postings[j].tf, df: postings.len() as usize },
    )
}

/// The postings that the terms `keys[from..]` reach, term after term.
pub open spec fn matches_of(postings: Map<u64, Seq<Posting>>, keys: Seq<u64>, from: int) -> Seq<
    Match,
>
    decreases keys.len() - from,
{
    if from < 0 || from >= keys.len() {
        Seq::empty()
    } else if postings.contains_key(keys[from]) {
        matches_of_term(postings[keys[from]]) + matches_of(postings, keys, from + 1)
    } else {
        matches_of(postings, keys, from + 1)
    }
}

/// The keys of the terms of a query, in the order of its tokens.
pub open spec fn query_keys(query: Seq<char>) -> Seq<u64> {
    Seq::new(tokens_of(query).len(), |j: int| term_key(tokens_of(query)[j]))
}

/// A query none of whose terms the index holds reaches nothing.
pub proof fn lemma_absent_terms_match_nothing(
    postings: Map<u64, Seq<Posting>>,
    keys: Seq<u64>,
    from: int,
)
    requires
        forall|i: int| 0 <= i < keys.len() ==> !postings.contains_key(#[trigger] keys[i]),
    ensures
        matches_of(postings, keys, from) == Seq::<Match>::empty(),
    decreases keys.len() - from,
{
    if 0 <= from < keys.len() {
        lemma_absent_terms_match_nothing(postings, keys, from + 1);
    }
}

/// Where the table finds each entry, the postings of a term are those of
/// the entry that the table names.
pub proof fn lemma_postings_by_slot(entries: Seq<TermEntry>, slot_of: Map<u64, usize>, key: u64)
    requires
        slots_agree(entries, slot_of),
    ensures
        postings_of(entries).contains_key(key) == slot_of.contains_key(key),
        slot_of.contains_key(key) ==> postings_of(entries)[key] == entries[slot_of[key] as int].postings@,
{
    if slot_of.contains_key(key) {
        assert(entries[slot_of[key] as int].key == key);
        let i = choose|i: int| 0 <= i < entries.len() && (#[trigger] entries[i]).key == key;
        assert(slot_of[entries[i].key] == i);
    }
    if has_term(entries, key) {
        let i = choose|i: int| 0 <= i < entries.len() && (#[trigger] entries[i]).key == key;
        assert(slot_of.contains_key(entries[i].key));
    }
}

/// The entries as plain values: each term's key with its postings.
pub open spec fn entry_views(entries: Seq<TermEntry>) -> Seq<(u64, Seq<Posting>)> {
    Seq::new(entries.len(), |i: int| (entries[i].key, entries[i].postings@))
}

/// An index made of stored parts answers every query as the index does
/// whose parts were stored: the answers depend on the keys and the postings
/// of the entries alone.
pub proof fn lemma_stored_index_answers_alike(
    stored: Seq<TermEntry>,
    read: Seq<TermEntry>,
    docs: int,
    query: Seq<char>,
)
    requires
        parts_valid(stored, docs),
        entry_views(stored) == entry_views(read),
    ensures
        parts_valid(read, docs),
        postings_of(read) == postings_of(stored),
        matches_of(postings_of(read), query_keys(query), 0) == matches_of(
            postings_of(stored),
            query_keys(query),
            0,
        ),
{
    assert(entry_views(stored).len() == stored.len());
    assert(entry_views(read).len() == read.len());
    assert forall|i: int| 0 <= i < stored.len() implies (#[trigger] read[i]).key == stored[i].key
        && read[i].postings@ == stored[i].postings@ by {
        assert(entry_views(stored)[i] == entry_views(read)[i]);
    }
    assert forall|i: int, j: int| 0 <= i < j < read.len() implies (#[trigger] read[i]).key != (
    #[trigger] read[j]).key by {
        assert(stored[i].key != stored[j].key);
    }
    assert forall|i: int| 0 <= i < read.len() implies ascending((#[trigger] read[i]).postings@) by {
        assert(ascending(stored[i].postings@));
    }
    assert forall|i: int, j: int|
        0 <= i < read.len() && 0 <= j < read[i].postings@.len() implies (
    #[trigger] read[i].postings@[j]).doc < docs by {
        assert(stored[i].postings@[j].doc < docs);
    }
    assert forall|k: u64| has_term(read, k) == has_term(stored, k) by {
        if has_term(read, k) {
            let i = choose|i: int| 0 <= i < read.len() && (#[trigger] read[i]).key == k;
            assert(stored[i].key == k);
        }
        if has_term(stored, k) {
            let i = choose|i: int| 0 <= i < stored.len() && (#[trigger] stored[i]).key == k;
            assert(read[i].key == k);
        }
    }
    assert forall|k: u64| has_term(read, k) implies postings_of(read)[k] == postings_of(
        stored,
    )[k] by {
        let i = choose|i: int| 0 <= i < read.len() && (#[trigger] read[i]).key == k;
        let j = choose|j: int| 0 <= j < stored.len() && (#[trigger] stored[j]).key == k;
        if i < j {
            assert(stored[i].key != stored[j].key);
        } else if j < i {
            assert(stored[j].key != stored[i].key);
        }
    }
    assert(postings_of(read) =~= postings_of(stored));
}

/// A finished index: the postings of each term and the id path of each
/// document.
pub struct SearchableTerms {
    entries: Vec<TermEntry>,
    slot_of: BTreeMap<u64, usize>,
    ids: Vec<Vec<u32>>,
}

impl SearchableTerms {
    /// The terms with their postings, in the order in which they were filed.
    pub closed spec fn entries(&self) -> Seq<TermEntry> {
        self.entries@
    }

    /// The id path of each document.
    pub closed spec fn ids(&self) -> Seq<Vec<u32>> {
        self.ids@
    }

    /// The postings of each term.
    pub open spec fn postings(&self) -> Map<u64, Seq<Posting>> {
        postings_of(self.entries())
    }

    /// The entries and the paths make an index.
    pub open spec fn wf(&self) -> bool {
        parts_valid(self.entries(), self.ids().len() as int)
    }

    #[verifier::type_invariant]
    spec fn sound(&self) -> bool {
        parts_valid(self.entries@, self.ids@.len() as int) && slots_agree(
            self.entries@,
            self.slot_of@,
        )
    }

    /// The number of documents.
    pub fn document_count(&self) -> (n: usize)
        ensures
            n == self.ids().len(),
            self.wf(),
    {
        proof {
            use_type_invariant(self);
        }
        self.ids.len()
    }

    /// The id path of a document.
    pub fn path(&self, doc: usize) -> (r: Option<&Vec<u32>>)
        ensures
            match r {
                Some(p) => doc < self.ids().len() && *p == self.ids()[doc as int],
                None => doc >= self.ids().len(),
            },
    {
        if doc < self.ids.len() {
            Some(&self.ids[doc])
        } else {
            None
        }
    }

    /// The postings that a query reaches: for each token of the query, in
    /// order, the postings of its term.
    #[verifier::rlimit(40)]
    pub fn search(&self, term: &str) -> (r: Vec<Match>)
        ensures
            self.wf(),
            r@ == matches_of(self.postings(), query_keys(term@), 0),
            forall|i: int| 0 <= i < r@.len() ==> (#[trigger] r@[i]).doc < self.ids().len(),
    {
        proof {
            use_type_invariant(self);
        }
        let words = tokenize(term);
        let ghost keys = query_keys(term@);
        let mut out: Vec<Match> = Vec::new();
        let mut w: usize = 0;
        assert(out@ + matches_of(self.postings(), keys, 0) =~= matches_of(self.postings(), keys, 0));
        while w < words.len()
            invariant
                w <= words@.len(),
                words@.len() == keys.len(),
                keys == query_keys(term@),
                forall|i: int|
                    0 <= i < words@.len() ==> term_key((#[trigger] words@[i])@) == keys[i],
                parts_valid(self.entries@, self.ids@.len() as int),
                slots_agree(self.entries@, self.slot_of@),
                out@ + matches_of(self.postings(), keys, w as int) == matches_of(
                    self.postings(),
                    keys,
                    0,
                ),
                forall|i: int| 0 <= i < out@.len() ==> (#[trigger] out@[i]).doc < self.ids@.len(),
            decreases words@.len() - w,
        {
            let key = hash_term(words[w]);
            assert(key == keys[w as int]);
            proof {
                lemma_postings_by_slot(self.entries@, self.slot_of@, key);
            }
            let found: Option<usize> = match self.slot_of.get(&key) {
                Some(slot) => Some(*slot),
                None => None,
            };
            match found {
                Some(slot) => {
                    let list = &self.entries[slot].postings;
                    let ghost before = out@;
                    let ghost all = matches_of_term(list@);
                    let mut j: usize = 0;
                    while j < list.len()
                        invariant
                            j <= list@.len(),
                            slot < self.entries@.len(),
                            *list == self.entries@[slot as int].postings,
                            parts_valid(self.entries@, self.ids@.len() as int),
                            all == matches_of_term(list@),
                            out@ == before + all.take(j as int),
                            forall|i: int|
                                0 <= i < out@.len() ==> (#[trigger] out@[i]).doc < self.ids@.len(),
                        decreases list@.len() - j,
                    {
                        let p = list[j];
                        assert(self.entries@[slot as int].postings@[j as int].doc < self.ids@.len());
                        out.push(Match { doc: p.doc, tf: p.tf, df: list.len() });
                        assert(all.take(j + 1) =~= all.take(j as int).push(all[j as int]));
                        assert(out@ =~= before + all.take(j + 1));
                        j += 1;
                    }
                    assert(all.take(j as int) =~= all);
                    assert((before + all) + matches_of(self.postings(), keys, w + 1) =~= before
                        + matches_of(self.postings(), keys, w as int));
                },
                None => {},
            }
            w += 1;
        }
        assert(out@ + Seq::<Match>::empty() =~= out@);
        out
    }

    /// Takes the index apart for storing: its entries and its id paths.
    pub fn into_parts(self) -> (r: (Vec<TermEntry>, Vec<Vec<u32>>))
        ensures
            r.0@ == self.entries(),
            r.1@ == self.ids(),
            parts_valid(r.0@, r.1@.len() as int),
    {
        proof {
            use_type_invariant(&self);
        }
        (self.entries, self.ids)
    }

    /// Makes an index of stored parts. Parts that make no index are refused.
    #[verifier::rlimit(40)]
    pub fn from_parts(entries: Vec<TermEntry>, ids: Vec<Vec<u32>>) -> (r: Option<SearchableTerms>)
        ensures
            r is Some <==> parts_valid(entries@, ids@.len() as int),
            r matches Some(x) ==> x.entries() == entries@ && x.ids() == ids@ && x.wf(),
    {
        let mut slot_of: BTreeMap<u64, usize> = BTreeMap::new();
        let docs: usize = ids.len();
        let mut i: usize = 0;
        while i < entries.len()
            invariant
                i <= entries@.len(),
                docs == ids@.len(),
                parts_valid(entries@.take(i as int), docs as int),
                slots_agree(entries@.take(i as int), slot_of@),
            decreases entries@.len() - i,
        {
            let ghost done = entries@.take(i as int);
            let ghost grown = entries@.take(i + 1);
            let key: u64 = entries[i].key;
            assert(forall|a: int| 0 <= a < done.len() ==> grown[a] == done[a]);
            assert(grown[i as int] == entries@[i as int]);
            if slot_of.get(&key).is_some() {
                proof {
                    let a = slot_of@[key] as int;
                    assert(done[a].key == key);
                    assert(entries@[a] == done[a]);
                    assert(entries@[a].key == entries@[i as int].key);
                }
                return None;
            }
            let list = &entries[i].postings;
            let mut j: usize = 0;
            while j < list.len()
                invariant
                    j <= list@.len(),
                    i < entries@.len(),
                    docs == ids@.len(),
                    *list == entries@[i as int].postings,
                    forall|a: int| 0 <= a < j ==> (#[trigger] list@[a]).doc < docs,
                    forall|a: int, b: int| 0 <= a < b < j ==> list@[a].doc < list@[b].doc,
                decreases list@.len() - j,
            {
                if list[j].doc >= docs {
                    assert(!parts_valid(entries@, docs as int)) by {
                        if parts_valid(entries@, docs as int) {
                            assert(entries@[i as int].postings@[j as int].doc < docs);
                        }
                    }
                    return None;
                }
                if j > 0 && list[j - 1].doc >= list[j].doc {
                    assert(!ascending(entries@[i as int].postings@)) by {
                        if ascending(list@) {
                            assert(list@[j - 1].doc < list@[j as int].doc);
                        }
                    }
                    return None;
                }
                proof {
                    assert forall|a: int, b: int| 0 <= a < b < j + 1 implies list@[a].doc
                        < list@[b].doc by {
                        if b == j && a < j - 1 {
                            assert(list@[a].doc < list@[j - 1].doc);
                        }
                    }
                }
                j += 1;
            }
            slot_of.insert(key, i);
            proof {
                assert forall|a: int, b: int| 0 <= a < b < grown.len() implies (#[trigger] grown[a]).key
                    != (#[trigger] grown[b]).key by {
                    if b < i {
                        assert(done[a].key != done[b].key);
                    } else {
                        assert(done[a].key == grown[a].key);
                    }
                }
                assert forall|a: int| 0 <= a < grown.len() implies ascending(
                    (#[trigger] grown[a]).postings@,
                ) by {
                    if a < i {
                        assert(ascending(done[a].postings@));
                    }
                }
                assert forall|a: int, b: int|
                    0 <= a < grown.len() && 0 <= b < grown[a].postings@.len() implies (
                #[trigger] grown[a].postings@[b]).doc < docs by {
                    if a < i {
                        assert(done[a].postings@[b].doc < docs);
                    }
                }
                assert forall|a: int| 0 <= a < grown.len() implies slot_of@.contains_key(
                    (#[trigger] grown[a]).key,
                ) && slot_of@[grown[a].key] == a by {
                    if a < i {
                        assert(done[a].key == grown[a].key);
                    }
                }
            }
            i += 1;
        }
        assert(entries@.take(i as int) =~= entries@);
        Some(SearchableTerms { entries, slot_of, ids })
    }
}

impl Terms {
    /// Closes the index: the terms and the documents as they stand.
    pub fn finalize(self) -> (r: SearchableTerms)
        requires
            self.wf(),
        ensures
            r.wf(),
            r.postings() == self.postings(),
            r.ids() == self.paths(),
    {
        proof {
            assert forall|i: int, j: int| 0 <= i < j < self.entries@.len() implies (
            #[trigger] self.entries@[i]).key != (#[trigger] self.entries@[j]).key by {
                assert(self.slot_of@[self.entries@[i].key] == i);
                assert(self.slot_of@[self.entries@[j].key] == j);
            }
            assert forall|k: u64|
                postings_of(self.entries@).contains_key(k) == self.postings().contains_key(
                    k,
                ) && (self.postings().contains_key(k) ==> postings_of(self.entries@)[k]
                    == self.postings()[k]) by {
                lemma_postings_by_slot(self.entries@, self.slot_of@, k);
            }
            assert(postings_of(self.entries@) =~= self.postings());
        }
        SearchableTerms { entries: self.entries, slot_of: self.slot_of, ids: self.paths }
    }
}

/// Of two walks to one item, the index files the item under a path that
/// is no longer than the shorter walk, whichever of the two was met first.
pub proof fn lemma_shorter_walk_wins(
    t: Terms,
    w: World,
    root: Node,
    limit: int,
    short: Seq<Node>,
    long: Seq<Node>,
)
    requires
        t.shortest(w, root, limit),
        is_walk(w, root, short),
        is_walk(w, root, long),
        key_of(short.last()) == key_of(long.last()),
        short.len() < long.len(),
        short.len() - 1 < limit,
    ensures
        t.files(key_of(long.last()), short.len() - 1),
        exists|d: int|
            0 <= d < t.keys().len() && #[trigger] t.keys()[d] == key_of(long.last())
                && t.paths()[d]@.len() < long.len() - 1,
{
    let key = key_of(long.last());
    assert(t.files(key_of(short.last()), short.len() - 1));
    let d = choose|d: int|
        0 <= d < t.keys().len() && #[trigger] t.keys()[d] == key && t.paths()[d]@.len()
            <= short.len() - 1;
    assert(t.keys()[d] == key && t.paths()[d]@.len() < long.len() - 1);
}

/// The finished index stands for a walk of the graph from `root`: it holds
/// the postings and the paths of an index under construction that files each
/// item it met under a shortest path.
pub open spec fn indexes(terms: SearchableTerms, w: World, root: Node, limit: int) -> bool {
    exists|t: Terms|
        {
            &&& #[trigger] t.wf()
            &&& t.paths().len() == t.keys().len()
            &&& t.paths().len() == t.walks().len()
            &&& t.distinct()
            &&& t.within(limit)
            &&& t.filed(w, root)
            &&& t.shortest(w, root, limit)
            &&& terms.postings() == t.postings()
            &&& terms.ids() == t.paths()
        }
}

/// The search index of one package.
pub struct SearchIndex {
    crate_name: String,
    terms: SearchableTerms,
}

impl SearchIndex {
    /// The name of the indexed package.
    pub closed spec fn name(&self) -> Seq<char> {
        self.crate_name@
    }

    /// The index proper.
    pub closed spec fn terms(&self) -> SearchableTerms {
        self.terms
    }

    /// The name of the indexed package.
    pub fn crate_name(&self) -> (r: &str)
        ensures
            r@ == self.name(),
    {
        self.crate_name.as_str()
    }

    /// The index proper.
    pub fn searchable(&self) -> (r: &SearchableTerms)
        ensures
            *r == self.terms(),
    {
        &self.terms
    }

    /// An index of a package made of terms that were stored earlier.
    pub fn from_terms(crate_name: String, terms: SearchableTerms) -> (r: SearchIndex)
        ensures
            r.name() == crate_name@,
            r.terms() == terms,
    {
        SearchIndex { crate_name, terms }
    }

    /// Gives the index proper away, for storing.
    pub fn into_terms(self) -> (r: SearchableTerms)
        ensures
            r == self.terms(),
    {
        self.terms
    }

    /// The postings that a query reaches.
    pub fn search(&self, term: &str) -> (r: Vec<Match>)
        ensures
            r@ == matches_of(self.terms().postings(), query_keys(term@), 0),
            forall|i: int| 0 <= i < r@.len() ==> (#[trigger] r@[i]).doc < self.terms().ids().len(),
    {
        self.terms.search(term)
    }

    /// Builds the index of the package, or of the item, that a path names.
    ///
    /// A path that names nothing gives the guesses at what was meant.
    pub fn build<'a>(ctx: &'a RequestContext, crate_name: &str) -> (r: Step<
        Result<SearchIndex, Vec<Suggestion<'a>>>,
    >)
        ensures
            match r {
                Step::Load(c) => !ctx@.knows(c@) && match resolve(
                    ctx@,
                    crate_name@,
                    ALIAS_DEPTH as nat,
                ) {
                    Stage::Load(asked) => asked == c@,
                    Stage::Done(f) => f.item matches Some(root) && walk_asks(
                        ctx@,
                        root,
                        usize::MAX as int,
                        c@,
                    ),
                },
                Step::Done(Err(guesses)) => resolve(
                    ctx@,
                    crate_name@,
                    ALIAS_DEPTH as nat,
                ) matches Stage::Done(f) && f.item is None && candidates(guesses@)
                    == f.suggestions,
                Step::Done(Ok(index)) => resolve(
                    ctx@,
                    crate_name@,
                    ALIAS_DEPTH as nat,
                ) matches Stage::Done(f) && f.item matches Some(root) && index.name()
                    == root.snapshot.name() && indexes(
                    index.terms(),
                    ctx@,
                    root,
                    usize::MAX as int,
                ) && walks_complete(ctx@, root, usize::MAX as int),
            },
    {
        let _ = ctx.names();
        let mut guesses: Vec<Suggestion<'a>> = Vec::new();
        proof {
            lemma_resolve_sound(ctx@, crate_name@, ALIAS_DEPTH as nat);
            assert(candidates(guesses@) =~= Seq::empty());
        }
        let root = match ctx.resolve_path(crate_name, &mut guesses) {
            Step::Load(c) => {
                return Step::Load(c);
            },
            Step::Done(None) => {
                proof {
                    let f = resolve(ctx@, crate_name@, ALIAS_DEPTH as nat)->Done_0;
                    assert(Seq::empty() + f.suggestions =~= f.suggestions);
                }
                return Step::Done(Err(guesses));
            },
            Step::Done(Some(root)) => root,
        };
        match Terms::walk_graph(ctx, root, usize::MAX) {
            Step::Load(c) => Step::Load(c),
            Step::Done(t) => {
                let name = String::from_str(root.snapshot().package_name());
                let ghost built = t;
                let terms = t.finalize();
                assert(built.wf());
                assert(indexes(terms, ctx@, root@, usize::MAX as int));
                Step::Done(Ok(SearchIndex { crate_name: name, terms }))
            },
        }
    }
}

/// What to do with the stored index of a package.
#[derive(Clone, Copy, Debug, PartialEq, Eq, Structural)]
pub enum CacheAction {
    /// There is nothing to read, or no telling how old it is: build the
    /// index, and leave what is stored alone.
    Build,
    /// The stored index is as new as the snapshot: read it.
    Read,
    /// The stored index is older than the snapshot: remove it, and build.
    Replace,
}

/// Decides by the modification times of the stored index and of the snapshot
/// whether the stored index can stand for the snapshot. The stored index is
/// fresh when it was written at or after the time the snapshot was.
pub fn cache_action(index_mtime: Option<u128>, snapshot_mtime: Option<u128>) -> (r: CacheAction)
    ensures
        r == match (index_mtime, snapshot_mtime) {
            (Some(stored), Some(snapshot)) => if stored >= snapshot {
                CacheAction::Read
            } else {
                CacheAction::Replace
            },
            _ => CacheAction::Build,
        },
{
    match index_mtime {
        Some(stored) => match snapshot_mtime {
            Some(snapshot) => if stored >= snapshot {
                CacheAction::Read
            } else {
                CacheAction::Replace
            },
            None => CacheAction::Build,
        },
        None => CacheAction::Build,
    }
}

/// A package name with `_` for every `-`.
pub open spec fn underscored(name: Seq<char>) -> Seq<char> {
    Seq::new(name.len(), |i: int| if name[i] == '-' { '_' } else { name[i] })
}

/// The name of the file that stores the index of a package: the package's
/// name with `_` for `-`, and the ending `.index`.
pub fn index_file_name(crate_name: &str) -> (r: String)
    ensures
        r@ == underscored(crate_name@) + ".index"@,
{
    let chars = chars_of(crate_name);
    let mut out = String::from_str("");
    let mut i: usize = 0;
    proof {
        reveal_strlit("");
        reveal_strlit("_");
        assert(out@ =~= underscored(crate_name@).take(0));
    }
    while i < chars.len()
        invariant
            i <= chars@.len(),
            chars@ == crate_name@,
            "_"@ == seq!['_'],
            out@ == underscored(crate_name@).take(i as int),
        decreases chars@.len() - i,
    {
        if chars[i] == '-' {
            out.append("_");
        } else {
            out.append(crate_name.substring_char(i, i + 1));
        }
        assert(out@ =~= underscored(crate_name@).take(i + 1));
        i += 1;
    }
    assert(underscored(crate_name@).take(i as int) =~= underscored(crate_name@));
    out.append(".index");
    out
}

} // verus!
