//! The id paths of an index lead back to the items that they were filed for.
//!
//! The walk of the index reaches an item over the children of the items
//! before it; a lookup by id path finds each item by its id in the snapshot
//! of the item before it. Both pass through aliases in the same way, so the
//! id path of a walk, looked up from the walk's root, ends at the walk's end.

use vstd::prelude::*;
use crate::graph::{
    alias_target, children, expand, follow_ids, glob_ids, members, methods_from, node_at, Node,
    ALIAS_DEPTH,
};
use crate::indexer::{is_walk, lemma_walk_sound, steps_to, walk_ids, Terms};
use crate::model::{lemma_position_unique, ItemPayload, Snapshot};
use crate::request::{Stage, World};

verus! {

/// Every node is an item of the snapshot `s`.
pub open spec fn all_in(ns: Seq<Node>, s: Snapshot) -> bool {
    forall|j: int| 0 <= j < ns.len() ==> (#[trigger] ns[j]).snapshot == s
}

/// The snapshot in which the children of an item are looked up: the item's
/// own, or for an alias that of the item that it stands for.
pub open spec fn child_snapshot(w: World, n: Node) -> Snapshot {
    match n.item().payload {
        ItemPayload::Use(a) => match alias_target(w, n.snapshot, a, ALIAS_DEPTH as nat) {
            Stage::Done(Some(t)) => t.snapshot,
            _ => n.snapshot,
        },
        _ => n.snapshot,
    }
}

proof fn lemma_members_in(s: Snapshot, ids: Seq<u32>, from: int)
    ensures
        all_in(members(s, ids, from), s),
    decreases ids.len() - from,
{
    if 0 <= from < ids.len() {
        lemma_members_in(s, ids, from + 1);
    }
}

proof fn lemma_methods_in(s: Snapshot, id: u32, from: int)
    ensures
        all_in(methods_from(s, id, from), s),
    decreases s.items().len() - from,
{
    if 0 <= from < s.items().len() {
        lemma_methods_in(s, id, from + 1);
        match s.items()[from].payload {
            ItemPayload::Impl(b) => {
                lemma_members_in(s, b.items@, 0);
            },
            _ => {},
        }
    }
}

/// With aliases shown as they are, a listing by ids holds the items that
/// the ids name, aliases among them, and no package has to be loaded for it.
pub proof fn lemma_expand_with_aliases(w: World, s: Snapshot, ids: Seq<u32>, from: int, fuel: nat)
    ensures
        expand(w, s, ids, from, true, fuel) == Stage::Done(members(s, ids, from)),
    decreases ids.len() - from,
{
    if 0 <= from < ids.len() {
        lemma_expand_with_aliases(w, s, ids, from + 1, fuel);
    }
}

proof fn lemma_expand_in(w: World, s: Snapshot, ids: Seq<u32>, from: int, fuel: nat)
    ensures
        expand(w, s, ids, from, true, fuel) matches Stage::Done(xs) && all_in(xs, s),
{
    lemma_expand_with_aliases(w, s, ids, from, fuel);
    lemma_members_in(s, ids, from);
}

/// The children of an item, aliases shown as they are, are items of the
/// snapshot in which a lookup by id path looks for them.
pub proof fn lemma_children_in(w: World, n: Node)
    ensures
        children(w, n, true, ALIAS_DEPTH as nat) matches Stage::Done(kids) ==> all_in(
            kids,
            child_snapshot(w, n),
        ),
{
    let fuel = ALIAS_DEPTH as nat;
    lemma_methods_in(n.snapshot, n.item().id, 0);
    match n.item().payload {
        ItemPayload::Module(ids) => {
            lemma_expand_in(w, n.snapshot, ids@, 0, fuel);
        },
        ItemPayload::Enum(ids) => {
            lemma_expand_in(w, n.snapshot, ids@, 0, fuel);
        },
        ItemPayload::Use(a) => {
            match alias_target(w, n.snapshot, a, fuel) {
                Stage::Done(Some(src)) => {
                    if a.is_glob {
                        match glob_ids(src) {
                            Some(inner) => {
                                lemma_expand_in(w, src.snapshot, inner, 0, fuel);
                            },
                            None => {},
                        }
                    }
                },
                _ => {},
            }
        },
        _ => {},
    }
}

/// An alias that has children stands for an item.
proof fn lemma_alias_with_children(w: World, n: Node, kid: Node)
    requires
        n.item().payload is Use,
        steps_to(w, n, kid),
    ensures
        alias_target(w, n.snapshot, n.item().payload->Use_0, ALIAS_DEPTH as nat) matches Stage::Done(
            Some(t),
        ),
{
}

/// Two nodes stand at one place.
pub open spec fn same_place(a: Node, b: Node) -> bool {
    a.snapshot == b.snapshot && a.index == b.index
}

/// What the lookup makes of the item found for one id: it takes an alias
/// for the item that the alias stands for, and any other item as it is.
pub open spec fn landing(w: World, x: Node) -> Option<Node> {
    match x.item().payload {
        ItemPayload::Use(a) => match alias_target(w, x.snapshot, a, ALIAS_DEPTH as nat) {
            Stage::Done(Some(t)) => Some(
                if a.is_glob {
                    t
                } else {
                    t.with_name(a.name@)
                },
            ),
            _ => None,
        },
        _ => Some(x),
    }
}

/// The names collected once the item `x` has been passed.
pub open spec fn names_after(names: Seq<Seq<char>>, x: Node) -> Seq<Seq<char>> {
    match x.item().payload {
        ItemPayload::Use(_) => names,
        _ => match x.display_name() {
            Some(name) => names.push(name),
            None => names,
        },
    }
}

/// One step of a lookup by id path that finds its item and, for an alias,
/// the item that the alias stands for.
proof fn lemma_follow_step(
    w: World,
    cur: Node,
    names: Seq<Seq<char>>,
    ids: Seq<u32>,
    from: int,
    x: Node,
    next: Node,
)
    requires
        0 <= from < ids.len(),
        node_at(cur.snapshot, ids[from]) == Some(x),
        landing(w, x) == Some(next),
    ensures
        follow_ids(w, cur, names, ids, from, ALIAS_DEPTH as nat) == follow_ids(
            w,
            next,
            names_after(names, x),
            ids,
            from + 1,
            ALIAS_DEPTH as nat,
        ),
{
}

/// A child of an item is found by its id in the snapshot in which the
/// lookup looks for the children of the item.
#[verifier::rlimit(40)]
proof fn lemma_child_found(w: World, root: Node, walk: Seq<Node>, at: int)
    requires
        w.wf(),
        root.wf(),
        root.owned_by(w),
        is_walk(w, root, walk),
        0 <= at < walk.len() - 1,
    ensures
        node_at(child_snapshot(w, walk[at]), walk[at + 1].item().id) == Some(
            Node { snapshot: walk[at + 1].snapshot, index: walk[at + 1].index, name: None },
        ),
        walk[at + 1].snapshot == child_snapshot(w, walk[at]),
        walk[at + 1].wf(),
{
    let next = walk[at + 1];
    assert(steps_to(w, walk[at], walk[at + 1]));
    lemma_children_in(w, walk[at]);
    let kids = children(w, walk[at], true, ALIAS_DEPTH as nat)->Done_0;
    let j = choose|j: int| 0 <= j < kids.len() && kids[j] == next;
    assert(kids[j].snapshot == child_snapshot(w, walk[at]));
    lemma_walk_sound(w, root, walk, at + 1);
    lemma_position_unique(next.snapshot.items(), next.index);
}

/// Where the lookup stands after an item of a walk that is not the last:
/// at the item, or for an alias at the item that it stands for.
proof fn lemma_landing(w: World, walk: Seq<Node>, root: Node, at: int)
    requires
        is_walk(w, root, walk),
        0 <= at < walk.len(),
        at < walk.len() - 1 || !(walk[at].item().payload is Use),
    ensures
        landing(w, walk[at]) matches Some(next) && next.snapshot == child_snapshot(w, walk[at])
            && (!(walk[at].item().payload is Use) ==> next == walk[at]),
{
    if walk[at].item().payload is Use {
        assert(steps_to(w, walk[at], walk[at + 1]));
        lemma_alias_with_children(w, walk[at], walk[at + 1]);
    }
}

/// Following the ids of a walk from where the lookup stands after the
/// walk's item `at` ends at the walk's last item.
#[verifier::rlimit(40)]
proof fn lemma_follow_walk(
    w: World,
    root: Node,
    walk: Seq<Node>,
    at: int,
    cur: Node,
    names: Seq<Seq<char>>,
)
    requires
        w.wf(),
        root.wf(),
        root.owned_by(w),
        is_walk(w, root, walk),
        !(walk.last().item().payload is Use),
        0 <= at < walk.len(),
        cur.snapshot == child_snapshot(w, walk[at]),
        !(walk[at].item().payload is Use) ==> same_place(cur, walk[at]),
    ensures
        follow_ids(w, cur, names, walk_ids(walk), at, ALIAS_DEPTH as nat) matches Stage::Done(
            Some(found),
        ) && same_place(found.item, walk.last()),
    decreases walk.len() - at,
{
    let ids = walk_ids(walk);
    if at < walk.len() - 1 {
        let next = walk[at + 1];
        lemma_child_found(w, root, walk, at);
        assert(ids[at] == next.item().id);
        let x = Node { snapshot: next.snapshot, index: next.index, name: None };
        assert(x.item() == next.item());
        lemma_landing(w, walk, root, at + 1);
        let landed = landing(w, x)->0;
        assert(landing(w, x) == landing(w, next) || (!(next.item().payload is Use) && landed
            == x));
        lemma_follow_step(w, cur, names, ids, at, x, landed);
        lemma_follow_walk(w, root, walk, at + 1, landed, names_after(names, x));
    }
}

/// The id path of a walk leads back to the item at the walk's end.
///
/// For a walk from an item that is no alias to an item that is no alias, a
/// lookup by the ids of the walk, begun at the walk's root, finds the item
/// at the walk's end. An index files each document under the ids of such a
/// walk, so the path of a document finds the item that the document is for.
pub proof fn lemma_path_leads_back(w: World, root: Node, walk: Seq<Node>, names: Seq<Seq<char>>)
    requires
        w.wf(),
        root.wf(),
        root.owned_by(w),
        is_walk(w, root, walk),
        !(root.item().payload is Use),
        !(walk.last().item().payload is Use),
    ensures
        follow_ids(w, root, names, walk_ids(walk), 0, ALIAS_DEPTH as nat) matches Stage::Done(
            Some(found),
        ) && same_place(found.item, walk.last()),
{
    lemma_follow_walk(w, root, walk, 0, root, names);
}

/// The path of a document of an index finds the item that the document is
/// for, unless that item is an alias.
pub proof fn lemma_document_path_leads_back(
    t: Terms,
    w: World,
    root: Node,
    d: int,
    names: Seq<Seq<char>>,
)
    requires
        w.wf(),
        root.wf(),
        root.owned_by(w),
        !(root.item().payload is Use),
        t.filed(w, root),
        0 <= d < t.paths().len(),
        !(t.walks()[d].last().item().payload is Use),
    ensures
        follow_ids(w, root, names, t.paths()[d]@, 0, ALIAS_DEPTH as nat) matches Stage::Done(
            Some(found),
        ) && same_place(found.item, t.walks()[d].last()),
{
    assert(t.doc_filed(w, root, d));
    lemma_path_leads_back(w, root, t.walks()[d], names);
}

} // verus!
