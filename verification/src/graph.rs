//! The item graph: references to items, the traversal of an item's children
//! that looks through aliases, and the resolution of typed paths.
//!
//! Aliases may name items of other packages, so every traversal runs against
//! a request's [`World`] and may stop with the name of a package to load.
//! Chains of aliases are followed to a fixed depth only: a chain that runs
//! deeper, or in a circle, ends the branch that it is on.

use vstd::prelude::*;
use vstd::string::StrSliceExecFns;
use vstd::string::StringExecFns;
use crate::chars::{chars_of, starts_with, str_eq};
use crate::model::{Alias, Item, ItemKind, ItemPayload, Snapshot, kind_of};
use crate::names::{canonical, CrateName};
use crate::request::{lookup, Loaded, RequestContext, Stage, Step, World};

verus! {

/// How many aliases a traversal follows one after the other.
pub const ALIAS_DEPTH: usize = 32;

/// An item of a snapshot, with the name under which an alias shows it.
pub struct Node {
    pub snapshot: Snapshot,
    pub index: int,
    pub name: Option<Seq<char>>,
}

impl Node {
    /// The snapshot is well formed and holds the item.
    pub open spec fn wf(self) -> bool {
        self.snapshot.wf() && 0 <= self.index < self.snapshot.items().len()
    }

    /// The item itself.
    pub open spec fn item(self) -> Item {
        self.snapshot.items()[self.index]
    }

    /// The name that an alias gave, else the item's own.
    pub open spec fn display_name(self) -> Option<Seq<char>> {
        match self.name {
            Some(n) => Some(n),
            None => match self.item().name {
                Some(s) => Some(s@),
                None => None,
            },
        }
    }

    /// The same item under another name.
    pub open spec fn with_name(self, name: Seq<char>) -> Node {
        Node { snapshot: self.snapshot, index: self.index, name: Some(name) }
    }

    /// The node's snapshot is the one that the world holds under its name.
    pub open spec fn owned_by(self, w: World) -> bool {
        w.loaded.contains_key(self.snapshot.name()) && w.loaded[self.snapshot.name()]
            == self.snapshot
    }
}

/// The item with this id. A dangling id gives `None`.
pub open spec fn node_at(s: Snapshot, id: u32) -> Option<Node> {
    match s.position(id) {
        Some(p) => Some(Node { snapshot: s, index: p, name: None }),
        None => None,
    }
}

/// The items that `ids[from..]` name, dangling ids left out.
pub open spec fn members(s: Snapshot, ids: Seq<u32>, from: int) -> Seq<Node>
    decreases ids.len() - from,
{
    if from < 0 || from >= ids.len() {
        Seq::empty()
    } else {
        match node_at(s, ids[from]) {
            Some(n) => seq![n] + members(s, ids, from + 1),
            None => members(s, ids, from + 1),
        }
    }
}

/// The inherent methods of the item `id` that the implementation blocks at
/// positions `from..` hold.
pub open spec fn methods_from(s: Snapshot, id: u32, from: int) -> Seq<Node>
    decreases s.items().len() - from,
{
    if from < 0 || from >= s.items().len() {
        Seq::empty()
    } else {
        match s.items()[from].payload {
            ItemPayload::Impl(b) if b.target == Some(id) && b.interface is None => members(
                s,
                b.items@,
                0,
            ) + methods_from(s, id, from + 1),
            _ => methods_from(s, id, from + 1),
        }
    }
}

/// The inherent methods of an item: the members of every implementation
/// block of the snapshot that is for the item and implements no interface.
pub open spec fn methods(n: Node) -> Seq<Node> {
    methods_from(n.snapshot, n.item().id, 0)
}

/// The interface implementations for the item `id` at positions `from..`.
pub open spec fn implementations_from(s: Snapshot, id: u32, from: int) -> Seq<Node>
    decreases s.items().len() - from,
{
    if from < 0 || from >= s.items().len() {
        Seq::empty()
    } else {
        match s.items()[from].payload {
            ItemPayload::Impl(b) if b.target == Some(id) && b.interface is Some => seq![
                Node { snapshot: s, index: from, name: None },
            ] + implementations_from(s, id, from + 1),
            _ => implementations_from(s, id, from + 1),
        }
    }
}

/// The implementation blocks of the snapshot that are for the item and
/// implement an interface.
pub open spec fn implementations(n: Node) -> Seq<Node> {
    implementations_from(n.snapshot, n.item().id, 0)
}

/// The ids that a glob alias of this item stands for.
pub open spec fn glob_ids(n: Node) -> Option<Seq<u32>> {
    match n.item().payload {
        ItemPayload::Module(ids) => Some(ids@),
        ItemPayload::Enum(ids) => Some(ids@),
        _ => None,
    }
}

/// `xs`, then what `rest` gives.
pub open spec fn prepend(xs: Seq<Node>, rest: Stage<Seq<Node>>) -> Stage<Seq<Node>> {
    match rest {
        Stage::Done(ys) => Stage::Done(xs + ys),
        Stage::Load(c) => Stage::Load(c),
    }
}

/// What `first` gives, then what `rest` gives.
pub open spec fn chain(first: Stage<Seq<Node>>, rest: Stage<Seq<Node>>) -> Stage<Seq<Node>> {
    match first {
        Stage::Done(xs) => prepend(xs, rest),
        Stage::Load(c) => Stage::Load(c),
    }
}

/// A guess at what a path that did not resolve was meant to be.
pub struct Candidate {
    pub path: Seq<char>,
    pub item: Option<Node>,
}

/// The outcome of a resolution: the item, if the path names one, and the
/// guesses collected where it did not.
pub struct Found {
    pub item: Option<Node>,
    pub suggestions: Seq<Candidate>,
}

/// The first position at or after `from` where `::` stands.
pub open spec fn first_sep(path: Seq<char>, from: int) -> Option<int>
    decreases path.len() - from,
{
    if from < 0 || from + 1 >= path.len() {
        None
    } else if path[from] == ':' && path[from + 1] == ':' {
        Some(from)
    } else {
        first_sep(path, from + 1)
    }
}

/// The end of the segment that begins at `index`.
pub open spec fn segment_end(path: Seq<char>, index: int) -> int {
    match first_sep(path, index) {
        Some(e) => e,
        None => path.len() as int,
    }
}

/// Where the segment after the one at `index` begins.
pub open spec fn next_start(path: Seq<char>, index: int) -> int {
    if index <= segment_end(path, index) && segment_end(path, index) + 2 <= path.len() {
        segment_end(path, index) + 2
    } else {
        path.len() as int
    }
}

/// The guesses for a package name that stands for nothing: every package
/// that the project offers, by its canonical name.
pub open spec fn package_candidates(available: Seq<String>, from: int) -> Seq<Candidate>
    decreases available.len() - from,
{
    if from < 0 || from >= available.len() {
        Seq::empty()
    } else {
        match canonical(available[from]@) {
            Some(c) => seq![Candidate { path: c, item: None }] + package_candidates(
                available,
                from + 1,
            ),
            None => package_candidates(available, from + 1),
        }
    }
}

/// The guesses for a segment that no child is named by: every named child
/// of `kids[from..]`, under the path typed so far, unless what was typed
/// begins with the guess.
pub open spec fn child_candidates(kids: Seq<Node>, path: Seq<char>, index: int, from: int) -> Seq<
    Candidate,
>
    decreases kids.len() - from,
{
    if from < 0 || from >= kids.len() {
        Seq::empty()
    } else {
        match kids[from].display_name() {
            Some(name) if !(path.subrange(0, index) + name).is_prefix_of(path) => seq![
                Candidate { path: path.subrange(0, index) + name, item: Some(kids[from]) },
            ] + child_candidates(kids, path, index, from + 1),
            _ => child_candidates(kids, path, index, from + 1),
        }
    }
}

/// The item that an alias stands for: the target by id where the alias's own
/// snapshot holds it, else what the alias's source path resolves to.
pub open spec fn alias_target(w: World, s: Snapshot, a: Alias, fuel: nat) -> Stage<Option<Node>>
    decreases fuel, 0nat, 0nat,
{
    let by_id = match a.target {
        Some(id) => node_at(s, id),
        None => None,
    };
    if by_id is Some {
        Stage::Done(by_id)
    } else if fuel == 0 {
        Stage::Done(None)
    } else {
        match resolve(w, a.source@, (fuel - 1) as nat) {
            Stage::Done(f) => Stage::Done(f.item),
            Stage::Load(c) => Stage::Load(c),
        }
    }
}

/// The items that `ids[from..]` stand for, in order.
///
/// A dangling id is passed over. An alias is shown as it is where
/// `include_aliases` holds. Elsewhere a named alias gives its target under
/// the alias's name, and a glob alias gives what the target's own ids stand
/// for. An alias whose target cannot be found, and a glob alias of an item
/// that is neither a module nor a tagged union, ends the listing. A glob
/// alias beyond the depth to which aliases are followed gives nothing.
pub open spec fn expand(
    w: World,
    s: Snapshot,
    ids: Seq<u32>,
    from: int,
    include_aliases: bool,
    fuel: nat,
) -> Stage<Seq<Node>>
    decreases fuel, 1nat, ids.len() - from,
{
    if from < 0 || from >= ids.len() {
        Stage::Done(Seq::empty())
    } else {
        let rest = expand(w, s, ids, from + 1, include_aliases, fuel);
        match node_at(s, ids[from]) {
            None => rest,
            Some(n) => match n.item().payload {
                ItemPayload::Use(a) if !include_aliases => match alias_target(w, s, a, fuel) {
                    Stage::Load(c) => Stage::Load(c),
                    Stage::Done(None) => Stage::Done(Seq::empty()),
                    Stage::Done(Some(src)) => if a.is_glob {
                        match glob_ids(src) {
                            None => Stage::Done(Seq::empty()),
                            Some(inner) => if fuel == 0 {
                                rest
                            } else {
                                chain(
                                    expand(w, src.snapshot, inner, 0, false, (fuel - 1) as nat),
                                    rest,
                                )
                            },
                        }
                    } else {
                        prepend(seq![src.with_name(a.name@)], rest)
                    },
                },
                _ => prepend(seq![n], rest),
            },
        }
    }
}

/// The item at the end of a chain of aliases: what the alias stands for,
/// and what that stands for if it is an alias itself, for at most `hops`
/// aliases after the first. A chain that runs on beyond that ends nowhere.
pub open spec fn chain_target(w: World, s: Snapshot, a: Alias, fuel: nat, hops: nat) -> Stage<
    Option<Node>,
>
    decreases fuel, 3nat, hops,
{
    match alias_target(w, s, a, fuel) {
        Stage::Load(c) => Stage::Load(c),
        Stage::Done(None) => Stage::Done(None),
        Stage::Done(Some(t)) => match t.item().payload {
            ItemPayload::Use(b) => if hops == 0 {
                Stage::Done(None)
            } else {
                chain_target(w, t.snapshot, b, fuel, (hops - 1) as nat)
            },
            _ => Stage::Done(Some(t)),
        },
    }
}

/// The children that an item has by its kind.
///
/// A module has the items that its ids stand for; a tagged union its
/// variants, then its inherent methods; a compound type its inherent
/// methods. Any other item has none.
pub open spec fn kind_children(w: World, n: Node, include_aliases: bool, fuel: nat) -> Stage<
    Seq<Node>,
>
    decreases fuel, 2nat, 0nat,
{
    match n.item().payload {
        ItemPayload::Module(ids) => expand(w, n.snapshot, ids@, 0, include_aliases, fuel),
        ItemPayload::Enum(ids) => chain(
            expand(w, n.snapshot, ids@, 0, include_aliases, fuel),
            Stage::Done(methods(n)),
        ),
        ItemPayload::Struct(_) => Stage::Done(methods(n)),
        _ => Stage::Done(Seq::empty()),
    }
}

/// The children of an alias that is itself the root of a traversal.
///
/// Where aliases are looked through, the alias behaves like the item at the
/// end of its chain: its children are the children that that item has by its
/// kind. Where aliases are shown as they are, a named alias has the item
/// that it stands for as its one child, under the alias's name, and a glob
/// alias has what the ids of its target name.
pub open spec fn alias_children(
    w: World,
    s: Snapshot,
    a: Alias,
    include_aliases: bool,
    fuel: nat,
) -> Stage<Seq<Node>>
    decreases fuel, 4nat, 0nat,
{
    if include_aliases {
        match alias_target(w, s, a, fuel) {
            Stage::Load(c) => Stage::Load(c),
            Stage::Done(None) => Stage::Done(Seq::empty()),
            Stage::Done(Some(src)) => if a.is_glob {
                match glob_ids(src) {
                    Some(inner) => expand(w, src.snapshot, inner, 0, true, fuel),
                    None => Stage::Done(Seq::empty()),
                }
            } else {
                Stage::Done(seq![src.with_name(a.name@)])
            },
        }
    } else {
        match chain_target(w, s, a, fuel, fuel) {
            Stage::Load(c) => Stage::Load(c),
            Stage::Done(None) => Stage::Done(Seq::empty()),
            Stage::Done(Some(t)) => kind_children(w, t, false, fuel),
        }
    }
}

/// The children of an item: those that it has by its kind, and for an alias
/// those of [`alias_children`].
pub open spec fn children(w: World, n: Node, include_aliases: bool, fuel: nat) -> Stage<
    Seq<Node>,
>
    decreases fuel, 5nat, 0nat,
{
    match n.item().payload {
        ItemPayload::Use(a) => alias_children(w, n.snapshot, a, include_aliases, fuel),
        _ => kind_children(w, n, include_aliases, fuel),
    }
}

/// Tries the children `kids[from..]` of `n` for the segment at `index`.
///
/// The first child that bears the segment's name and under which the rest of
/// the path resolves is the result. The guesses of the children under which
/// it did not resolve are kept; where no child is left, the guesses for the
/// segment itself follow.
pub open spec fn try_children(
    w: World,
    kids: Seq<Node>,
    from: int,
    path: Seq<char>,
    index: int,
    fuel: nat,
) -> Stage<Found>
    decreases fuel, 2 * (path.len() - index) + 6, kids.len() - from,
{
    if index < 0 || index >= path.len() {
        Stage::Done(Found { item: None, suggestions: Seq::empty() })
    } else if from < 0 || from >= kids.len() {
        Stage::Done(Found { item: None, suggestions: child_candidates(kids, path, index, 0) })
    } else if kids[from].display_name() == Some(
        path.subrange(index, segment_end(path, index)),
    ) {
        match descend(w, kids[from], path, next_start(path, index), fuel) {
            Stage::Load(c) => Stage::Load(c),
            Stage::Done(f) => if f.item is Some {
                Stage::Done(f)
            } else {
                match try_children(w, kids, from + 1, path, index, fuel) {
                    Stage::Load(c) => Stage::Load(c),
                    Stage::Done(g) => Stage::Done(
                        Found { item: g.item, suggestions: f.suggestions + g.suggestions },
                    ),
                }
            },
        }
    } else {
        try_children(w, kids, from + 1, path, index, fuel)
    }
}

/// Resolves what is left of `path` from `index` on, below the item `n`.
pub open spec fn descend(w: World, n: Node, path: Seq<char>, index: int, fuel: nat) -> Stage<
    Found,
>
    decreases fuel, 2 * (path.len() - index) + 7, 0nat,
{
    if index < 0 || index >= path.len() {
        Stage::Done(Found { item: Some(n), suggestions: Seq::empty() })
    } else {
        match children(w, n, false, fuel) {
            Stage::Load(c) => Stage::Load(c),
            Stage::Done(kids) => try_children(w, kids, 0, path, index, fuel),
        }
    }
}

/// Resolves a typed path: the package that its first segment names, then
/// one child per further segment.
pub open spec fn resolve(w: World, path: Seq<char>, fuel: nat) -> Stage<Found>
    decreases fuel, 2 * path.len() + 8, 0nat,
{
    let head = path.subrange(0, segment_end(path, 0));
    match lookup(w, head) {
        Stage::Load(c) => Stage::Load(c),
        Stage::Done(None) => Stage::Done(
            Found { item: None, suggestions: package_candidates(w.names.available@, 0) },
        ),
        Stage::Done(Some(s)) => match node_at(s, s.root()) {
            None => Stage::Done(Found { item: None, suggestions: Seq::empty() }),
            Some(root) => if first_sep(path, 0) is Some {
                descend(w, root, path, next_start(path, 0), fuel)
            } else {
                Stage::Done(Found { item: Some(root), suggestions: Seq::empty() })
            },
        },
    }
}

/// The world holds this snapshot under its own name.
pub open spec fn holds(w: World, s: Snapshot) -> bool {
    w.loaded.contains_key(s.name()) && w.loaded[s.name()] == s
}

/// Every node is well formed and belongs to a snapshot of the world.
pub open spec fn all_sound(w: World, ns: Seq<Node>) -> bool {
    forall|i: int| 0 <= i < ns.len() ==> (#[trigger] ns[i]).wf() && ns[i].owned_by(w)
}

/// A listing of sound nodes, or a request for a package whose outcome the
/// world does not know.
pub open spec fn sound_nodes(w: World, st: Stage<Seq<Node>>) -> bool {
    match st {
        Stage::Done(ns) => all_sound(w, ns),
        Stage::Load(c) => !w.knows(c),
    }
}

/// A sound node or none, or a request for a package whose outcome the
/// world does not know.
pub open spec fn sound_item(w: World, st: Stage<Option<Node>>) -> bool {
    match st {
        Stage::Done(Some(n)) => n.wf() && n.owned_by(w),
        Stage::Done(None) => true,
        Stage::Load(c) => !w.knows(c),
    }
}

/// As [`sound_item`], for the outcome of a resolution.
pub open spec fn sound_found(w: World, st: Stage<Found>) -> bool {
    match st {
        Stage::Done(f) => f.item matches Some(n) ==> n.wf() && n.owned_by(w),
        Stage::Load(c) => !w.knows(c),
    }
}

/// An item found by id in a snapshot of the world is an item of the world.
pub proof fn lemma_node_at_sound(w: World, s: Snapshot, id: u32)
    requires
        w.wf(),
        holds(w, s),
    ensures
        node_at(s, id) matches Some(n) ==> n.wf() && n.owned_by(w) && n.item().id == id,
{
}

proof fn lemma_members_sound(w: World, s: Snapshot, ids: Seq<u32>, from: int)
    requires
        w.wf(),
        holds(w, s),
    ensures
        all_sound(w, members(s, ids, from)),
    decreases ids.len() - from,
{
    if 0 <= from < ids.len() {
        lemma_members_sound(w, s, ids, from + 1);
        lemma_node_at_sound(w, s, ids[from]);
    }
}

proof fn lemma_methods_sound(w: World, s: Snapshot, id: u32, from: int)
    requires
        w.wf(),
        holds(w, s),
    ensures
        all_sound(w, methods_from(s, id, from)),
    decreases s.items().len() - from,
{
    if 0 <= from < s.items().len() {
        lemma_methods_sound(w, s, id, from + 1);
        match s.items()[from].payload {
            ItemPayload::Impl(b) => {
                lemma_members_sound(w, s, b.items@, 0);
            },
            _ => {},
        }
    }
}

/// The target of an alias is an item of the world, and a request is for a
/// package that the world has yet to hear of.
proof fn lemma_alias_target_sound(w: World, s: Snapshot, a: Alias, fuel: nat)
    requires
        w.wf(),
        holds(w, s),
    ensures
        sound_item(w, alias_target(w, s, a, fuel)),
    decreases fuel, 0nat, 0nat,
{
    match a.target {
        Some(id) => {
            lemma_node_at_sound(w, s, id);
        },
        None => {},
    }
    if fuel > 0 {
        lemma_resolve_sound(w, a.source@, (fuel - 1) as nat);
    }
}

proof fn lemma_expand_sound(
    w: World,
    s: Snapshot,
    ids: Seq<u32>,
    from: int,
    include_aliases: bool,
    fuel: nat,
)
    requires
        w.wf(),
        holds(w, s),
    ensures
        sound_nodes(w, expand(w, s, ids, from, include_aliases, fuel)),
    decreases fuel, 1nat, ids.len() - from,
{
    if 0 <= from < ids.len() {
        lemma_expand_sound(w, s, ids, from + 1, include_aliases, fuel);
        lemma_node_at_sound(w, s, ids[from]);
        match node_at(s, ids[from]) {
            None => {},
            Some(n) => match n.item().payload {
                ItemPayload::Use(a) => {
                    if !include_aliases {
                        lemma_alias_target_sound(w, s, a, fuel);
                        match alias_target(w, s, a, fuel) {
                            Stage::Done(Some(src)) => {
                                if a.is_glob && fuel > 0 {
                                    match glob_ids(src) {
                                        Some(inner) => {
                                            lemma_expand_sound(
                                                w,
                                                src.snapshot,
                                                inner,
                                                0,
                                                false,
                                                (fuel - 1) as nat,
                                            );
                                        },
                                        None => {},
                                    }
                                }
                            },
                            _ => {},
                        }
                    }
                },
                _ => {},
            },
        }
    }
}

proof fn lemma_chain_target_sound(w: World, s: Snapshot, a: Alias, fuel: nat, hops: nat)
    requires
        w.wf(),
        holds(w, s),
    ensures
        sound_item(w, chain_target(w, s, a, fuel, hops)),
        chain_target(w, s, a, fuel, hops) matches Stage::Done(Some(t)) ==> !(t.item().payload
            is Use),
    decreases fuel, 3nat, hops,
{
    lemma_alias_target_sound(w, s, a, fuel);
    match alias_target(w, s, a, fuel) {
        Stage::Done(Some(t)) => match t.item().payload {
            ItemPayload::Use(b) => {
                if hops > 0 {
                    lemma_chain_target_sound(w, t.snapshot, b, fuel, (hops - 1) as nat);
                }
            },
            _ => {},
        },
        _ => {},
    }
}

proof fn lemma_kind_children_sound(w: World, n: Node, include_aliases: bool, fuel: nat)
    requires
        w.wf(),
        n.wf(),
        n.owned_by(w),
    ensures
        sound_nodes(w, kind_children(w, n, include_aliases, fuel)),
    decreases fuel, 2nat, 0nat,
{
    lemma_methods_sound(w, n.snapshot, n.item().id, 0);
    match n.item().payload {
        ItemPayload::Module(ids) => {
            lemma_expand_sound(w, n.snapshot, ids@, 0, include_aliases, fuel);
        },
        ItemPayload::Enum(ids) => {
            lemma_expand_sound(w, n.snapshot, ids@, 0, include_aliases, fuel);
        },
        _ => {},
    }
}

proof fn lemma_alias_children_sound(
    w: World,
    s: Snapshot,
    a: Alias,
    include_aliases: bool,
    fuel: nat,
)
    requires
        w.wf(),
        holds(w, s),
    ensures
        sound_nodes(w, alias_children(w, s, a, include_aliases, fuel)),
    decreases fuel, 4nat, 0nat,
{
    if include_aliases {
        lemma_alias_target_sound(w, s, a, fuel);
        match alias_target(w, s, a, fuel) {
            Stage::Done(Some(src)) => {
                if a.is_glob {
                    match glob_ids(src) {
                        Some(inner) => {
                            lemma_expand_sound(w, src.snapshot, inner, 0, true, fuel);
                        },
                        None => {},
                    }
                }
            },
            _ => {},
        }
    } else {
        lemma_chain_target_sound(w, s, a, fuel, fuel);
        match chain_target(w, s, a, fuel, fuel) {
            Stage::Done(Some(t)) => {
                lemma_kind_children_sound(w, t, false, fuel);
            },
            _ => {},
        }
    }
}

/// The children of an item of the world are items of the world, and a
/// request is for a package that the world has yet to hear of.
pub proof fn lemma_children_sound(w: World, n: Node, include_aliases: bool, fuel: nat)
    requires
        w.wf(),
        n.wf(),
        n.owned_by(w),
    ensures
        sound_nodes(w, children(w, n, include_aliases, fuel)),
    decreases fuel, 5nat, 0nat,
{
    match n.item().payload {
        ItemPayload::Use(a) => {
            lemma_alias_children_sound(w, n.snapshot, a, include_aliases, fuel);
        },
        _ => {
            lemma_kind_children_sound(w, n, include_aliases, fuel);
        },
    }
}

proof fn lemma_try_children_sound(
    w: World,
    kids: Seq<Node>,
    from: int,
    path: Seq<char>,
    index: int,
    fuel: nat,
)
    requires
        w.wf(),
        all_sound(w, kids),
    ensures
        sound_found(w, try_children(w, kids, from, path, index, fuel)),
    decreases fuel, 2 * (path.len() - index) + 6, kids.len() - from,
{
    if 0 <= index < path.len() && 0 <= from < kids.len() {
        lemma_try_children_sound(w, kids, from + 1, path, index, fuel);
        if kids[from].display_name() == Some(path.subrange(index, segment_end(path, index))) {
            lemma_descend_sound(w, kids[from], path, next_start(path, index), fuel);
        }
    }
}

proof fn lemma_descend_sound(w: World, n: Node, path: Seq<char>, index: int, fuel: nat)
    requires
        w.wf(),
        n.wf(),
        n.owned_by(w),
    ensures
        sound_found(w, descend(w, n, path, index, fuel)),
    decreases fuel, 2 * (path.len() - index) + 7, 0nat,
{
    if 0 <= index < path.len() {
        lemma_children_sound(w, n, false, fuel);
        match children(w, n, false, fuel) {
            Stage::Done(kids) => {
                lemma_try_children_sound(w, kids, 0, path, index, fuel);
            },
            Stage::Load(_) => {},
        }
    }
}

/// A resolved path names an item of the world. A resolution that stops to
/// have a package loaded names one whose outcome the world does not know:
/// once the package has been handed over, no resolution stops for it again.
pub proof fn lemma_resolve_sound(w: World, path: Seq<char>, fuel: nat)
    requires
        w.wf(),
    ensures
        sound_found(w, resolve(w, path, fuel)),
    decreases fuel, 2 * path.len() + 8, 0nat,
{
    let head = path.subrange(0, segment_end(path, 0));
    match lookup(w, head) {
        Stage::Done(Some(s)) => {
            lemma_node_at_sound(w, s, s.root());
            match node_at(s, s.root()) {
                Some(root) => {
                    if first_sep(path, 0) is Some {
                        lemma_descend_sound(w, root, path, next_start(path, 0), fuel);
                    }
                },
                None => {},
            }
        },
        _ => {},
    }
}

proof fn lemma_alias_target_stable(w0: World, w1: World, s: Snapshot, a: Alias, fuel: nat)
    requires
        w0.grows_to(w1),
        alias_target(w0, s, a, fuel) is Done,
    ensures
        alias_target(w1, s, a, fuel) == alias_target(w0, s, a, fuel),
    decreases fuel, 0nat, 0nat,
{
    let by_id = match a.target {
        Some(id) => node_at(s, id),
        None => None,
    };
    if by_id is None && fuel > 0 {
        lemma_resolve_stable(w0, w1, a.source@, (fuel - 1) as nat);
    }
}

proof fn lemma_expand_stable(
    w0: World,
    w1: World,
    s: Snapshot,
    ids: Seq<u32>,
    from: int,
    include_aliases: bool,
    fuel: nat,
)
    requires
        w0.grows_to(w1),
        expand(w0, s, ids, from, include_aliases, fuel) is Done,
    ensures
        expand(w1, s, ids, from, include_aliases, fuel) == expand(
            w0,
            s,
            ids,
            from,
            include_aliases,
            fuel,
        ),
    decreases fuel, 1nat, ids.len() - from,
{
    if 0 <= from < ids.len() {
        let rest = expand(w0, s, ids, from + 1, include_aliases, fuel);
        if rest is Done {
            lemma_expand_stable(w0, w1, s, ids, from + 1, include_aliases, fuel);
        }
        match node_at(s, ids[from]) {
            None => {},
            Some(n) => match n.item().payload {
                ItemPayload::Use(a) => {
                    if !include_aliases {
                        lemma_alias_target_stable(w0, w1, s, a, fuel);
                        match alias_target(w0, s, a, fuel) {
                            Stage::Done(Some(src)) => {
                                if a.is_glob && fuel > 0 {
                                    match glob_ids(src) {
                                        Some(inner) => {
                                            lemma_expand_stable(
                                                w0,
                                                w1,
                                                src.snapshot,
                                                inner,
                                                0,
                                                false,
                                                (fuel - 1) as nat,
                                            );
                                        },
                                        None => {},
                                    }
                                }
                            },
                            _ => {},
                        }
                    }
                },
                _ => {},
            },
        }
    }
}

proof fn lemma_chain_target_stable(
    w0: World,
    w1: World,
    s: Snapshot,
    a: Alias,
    fuel: nat,
    hops: nat,
)
    requires
        w0.grows_to(w1),
        chain_target(w0, s, a, fuel, hops) is Done,
    ensures
        chain_target(w1, s, a, fuel, hops) == chain_target(w0, s, a, fuel, hops),
    decreases fuel, 3nat, hops,
{
    lemma_alias_target_stable(w0, w1, s, a, fuel);
    match alias_target(w0, s, a, fuel) {
        Stage::Done(Some(t)) => match t.item().payload {
            ItemPayload::Use(b) => {
                if hops > 0 {
                    lemma_chain_target_stable(w0, w1, t.snapshot, b, fuel, (hops - 1) as nat);
                }
            },
            _ => {},
        },
        _ => {},
    }
}

proof fn lemma_kind_children_stable(
    w0: World,
    w1: World,
    n: Node,
    include_aliases: bool,
    fuel: nat,
)
    requires
        w0.grows_to(w1),
        kind_children(w0, n, include_aliases, fuel) is Done,
    ensures
        kind_children(w1, n, include_aliases, fuel) == kind_children(w0, n, include_aliases, fuel),
    decreases fuel, 2nat, 0nat,
{
    match n.item().payload {
        ItemPayload::Module(ids) => {
            lemma_expand_stable(w0, w1, n.snapshot, ids@, 0, include_aliases, fuel);
        },
        ItemPayload::Enum(ids) => {
            lemma_expand_stable(w0, w1, n.snapshot, ids@, 0, include_aliases, fuel);
        },
        _ => {},
    }
}

proof fn lemma_alias_children_stable(
    w0: World,
    w1: World,
    s: Snapshot,
    a: Alias,
    include_aliases: bool,
    fuel: nat,
)
    requires
        w0.grows_to(w1),
        alias_children(w0, s, a, include_aliases, fuel) is Done,
    ensures
        alias_children(w1, s, a, include_aliases, fuel) == alias_children(
            w0,
            s,
            a,
            include_aliases,
            fuel,
        ),
    decreases fuel, 4nat, 0nat,
{
    if include_aliases {
        lemma_alias_target_stable(w0, w1, s, a, fuel);
        match alias_target(w0, s, a, fuel) {
            Stage::Done(Some(src)) => {
                if a.is_glob {
                    match glob_ids(src) {
                        Some(inner) => {
                            lemma_expand_stable(w0, w1, src.snapshot, inner, 0, true, fuel);
                        },
                        None => {},
                    }
                }
            },
            _ => {},
        }
    } else {
        lemma_chain_target_stable(w0, w1, s, a, fuel, fuel);
        match chain_target(w0, s, a, fuel, fuel) {
            Stage::Done(Some(t)) => {
                lemma_kind_children_stable(w0, w1, t, false, fuel);
            },
            _ => {},
        }
    }
}

/// A listing of children that was complete stays as it is when more
/// packages become known.
pub proof fn lemma_children_stable(
    w0: World,
    w1: World,
    n: Node,
    include_aliases: bool,
    fuel: nat,
)
    requires
        w0.grows_to(w1),
        children(w0, n, include_aliases, fuel) is Done,
    ensures
        children(w1, n, include_aliases, fuel) == children(w0, n, include_aliases, fuel),
    decreases fuel, 5nat, 0nat,
{
    match n.item().payload {
        ItemPayload::Use(a) => {
            lemma_alias_children_stable(w0, w1, n.snapshot, a, include_aliases, fuel);
        },
        _ => {
            lemma_kind_children_stable(w0, w1, n, include_aliases, fuel);
        },
    }
}

/// An alias at the root of a traversal behaves like the item at the end of
/// its chain: with aliases looked through, its children are the children of
/// that item.
pub proof fn lemma_alias_root_like_target(w: World, n: Node, t: Node, fuel: nat)
    requires
        n.item().payload is Use,
        chain_target(w, n.snapshot, n.item().payload->Use_0, fuel, fuel) == Stage::Done(Some(t)),
        !(t.item().payload is Use),
    ensures
        children(w, n, false, fuel) == children(w, t, false, fuel),
{
}

/// An alias of an item that is no alias itself behaves like that item.
pub proof fn lemma_alias_of_item_like_item(w: World, n: Node, t: Node, fuel: nat)
    requires
        n.item().payload is Use,
        alias_target(w, n.snapshot, n.item().payload->Use_0, fuel) == Stage::Done(Some(t)),
        !(t.item().payload is Use),
    ensures
        children(w, n, false, fuel) == children(w, t, false, fuel),
{
}

proof fn lemma_try_children_stable(
    w0: World,
    w1: World,
    kids: Seq<Node>,
    from: int,
    path: Seq<char>,
    index: int,
    fuel: nat,
)
    requires
        w0.grows_to(w1),
        try_children(w0, kids, from, path, index, fuel) is Done,
    ensures
        try_children(w1, kids, from, path, index, fuel) == try_children(
            w0,
            kids,
            from,
            path,
            index,
            fuel,
        ),
    decreases fuel, 2 * (path.len() - index) + 6, kids.len() - from,
{
    if 0 <= index < path.len() && 0 <= from < kids.len() {
        if kids[from].display_name() == Some(path.subrange(index, segment_end(path, index))) {
            lemma_descend_stable(w0, w1, kids[from], path, next_start(path, index), fuel);
            match descend(w0, kids[from], path, next_start(path, index), fuel) {
                Stage::Done(f) => {
                    if f.item is None {
                        lemma_try_children_stable(w0, w1, kids, from + 1, path, index, fuel);
                    }
                },
                Stage::Load(_) => {},
            }
        } else {
            lemma_try_children_stable(w0, w1, kids, from + 1, path, index, fuel);
        }
    }
}

proof fn lemma_descend_stable(
    w0: World,
    w1: World,
    n: Node,
    path: Seq<char>,
    index: int,
    fuel: nat,
)
    requires
        w0.grows_to(w1),
        descend(w0, n, path, index, fuel) is Done,
    ensures
        descend(w1, n, path, index, fuel) == descend(w0, n, path, index, fuel),
    decreases fuel, 2 * (path.len() - index) + 7, 0nat,
{
    if 0 <= index < path.len() {
        lemma_children_stable(w0, w1, n, false, fuel);
        match children(w0, n, false, fuel) {
            Stage::Done(kids) => {
                lemma_try_children_stable(w0, w1, kids, 0, path, index, fuel);
            },
            Stage::Load(_) => {},
        }
    }
}

/// A resolution that was complete gives the same outcome when more packages
/// become known: what was resolved once is resolved alike from then on,
/// with nothing loaded again.
pub proof fn lemma_resolve_stable(w0: World, w1: World, path: Seq<char>, fuel: nat)
    requires
        w0.grows_to(w1),
        resolve(w0, path, fuel) is Done,
    ensures
        resolve(w1, path, fuel) == resolve(w0, path, fuel),
    decreases fuel, 2 * path.len() + 8, 0nat,
{
    let head = path.subrange(0, segment_end(path, 0));
    crate::request::lemma_lookup_asks_once(w0, w1, head);
    match lookup(w0, head) {
        Stage::Done(Some(s)) => {
            match node_at(s, s.root()) {
                Some(root) => {
                    if first_sep(path, 0) is Some {
                        lemma_descend_stable(w0, w1, root, path, next_start(path, 0), fuel);
                    }
                },
                None => {},
            }
        },
        _ => {},
    }
}

/// Once the outcome of loading a package is known, neither a resolution nor
/// a listing of children stops to have it loaded.
pub proof fn lemma_asks_once(
    w: World,
    name: Seq<char>,
    path: Seq<char>,
    n: Node,
    include_aliases: bool,
    fuel: nat,
)
    requires
        w.wf(),
        w.knows(name),
    ensures
        resolve(w, path, fuel) != Stage::<Found>::Load(name),
        n.wf() && n.owned_by(w) ==> children(w, n, include_aliases, fuel) != Stage::<
            Seq<Node>,
        >::Load(name),
{
    lemma_resolve_sound(w, path, fuel);
    if n.wf() && n.owned_by(w) {
        lemma_children_sound(w, n, include_aliases, fuel);
    }
}

/// Where the last segment of a path begins, seen from the segment at `index`.
pub open spec fn final_start(path: Seq<char>, index: int) -> int
    decreases path.len() - index,
{
    if index < 0 || index >= path.len() || next_start(path, index) >= path.len() {
        index
    } else {
        final_start(path, next_start(path, index))
    }
}

/// The last segment of a path, seen from the segment at `index`.
pub open spec fn final_segment(path: Seq<char>, index: int) -> Seq<char> {
    path.subrange(final_start(path, index), segment_end(path, final_start(path, index)))
}

/// As [`lemma_resolved_name`], for the children tried from `from` on.
proof fn lemma_tried_name(
    w: World,
    kids: Seq<Node>,
    from: int,
    path: Seq<char>,
    index: int,
    fuel: nat,
)
    requires
        0 <= index < path.len(),
    ensures
        try_children(w, kids, from, path, index, fuel) matches Stage::Done(f) ==> (
        f.item matches Some(x) ==> x.display_name() == Some(final_segment(path, index))),
    decreases fuel, 2 * (path.len() - index) + 6, kids.len() - from,
{
    if 0 <= from < kids.len() {
        lemma_tried_name(w, kids, from + 1, path, index, fuel);
        if kids[from].display_name() == Some(path.subrange(index, segment_end(path, index))) {
            if next_start(path, index) < path.len() {
                lemma_resolved_name(w, kids[from], path, next_start(path, index), fuel);
            }
        }
    }
}

/// The item that a path resolves to bears the name of the path's last
/// segment: its own name, or the name that an alias on the way gave it.
pub proof fn lemma_resolved_name(w: World, n: Node, path: Seq<char>, index: int, fuel: nat)
    requires
        0 <= index < path.len(),
    ensures
        descend(w, n, path, index, fuel) matches Stage::Done(f) ==> (f.item matches Some(x)
            ==> x.display_name() == Some(final_segment(path, index))),
    decreases fuel, 2 * (path.len() - index) + 7, 0nat,
{
    match children(w, n, false, fuel) {
        Stage::Done(kids) => {
            lemma_tried_name(w, kids, 0, path, index, fuel);
        },
        Stage::Load(_) => {},
    }
}

/// The position of a guess among the guesses for the children from `from`
/// on: a named child whose path is not the beginning of what was typed is
/// among the guesses, with its path and as the item guessed.
pub proof fn lemma_named_child_is_suggested(
    kids: Seq<Node>,
    path: Seq<char>,
    index: int,
    from: int,
    at: int,
)
    requires
        0 <= from <= at < kids.len(),
        kids[at].display_name() is Some,
        !(path.subrange(0, index) + kids[at].display_name()->0).is_prefix_of(path),
    ensures
        child_candidates(kids, path, index, from).contains(
            Candidate {
                path: path.subrange(0, index) + kids[at].display_name()->0,
                item: Some(kids[at]),
            },
        ),
    decreases at - from,
{
    let wanted = Candidate {
        path: path.subrange(0, index) + kids[at].display_name()->0,
        item: Some(kids[at]),
    };
    let all = child_candidates(kids, path, index, from);
    let rest = child_candidates(kids, path, index, from + 1);
    if from == at {
        assert(all == seq![wanted] + rest);
        assert(all[0] == wanted);
    } else {
        lemma_named_child_is_suggested(kids, path, index, from + 1, at);
        let i = choose|i: int| 0 <= i < rest.len() && rest[i] == wanted;
        match kids[from].display_name() {
            Some(name) => {
                if !(path.subrange(0, index) + name).is_prefix_of(path) {
                    let head = Candidate {
                        path: path.subrange(0, index) + name,
                        item: Some(kids[from]),
                    };
                    assert(all == seq![head] + rest);
                    assert(all[i + 1] == wanted);
                } else {
                    assert(all == rest);
                }
            },
            None => {
                assert(all == rest);
            },
        }
    }
}

/// Where no child of an item bears the segment typed, the guesses hold
/// every named child of the item whose path is not the beginning of what
/// was typed.
pub proof fn lemma_misspelled_segment_is_suggested(
    w: World,
    kids: Seq<Node>,
    path: Seq<char>,
    index: int,
    fuel: nat,
    at: int,
)
    requires
        0 <= index < path.len(),
        0 <= at < kids.len(),
        forall|j: int|
            0 <= j < kids.len() ==> (#[trigger] kids[j]).display_name() != Some(
                path.subrange(index, segment_end(path, index)),
            ),
        kids[at].display_name() is Some,
        !(path.subrange(0, index) + kids[at].display_name()->0).is_prefix_of(path),
    ensures
        try_children(w, kids, 0, path, index, fuel) matches Stage::Done(f) && f.item is None
            && f.suggestions.contains(
            Candidate {
                path: path.subrange(0, index) + kids[at].display_name()->0,
                item: Some(kids[at]),
            },
        ),
{
    lemma_no_child_matches(w, kids, 0, path, index, fuel);
    lemma_named_child_is_suggested(kids, path, index, 0, at);
}

/// Where no child bears the segment typed, the outcome is the guesses for
/// the segment.
proof fn lemma_no_child_matches(
    w: World,
    kids: Seq<Node>,
    from: int,
    path: Seq<char>,
    index: int,
    fuel: nat,
)
    requires
        0 <= index < path.len(),
        0 <= from <= kids.len(),
        forall|j: int|
            0 <= j < kids.len() ==> (#[trigger] kids[j]).display_name() != Some(
                path.subrange(index, segment_end(path, index)),
            ),
    ensures
        try_children(w, kids, from, path, index, fuel) == Stage::Done(
            Found { item: None, suggestions: child_candidates(kids, path, index, 0) },
        ),
    decreases kids.len() - from,
{
    if from < kids.len() {
        lemma_no_child_matches(w, kids, from + 1, path, index, fuel);
    }
}

/// A reference to an item of a loaded snapshot.
#[derive(Clone, Copy, Debug)]
pub struct ItemRef<'a> {
    snapshot: &'a Snapshot,
    index: usize,
    name: Option<&'a str>,
}

/// The nodes that a list of references stands for.
pub open spec fn views<'a>(v: Seq<ItemRef<'a>>) -> Seq<Node> {
    Seq::new(v.len(), |i: int| v[i]@)
}

impl<'a> ItemRef<'a> {
    /// The node that the reference stands for.
    pub closed spec fn view(&self) -> Node {
        Node {
            snapshot: *self.snapshot,
            index: self.index as int,
            name: match self.name {
                Some(n) => Some(n@),
                None => None,
            },
        }
    }

    #[verifier::type_invariant]
    spec fn in_range(&self) -> bool {
        self.snapshot.wf() && self.index < self.snapshot.items().len()
    }

    /// The item with this id in a snapshot. A dangling id gives `None`.
    pub fn lookup(snapshot: &'a Snapshot, id: u32) -> (r: Option<ItemRef<'a>>)
        ensures
            match r {
                Some(x) => node_at(*snapshot, id) == Some(x@) && x@.wf(),
                None => node_at(*snapshot, id) is None,
            },
    {
        match snapshot.find(id) {
            Some(index) => Some(ItemRef { snapshot, index, name: None }),
            None => None,
        }
    }

    /// The root module of a snapshot, if the snapshot holds it.
    pub fn root(snapshot: &'a Snapshot) -> (r: Option<ItemRef<'a>>)
        ensures
            match r {
                Some(x) => node_at(*snapshot, snapshot.root()) == Some(x@) && x@.wf(),
                None => node_at(*snapshot, snapshot.root()) is None,
            },
    {
        ItemRef::lookup(snapshot, snapshot.root_id())
    }

    /// The item with this id in the same snapshot. A dangling id gives
    /// `None`.
    pub fn get(&self, id: u32) -> (r: Option<ItemRef<'a>>)
        ensures
            match r {
                Some(x) => node_at(self@.snapshot, id) == Some(x@) && x@.wf(),
                None => node_at(self@.snapshot, id) is None,
            },
    {
        ItemRef::lookup(self.snapshot, id)
    }

    /// The snapshot that holds the item.
    pub fn snapshot(&self) -> (r: &'a Snapshot)
        ensures
            *r == self@.snapshot,
            self@.wf(),
    {
        proof {
            use_type_invariant(self);
        }
        self.snapshot
    }

    /// The item itself.
    pub fn item(&self) -> (r: &'a Item)
        ensures
            *r == self@.item(),
            self@.wf(),
    {
        proof {
            use_type_invariant(self);
        }
        self.snapshot.item(self.index)
    }

    /// The item's id.
    pub fn id(&self) -> (r: u32)
        ensures
            r == self@.item().id,
            self@.wf(),
    {
        self.item().id
    }

    /// The item's kind.
    pub fn kind(&self) -> (r: ItemKind)
        ensures
            r == kind_of(self@.item().payload),
            self@.wf(),
    {
        self.item().kind()
    }

    /// The name under which the item is shown: the name that an alias gave
    /// it, else its own.
    pub fn name(&self) -> (r: Option<&'a str>)
        ensures
            self@.wf(),
            match r {
                Some(n) => self@.display_name() == Some(n@),
                None => self@.display_name() is None,
            },
    {
        proof {
            use_type_invariant(self);
        }
        match self.name {
            Some(n) => Some(n),
            None => match &self.item().name {
                Some(s) => Some(s.as_str()),
                None => None,
            },
        }
    }

    /// The same item under another name.
    pub fn with_name(self, name: &'a str) -> (r: ItemRef<'a>)
        ensures
            r@ == self@.with_name(name@),
            r@.wf(),
    {
        proof {
            use_type_invariant(&self);
        }
        ItemRef { snapshot: self.snapshot, index: self.index, name: Some(name) }
    }

    /// The inherent methods of the item, by the position of their blocks in
    /// the snapshot.
    pub fn methods(&self) -> (r: Vec<ItemRef<'a>>)
        ensures
            self@.wf(),
            views(r@) == methods(self@),
    {
        let id: u32 = self.id();
        let s = self.snapshot;
        let mut out: Vec<ItemRef<'a>> = Vec::new();
        let mut p: usize = 0;
        assert(views(out@) =~= Seq::<Node>::empty());
        while p < s.len()
            invariant
                p <= s.items().len(),
                views(out@) + methods_from(*s, id, p as int) == methods_from(*s, id, 0),
            decreases s.items().len() - p,
        {
            let ghost before = views(out@);
            match &s.item(p).payload {
                ItemPayload::Impl(b) => {
                    let hit = match b.target {
                        Some(t) => t == id && b.interface.is_none(),
                        None => false,
                    };
                    if hit {
                        push_members(s, &b.items, &mut out);
                        assert((before + members(*s, b.items@, 0)) + methods_from(
                            *s,
                            id,
                            p + 1,
                        ) =~= before + methods_from(*s, id, p as int));
                    }
                },
                _ => {},
            }
            p += 1;
        }
        assert(views(out@) + Seq::<Node>::empty() =~= views(out@));
        out
    }

    /// The implementation blocks that implement an interface for the item,
    /// by their position in the snapshot.
    pub fn traits(&self) -> (r: Vec<ItemRef<'a>>)
        ensures
            self@.wf(),
            views(r@) == implementations(self@),
    {
        let id: u32 = self.id();
        let s = self.snapshot;
        let mut out: Vec<ItemRef<'a>> = Vec::new();
        let mut p: usize = 0;
        assert(views(out@) =~= Seq::<Node>::empty());
        while p < s.len()
            invariant
                p <= s.items().len(),
                s.wf(),
                views(out@) + implementations_from(*s, id, p as int) == implementations_from(
                    *s,
                    id,
                    0,
                ),
            decreases s.items().len() - p,
        {
            let ghost before = views(out@);
            match &s.item(p).payload {
                ItemPayload::Impl(b) => {
                    let hit = match b.target {
                        Some(t) => t == id && b.interface.is_some(),
                        None => false,
                    };
                    if hit {
                        let x = ItemRef { snapshot: s, index: p, name: None };
                        out.push(x);
                        assert(views(out@) == before.push(x@)) by {
                            assert(views(out@) =~= before.push(x@));
                        }
                        assert(before.push(x@) + implementations_from(*s, id, p + 1) =~= before
                            + implementations_from(*s, id, p as int));
                    }
                },
                _ => {},
            }
            p += 1;
        }
        assert(views(out@) + Seq::<Node>::empty() =~= views(out@));
        out
    }
}

/// Appends the items that `ids` name in `s`, dangling ids left out.
pub(crate) fn push_members<'a>(s: &'a Snapshot, ids: &Vec<u32>, out: &mut Vec<ItemRef<'a>>)
    ensures
        views(final(out)@) == views(old(out)@) + members(*s, ids@, 0),
{
    let mut i: usize = 0;
    assert(views(out@) + Seq::<Node>::empty() =~= views(out@));
    while i < ids.len()
        invariant
            i <= ids@.len(),
            views(out@) + members(*s, ids@, i as int) == views(old(out)@) + members(*s, ids@, 0),
        decreases ids@.len() - i,
    {
        let ghost before = out@;
        match ItemRef::lookup(s, ids[i]) {
            Some(x) => {
                out.push(x);
                assert(views(out@) =~= views(before).push(x@));
                assert(views(before).push(x@) + members(*s, ids@, i + 1) =~= views(before)
                    + members(*s, ids@, i as int));
            },
            None => {},
        }
        i += 1;
    }
    assert(views(out@) + Seq::<Node>::empty() =~= views(out@));
}

/// A guess at what a path that did not resolve was meant to be: the path
/// of an item that exists, and the item. A guess at a package has no item.
#[derive(Debug)]
pub struct Suggestion<'a> {
    path: String,
    item: Option<ItemRef<'a>>,
}

impl<'a> Suggestion<'a> {
    /// The guess as plain values.
    pub closed spec fn view(&self) -> Candidate {
        Candidate {
            path: self.path@,
            item: match self.item {
                Some(x) => Some(x@),
                None => None,
            },
        }
    }

    /// The guessed path.
    pub fn path(&self) -> (r: &str)
        ensures
            r@ == self@.path,
    {
        self.path.as_str()
    }

    /// The item that the guessed path names.
    pub fn item(&self) -> (r: Option<ItemRef<'a>>)
        ensures
            match r {
                Some(x) => self@.item == Some(x@),
                None => self@.item is None,
            },
    {
        self.item
    }
}

/// The guesses that a list of suggestions stands for.
pub open spec fn candidates<'a>(v: Seq<Suggestion<'a>>) -> Seq<Candidate> {
    Seq::new(v.len(), |i: int| v[i]@)
}

/// A list of references stands for the nodes of a stage, or asks for the
/// same package.
pub open spec fn agrees_nodes<'a>(r: Step<Vec<ItemRef<'a>>>, st: Stage<Seq<Node>>) -> bool {
    match r {
        Step::Done(v) => st == Stage::Done(views(v@)),
        Step::Load(c) => st == Stage::<Seq<Node>>::Load(c@),
    }
}

/// A reference stands for the node of a stage, or asks for the same package.
pub open spec fn agrees_item<'a>(r: Step<Option<ItemRef<'a>>>, st: Stage<Option<Node>>) -> bool {
    match r {
        Step::Done(Some(x)) => st == Stage::Done(Some(x@)),
        Step::Done(None) => st == Stage::<Option<Node>>::Done(None),
        Step::Load(c) => st == Stage::<Option<Node>>::Load(c@),
    }
}

/// A resolution's outcome: the item agrees with the stage's, and the
/// suggestions grew by the stage's guesses. A step that asks for a package
/// says nothing of the suggestions.
pub open spec fn agrees_found<'a>(
    r: Step<Option<ItemRef<'a>>>,
    before: Seq<Suggestion<'a>>,
    after: Seq<Suggestion<'a>>,
    st: Stage<Found>,
) -> bool {
    match st {
        Stage::Load(c) => r matches Step::Load(name) && name@ == c,
        Stage::Done(f) => {
            &&& candidates(after) == candidates(before) + f.suggestions
            &&& match r {
                Step::Done(Some(x)) => f.item == Some(x@),
                Step::Done(None) => f.item is None,
                Step::Load(_) => false,
            }
        },
    }
}

proof fn lemma_prepend_twice(a: Seq<Node>, b: Seq<Node>, st: Stage<Seq<Node>>)
    ensures
        prepend(a, prepend(b, st)) == prepend(a + b, st),
{
    match st {
        Stage::Done(ys) => {
            assert(a + (b + ys) =~= (a + b) + ys);
        },
        Stage::Load(_) => {},
    }
}

proof fn lemma_prepend_nothing(st: Stage<Seq<Node>>)
    ensures
        prepend(Seq::empty(), st) == st,
{
    match st {
        Stage::Done(ys) => {
            assert(Seq::<Node>::empty() + ys =~= ys);
        },
        Stage::Load(_) => {},
    }
}

/// Finds the first `::` at or after `from`.
fn find_sep(chars: &Vec<char>, from: usize) -> (r: Option<usize>)
    ensures
        match r {
            Some(e) => first_sep(chars@, from as int) == Some(e as int) && from <= e && e + 1
                < chars@.len(),
            None => first_sep(chars@, from as int) is None,
        },
{
    let mut i: usize = from;
    while i < chars.len() && i + 1 < chars.len()
        invariant
            from <= i,
            first_sep(chars@, from as int) == first_sep(chars@, i as int),
        decreases chars@.len() - i,
    {
        if chars[i] == ':' && chars[i + 1] == ':' {
            return Some(i);
        }
        i += 1;
    }
    None
}

/// The item that an alias of the snapshot `s` stands for.
fn follow_alias<'a>(ctx: &'a RequestContext, s: &'a Snapshot, a: &'a Alias, fuel: usize) -> (r:
    Step<Option<ItemRef<'a>>>)
    ensures
        agrees_item(r, alias_target(ctx@, *s, *a, fuel as nat)),
    decreases fuel, 0nat, 0nat,
{
    let by_id = match a.target {
        Some(id) => ItemRef::lookup(s, id),
        None => None,
    };
    match by_id {
        Some(x) => {
            return Step::Done(Some(x));
        },
        None => {},
    }
    if fuel == 0 {
        return Step::Done(None);
    }
    let mut unused: Vec<Suggestion<'a>> = Vec::new();
    resolve_within(ctx, a.source.as_str(), &mut unused, fuel - 1)
}

/// The items that `ids` stand for in the snapshot `s`.
#[verifier::rlimit(40)]
fn id_iter<'a>(
    ctx: &'a RequestContext,
    s: &'a Snapshot,
    ids: &'a Vec<u32>,
    include_aliases: bool,
    fuel: usize,
) -> (r: Step<Vec<ItemRef<'a>>>)
    ensures
        agrees_nodes(r, expand(ctx@, *s, ids@, 0, include_aliases, fuel as nat)),
    decreases fuel, 1nat, ids@.len(),
{
    let mut out: Vec<ItemRef<'a>> = Vec::new();
    let mut i: usize = 0;
    proof {
        assert(views(out@) =~= Seq::<Node>::empty());
        lemma_prepend_nothing(expand(ctx@, *s, ids@, 0, include_aliases, fuel as nat));
    }
    while i < ids.len()
        invariant
            i <= ids@.len(),
            expand(ctx@, *s, ids@, 0, include_aliases, fuel as nat) == prepend(
                views(out@),
                expand(ctx@, *s, ids@, i as int, include_aliases, fuel as nat),
            ),
        decreases ids@.len() - i,
    {
        let ghost before = views(out@);
        let ghost rest = expand(ctx@, *s, ids@, i + 1, include_aliases, fuel as nat);
        match ItemRef::lookup(s, ids[i]) {
            None => {},
            Some(n) => {
                let alias: Option<&'a Alias> = match &n.item().payload {
                    ItemPayload::Use(a) => if include_aliases {
                        None
                    } else {
                        Some(a)
                    },
                    _ => None,
                };
                match alias {
                    None => {
                        out.push(n);
                        proof {
                            assert(views(out@) =~= before + seq![n@]);
                            lemma_prepend_twice(before, seq![n@], rest);
                        }
                    },
                    Some(a) => {
                        match follow_alias(ctx, s, a, fuel) {
                            Step::Load(c) => {
                                return Step::Load(c);
                            },
                            Step::Done(None) => {
                                assert(before + Seq::<Node>::empty() =~= before);
                                return Step::Done(out);
                            },
                            Step::Done(Some(src)) => {
                                if a.is_glob {
                                    let inner: Option<&'a Vec<u32>> = match &src.item().payload {
                                        ItemPayload::Module(ids) => Some(ids),
                                        ItemPayload::Enum(ids) => Some(ids),
                                        _ => None,
                                    };
                                    match inner {
                                        None => {
                                            assert(before + Seq::<Node>::empty() =~= before);
                                            return Step::Done(out);
                                        },
                                        Some(inner_ids) => {
                                            if fuel > 0 {
                                                match id_iter(
                                                    ctx,
                                                    src.snapshot(),
                                                    inner_ids,
                                                    false,
                                                    fuel - 1,
                                                ) {
                                                    Step::Load(c) => {
                                                        return Step::Load(c);
                                                    },
                                                    Step::Done(xs) => {
                                                        let ghost got = views(xs@);
                                                        let mut xs = xs;
                                                        out.append(&mut xs);
                                                        proof {
                                                            assert(views(out@) =~= before + got);
                                                            lemma_prepend_twice(before, got, rest);
                                                        }
                                                    },
                                                }
                                            }
                                        },
                                    }
                                } else {
                                    let shown = src.with_name(a.name.as_str());
                                    out.push(shown);
                                    proof {
                                        assert(views(out@) =~= before + seq![shown@]);
                                        lemma_prepend_twice(before, seq![shown@], rest);
                                    }
                                }
                            },
                        }
                    },
                }
            },
        }
        i += 1;
    }
    assert(views(out@) + Seq::<Node>::empty() =~= views(out@));
    Step::Done(out)
}

/// The item at the end of the chain of an alias of the snapshot `s`.
fn settle_alias<'a>(
    ctx: &'a RequestContext,
    s: &'a Snapshot,
    a: &'a Alias,
    fuel: usize,
    hops: usize,
) -> (r: Step<Option<ItemRef<'a>>>)
    ensures
        agrees_item(r, chain_target(ctx@, *s, *a, fuel as nat, hops as nat)),
    decreases fuel, 3nat, hops,
{
    match follow_alias(ctx, s, a, fuel) {
        Step::Load(c) => Step::Load(c),
        Step::Done(None) => Step::Done(None),
        Step::Done(Some(t)) => {
            let next: Option<&'a Alias> = match &t.item().payload {
                ItemPayload::Use(b) => Some(b),
                _ => None,
            };
            match next {
                Some(b) => {
                    if hops == 0 {
                        Step::Done(None)
                    } else {
                        settle_alias(ctx, t.snapshot(), b, fuel, hops - 1)
                    }
                },
                None => Step::Done(Some(t)),
            }
        },
    }
}

/// The children that an item has by its kind.
fn kind_items<'a>(ctx: &'a RequestContext, item: ItemRef<'a>, include_aliases: bool, fuel: usize) -> (r:
    Step<Vec<ItemRef<'a>>>)
    ensures
        agrees_nodes(r, kind_children(ctx@, item@, include_aliases, fuel as nat)),
    decreases fuel, 2nat, 0nat,
{
    match &item.item().payload {
        ItemPayload::Module(ids) => id_iter(ctx, item.snapshot(), ids, include_aliases, fuel),
        ItemPayload::Enum(ids) => {
            match id_iter(ctx, item.snapshot(), ids, include_aliases, fuel) {
                Step::Load(c) => Step::Load(c),
                Step::Done(xs) => {
                    let ghost first = views(xs@);
                    let mut out = xs;
                    let mut more = item.methods();
                    let ghost second = views(more@);
                    out.append(&mut more);
                    assert(views(out@) =~= first + second);
                    Step::Done(out)
                },
            }
        },
        ItemPayload::Struct(_) => Step::Done(item.methods()),
        _ => {
            let out: Vec<ItemRef<'a>> = Vec::new();
            assert(views(out@) =~= Seq::<Node>::empty());
            Step::Done(out)
        },
    }
}

/// The children of an alias of the snapshot `s`.
#[verifier::rlimit(40)]
fn alias_items<'a>(
    ctx: &'a RequestContext,
    s: &'a Snapshot,
    a: &'a Alias,
    include_aliases: bool,
    fuel: usize,
) -> (r: Step<Vec<ItemRef<'a>>>)
    ensures
        agrees_nodes(r, alias_children(ctx@, *s, *a, include_aliases, fuel as nat)),
    decreases fuel, 4nat, 0nat,
{
    if include_aliases {
        match follow_alias(ctx, s, a, fuel) {
            Step::Load(c) => Step::Load(c),
            Step::Done(None) => {
                let out: Vec<ItemRef<'a>> = Vec::new();
                assert(views(out@) =~= Seq::<Node>::empty());
                Step::Done(out)
            },
            Step::Done(Some(src)) => {
                if a.is_glob {
                    let inner: Option<&'a Vec<u32>> = match &src.item().payload {
                        ItemPayload::Module(ids) => Some(ids),
                        ItemPayload::Enum(ids) => Some(ids),
                        _ => None,
                    };
                    match inner {
                        Some(inner_ids) => id_iter(ctx, src.snapshot(), inner_ids, true, fuel),
                        None => {
                            let out: Vec<ItemRef<'a>> = Vec::new();
                            assert(views(out@) =~= Seq::<Node>::empty());
                            Step::Done(out)
                        },
                    }
                } else {
                    let shown = src.with_name(a.name.as_str());
                    let mut out: Vec<ItemRef<'a>> = Vec::new();
                    out.push(shown);
                    assert(views(out@) =~= seq![shown@]);
                    Step::Done(out)
                }
            },
        }
    } else {
        match settle_alias(ctx, s, a, fuel, fuel) {
            Step::Load(c) => Step::Load(c),
            Step::Done(None) => {
                let out: Vec<ItemRef<'a>> = Vec::new();
                assert(views(out@) =~= Seq::<Node>::empty());
                Step::Done(out)
            },
            Step::Done(Some(t)) => kind_items(ctx, t, false, fuel),
        }
    }
}

/// The children of an item, aliases followed to the depth `fuel`.
pub(crate) fn children_of<'a>(ctx: &'a RequestContext, item: ItemRef<'a>, include_aliases: bool, fuel: usize) -> (r:
    Step<Vec<ItemRef<'a>>>)
    ensures
        agrees_nodes(r, children(ctx@, item@, include_aliases, fuel as nat)),
    decreases fuel, 5nat, 0nat,
{
    match &item.item().payload {
        ItemPayload::Use(a) => alias_items(ctx, item.snapshot(), a, include_aliases, fuel),
        _ => kind_items(ctx, item, include_aliases, fuel),
    }
}

/// Adds a guess for every named child, under the path typed up to `index`,
/// unless what was typed begins with the guess.
#[verifier::rlimit(40)]
fn generate_suggestions<'a>(
    kids: &Vec<ItemRef<'a>>,
    path: &str,
    chars: &Vec<char>,
    index: usize,
    suggestions: &mut Vec<Suggestion<'a>>,
)
    requires
        chars@ == path@,
        index <= chars@.len(),
    ensures
        candidates(final(suggestions)@) == candidates(old(suggestions)@) + child_candidates(
            views(kids@),
            path@,
            index as int,
            0,
        ),
{
    let prefix = path.substring_char(0, index);
    let mut k: usize = 0;
    let ghost start = candidates(suggestions@);
    assert(start + Seq::<Candidate>::empty() =~= start);
    while k < kids.len()
        invariant
            k <= kids@.len(),
            chars@ == path@,
            prefix@ == path@.subrange(0, index as int),
            candidates(suggestions@) + child_candidates(views(kids@), path@, index as int, k as int)
                == start + child_candidates(views(kids@), path@, index as int, 0),
        decreases kids@.len() - k,
    {
        let ghost before = candidates(suggestions@);
        let kid = kids[k];
        assert(views(kids@)[k as int] == kid@);
        match kid.name() {
            Some(name) => {
                let mut full = String::from_str(prefix);
                full.append(name);
                if !starts_with(chars, &chars_of(full.as_str())) {
                    let guess = Suggestion { path: full, item: Some(kid) };
                    suggestions.push(guess);
                    assert(candidates(suggestions@) =~= before + seq![guess@]);
                    assert((before + seq![guess@]) + child_candidates(
                        views(kids@),
                        path@,
                        index as int,
                        k + 1,
                    ) =~= before + child_candidates(views(kids@), path@, index as int, k as int));
                }
            },
            None => {},
        }
        k += 1;
    }
    assert(candidates(suggestions@) + Seq::<Candidate>::empty() =~= candidates(suggestions@));
}

/// What `acc` and a later outcome make together.
pub open spec fn after_guesses(acc: Seq<Candidate>, st: Stage<Found>) -> Stage<Found> {
    match st {
        Stage::Done(g) => Stage::Done(Found { item: g.item, suggestions: acc + g.suggestions }),
        Stage::Load(c) => Stage::Load(c),
    }
}

/// Resolves what is left of `path` from `index` on, below `item`.
#[verifier::rlimit(40)]
fn find_children_recursive<'a>(
    ctx: &'a RequestContext,
    item: ItemRef<'a>,
    path: &str,
    chars: &Vec<char>,
    index: usize,
    suggestions: &mut Vec<Suggestion<'a>>,
    fuel: usize,
) -> (r: Step<Option<ItemRef<'a>>>)
    requires
        chars@ == path@,
    ensures
        agrees_found(
            r,
            old(suggestions)@,
            final(suggestions)@,
            descend(ctx@, item@, path@, index as int, fuel as nat),
        ),
    decreases fuel, 2 * (chars@.len() - index) + 7, 0nat,
{
    let ghost start = candidates(suggestions@);
    assert(start + Seq::<Candidate>::empty() =~= start);
    if index >= chars.len() {
        return Step::Done(Some(item));
    }
    let sep = find_sep(chars, index);
    let seg_end: usize = match sep {
        Some(e) => e,
        None => chars.len(),
    };
    let next: usize = match sep {
        Some(e) => e + 2,
        None => chars.len(),
    };
    assert(seg_end == segment_end(path@, index as int));
    assert(next == next_start(path@, index as int));
    let segment = path.substring_char(index, seg_end);
    let kids = match children_of(ctx, item, false, fuel) {
        Step::Load(c) => {
            return Step::Load(c);
        },
        Step::Done(kids) => kids,
    };
    let ghost nodes = views(kids@);
    let ghost goal = try_children(ctx@, nodes, 0, path@, index as int, fuel as nat);
    let ghost acc = Seq::<Candidate>::empty();
    let mut k: usize = 0;
    proof {
        match goal {
            Stage::Done(g) => {
                assert(acc + g.suggestions =~= g.suggestions);
            },
            Stage::Load(_) => {},
        }
    }
    while k < kids.len()
        invariant
            k <= kids@.len(),
            chars@ == path@,
            index < chars@.len(),
            nodes == views(kids@),
            start == candidates(old(suggestions)@),
            descend(ctx@, item@, path@, index as int, fuel as nat) == goal,
            index <= seg_end <= chars@.len(),
            seg_end == segment_end(path@, index as int),
            next == next_start(path@, index as int),
            index < next <= chars@.len(),
            segment@ == path@.subrange(index as int, seg_end as int),
            goal == try_children(ctx@, nodes, 0, path@, index as int, fuel as nat),
            goal == after_guesses(
                acc,
                try_children(ctx@, nodes, k as int, path@, index as int, fuel as nat),
            ),
            candidates(suggestions@) == start + acc,
        decreases kids@.len() - k,
    {
        let kid = kids[k];
        assert(nodes[k as int] == kid@);
        let named = match kid.name() {
            Some(name) => str_eq(name, segment),
            None => false,
        };
        if named {
            let ghost before = suggestions@;
            match find_children_recursive(ctx, kid, path, chars, next, suggestions, fuel) {
                Step::Load(c) => {
                    return Step::Load(c);
                },
                Step::Done(Some(x)) => {
                    proof {
                        let f = descend(ctx@, kid@, path@, next as int, fuel as nat)->Done_0;
                        assert((start + acc) + f.suggestions =~= start + (acc + f.suggestions));
                    }
                    return Step::Done(Some(x));
                },
                Step::Done(None) => {
                    proof {
                        let f = descend(ctx@, kid@, path@, next as int, fuel as nat)->Done_0;
                        assert((start + acc) + f.suggestions =~= start + (acc + f.suggestions));
                        match try_children(
                            ctx@,
                            nodes,
                            k + 1,
                            path@,
                            index as int,
                            fuel as nat,
                        ) {
                            Stage::Done(g) => {
                                assert(acc + (f.suggestions + g.suggestions) =~= (acc
                                    + f.suggestions) + g.suggestions);
                            },
                            Stage::Load(_) => {},
                        }
                        acc = acc + f.suggestions;
                    }
                },
            }
        }
        k += 1;
    }
    let ghost before = candidates(suggestions@);
    generate_suggestions(&kids, path, chars, index, suggestions);
    proof {
        let tail = child_candidates(nodes, path@, index as int, 0);
        assert((start + acc) + tail =~= start + (acc + tail));
    }
    Step::Done(None)
}

/// Adds a guess for every package that the project offers.
fn suggest_packages<'a>(ctx: &'a RequestContext, suggestions: &mut Vec<Suggestion<'a>>)
    ensures
        candidates(final(suggestions)@) == candidates(old(suggestions)@) + package_candidates(
            ctx@.names.available@,
            0,
        ),
{
    let names = ctx.names();
    let ghost start = candidates(suggestions@);
    let mut i: usize = 0;
    while i < names.available.len()
        invariant
            i <= names.available@.len(),
            candidates(suggestions@) + package_candidates(names.available@, i as int) == start
                + package_candidates(names.available@, 0),
        decreases names.available@.len() - i,
    {
        let ghost before = candidates(suggestions@);
        match CrateName::new(names.available[i].as_str()) {
            Some(c) => {
                let guess = Suggestion { path: String::from_str(c.as_str()), item: None };
                suggestions.push(guess);
                assert(candidates(suggestions@) =~= before + seq![guess@]);
                assert((before + seq![guess@]) + package_candidates(names.available@, i + 1)
                    =~= before + package_candidates(names.available@, i as int));
            },
            None => {},
        }
        i += 1;
    }
    assert(candidates(suggestions@) + Seq::<Candidate>::empty() =~= candidates(suggestions@));
}

/// Resolves a typed path, aliases followed to the depth `fuel`.
fn resolve_within<'a>(
    ctx: &'a RequestContext,
    path: &str,
    suggestions: &mut Vec<Suggestion<'a>>,
    fuel: usize,
) -> (r: Step<Option<ItemRef<'a>>>)
    ensures
        agrees_found(
            r,
            old(suggestions)@,
            final(suggestions)@,
            resolve(ctx@, path@, fuel as nat),
        ),
    decreases fuel, 2 * path@.len() + 8, 0nat,
{
    let chars = chars_of(path);
    let sep = find_sep(&chars, 0);
    let head_end: usize = match sep {
        Some(e) => e,
        None => chars.len(),
    };
    let head = path.substring_char(0, head_end);
    assert(candidates(suggestions@) + Seq::<Candidate>::empty() =~= candidates(suggestions@));
    match ctx.load(head) {
        Loaded::Needed(c) => Step::Load(c),
        Loaded::Absent => {
            suggest_packages(ctx, suggestions);
            Step::Done(None)
        },
        Loaded::Ready(s) => {
            match ItemRef::root(s) {
                None => Step::Done(None),
                Some(root) => {
                    match sep {
                        Some(e) => find_children_recursive(
                            ctx,
                            root,
                            path,
                            &chars,
                            e + 2,
                            suggestions,
                            fuel,
                        ),
                        None => Step::Done(Some(root)),
                    }
                },
            }
        },
    }
}

impl<'a> ItemRef<'a> {
    /// The children of the item, in declaration order.
    ///
    /// With `include_aliases` an alias among them is shown as it is;
    /// without, the item that it stands for takes its place. An item that
    /// is itself an alias behaves, where aliases are looked through, like
    /// the item that it stands for.
    pub fn child_items(&self, ctx: &'a RequestContext, include_aliases: bool) -> (r: Step<
        Vec<ItemRef<'a>>,
    >)
        ensures
            agrees_nodes(r, children(ctx@, self@, include_aliases, ALIAS_DEPTH as nat)),
    {
        children_of(ctx, *self, include_aliases, ALIAS_DEPTH)
    }
}

/// An item found by its id path, with the names of the items on the way.
pub struct Located {
    pub item: Node,
    pub names: Seq<Seq<char>>,
}

/// Follows `ids[from..]` from the item `n`.
///
/// Each id is looked up in the snapshot of the item reached so far. An
/// alias on the way is replaced by the item that it stands for, under the
/// alias's name unless it is a glob; any other item adds its name to the
/// names collected.
pub open spec fn follow_ids(
    w: World,
    n: Node,
    names: Seq<Seq<char>>,
    ids: Seq<u32>,
    from: int,
    fuel: nat,
) -> Stage<Option<Located>>
    decreases ids.len() - from,
{
    if from < 0 || from >= ids.len() {
        Stage::Done(Some(Located { item: n, names }))
    } else {
        match node_at(n.snapshot, ids[from]) {
            None => Stage::Done(None),
            Some(x) => match x.item().payload {
                ItemPayload::Use(a) => match alias_target(w, x.snapshot, a, fuel) {
                    Stage::Load(c) => Stage::Load(c),
                    Stage::Done(None) => Stage::Done(None),
                    Stage::Done(Some(t)) => follow_ids(
                        w,
                        if a.is_glob {
                            t
                        } else {
                            t.with_name(a.name@)
                        },
                        names,
                        ids,
                        from + 1,
                        fuel,
                    ),
                },
                _ => follow_ids(
                    w,
                    x,
                    match x.display_name() {
                        Some(name) => names.push(name),
                        None => names,
                    },
                    ids,
                    from + 1,
                    fuel,
                ),
            },
        }
    }
}

/// The item at the end of an id path that begins at the root of a package.
pub open spec fn locate(w: World, crate_name: Seq<char>, ids: Seq<u32>, fuel: nat) -> Stage<
    Option<Located>,
> {
    match lookup(w, crate_name) {
        Stage::Load(c) => Stage::Load(c),
        Stage::Done(None) => Stage::Done(None),
        Stage::Done(Some(s)) => match node_at(s, s.root()) {
            None => Stage::Done(None),
            Some(root) => follow_ids(w, root, seq![s.name()], ids, 0, fuel),
        },
    }
}

/// The texts of a list of names.
pub open spec fn texts<'a>(v: Seq<&'a str>) -> Seq<Seq<char>> {
    Seq::new(v.len(), |i: int| v[i]@)
}

/// An item and its names stand for what the stage found, or the step asks
/// for the same package.
pub open spec fn agrees_located<'a>(
    r: Step<Option<(ItemRef<'a>, Vec<&'a str>)>>,
    st: Stage<Option<Located>>,
) -> bool {
    match r {
        Step::Done(Some(found)) => st == Stage::Done(
            Some(Located { item: found.0@, names: texts(found.1@) }),
        ),
        Step::Done(None) => st == Stage::<Option<Located>>::Done(None),
        Step::Load(c) => st == Stage::<Option<Located>>::Load(c@),
    }
}

impl RequestContext {
    /// Finds an item by the id path under which an index files it, and
    /// collects the names of the items along the path.
    pub fn get_item_from_id_path<'a>(&'a self, crate_name: &str, ids: &Vec<u32>) -> (r: Step<
        Option<(ItemRef<'a>, Vec<&'a str>)>,
    >)
        ensures
            agrees_located(r, locate(self@, crate_name@, ids@, ALIAS_DEPTH as nat)),
    {
        let snapshot = match self.load(crate_name) {
            Loaded::Needed(c) => {
                return Step::Load(c);
            },
            Loaded::Absent => {
                return Step::Done(None);
            },
            Loaded::Ready(s) => s,
        };
        let mut item = match ItemRef::root(snapshot) {
            None => {
                return Step::Done(None);
            },
            Some(root) => root,
        };
        let mut path: Vec<&'a str> = Vec::new();
        path.push(snapshot.package_name());
        assert(texts(path@) =~= seq![snapshot.name()]);
        let mut i: usize = 0;
        while i < ids.len()
            invariant
                i <= ids@.len(),
                locate(self@, crate_name@, ids@, ALIAS_DEPTH as nat) == follow_ids(
                    self@,
                    item@,
                    texts(path@),
                    ids@,
                    i as int,
                    ALIAS_DEPTH as nat,
                ),
            decreases ids@.len() - i,
        {
            let ghost names = texts(path@);
            let x = match item.get(ids[i]) {
                None => {
                    return Step::Done(None);
                },
                Some(x) => x,
            };
            let alias: Option<&'a Alias> = match &x.item().payload {
                ItemPayload::Use(a) => Some(a),
                _ => None,
            };
            match alias {
                Some(a) => {
                    match follow_alias(self, x.snapshot(), a, ALIAS_DEPTH) {
                        Step::Load(c) => {
                            return Step::Load(c);
                        },
                        Step::Done(None) => {
                            return Step::Done(None);
                        },
                        Step::Done(Some(t)) => {
                            if a.is_glob {
                                item = t;
                            } else {
                                item = t.with_name(a.name.as_str());
                            }
                        },
                    }
                },
                None => {
                    match x.name() {
                        Some(name) => {
                            path.push(name);
                            assert(texts(path@) =~= names.push(name@));
                        },
                        None => {},
                    }
                    item = x;
                },
            }
            i += 1;
        }
        Step::Done(Some((item, path)))
    }

    /// Resolves a typed path to the item that it names.
    ///
    /// Where the path names no item, the result is `None` and `suggestions`
    /// grows by the guesses at what was meant.
    pub fn resolve_path<'a>(&'a self, path: &str, suggestions: &mut Vec<Suggestion<'a>>) -> (r:
        Step<Option<ItemRef<'a>>>)
        ensures
            agrees_found(
                r,
                old(suggestions)@,
                final(suggestions)@,
                resolve(self@, path@, ALIAS_DEPTH as nat),
            ),
    {
        resolve_within(self, path, suggestions, ALIAS_DEPTH)
    }
}

} // verus!
