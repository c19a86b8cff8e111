//! The listing of the items below a module: every child by its path from the
//! module, grouped by kind, each group in the order of the paths.

use vstd::prelude::*;
use vstd::string::StringExecFns;
use crate::documentation::{docs_to_show, shown_docs};
use crate::filter::{any_lets_through, Filter};
use crate::format_context::FormatContext;
use crate::graph::{children, children_of, views, ItemRef, Node, ALIAS_DEPTH};
use crate::model::{kind_of, ItemKind};
use crate::order::{text_before, text_lt};
use crate::request::{RequestContext, Stage, Step, World};
use crate::verbosity::Verbosity;

verus! {

/// How deep a recursive listing goes below the module that it is for.
pub const LISTING_DEPTH: usize = 64;

/// An item of a listing, with its path from the module listed.
pub struct FlatItem<'a> {
    path: String,
    item: ItemRef<'a>,
}

/// A [`FlatItem`] as plain values.
pub struct FlatView {
    pub path: Seq<char>,
    pub item: Node,
}

impl<'a> FlatItem<'a> {
    /// The item of the listing as plain values.
    pub closed spec fn view(&self) -> FlatView {
        FlatView { path: self.path@, item: self.item@ }
    }

    /// The path of the item from the module listed.
    pub fn path(&self) -> (r: &str)
        ensures
            r@ == self@.path,
    {
        self.path.as_str()
    }

    /// The item.
    pub fn item(&self) -> (r: ItemRef<'a>)
        ensures
            r@ == self@.item,
    {
        self.item
    }
}

/// The items of a list as plain values.
pub open spec fn flat_views<'a>(v: Seq<FlatItem<'a>>) -> Seq<FlatView> {
    Seq::new(v.len(), |i: int| v[i]@)
}

/// The path of a child: its name, after the path of its parent where the
/// parent has one.
pub open spec fn child_path(parent: Option<Seq<char>>, name: Seq<char>) -> Seq<char> {
    match parent {
        Some(p) => p + "::"@ + name,
        None => name,
    }
}

/// One listing after another; a package that either needs is asked for.
pub open spec fn then(first: Stage<Seq<FlatView>>, second: Stage<Seq<FlatView>>) -> Stage<
    Seq<FlatView>,
> {
    match first {
        Stage::Load(c) => Stage::Load(c),
        Stage::Done(xs) => match second {
            Stage::Load(c) => Stage::Load(c),
            Stage::Done(ys) => Stage::Done(xs + ys),
        },
    }
}

/// The items listed for the children `kids[from..]` of an item with the path
/// `path`.
///
/// A child is listed where it has a name and a filter lets its kind
/// through. In a recursive listing the items below a listed child follow
/// it, to the depth `depth`.
pub open spec fn flat_kids(
    w: World,
    filters: Seq<Filter>,
    recursive: bool,
    kids: Seq<Node>,
    from: int,
    path: Option<Seq<char>>,
    depth: nat,
) -> Stage<Seq<FlatView>>
    decreases depth, 0nat, kids.len() - from,
{
    if from < 0 || from >= kids.len() {
        Stage::Done(Seq::empty())
    } else {
        let rest = flat_kids(w, filters, recursive, kids, from + 1, path, depth);
        match kids[from].display_name() {
            Some(name) if any_lets_through(filters, kind_of(kids[from].item().payload)) => {
                let own = child_path(path, name);
                let below = if recursive && depth > 0 {
                    flat_items(w, filters, recursive, kids[from], Some(own), (depth - 1) as nat)
                } else {
                    Stage::Done(Seq::empty())
                };
                then(
                    then(Stage::Done(seq![FlatView { path: own, item: kids[from] }]), below),
                    rest,
                )
            },
            _ => rest,
        }
    }
}

/// The items listed below an item with the path `path`.
pub open spec fn flat_items(
    w: World,
    filters: Seq<Filter>,
    recursive: bool,
    n: Node,
    path: Option<Seq<char>>,
    depth: nat,
) -> Stage<Seq<FlatView>>
    decreases depth, 1nat, 0nat,
{
    match children(w, n, false, ALIAS_DEPTH as nat) {
        Stage::Load(c) => Stage::Load(c),
        Stage::Done(kids) => flat_kids(w, filters, recursive, kids, 0, path, depth),
    }
}

/// A list of items stands for the listing of a stage, or asks for the same
/// package.
pub open spec fn agrees_flat<'a>(r: Step<Vec<FlatItem<'a>>>, st: Stage<Seq<FlatView>>) -> bool {
    match r {
        Step::Done(v) => st == Stage::Done(flat_views(v@)),
        Step::Load(c) => st == Stage::<Seq<FlatView>>::Load(c@),
    }
}

/// Collects the items below an item as a flat list of paths.
#[verifier::rlimit(40)]
fn collect_below<'a>(
    ctx: &'a RequestContext,
    path: Option<&str>,
    item: ItemRef<'a>,
    context: &FormatContext,
    depth: usize,
) -> (r: Step<Vec<FlatItem<'a>>>)
    ensures
        agrees_flat(
            r,
            flat_items(
                ctx@,
                context.filter_list(),
                context.recurses(),
                item@,
                match path {
                    Some(p) => Some(p@),
                    None => None,
                },
                depth as nat,
            ),
        ),
    decreases depth,
{
    let ghost parent = match path {
        Some(p) => Some(p@),
        None => None,
    };
    let ghost filters = context.filter_list();
    let recursive = context.is_recursive();
    let kids = match children_of(ctx, item, false, ALIAS_DEPTH) {
        Step::Load(c) => {
            return Step::Load(c);
        },
        Step::Done(kids) => kids,
    };
    let ghost nodes = views(kids@);
    let ghost goal = flat_kids(ctx@, filters, recursive, nodes, 0, parent, depth as nat);
    let mut out: Vec<FlatItem<'a>> = Vec::new();
    let mut k: usize = 0;
    proof {
        assert(flat_views(out@) =~= Seq::<FlatView>::empty());
        lemma_then_nothing(goal);
    }
    while k < kids.len()
        invariant
            k <= kids@.len(),
            nodes == views(kids@),
            filters == context.filter_list(),
            recursive == context.recurses(),
            parent == match path {
                Some(p) => Some(p@),
                None => None,
            },
            goal == flat_kids(ctx@, filters, recursive, nodes, 0, parent, depth as nat),
            goal == flat_items(ctx@, filters, recursive, item@, parent, depth as nat),
            goal == then(
                Stage::Done(flat_views(out@)),
                flat_kids(ctx@, filters, recursive, nodes, k as int, parent, depth as nat),
            ),
        decreases kids@.len() - k,
    {
        let kid = kids[k];
        assert(nodes[k as int] == kid@);
        let ghost before = flat_views(out@);
        let ghost rest = flat_kids(ctx@, filters, recursive, nodes, k + 1, parent, depth as nat);
        match kid.name() {
            Some(name) => {
                if context.filter_match_kind(kid.kind()) {
                    let mut own = String::from_str("");
                    proof {
                        reveal_strlit("");
                    }
                    match path {
                        Some(p) => {
                            own.append(p);
                            own.append("::");
                        },
                        None => {},
                    }
                    own.append(name);
                    assert(own@ =~= child_path(parent, name@));
                    let below = if recursive && depth > 0 {
                        match collect_below(ctx, Some(own.as_str()), kid, context, depth - 1) {
                            Step::Load(c) => {
                                return Step::Load(c);
                            },
                            Step::Done(below) => below,
                        }
                    } else {
                        let none: Vec<FlatItem<'a>> = Vec::new();
                        assert(flat_views(none@) =~= Seq::<FlatView>::empty());
                        none
                    };
                    let ghost under = flat_views(below@);
                    let entry = FlatItem { path: own, item: kid };
                    let ghost shown = entry@;
                    out.push(entry);
                    let mut below = below;
                    out.append(&mut below);
                    proof {
                        assert(flat_views(out@) =~= before + (seq![shown] + under));
                        lemma_then_twice(before, seq![shown] + under, rest);
                    }
                }
            },
            None => {},
        }
        k += 1;
    }
    proof {
        assert(flat_views(out@) + Seq::<FlatView>::empty() =~= flat_views(out@));
    }
    Step::Done(out)
}

proof fn lemma_then_nothing(st: Stage<Seq<FlatView>>)
    ensures
        then(Stage::Done(Seq::empty()), st) == st,
{
    match st {
        Stage::Done(xs) => {
            assert(Seq::<FlatView>::empty() + xs =~= xs);
        },
        Stage::Load(_) => {},
    }
}

proof fn lemma_then_twice(a: Seq<FlatView>, b: Seq<FlatView>, st: Stage<Seq<FlatView>>)
    ensures
        then(Stage::Done(a), then(Stage::Done(b), st)) == then(Stage::Done(a + b), st),
{
    match st {
        Stage::Done(xs) => {
            assert(a + (b + xs) =~= (a + b) + xs);
        },
        Stage::Load(_) => {},
    }
}

/// Collects the items below a module as a flat list, each with its path
/// from the module.
pub fn collect_flat_items<'a>(
    ctx: &'a RequestContext,
    item: ItemRef<'a>,
    context: &FormatContext,
) -> (r: Step<Vec<FlatItem<'a>>>)
    ensures
        agrees_flat(
            r,
            flat_items(
                ctx@,
                context.filter_list(),
                context.recurses(),
                item@,
                None,
                LISTING_DEPTH as nat,
            ),
        ),
{
    collect_below(ctx, None, item, context, LISTING_DEPTH)
}

/// The name of a kind.
pub open spec fn kind_text(kind: ItemKind) -> Seq<char> {
    match kind {
        ItemKind::Module => "Module"@,
        ItemKind::ExternCrate => "ExternCrate"@,
        ItemKind::Use => "Use"@,
        ItemKind::Union => "Union"@,
        ItemKind::Struct => "Struct"@,
        ItemKind::StructField => "StructField"@,
        ItemKind::Enum => "Enum"@,
        ItemKind::Variant => "Variant"@,
        ItemKind::Function => "Function"@,
        ItemKind::Trait => "Trait"@,
        ItemKind::TraitAlias => "TraitAlias"@,
        ItemKind::Impl => "Impl"@,
        ItemKind::TypeAlias => "TypeAlias"@,
        ItemKind::Constant => "Constant"@,
        ItemKind::Static => "Static"@,
        ItemKind::ExternType => "ExternType"@,
        ItemKind::ProcAttribute => "ProcAttribute"@,
        ItemKind::ProcDerive => "ProcDerive"@,
        ItemKind::Macro => "Macro"@,
        ItemKind::Primitive => "Primitive"@,
        ItemKind::AssocConst => "AssocConst"@,
        ItemKind::AssocType => "AssocType"@,
    }
}

/// The name of a kind.
pub fn kind_name(kind: ItemKind) -> (r: &'static str)
    ensures
        r@ == kind_text(kind),
{
    match kind {
        ItemKind::Module => "Module",
        ItemKind::ExternCrate => "ExternCrate",
        ItemKind::Use => "Use",
        ItemKind::Union => "Union",
        ItemKind::Struct => "Struct",
        ItemKind::StructField => "StructField",
        ItemKind::Enum => "Enum",
        ItemKind::Variant => "Variant",
        ItemKind::Function => "Function",
        ItemKind::Trait => "Trait",
        ItemKind::TraitAlias => "TraitAlias",
        ItemKind::Impl => "Impl",
        ItemKind::TypeAlias => "TypeAlias",
        ItemKind::Constant => "Constant",
        ItemKind::Static => "Static",
        ItemKind::ExternType => "ExternType",
        ItemKind::ProcAttribute => "ProcAttribute",
        ItemKind::ProcDerive => "ProcDerive",
        ItemKind::Macro => "Macro",
        ItemKind::Primitive => "Primitive",
        ItemKind::AssocConst => "AssocConst",
        ItemKind::AssocType => "AssocType",
    }
}

/// The heading under which the items of a kind stand in a listing, for the
/// kinds that have a heading of their own.
pub open spec fn group_heading(kind: ItemKind) -> Option<Seq<char>> {
    match kind {
        ItemKind::Module => Some("Modules"@),
        ItemKind::Struct => Some("Structs"@),
        ItemKind::Enum => Some("Enums"@),
        ItemKind::Trait => Some("Traits"@),
        ItemKind::Union => Some("Unions"@),
        ItemKind::TypeAlias => Some("Type Aliases"@),
        ItemKind::Function => Some("Functions"@),
        ItemKind::Constant => Some("Constants"@),
        ItemKind::Static => Some("Statics"@),
        ItemKind::Macro => Some("Macros"@),
        ItemKind::Variant => Some("Variants"@),
        _ => None,
    }
}

/// The kinds with a heading of their own, in the order in which their
/// groups are shown.
pub open spec fn headed_kinds() -> Seq<ItemKind> {
    seq![
        ItemKind::Module,
        ItemKind::Struct,
        ItemKind::Enum,
        ItemKind::Trait,
        ItemKind::Union,
        ItemKind::TypeAlias,
        ItemKind::Function,
        ItemKind::Constant,
        ItemKind::Static,
        ItemKind::Macro,
        ItemKind::Variant,
    ]
}

/// Every kind, in the order in which the groups without a heading of their
/// own are shown.
pub open spec fn every_kind() -> Seq<ItemKind> {
    seq![
        ItemKind::Module,
        ItemKind::ExternCrate,
        ItemKind::Use,
        ItemKind::Union,
        ItemKind::Struct,
        ItemKind::StructField,
        ItemKind::Enum,
        ItemKind::Variant,
        ItemKind::Function,
        ItemKind::Trait,
        ItemKind::TraitAlias,
        ItemKind::Impl,
        ItemKind::TypeAlias,
        ItemKind::Constant,
        ItemKind::Static,
        ItemKind::ExternType,
        ItemKind::ProcAttribute,
        ItemKind::ProcDerive,
        ItemKind::Macro,
        ItemKind::Primitive,
        ItemKind::AssocConst,
        ItemKind::AssocType,
    ]
}

/// A group of a listing: a kind and the heading over its items.
pub struct Group {
    pub kind: ItemKind,
    pub heading: Seq<char>,
}

/// Whether the items of a kind stand under the kind's own heading: the kind
/// has one, and a filter lets the kind through.
pub open spec fn headed(filters: Seq<Filter>, kind: ItemKind) -> bool {
    group_heading(kind) is Some && any_lets_through(filters, kind)
}

/// The groups of `kinds[from..]` that stand under a heading of their own.
pub open spec fn headed_groups(filters: Seq<Filter>, kinds: Seq<ItemKind>, from: int) -> Seq<Group>
    decreases kinds.len() - from,
{
    if from < 0 || from >= kinds.len() {
        Seq::empty()
    } else if headed(filters, kinds[from]) {
        seq![Group { kind: kinds[from], heading: group_heading(kinds[from])->0 }] + headed_groups(
            filters,
            kinds,
            from + 1,
        )
    } else {
        headed_groups(filters, kinds, from + 1)
    }
}

/// The groups of `kinds[from..]` that stand under the name of their kind.
pub open spec fn other_groups(filters: Seq<Filter>, kinds: Seq<ItemKind>, from: int) -> Seq<Group>
    decreases kinds.len() - from,
{
    if from < 0 || from >= kinds.len() {
        Seq::empty()
    } else if !headed(filters, kinds[from]) {
        seq![Group { kind: kinds[from], heading: kind_text(kinds[from]) }] + other_groups(
            filters,
            kinds,
            from + 1,
        )
    } else {
        other_groups(filters, kinds, from + 1)
    }
}

/// The groups of a listing, in the order in which they are shown: those with
/// a heading of their own, then the others.
pub open spec fn groups(filters: Seq<Filter>) -> Seq<Group> {
    headed_groups(filters, headed_kinds(), 0) + other_groups(filters, every_kind(), 0)
}

/// Where an item with this path goes among the items `order[from..]`: before
/// the first whose path it comes before.
pub open spec fn path_slot(items: Seq<FlatView>, order: Seq<usize>, path: Seq<char>, from: int) -> int
    decreases order.len() - from,
{
    if from < 0 || from >= order.len() {
        order.len() as int
    } else if order[from] < items.len() && text_lt(path, items[order[from] as int].path) {
        from
    } else {
        path_slot(items, order, path, from + 1)
    }
}

/// The positions of the items of a kind among the first `upto` items, in the
/// order of their paths. Items with one path keep the order in which they
/// came.
pub open spec fn members_of(items: Seq<FlatView>, kind: ItemKind, upto: int) -> Seq<usize>
    decreases upto,
{
    if upto <= 0 || upto > items.len() {
        Seq::empty()
    } else {
        let rest = members_of(items, kind, upto - 1);
        if kind_of(items[upto - 1].item.item().payload) == kind {
            rest.insert(path_slot(items, rest, items[upto - 1].path, 0), (upto - 1) as usize)
        } else {
            rest
        }
    }
}

/// The line of a listing for one item: its path, then the first line of its
/// documentation as a remark.
pub open spec fn line_text(v: FlatView, verbosity: Verbosity) -> Seq<char> {
    v.path + (match shown_docs(crate::project::opt_view(v.item.item().docs), true, verbosity) {
        Some(docs) => " // "@ + docs,
        None => Seq::empty(),
    }) + "\n"@
}

/// The lines for the items `order[from..]`.
pub open spec fn lines_text(
    items: Seq<FlatView>,
    order: Seq<usize>,
    from: int,
    verbosity: Verbosity,
) -> Seq<char>
    decreases order.len() - from,
{
    if from < 0 || from >= order.len() {
        Seq::empty()
    } else if order[from] < items.len() {
        line_text(items[order[from] as int], verbosity) + lines_text(
            items,
            order,
            from + 1,
            verbosity,
        )
    } else {
        lines_text(items, order, from + 1, verbosity)
    }
}

/// The text of one group: nothing where no item is of the kind, else the
/// heading and the lines of the items of the kind.
pub open spec fn group_text(items: Seq<FlatView>, group: Group, verbosity: Verbosity) -> Seq<char> {
    let order = members_of(items, group.kind, items.len() as int);
    if order.len() == 0 {
        Seq::empty()
    } else {
        "\n"@ + group.heading + ":\n"@ + lines_text(items, order, 0, verbosity)
    }
}

/// The text of the groups `plan[from..]`.
pub open spec fn groups_text(
    items: Seq<FlatView>,
    plan: Seq<Group>,
    from: int,
    verbosity: Verbosity,
) -> Seq<char>
    decreases plan.len() - from,
{
    if from < 0 || from >= plan.len() {
        Seq::empty()
    } else {
        group_text(items, plan[from], verbosity) + groups_text(items, plan, from + 1, verbosity)
    }
}

/// The text of a listing.
pub open spec fn listing_text(items: Seq<FlatView>, filters: Seq<Filter>, verbosity: Verbosity) -> Seq<
    char,
> {
    if items.len() == 0 {
        "\nNo items match the current filters.\n"@
    } else {
        groups_text(items, groups(filters), 0, verbosity)
    }
}

/// The kinds with a heading of their own, with their headings.
fn headings() -> (r: Vec<(ItemKind, &'static str)>)
    ensures
        r@.len() == headed_kinds().len(),
        forall|i: int|
            0 <= i < r@.len() ==> (#[trigger] r@[i]).0 == headed_kinds()[i] && group_heading(
                r@[i].0,
            ) == Some(r@[i].1@),
{
    let mut v: Vec<(ItemKind, &'static str)> = Vec::new();
    v.push((ItemKind::Module, "Modules"));
    v.push((ItemKind::Struct, "Structs"));
    v.push((ItemKind::Enum, "Enums"));
    v.push((ItemKind::Trait, "Traits"));
    v.push((ItemKind::Union, "Unions"));
    v.push((ItemKind::TypeAlias, "Type Aliases"));
    v.push((ItemKind::Function, "Functions"));
    v.push((ItemKind::Constant, "Constants"));
    v.push((ItemKind::Static, "Statics"));
    v.push((ItemKind::Macro, "Macros"));
    v.push((ItemKind::Variant, "Variants"));
    v
}

/// Every kind.
fn kinds() -> (r: Vec<ItemKind>)
    ensures
        r@ == every_kind(),
{
    let mut v: Vec<ItemKind> = Vec::new();
    v.push(ItemKind::Module);
    v.push(ItemKind::ExternCrate);
    v.push(ItemKind::Use);
    v.push(ItemKind::Union);
    v.push(ItemKind::Struct);
    v.push(ItemKind::StructField);
    v.push(ItemKind::Enum);
    v.push(ItemKind::Variant);
    v.push(ItemKind::Function);
    v.push(ItemKind::Trait);
    v.push(ItemKind::TraitAlias);
    v.push(ItemKind::Impl);
    v.push(ItemKind::TypeAlias);
    v.push(ItemKind::Constant);
    v.push(ItemKind::Static);
    v.push(ItemKind::ExternType);
    v.push(ItemKind::ProcAttribute);
    v.push(ItemKind::ProcDerive);
    v.push(ItemKind::Macro);
    v.push(ItemKind::Primitive);
    v.push(ItemKind::AssocConst);
    v.push(ItemKind::AssocType);
    assert(v@ =~= every_kind());
    v
}

fn has_heading(kind: ItemKind) -> (r: bool)
    ensures
        r == group_heading(kind) is Some,
{
    match kind {
        ItemKind::Module => true,
        ItemKind::Struct => true,
        ItemKind::Enum => true,
        ItemKind::Trait => true,
        ItemKind::Union => true,
        ItemKind::TypeAlias => true,
        ItemKind::Function => true,
        ItemKind::Constant => true,
        ItemKind::Static => true,
        ItemKind::Macro => true,
        ItemKind::Variant => true,
        _ => false,
    }
}

/// The positions of the items of a kind, in the order of their paths.
#[verifier::rlimit(40)]
fn group_members<'a>(items: &Vec<FlatItem<'a>>, kind: ItemKind) -> (order: Vec<usize>)
    ensures
        order@ == members_of(flat_views(items@), kind, items@.len() as int),
        forall|j: int| 0 <= j < order@.len() ==> (#[trigger] order@[j]) < items@.len(),
{
    let ghost all = flat_views(items@);
    let mut order: Vec<usize> = Vec::new();
    let mut i: usize = 0;
    while i < items.len()
        invariant
            i <= items@.len(),
            all == flat_views(items@),
            order@ == members_of(all, kind, i as int),
            forall|j: int| 0 <= j < order@.len() ==> (#[trigger] order@[j]) < i,
        decreases items@.len() - i,
    {
        assert(all[i as int] == items@[i as int]@);
        if items[i].item().kind() == kind {
            let path = items[i].path();
            let mut p: usize = 0;
            while p < order.len() && !text_before(path, items[order[p]].path())
                invariant
                    p <= order@.len(),
                    i < items@.len(),
                    all == flat_views(items@),
                    path@ == all[i as int].path,
                    forall|j: int| 0 <= j < order@.len() ==> (#[trigger] order@[j]) < i,
                    path_slot(all, order@, path@, 0) == path_slot(all, order@, path@, p as int),
                decreases order@.len() - p,
            {
                assert(all[order@[p as int] as int] == items@[order@[p as int] as int]@);
                p += 1;
            }
            proof {
                if p < order@.len() {
                    assert(all[order@[p as int] as int] == items@[order@[p as int] as int]@);
                }
            }
            let ghost before = order@;
            order.insert(p, i);
            proof {
                assert forall|j: int| 0 <= j < order@.len() implies (#[trigger] order@[j]) < i + 1 by {
                    if j < p {
                        assert(order@[j] == before[j]);
                    } else if j > p {
                        assert(order@[j] == before[j - 1]);
                    }
                }
            }
        }
        i += 1;
    }
    order
}

/// Writes the line of a listing for one item.
pub fn format_flat_item_line<'a>(flat_item: &FlatItem<'a>, context: &FormatContext) -> (r: String)
    ensures
        r@ == line_text(flat_item@, context.level()),
{
    let mut line = String::from_str(flat_item.path());
    let docs = match &flat_item.item().item().docs {
        Some(text) => docs_to_show(Some(text.as_str()), true, context.verbosity()),
        None => docs_to_show(None, true, context.verbosity()),
    };
    match docs {
        Some(text) => {
            line.append(" // ");
            line.append(text.as_str());
        },
        None => {},
    }
    line.append("\n");
    line
}

/// Appends the text of one group to a listing.
#[verifier::rlimit(40)]
fn push_group<'a>(
    out: &mut String,
    items: &Vec<FlatItem<'a>>,
    kind: ItemKind,
    heading: &str,
    context: &FormatContext,
)
    ensures
        final(out)@ == old(out)@ + group_text(
            flat_views(items@),
            Group { kind, heading: heading@ },
            context.level(),
        ),
{
    let ghost all = flat_views(items@);
    let ghost start = out@;
    let order = group_members(items, kind);
    if order.len() == 0 {
        assert(out@ + Seq::<char>::empty() =~= out@);
        return ;
    }
    out.append("\n");
    out.append(heading);
    out.append(":\n");
    let ghost head = out@;
    let mut j: usize = 0;
    assert(head + lines_text(all, order@, 0, context.level()) =~= start + group_text(
        all,
        Group { kind, heading: heading@ },
        context.level(),
    ));
    while j < order.len()
        invariant
            j <= order@.len(),
            all == flat_views(items@),
            forall|q: int| 0 <= q < order@.len() ==> (#[trigger] order@[q]) < items@.len(),
            out@ + lines_text(all, order@, j as int, context.level()) == head + lines_text(
                all,
                order@,
                0,
                context.level(),
            ),
        decreases order@.len() - j,
    {
        let ghost before = out@;
        let entry = &items[order[j]];
        assert(all[order@[j as int] as int] == entry@);
        let line = format_flat_item_line(entry, context);
        out.append(line.as_str());
        assert(out@ + lines_text(all, order@, j + 1, context.level()) =~= before + lines_text(
            all,
            order@,
            j as int,
            context.level(),
        ));
        j += 1;
    }
    assert(out@ + Seq::<char>::empty() =~= out@);
}

/// Writes a listing: the items by kind, each kind under its heading and in
/// the order of the paths.
#[verifier::rlimit(40)]
pub fn format_grouped_flat_items<'a>(items: &Vec<FlatItem<'a>>, context: &FormatContext) -> (r:
    String)
    ensures
        r@ == listing_text(flat_views(items@), context.filter_list(), context.level()),
{
    if items.len() == 0 {
        return String::from_str("\nNo items match the current filters.\n");
    }
    let ghost all = flat_views(items@);
    let ghost filters = context.filter_list();
    let ghost level = context.level();
    let ghost first = headed_groups(filters, headed_kinds(), 0);
    let ghost second = other_groups(filters, every_kind(), 0);
    let mut out = String::from_str("");
    proof {
        reveal_strlit("");
    }
    let named = headings();
    let mut i: usize = 0;
    let ghost done: Seq<Group> = Seq::empty();
    proof {
        assert(done + headed_groups(filters, headed_kinds(), 0) =~= first);
        assert(out@ =~= groups_text(all, done, 0, level));
    }
    while i < named.len()
        invariant
            i <= named@.len(),
            named@.len() == headed_kinds().len(),
            forall|k: int|
                0 <= k < named@.len() ==> (#[trigger] named@[k]).0 == headed_kinds()[k]
                    && group_heading(named@[k].0) == Some(named@[k].1@),
            all == flat_views(items@),
            filters == context.filter_list(),
            level == context.level(),
            first == headed_groups(filters, headed_kinds(), 0),
            done + headed_groups(filters, headed_kinds(), i as int) == first,
            out@ == groups_text(all, done, 0, level),
        decreases named@.len() - i,
    {
        let (kind, heading) = named[i];
        assert(named@[i as int].0 == headed_kinds()[i as int]);
        if context.filter_match_kind(kind) {
            let ghost group = Group { kind, heading: heading@ };
            push_group(&mut out, items, kind, heading, context);
            proof {
                lemma_groups_text_push(all, done, group, level);
                assert((done.push(group)) + headed_groups(filters, headed_kinds(), i + 1) =~= done
                    + headed_groups(filters, headed_kinds(), i as int));
                done = done.push(group);
            }
        }
        i += 1;
    }
    assert(done + Seq::<Group>::empty() =~= done);
    let every = kinds();
    let mut k: usize = 0;
    proof {
        assert(done + other_groups(filters, every_kind(), 0) =~= first + second);
    }
    while k < every.len()
        invariant
            k <= every@.len(),
            every@ == every_kind(),
            all == flat_views(items@),
            filters == context.filter_list(),
            level == context.level(),
            done + other_groups(filters, every_kind(), k as int) == first + second,
            out@ == groups_text(all, done, 0, level),
        decreases every@.len() - k,
    {
        let kind = every[k];
        if !(has_heading(kind) && context.filter_match_kind(kind)) {
            let heading = kind_name(kind);
            let ghost group = Group { kind, heading: heading@ };
            push_group(&mut out, items, kind, heading, context);
            proof {
                lemma_groups_text_push(all, done, group, level);
                assert((done.push(group)) + other_groups(filters, every_kind(), k + 1) =~= done
                    + other_groups(filters, every_kind(), k as int));
                done = done.push(group);
            }
        }
        k += 1;
    }
    proof {
        assert(done + Seq::<Group>::empty() =~= done);
        assert(done == groups(filters));
    }
    out
}

/// The text of groups with one more group is the text of the groups, then
/// the text of that group.
proof fn lemma_groups_text_push(
    items: Seq<FlatView>,
    plan: Seq<Group>,
    group: Group,
    verbosity: Verbosity,
)
    ensures
        groups_text(items, plan.push(group), 0, verbosity) == groups_text(
            items,
            plan,
            0,
            verbosity,
        ) + group_text(items, group, verbosity),
{
    lemma_groups_text_from(items, plan, group, 0, verbosity);
}

proof fn lemma_groups_text_from(
    items: Seq<FlatView>,
    plan: Seq<Group>,
    group: Group,
    from: int,
    verbosity: Verbosity,
)
    requires
        0 <= from <= plan.len(),
    ensures
        groups_text(items, plan.push(group), from, verbosity) == groups_text(
            items,
            plan,
            from,
            verbosity,
        ) + group_text(items, group, verbosity),
    decreases plan.len() - from,
{
    let more = plan.push(group);
    if from < plan.len() {
        lemma_groups_text_from(items, plan, group, from + 1, verbosity);
        assert(more[from] == plan[from]);
        assert(group_text(items, plan[from], verbosity) + (groups_text(
            items,
            plan,
            from + 1,
            verbosity,
        ) + group_text(items, group, verbosity)) =~= (group_text(items, plan[from], verbosity)
            + groups_text(items, plan, from + 1, verbosity)) + group_text(
            items,
            group,
            verbosity,
        ));
    } else {
        assert(more[from] == group);
        assert(groups_text(items, more, from + 1, verbosity) =~= Seq::<char>::empty());
        assert(group_text(items, group, verbosity) + Seq::<char>::empty() =~= Seq::<char>::empty()
            + group_text(items, group, verbosity));
    }
}

/// Writes the listing of the items below a module.
pub fn format_module<'a>(ctx: &'a RequestContext, item: ItemRef<'a>, context: &FormatContext) -> (r:
    Step<String>)
    ensures
        match r {
            Step::Done(text) => flat_items(
                ctx@,
                context.filter_list(),
                context.recurses(),
                item@,
                None,
                LISTING_DEPTH as nat,
            ) matches Stage::Done(items) && text@ == listing_text(
                items,
                context.filter_list(),
                context.level(),
            ),
            Step::Load(c) => flat_items(
                ctx@,
                context.filter_list(),
                context.recurses(),
                item@,
                None,
                LISTING_DEPTH as nat,
            ) == Stage::<Seq<FlatView>>::Load(c@),
        },
{
    match collect_flat_items(ctx, item, context) {
        Step::Load(c) => Step::Load(c),
        Step::Done(items) => Step::Done(format_grouped_flat_items(&items, context)),
    }
}

} // verus!
