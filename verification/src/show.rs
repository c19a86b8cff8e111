//! The text shown for the members of an item: its fields, variants and
//! methods, and the interfaces implemented for it.

use vstd::prelude::*;
use vstd::string::StrSliceExecFns;
use vstd::string::StringExecFns;
use crate::chars::{chars_of, decimal, decimal_of, joined, str_eq};
use crate::documentation::{docs_to_show, shown_docs};
use crate::format_context::FormatContext;
use crate::graph::{implementations, methods, segment_end, views, ItemRef, Node};
use crate::indent::{indent_from, spaces, Indent};
use crate::listing::{kind_name, kind_text};
use crate::model::{kind_of, Item, ItemKind, ItemPayload, Visibility};
use crate::names::{is_runtime_name, normalized, ProjectNames};
use crate::order::{arranged, sort_by_location, sort_texts, texts_arranged};
use crate::project::{any_goes_by, goes_by, opt_view, string_views};
use crate::verbosity::Verbosity;

verus! {

/// What stands before the name of an item to say who may name it.
pub open spec fn visibility_text(v: Visibility) -> Seq<char> {
    match v {
        Visibility::Public => "pub "@,
        Visibility::Default => Seq::empty(),
        Visibility::Crate => "pub(crate) "@,
        Visibility::Restricted(path) => "pub("@ + path@ + ") "@,
    }
}

/// Writes what stands before the name of an item to say who may name it.
pub fn visibility_prefix(v: &Visibility) -> (r: String)
    ensures
        r@ == visibility_text(*v),
{
    match v {
        Visibility::Public => String::from_str("pub "),
        Visibility::Default => {
            proof {
                reveal_strlit("");
            }
            String::from_str("")
        },
        Visibility::Crate => String::from_str("pub(crate) "),
        Visibility::Restricted(path) => {
            let mut out = String::from_str("pub(");
            out.append(path.as_str());
            out.append(") ");
            out
        },
    }
}

/// The word for the kind of a member in a list.
pub open spec fn kind_word(kind: ItemKind) -> Seq<char> {
    match kind {
        ItemKind::AssocConst => "const"@,
        ItemKind::AssocType => "type"@,
        other => kind_text(other),
    }
}

/// What a list says of one member: a function by its signature, any other
/// member by the word for its kind and its name.
pub open spec fn declaration_text(item: Item) -> Seq<char> {
    match item.payload {
        ItemPayload::Function(signature) => signature@,
        other => kind_word(kind_of(other)) + " "@ + match item.name {
            Some(name) => name@,
            None => "<unnamed>"@,
        },
    }
}

/// The entry of a list for one member: a bullet, who may name it and what it
/// is, then the first line of its documentation, indented, and an empty line.
pub open spec fn entry_text(item: Item, verbosity: Verbosity) -> Seq<char> {
    "\u{2022} "@ + visibility_text(item.visibility) + declaration_text(item) + "\n"@ + (match shown_docs(
        opt_view(item.docs),
        true,
        verbosity,
    ) {
        Some(docs) => indent_from(docs, 0, spaces(4)),
        None => Seq::empty(),
    }) + "\n"@
}

/// The entries for the members `nodes[from..]`.
pub open spec fn entries_text(nodes: Seq<Node>, from: int, verbosity: Verbosity) -> Seq<char>
    decreases nodes.len() - from,
{
    if from < 0 || from >= nodes.len() {
        Seq::empty()
    } else {
        entry_text(nodes[from].item(), verbosity) + entries_text(nodes, from + 1, verbosity)
    }
}

/// A list of members under a title, in the order of their declaration.
pub open spec fn item_list_text(nodes: Seq<Node>, title: Seq<char>, verbosity: Verbosity) -> Seq<
    char,
> {
    "\n"@ + title + ":\n\n"@ + entries_text(arranged(nodes), 0, verbosity)
}

/// Writes the entry of a list for one member.
pub fn format_entry<'a>(member: ItemRef<'a>, context: &FormatContext) -> (r: String)
    ensures
        r@ == entry_text(member@.item(), context.level()),
{
    let item = member.item();
    let mut out = String::from_str("\u{2022} ");
    out.append(visibility_prefix(&item.visibility).as_str());
    match &item.payload {
        ItemPayload::Function(signature) => {
            out.append(signature.as_str());
        },
        _ => {
            let kind = item.kind();
            let word: &str = match kind {
                ItemKind::AssocConst => "const",
                ItemKind::AssocType => "type",
                other => kind_name(other),
            };
            out.append(word);
            out.append(" ");
            match &item.name {
                Some(name) => {
                    out.append(name.as_str());
                },
                None => {
                    out.append("<unnamed>");
                },
            }
        },
    }
    assert(out@ =~= "\u{2022} "@ + visibility_text(item.visibility) + declaration_text(*item));
    out.append("\n");
    let docs = match &item.docs {
        Some(text) => docs_to_show(Some(text.as_str()), true, context.verbosity()),
        None => docs_to_show(None, true, context.verbosity()),
    };
    match docs {
        Some(text) => {
            let shown = Indent::new(text.as_str(), 4).render();
            out.append(shown.as_str());
        },
        None => {},
    }
    out.append("\n");
    assert(out@ =~= entry_text(*item, context.level()));
    out
}

/// Writes a list of members under a title, in the order of their
/// declaration.
pub fn format_item_list<'a>(items: &Vec<ItemRef<'a>>, title: &str, context: &FormatContext) -> (r:
    String)
    ensures
        r@ == item_list_text(views(items@), title@, context.level()),
{
    let mut out = String::from_str("\n");
    out.append(title);
    out.append(":\n\n");
    let sorted = sort_by_location(items);
    let ghost nodes = views(sorted@);
    let ghost head = out@;
    let mut i: usize = 0;
    assert(out@ + entries_text(nodes, 0, context.level()) =~= item_list_text(
        views(items@),
        title@,
        context.level(),
    ));
    while i < sorted.len()
        invariant
            i <= sorted@.len(),
            nodes == views(sorted@),
            out@ + entries_text(nodes, i as int, context.level()) == head + entries_text(
                nodes,
                0,
                context.level(),
            ),
        decreases sorted@.len() - i,
    {
        let ghost before = out@;
        let member = sorted[i];
        assert(nodes[i as int] == member@);
        out.append(format_entry(member, context).as_str());
        assert(out@ + entries_text(nodes, i + 1, context.level()) =~= before + entries_text(
            nodes,
            i as int,
            context.level(),
        ));
        i += 1;
    }
    assert(out@ + Seq::<char>::empty() =~= out@);
    out
}

/// Where an interface comes from.
#[derive(Clone, Copy, Debug, PartialEq, Eq, Structural)]
pub enum TraitCategory {
    /// A package of the workspace.
    CrateLocal,
    /// A dependency.
    External,
    /// The runtime.
    Std,
}

/// Where the interface with this path comes from: the runtime or the
/// workspace, where the first segment of the path names a package of
/// theirs; else a dependency.
pub open spec fn category_of(names: ProjectNames, workspace: Seq<String>, path: Seq<char>) -> TraitCategory {
    let prefix = path.subrange(0, segment_end(path, 0));
    if prefix.len() == 0 {
        TraitCategory::External
    } else {
        match normalized(names, prefix) {
            Some(package) => if is_runtime_name(package) {
                TraitCategory::Std
            } else if goes_by(workspace, package) {
                TraitCategory::CrateLocal
            } else {
                TraitCategory::External
            },
            None => TraitCategory::External,
        }
    }
}

/// Finds where the interface with this path comes from.
pub fn categorize_trait(names: &ProjectNames, workspace: &Vec<String>, full_path: &str) -> (r:
    TraitCategory)
    ensures
        r == category_of(*names, workspace@, full_path@),
{
    let chars = chars_of(full_path);
    let mut end: usize = 0;
    while end < chars.len() && !(end + 1 < chars.len() && chars[end] == ':' && chars[end + 1] == ':')
        invariant
            end <= chars@.len(),
            segment_end(chars@, 0) == segment_end(chars@, end as int),
        decreases chars@.len() - end,
    {
        end += 1;
    }
    if end == 0 {
        return TraitCategory::External;
    }
    let prefix = full_path.substring_char(0, end);
    match names.normalize_crate_name(prefix) {
        Some(package) => {
            let name = package.as_str();
            if str_eq(name, "std") || str_eq(name, "alloc") || str_eq(name, "core") || str_eq(
                name,
                "proc_macro",
            ) || str_eq(name, "test") {
                TraitCategory::Std
            } else if any_goes_by(workspace, name) {
                TraitCategory::CrateLocal
            } else {
                TraitCategory::External
            }
        },
        None => TraitCategory::External,
    }
}

/// The paths of the interfaces that the blocks `blocks[from..]` implement
/// and that come from `category`.
pub open spec fn interface_paths(
    names: ProjectNames,
    workspace: Seq<String>,
    blocks: Seq<Node>,
    category: TraitCategory,
    from: int,
) -> Seq<Seq<char>>
    decreases blocks.len() - from,
{
    if from < 0 || from >= blocks.len() {
        Seq::empty()
    } else {
        let rest = interface_paths(names, workspace, blocks, category, from + 1);
        match blocks[from].item().payload {
            ItemPayload::Impl(b) => match b.interface {
                Some(path) if category_of(names, workspace, path@) == category => seq![path@] + rest,
                _ => rest,
            },
            _ => rest,
        }
    }
}

/// How many interfaces of the runtime are named where not all are asked for.
pub const STD_TRAITS_SHOWN: usize = 10;

/// The line on the interfaces of the runtime: those shown, and the number of
/// those that are not.
pub open spec fn std_line(paths: Seq<Seq<char>>, shown: int) -> Seq<char> {
    "std traits: "@ + joined(paths.take(shown), ", "@, 0) + if shown < paths.len() {
        " [+"@ + decimal_of((paths.len() - shown) as nat) + " more]"@
    } else {
        Seq::empty()
    }
}

/// The text on the interfaces implemented for an item.
///
/// Those of the workspace and those of dependencies are named on one line,
/// each group in the order of a dictionary. Those of the runtime follow on
/// a line of their own, the first ten only unless all are asked for.
pub open spec fn implementations_text(
    names: ProjectNames,
    workspace: Seq<String>,
    blocks: Seq<Node>,
    full: bool,
) -> Seq<char> {
    let local = texts_arranged(
        interface_paths(names, workspace, blocks, TraitCategory::CrateLocal, 0),
    );
    let external = texts_arranged(
        interface_paths(names, workspace, blocks, TraitCategory::External, 0),
    );
    let runtime = texts_arranged(interface_paths(names, workspace, blocks, TraitCategory::Std, 0));
    let primary = local + external;
    let shown = if full || runtime.len() <= STD_TRAITS_SHOWN {
        runtime.len() as int
    } else {
        STD_TRAITS_SHOWN as int
    };
    (if primary.len() > 0 {
        "Trait Implementations:\n"@ + joined(primary, ", "@, 0) + "\n"@
    } else {
        Seq::empty()
    }) + (if runtime.len() > 0 {
        std_line(runtime, shown) + "\n"@
    } else {
        Seq::empty()
    })
}

/// Collects the paths of the interfaces of one category.
fn paths_of<'a>(
    names: &ProjectNames,
    workspace: &Vec<String>,
    blocks: &Vec<ItemRef<'a>>,
    category: TraitCategory,
) -> (r: Vec<String>)
    ensures
        string_views(r@) == interface_paths(*names, workspace@, views(blocks@), category, 0),
{
    let ghost nodes = views(blocks@);
    let mut out: Vec<String> = Vec::new();
    let mut i: usize = 0;
    proof {
        assert(string_views(out@) =~= Seq::<Seq<char>>::empty());
        assert(string_views(out@) + interface_paths(*names, workspace@, nodes, category, 0)
            =~= interface_paths(*names, workspace@, nodes, category, 0));
    }
    while i < blocks.len()
        invariant
            i <= blocks@.len(),
            nodes == views(blocks@),
            string_views(out@) + interface_paths(*names, workspace@, nodes, category, i as int)
                == interface_paths(*names, workspace@, nodes, category, 0),
        decreases blocks@.len() - i,
    {
        let ghost before = string_views(out@);
        let block = blocks[i];
        assert(nodes[i as int] == block@);
        let path: Option<&String> = match &block.item().payload {
            ItemPayload::Impl(b) => match &b.interface {
                Some(path) => Some(path),
                None => None,
            },
            _ => None,
        };
        match path {
            Some(path) => {
                if categorize_trait(names, workspace, path.as_str()) == category {
                    out.push(String::from_str(path.as_str()));
                    assert(string_views(out@) =~= before.push(path@));
                    assert(before.push(path@) + interface_paths(
                        *names,
                        workspace@,
                        nodes,
                        category,
                        i + 1,
                    ) =~= before + interface_paths(*names, workspace@, nodes, category, i as int));
                }
            },
            None => {},
        }
        i += 1;
    }
    assert(string_views(out@) + Seq::<Seq<char>>::empty() =~= string_views(out@));
    out
}

/// Appends the first `count` of `texts`, with `, ` between each two.
fn push_joined(out: &mut String, texts: &Vec<String>, count: usize)
    requires
        count <= texts@.len(),
    ensures
        final(out)@ == old(out)@ + joined(string_views(texts@).take(count as int), ", "@, 0),
{
    let ghost parts = string_views(texts@).take(count as int);
    let ghost start = out@;
    let mut i: usize = 0;
    assert(out@ + joined(parts, ", "@, 0) =~= start + joined(parts, ", "@, 0));
    while i < count
        invariant
            i <= count <= texts@.len(),
            parts == string_views(texts@).take(count as int),
            out@ + joined(parts, ", "@, i as int) == start + joined(parts, ", "@, 0),
        decreases count - i,
    {
        let ghost before = out@;
        out.append(texts[i].as_str());
        assert(parts[i as int] == texts@[i as int]@);
        if i + 1 < count {
            out.append(", ");
        }
        assert(out@ + joined(parts, ", "@, i + 1) =~= before + joined(parts, ", "@, i as int));
        i += 1;
    }
    assert(out@ + Seq::<char>::empty() =~= out@);
}

/// Writes the text on the interfaces implemented for an item.
#[verifier::rlimit(40)]
pub fn format_trait_implementations<'a>(
    names: &ProjectNames,
    workspace: &Vec<String>,
    blocks: &Vec<ItemRef<'a>>,
    context: &FormatContext,
) -> (r: String)
    ensures
        r@ == implementations_text(
            *names,
            workspace@,
            views(blocks@),
            context.level() == Verbosity::Full,
        ),
{
    let local = sort_texts(&paths_of(names, workspace, blocks, TraitCategory::CrateLocal));
    let external = sort_texts(&paths_of(names, workspace, blocks, TraitCategory::External));
    let runtime = sort_texts(&paths_of(names, workspace, blocks, TraitCategory::Std));
    let mut out = String::from_str("");
    proof {
        reveal_strlit("");
    }
    let ghost primary = string_views(local@) + string_views(external@);
    if local.len() > 0 || external.len() > 0 {
        let mut both: Vec<String> = Vec::new();
        let mut i: usize = 0;
        assert(string_views(both@) =~= primary.take(0));
        while i < local.len()
            invariant
                i <= local@.len(),
                primary == string_views(local@) + string_views(external@),
                string_views(both@) == primary.take(i as int),
            decreases local@.len() - i,
        {
            let ghost before = string_views(both@);
            both.push(String::from_str(local[i].as_str()));
            assert(string_views(both@) =~= before.push(local@[i as int]@));
            assert(primary.take(i + 1) =~= primary.take(i as int).push(local@[i as int]@));
            i += 1;
        }
        let mut k: usize = 0;
        while k < external.len()
            invariant
                k <= external@.len(),
                primary == string_views(local@) + string_views(external@),
                string_views(both@) == primary.take(local@.len() + k),
            decreases external@.len() - k,
        {
            let ghost before = string_views(both@);
            both.push(String::from_str(external[k].as_str()));
            assert(string_views(both@) =~= before.push(external@[k as int]@));
            assert(primary.take(local@.len() + k + 1) =~= primary.take(local@.len() + k).push(
                external@[k as int]@,
            ));
            k += 1;
        }
        assert(primary.take((local@.len() + external@.len()) as int) =~= primary);
        out.append("Trait Implementations:\n");
        let count = both.len();
        assert(string_views(both@).take(count as int) =~= primary);
        push_joined(&mut out, &both, count);
        out.append("\n");
    }
    let ghost first = out@;
    if runtime.len() > 0 {
        let full = match context.verbosity() {
            Verbosity::Full => true,
            _ => false,
        };
        let shown: usize = if full || runtime.len() <= STD_TRAITS_SHOWN {
            runtime.len()
        } else {
            STD_TRAITS_SHOWN
        };
        out.append("std traits: ");
        push_joined(&mut out, &runtime, shown);
        if shown < runtime.len() {
            out.append(" [+");
            out.append(decimal(runtime.len() - shown).as_str());
            out.append(" more]");
        }
        assert(out@ =~= first + std_line(string_views(runtime@), shown as int));
        out.append("\n");
    }
    assert(out@ =~= implementations_text(
        *names,
        workspace@,
        views(blocks@),
        context.level() == Verbosity::Full,
    ));
    out
}

/// The text on what belongs to an item: the list of its inherent methods,
/// then the interfaces implemented for it.
pub open spec fn associated_text(
    names: ProjectNames,
    workspace: Seq<String>,
    n: Node,
    verbosity: Verbosity,
) -> Seq<char> {
    (if methods(n).len() > 0 {
        item_list_text(methods(n), "Associated Types"@, verbosity)
    } else {
        Seq::empty()
    }) + (if implementations_text(
        names,
        workspace,
        implementations(n),
        verbosity == Verbosity::Full,
    ).len() > 0 {
        "\n"@ + implementations_text(
            names,
            workspace,
            implementations(n),
            verbosity == Verbosity::Full,
        )
    } else {
        Seq::empty()
    })
}

/// Writes the text on what belongs to a compound type or a tagged union.
pub fn format_associated_methods<'a>(
    names: &ProjectNames,
    workspace: &Vec<String>,
    item: ItemRef<'a>,
    context: &FormatContext,
) -> (r: String)
    ensures
        r@ == associated_text(*names, workspace@, item@, context.level()),
{
    let mut out = String::from_str("");
    proof {
        reveal_strlit("");
    }
    let inherent = item.methods();
    if inherent.len() > 0 {
        out.append(format_item_list(&inherent, "Associated Types", context).as_str());
    }
    let ghost first = out@;
    let blocks = item.traits();
    let formatted = format_trait_implementations(names, workspace, &blocks, context);
    if formatted.as_str().unicode_len() > 0 {
        out.append("\n");
        out.append(formatted.as_str());
    } else {
        assert(out@ =~= first + Seq::<char>::empty());
    }
    out
}

} // verus!
