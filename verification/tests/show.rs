use docgraph::format_context::FormatContext;
use docgraph::graph::ItemRef;
use docgraph::lines::source_window;
use docgraph::listing::kind_name;
use docgraph::model::{
    ExternalPackage, ImplBlock, Item, ItemKind, ItemPayload, Snapshot, Span, StructKind, Valued,
    Visibility,
};
use docgraph::names::ProjectNames;
use docgraph::order::sort_texts;
use docgraph::show::{
    categorize_trait, format_associated_methods, format_entry, format_item_list,
    format_trait_implementations, visibility_prefix, TraitCategory,
};
use docgraph::tools::GetItem;
use docgraph::verbosity::Verbosity;

fn item(id: u32, name: &str, payload: ItemPayload) -> Item {
    Item {
        id,
        name: Some(name.to_string()),
        visibility: Visibility::Public,
        docs: None,
        span: None,
        payload,
    }
}

fn implements(id: u32, target: u32, interface: &str) -> Item {
    Item {
        id,
        name: None,
        visibility: Visibility::Default,
        docs: None,
        span: None,
        payload: ItemPayload::Impl(ImplBlock {
            target: Some(target),
            interface: Some(interface.to_string()),
            items: vec![],
        }),
    }
}

fn names() -> ProjectNames {
    ProjectNames {
        available: vec!["my-crate".to_string(), "serde".to_string(), "std".to_string()],
        workspace_members: 1,
        default_package: Some("my-crate".to_string()),
    }
}

fn workspace() -> Vec<String> {
    vec!["my-crate".to_string()]
}

fn snapshot() -> Snapshot {
    let mut method = item(3, "run", ItemPayload::Function("fn run(&self) -> bool".to_string()));
    method.docs = Some("Runs it.\nTo the end.".to_string());
    method.span = Some(Span { file: "src/lib.rs".to_string(), line: 20, column: 5 });
    let mut earlier = item(4, "LIMIT", ItemPayload::AssocConst);
    earlier.visibility = Visibility::Crate;
    earlier.span = Some(Span { file: "src/lib.rs".to_string(), line: 12, column: 5 });
    let mut kept = item(5, "Output", ItemPayload::AssocType);
    kept.visibility = Visibility::Restricted("crate::inner".to_string());
    let mut plain = item(6, "helper", ItemPayload::Static(Valued {
        type_text: "u8".to_string(),
        value: "7".to_string(),
    }));
    plain.visibility = Visibility::Default;
    let mut nameless = item(7, "", ItemPayload::Variant);
    nameless.name = None;
    let mut items = vec![
        item(0, "my_crate", ItemPayload::Module(vec![1])),
        item(1, "Engine", ItemPayload::Struct(StructKind::Unit)),
        Item {
            id: 2,
            name: None,
            visibility: Visibility::Default,
            docs: None,
            span: None,
            payload: ItemPayload::Impl(ImplBlock {
                target: Some(1),
                interface: None,
                items: vec![3, 4, 5, 6, 7],
            }),
        },
        method,
        earlier,
        kept,
        plain,
        nameless,
        item(8, "Bare", ItemPayload::Struct(StructKind::Unit)),
    ];
    let interfaces = [
        "serde::Serialize",
        "my_crate::Runs",
        "std::fmt::Debug",
        "core::clone::Clone",
        "Local",
        "another::Thing",
        "::odd::Path",
    ];
    for (n, interface) in interfaces.iter().enumerate() {
        items.push(implements(10 + n as u32, 1, interface));
    }
    for n in 0..11u32 {
        items.push(implements(30 + n, 8, &format!("std::ops::Op{n:02}")));
    }
    Snapshot::new("my-crate".to_string(), items, 0).unwrap()
}

#[test]
fn who_may_name_an_item() {
    assert_eq!(visibility_prefix(&Visibility::Public), "pub ");
    assert_eq!(visibility_prefix(&Visibility::Default), "");
    assert_eq!(visibility_prefix(&Visibility::Crate), "pub(crate) ");
    assert_eq!(
        visibility_prefix(&Visibility::Restricted("super::inner".to_string())),
        "pub(super::inner) "
    );
}

#[test]
fn names_of_kinds() {
    assert_eq!(kind_name(ItemKind::Module), "Module");
    assert_eq!(kind_name(ItemKind::TypeAlias), "TypeAlias");
    assert_eq!(kind_name(ItemKind::ProcAttribute), "ProcAttribute");
    assert_eq!(kind_name(ItemKind::AssocType), "AssocType");
    assert_eq!(kind_name(ItemKind::ExternCrate), format!("{:?}", ItemKind::ExternCrate));
}

#[test]
fn entries_of_a_list() {
    let s = snapshot();
    let format = FormatContext::default();
    let entry = |id: u32| format_entry(ItemRef::lookup(&s, id).unwrap(), &format);
    assert_eq!(
        entry(3),
        "• pub fn run(&self) -> bool\n    Runs it. [+1 more lines]\n\n"
    );
    assert_eq!(entry(4), "• pub(crate) const LIMIT\n\n");
    assert_eq!(entry(5), "• pub(crate::inner) type Output\n\n");
    assert_eq!(entry(6), "• Static helper\n\n");
    assert_eq!(entry(7), "• pub Variant <unnamed>\n\n");
    let quiet = GetItem { verbosity: Some(Verbosity::Minimal), ..GetItem::default() };
    let quiet = FormatContext::from_get_item(&quiet);
    assert_eq!(
        format_entry(ItemRef::lookup(&s, 3).unwrap(), &quiet),
        "• pub fn run(&self) -> bool\n\n"
    );
}

#[test]
fn members_in_the_order_of_declaration() {
    let s = snapshot();
    let engine = ItemRef::lookup(&s, 1).unwrap();
    let text = format_item_list(&engine.methods(), "Methods", &FormatContext::default());
    assert_eq!(
        text,
        "\nMethods:\n\n• pub(crate) const LIMIT\n\n\
         • pub fn run(&self) -> bool\n    Runs it. [+1 more lines]\n\n\
         • pub Variant <unnamed>\n\n\
         • pub(crate::inner) type Output\n\n\
         • Static helper\n\n"
    );
    assert_eq!(format_item_list(&vec![], "Nothing", &FormatContext::default()), "\nNothing:\n\n");
}

#[test]
fn where_interfaces_come_from() {
    let names = names();
    let workspace = workspace();
    let category = |path: &str| categorize_trait(&names, &workspace, path);
    assert_eq!(category("std::fmt::Display"), TraitCategory::Std);
    assert_eq!(category("core::clone::Clone"), TraitCategory::Std);
    assert_eq!(category("alloc_crate::borrow::ToOwned"), TraitCategory::Std);
    assert_eq!(category("std"), TraitCategory::Std);
    assert_eq!(category("my_crate::Runs"), TraitCategory::CrateLocal);
    assert_eq!(category("crate::Runs"), TraitCategory::CrateLocal);
    assert_eq!(category("serde::Serialize"), TraitCategory::External);
    assert_eq!(category("unknown::Thing"), TraitCategory::External);
    assert_eq!(category("Local"), TraitCategory::External);
    assert_eq!(category("::odd::Path"), TraitCategory::External);
    assert_eq!(category(""), TraitCategory::External);
}

#[test]
fn interfaces_implemented() {
    let s = snapshot();
    let engine = ItemRef::lookup(&s, 1).unwrap();
    let text = format_trait_implementations(
        &names(),
        &workspace(),
        &engine.traits(),
        &FormatContext::default(),
    );
    assert_eq!(
        text,
        "Trait Implementations:\nmy_crate::Runs, ::odd::Path, Local, another::Thing, \
         serde::Serialize\nstd traits: core::clone::Clone, std::fmt::Debug\n"
    );
    assert_eq!(
        format_trait_implementations(&names(), &workspace(), &vec![], &FormatContext::default()),
        ""
    );
}

#[test]
fn interfaces_of_the_runtime_are_cut_short() {
    let s = snapshot();
    let bare = ItemRef::lookup(&s, 8).unwrap();
    let brief = format_trait_implementations(
        &names(),
        &workspace(),
        &bare.traits(),
        &FormatContext::default(),
    );
    assert_eq!(
        brief,
        "std traits: std::ops::Op00, std::ops::Op01, std::ops::Op02, std::ops::Op03, \
         std::ops::Op04, std::ops::Op05, std::ops::Op06, std::ops::Op07, std::ops::Op08, \
         std::ops::Op09 [+1 more]\n"
    );
    let full = GetItem { verbosity: Some(Verbosity::Full), ..GetItem::default() };
    let full = format_trait_implementations(
        &names(),
        &workspace(),
        &bare.traits(),
        &FormatContext::from_get_item(&full),
    );
    assert!(full.ends_with("std::ops::Op09, std::ops::Op10\n"));
    assert!(!full.contains("more"));
}

#[test]
fn what_belongs_to_a_type() {
    let s = snapshot();
    let format = FormatContext::default();
    let bare = ItemRef::lookup(&s, 8).unwrap();
    let text = format_associated_methods(&names(), &workspace(), bare, &format);
    assert!(text.starts_with("\nstd traits: std::ops::Op00"));
    let engine = ItemRef::lookup(&s, 1).unwrap();
    let text = format_associated_methods(&names(), &workspace(), engine, &format);
    assert!(text.starts_with("\nAssociated Types:\n\n• pub(crate) const LIMIT\n"));
    assert!(text.ends_with("• Static helper\n\n\nTrait Implementations:\nmy_crate::Runs, ::odd::Path, Local, another::Thing, serde::Serialize\nstd traits: core::clone::Clone, std::fmt::Debug\n"));
    let module = ItemRef::lookup(&s, 0).unwrap();
    assert_eq!(format_associated_methods(&names(), &workspace(), module, &format), "");
}

#[test]
fn texts_sorted() {
    let texts: Vec<String> =
        ["pear", "Apple", "fig", "apple", "", "fig", "éclair"].iter().map(|s| s.to_string()).collect();
    let mut expected = texts.clone();
    expected.sort();
    assert_eq!(sort_texts(&texts), expected);
    assert!(sort_texts(&vec![]).is_empty());
}

#[test]
fn packages_referred_to() {
    let s = snapshot().with_external_packages(vec![
        ExternalPackage { reference: 1, name: "std".to_string() },
        ExternalPackage { reference: 7, name: "serde".to_string() },
        ExternalPackage { reference: 7, name: "shadowed".to_string() },
    ]);
    assert_eq!(s.external_package(1), Some("std"));
    assert_eq!(s.external_package(7), Some("serde"));
    assert_eq!(s.external_package(2), None);
    assert_eq!(snapshot().external_package(1), None);
    assert_eq!(s.find(8), Some(8));
}

#[test]
fn lines_shown_of_a_source_file() {
    // lines 5 to 7 of 100, counted from one: one line around them
    assert_eq!(source_window(5, 7, 100), Some((3, 7)));
    // ten lines or more: three lines around them
    assert_eq!(source_window(20, 30, 100), Some((16, 32)));
    assert_eq!(source_window(20, 29, 100), Some((18, 29)));
    // the file's ends are kept
    assert_eq!(source_window(1, 2, 100), Some((0, 2)));
    assert_eq!(source_window(99, 100, 100), Some((97, 99)));
    assert_eq!(source_window(90, 200, 100), Some((86, 99)));
    assert_eq!(source_window(0, 0, 1), Some((0, 0)));
    // an end before the beginning counts as the beginning
    assert_eq!(source_window(10, 3, 100), Some((8, 10)));
    assert_eq!(source_window(101, 105, 100), None);
    assert_eq!(source_window(1, 1, 0), None);
}
