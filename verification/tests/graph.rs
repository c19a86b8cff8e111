use docgraph::filter::Filter;
use docgraph::format_context::FormatContext;
use docgraph::graph::{ItemRef, Suggestion};
use docgraph::listing::format_module;
use docgraph::model::{
    Alias, ImplBlock, Item, ItemKind, ItemPayload, MacroKind, Snapshot, StructKind, Visibility,
};
use docgraph::names::ProjectNames;
use docgraph::request::{Loaded, RequestContext, Step};
use docgraph::string_utils::case_mismatches;
use docgraph::tools::GetItem;
use docgraph::verbosity::Verbosity;

fn item(id: u32, name: Option<&str>, payload: ItemPayload) -> Item {
    Item { id, name: name.map(String::from), docs: None, visibility: Visibility::Public, span: None, payload }
}

fn alias(source: &str, name: &str, target: Option<u32>, is_glob: bool) -> ItemPayload {
    ItemPayload::Use(Alias {
        source: source.to_string(),
        name: name.to_string(),
        target,
        is_glob,
    })
}

fn block(target: u32, of_trait: bool, items: Vec<u32>) -> ItemPayload {
    let interface = if of_trait { Some("fmt::Display".to_string()) } else { None };
    ItemPayload::Impl(ImplBlock { target: Some(target), interface, items })
}

fn test_crate() -> Snapshot {
    let items = vec![
        item(0, Some("test_crate"), ItemPayload::Module(vec![1, 2, 5, 20, 30, 99])),
        item(1, Some("TestStruct"), ItemPayload::Struct(StructKind::Plain(vec![10, 11]))),
        item(2, Some("submodule"), ItemPayload::Module(vec![3, 4])),
        item(3, Some("SubStruct"), ItemPayload::Struct(StructKind::Plain(vec![12]))),
        item(4, Some("TestEnum"), ItemPayload::Enum(vec![13, 14])),
        item(5, Some("test_function"), ItemPayload::Function(String::new())),
        item(10, Some("count"), ItemPayload::StructField),
        item(11, Some("name"), ItemPayload::StructField),
        item(12, Some("value"), ItemPayload::StructField),
        item(13, Some("VariantA"), ItemPayload::Variant),
        item(14, Some("VariantB"), ItemPayload::Variant),
        item(15, None, block(1, false, vec![16, 17, 77])),
        item(16, Some("test_method"), ItemPayload::Function(String::new())),
        item(17, Some("increment_count"), ItemPayload::Function(String::new())),
        item(18, None, block(1, true, vec![19])),
        item(19, Some("fmt"), ItemPayload::Function(String::new())),
        item(20, None, alias("crate::submodule::SubStruct", "Renamed", Some(3), false)),
        item(30, None, alias("crate::submodule::TestEnum", "TestEnum", Some(4), true)),
        item(40, None, block(4, false, vec![41])),
        item(41, Some("describe"), ItemPayload::Function(String::new())),
    ];
    Snapshot::new("test-crate".to_string(), items, 0).expect("ids ascend")
}

fn names() -> ProjectNames {
    ProjectNames {
        available: vec!["test-crate".to_string(), "other".to_string(), "std".to_string()],
        workspace_members: 1,
        default_package: Some("test-crate".to_string()),
    }
}

fn context() -> RequestContext {
    RequestContext::new(names()).provide(test_crate())
}

fn done<T>(step: Step<T>) -> T {
    match step {
        Step::Done(x) => x,
        Step::Load(c) => panic!("asks for {c}"),
    }
}

fn shown(list: &[ItemRef<'_>]) -> Vec<String> {
    list.iter().map(|x| x.name().unwrap_or("-").to_string()).collect()
}

#[test]
fn snapshot_refuses_ids_out_of_order() {
    let items = vec![
        item(2, Some("b"), ItemPayload::Function(String::new())),
        item(1, Some("a"), ItemPayload::Function(String::new())),
    ];
    assert!(Snapshot::new("p".to_string(), items, 1).is_none());
    let twice = vec![
        item(1, Some("a"), ItemPayload::Function(String::new())),
        item(1, Some("b"), ItemPayload::Function(String::new())),
    ];
    assert!(Snapshot::new("p".to_string(), twice, 1).is_none());
    assert!(Snapshot::new("p".to_string(), vec![], 0).is_some());
}

#[test]
fn get_finds_items_and_passes_over_dangling_ids() {
    let s = test_crate();
    assert_eq!(s.find(17), Some(13));
    assert_eq!(s.find(0), Some(0));
    assert_eq!(s.find(41), Some(19));
    assert_eq!(s.find(99), None);
    assert_eq!(s.find(6), None);
    let root = ItemRef::root(&s).unwrap();
    assert_eq!(root.name(), Some("test_crate"));
    assert_eq!(root.get(3).unwrap().name(), Some("SubStruct"));
    assert!(root.get(99).is_none());
}

#[test]
fn kind_follows_payload() {
    assert_eq!(item(1, None, ItemPayload::Function(String::new())).kind(), ItemKind::Function);
    assert_eq!(item(1, None, ItemPayload::Macro).kind(), ItemKind::Macro);
    assert_eq!(item(1, None, ItemPayload::ProcMacro(MacroKind::Bang)).kind(), ItemKind::Macro);
    assert_eq!(
        item(1, None, ItemPayload::ProcMacro(MacroKind::Attr)).kind(),
        ItemKind::ProcAttribute
    );
    assert_eq!(
        item(1, None, ItemPayload::ProcMacro(MacroKind::Derive)).kind(),
        ItemKind::ProcDerive
    );
    assert_eq!(item(1, None, alias("a", "a", None, false)).kind(), ItemKind::Use);
    assert_eq!(item(1, None, ItemPayload::Struct(StructKind::Unit)).kind(), ItemKind::Struct);
}

#[test]
fn module_children_look_through_aliases() {
    let ctx = context();
    let mut none = vec![];
    let root = done(ctx.resolve_path("crate", &mut none)).unwrap();
    let kids = done(root.child_items(&ctx, false));
    // the named alias shows its target under the alias's name, the glob
    // alias gives the variants of its target, the dangling id is left out
    assert_eq!(
        shown(&kids),
        vec![
            "TestStruct",
            "submodule",
            "test_function",
            "Renamed",
            "VariantA",
            "VariantB"
        ]
    );
    assert_eq!(kids[3].kind(), ItemKind::Struct);
    assert_eq!(kids[3].id(), 3);
}

#[test]
fn module_children_with_aliases_shown() {
    let ctx = context();
    let mut none = vec![];
    let root = done(ctx.resolve_path("crate", &mut none)).unwrap();
    let kids = done(root.child_items(&ctx, true));
    let ids: Vec<u32> = kids.iter().map(|x| x.id()).collect();
    assert_eq!(ids, vec![1, 2, 5, 20, 30]);
    assert_eq!(kids[3].kind(), ItemKind::Use);
    // an alias as the root of a traversal behaves like its target
    let of_named = done(kids[3].child_items(&ctx, true));
    assert_eq!(shown(&of_named), vec!["Renamed"]);
    let of_glob = done(kids[4].child_items(&ctx, true));
    assert_eq!(shown(&of_glob), vec!["VariantA", "VariantB"]);
}

#[test]
fn tagged_union_children_are_variants_then_methods() {
    let ctx = context();
    let mut none = vec![];
    let e = done(ctx.resolve_path("crate::submodule::TestEnum", &mut none)).unwrap();
    assert_eq!(e.kind(), ItemKind::Enum);
    assert_eq!(shown(&done(e.child_items(&ctx, false))), vec!["VariantA", "VariantB", "describe"]);
}

#[test]
fn compound_type_children_are_inherent_methods() {
    let ctx = context();
    let mut none = vec![];
    let s = done(ctx.resolve_path("crate::TestStruct", &mut none)).unwrap();
    assert_eq!(shown(&done(s.child_items(&ctx, false))), vec!["test_method", "increment_count"]);
    assert_eq!(shown(&s.methods()), vec!["test_method", "increment_count"]);
    let impls = s.traits();
    assert_eq!(impls.len(), 1);
    assert_eq!(impls[0].id(), 18);
    assert_eq!(impls[0].kind(), ItemKind::Impl);
    // a function has no children
    let f = done(ctx.resolve_path("crate::test_function", &mut none)).unwrap();
    assert!(done(f.child_items(&ctx, false)).is_empty());
}

#[test]
fn resolve_submodule_struct() {
    let ctx = context();
    let mut suggestions = vec![];
    let found = done(ctx.resolve_path("crate::submodule::SubStruct", &mut suggestions)).unwrap();
    assert_eq!(found.kind(), ItemKind::Struct);
    assert_eq!(found.name(), Some("SubStruct"));
    assert!(suggestions.is_empty());
}

#[test]
fn resolve_package_root_and_normalized_name() {
    let ctx = context();
    let mut none = vec![];
    let root = done(ctx.resolve_path("crate", &mut none)).unwrap();
    assert_eq!(root.kind(), ItemKind::Module);
    assert_eq!(root.id(), 0);
    let same = done(ctx.resolve_path("test-crate::TestStruct", &mut none)).unwrap();
    assert_eq!(same.name(), Some("TestStruct"));
    let trailing = done(ctx.resolve_path("test-crate::submodule::", &mut none)).unwrap();
    assert_eq!(trailing.name(), Some("submodule"));
}

#[test]
fn resolve_named_alias_keeps_the_alias_name() {
    let ctx = context();
    let mut none = vec![];
    let found = done(ctx.resolve_path("crate::Renamed", &mut none)).unwrap();
    assert_eq!(found.name(), Some("Renamed"));
    assert_eq!(found.id(), 3);
    assert_eq!(found.item().name.as_deref(), Some("SubStruct"));
    // a variant reached through the glob alias
    let variant = done(ctx.resolve_path("crate::VariantB", &mut none)).unwrap();
    assert_eq!(variant.kind(), ItemKind::Variant);
}

fn score(typed: &str, guess: &Suggestion<'_>) -> f64 {
    let base = strsim::jaro_winkler(&typed.to_lowercase(), &guess.path().to_lowercase());
    base - 0.02 * case_mismatches(typed, guess.path()) as f64
}

#[test]
fn misspelled_segment_gives_suggestions() {
    let ctx = context();
    let mut suggestions = vec![];
    let typed = "crate::TestStruct::test_metod";
    let found = done(ctx.resolve_path(typed, &mut suggestions));
    assert!(found.is_none());
    let paths: Vec<&str> = suggestions.iter().map(|s| s.path()).collect();
    // the guesses below the item that matched come first; those of the
    // levels above follow, without the item that was typed
    assert_eq!(
        paths,
        vec![
            "crate::TestStruct::test_method",
            "crate::TestStruct::increment_count",
            "crate::submodule",
            "crate::test_function",
            "crate::Renamed",
            "crate::VariantA",
            "crate::VariantB"
        ]
    );
    let mut ranked: Vec<&Suggestion<'_>> = suggestions.iter().collect();
    ranked.sort_by(|a, b| score(typed, b).total_cmp(&score(typed, a)));
    assert_eq!(ranked[0].path(), "crate::TestStruct::test_method");
    let right = &suggestions[0];
    assert_eq!(right.item().unwrap().id(), 16);
    assert!(score(typed, right) > 0.8);
}

#[test]
fn suggestions_leave_out_what_was_typed() {
    let ctx = context();
    let mut suggestions = vec![];
    // "submodule" is a prefix of what was typed and is no guess
    let found = done(ctx.resolve_path("crate::submoduleX", &mut suggestions));
    assert!(found.is_none());
    let paths: Vec<&str> = suggestions.iter().map(|s| s.path()).collect();
    assert_eq!(
        paths,
        vec![
            "crate::TestStruct",
            "crate::test_function",
            "crate::Renamed",
            "crate::VariantA",
            "crate::VariantB"
        ]
    );
}

#[test]
fn unknown_package_suggests_the_known_ones() {
    let ctx = context();
    let mut suggestions = vec![];
    let found = done(ctx.resolve_path("tset-crate::TestStruct", &mut suggestions));
    assert!(found.is_none());
    let paths: Vec<&str> = suggestions.iter().map(|s| s.path()).collect();
    assert_eq!(paths, vec!["test-crate", "other", "std"]);
    assert!(suggestions.iter().all(|s| s.item().is_none()));
}

#[test]
fn one_load_per_package() {
    let ctx = RequestContext::new(names());
    match ctx.resolve_path("crate::TestStruct", &mut vec![]) {
        Step::Load(name) => assert_eq!(name, "test-crate"),
        Step::Done(_) => panic!("nothing is loaded yet"),
    }
    let ctx = ctx.provide(test_crate());
    let mut none = vec![];
    assert!(done(ctx.resolve_path("crate::TestStruct", &mut none)).is_some());
    assert!(done(ctx.resolve_path("test-crate::submodule", &mut none)).is_some());
    assert!(matches!(ctx.load("crate"), Loaded::Ready(_)));
}

#[test]
fn missing_package_is_asked_for_once() {
    let ctx = RequestContext::new(names());
    assert!(matches!(ctx.resolve_path("other::Thing", &mut vec![]), Step::Load(_)));
    let ctx = ctx.mark_missing("other".to_string());
    let mut suggestions = vec![];
    let found = done(ctx.resolve_path("other::Thing", &mut suggestions));
    assert!(found.is_none());
    assert!(matches!(ctx.load("other"), Loaded::Absent));
    assert!(matches!(ctx.load("nowhere"), Loaded::Absent));
    assert!(matches!(ctx.load("std"), Loaded::Needed(_)));
}

fn other_crate() -> Snapshot {
    let items = vec![
        item(0, Some("other"), ItemPayload::Module(vec![1, 2])),
        item(1, Some("Thing"), ItemPayload::Struct(StructKind::Unit)),
        item(2, Some("helper"), ItemPayload::Function(String::new())),
    ];
    Snapshot::new("other".to_string(), items, 0).unwrap()
}

fn reexporting_crate() -> Snapshot {
    let items = vec![
        item(0, Some("test_crate"), ItemPayload::Module(vec![1, 2, 3])),
        item(1, Some("first"), ItemPayload::Function(String::new())),
        // the target is in another package: only the path can find it
        item(2, None, alias("other::Thing", "Borrowed", Some(500), false)),
        item(3, Some("last"), ItemPayload::Function(String::new())),
    ];
    Snapshot::new("test-crate".to_string(), items, 0).unwrap()
}

#[test]
fn alias_into_another_package() {
    let ctx = RequestContext::new(names()).provide(reexporting_crate());
    {
        let root = done(ctx.resolve_path("crate", &mut vec![])).unwrap();
        match root.child_items(&ctx, false) {
            Step::Load(name) => assert_eq!(name, "other"),
            Step::Done(_) => panic!("the other package is not loaded"),
        }
        // with aliases shown as they are, nothing has to be loaded
        assert_eq!(done(root.child_items(&ctx, true)).len(), 3);
    }
    let ctx = ctx.provide(other_crate());
    let mut none = vec![];
    let root = done(ctx.resolve_path("crate", &mut none)).unwrap();
    let kids = done(root.child_items(&ctx, false));
    assert_eq!(shown(&kids), vec!["first", "Borrowed", "last"]);
    assert_eq!(kids[1].snapshot().package_name(), "other");
    let found = done(ctx.resolve_path("crate::Borrowed", &mut none)).unwrap();
    assert_eq!(found.name(), Some("Borrowed"));
    assert_eq!(found.kind(), ItemKind::Struct);
}

#[test]
fn alias_without_target_ends_the_listing() {
    let ctx = RequestContext::new(names())
        .provide(reexporting_crate())
        .mark_missing("other".to_string());
    let mut none = vec![];
    let root = done(ctx.resolve_path("crate", &mut none)).unwrap();
    let kids = done(root.child_items(&ctx, false));
    assert_eq!(shown(&kids), vec!["first"]);
}

#[test]
fn alias_cycle_ends() {
    let items = vec![
        item(0, Some("test_crate"), ItemPayload::Module(vec![1, 2])),
        item(1, None, alias("crate::b", "a", Some(2), false)),
        item(2, None, alias("crate::a", "b", Some(1), false)),
    ];
    let s = Snapshot::new("test-crate".to_string(), items, 0).unwrap();
    let ctx = RequestContext::new(names()).provide(s);
    let mut none = vec![];
    let root = done(ctx.resolve_path("crate", &mut none)).unwrap();
    // each alias stands for the other: both are shown under their own names
    let kids = done(root.child_items(&ctx, false));
    assert_eq!(shown(&kids), vec!["a", "b"]);
    // followed as the root of a traversal, the circle ends with nothing
    assert!(done(kids[0].child_items(&ctx, false)).is_empty());
    let globs = vec![
        item(0, Some("test_crate"), ItemPayload::Module(vec![1])),
        item(1, None, alias("crate", "crate", Some(0), true)),
    ];
    let s = Snapshot::new("test-crate".to_string(), globs, 0).unwrap();
    let ctx = RequestContext::new(names()).provide(s);
    let root = done(ctx.resolve_path("crate", &mut none)).unwrap();
    assert!(done(root.child_items(&ctx, false)).is_empty());
}

#[test]
fn item_from_id_path() {
    let ctx = context();
    let (found, path) = done(ctx.get_item_from_id_path("crate", &vec![2, 3])).unwrap();
    assert_eq!(found.name(), Some("SubStruct"));
    assert_eq!(path, vec!["test-crate", "submodule", "SubStruct"]);
    // through the named alias: the alias adds no name, the target does
    let (found, path) = done(ctx.get_item_from_id_path("crate", &vec![20, 3])).unwrap();
    assert_eq!(found.id(), 3);
    assert_eq!(path, vec!["test-crate", "SubStruct"]);
    let (found, path) = done(ctx.get_item_from_id_path("crate", &vec![20])).unwrap();
    assert_eq!(found.name(), Some("Renamed"));
    assert_eq!(path, vec!["test-crate"]);
    let (root, path) = done(ctx.get_item_from_id_path("crate", &vec![])).unwrap();
    assert_eq!(root.id(), 0);
    assert_eq!(path, vec!["test-crate"]);
    assert!(done(ctx.get_item_from_id_path("crate", &vec![99])).is_none());
    assert!(done(ctx.get_item_from_id_path("nowhere", &vec![])).is_none());
}

#[test]
fn provide_keeps_the_first_snapshot() {
    let ctx = context().provide(reexporting_crate());
    let mut none = vec![];
    assert!(done(ctx.resolve_path("crate::TestStruct", &mut none)).is_some());
}

fn listing(ctx: &RequestContext, path: &str, format: &FormatContext) -> String {
    let item = done(ctx.resolve_path(path, &mut vec![])).unwrap();
    done(format_module(ctx, item, format))
}

#[test]
fn module_listing_by_kind() {
    let ctx = context();
    let text = listing(&ctx, "crate", &FormatContext::default());
    assert_eq!(
        text,
        "\nModules:\nsubmodule\n\nStructs:\nRenamed\nTestStruct\n\nFunctions:\ntest_function\n\
         \nVariants:\nVariantA\nVariantB\n"
    );
    let function = listing(&ctx, "crate::test_function", &FormatContext::default());
    assert_eq!(function, "\nNo items match the current filters.\n");
}

#[test]
fn module_listing_recursive_and_filtered() {
    let ctx = context();
    let all = GetItem { recursive: Some(true), ..GetItem::default() };
    let text = listing(&ctx, "crate", &FormatContext::from_get_item(&all));
    assert_eq!(
        text,
        "\nModules:\nsubmodule\n\nStructs:\nRenamed\nTestStruct\nsubmodule::SubStruct\n\
         \nEnums:\nsubmodule::TestEnum\n\
         \nFunctions:\nTestStruct::increment_count\nTestStruct::test_method\n\
         submodule::TestEnum::describe\ntest_function\n\
         \nVariants:\nVariantA\nVariantB\nsubmodule::TestEnum::VariantA\n\
         submodule::TestEnum::VariantB\n"
    );
    // what the filter holds back is not listed, nor is anything below it
    let functions = GetItem {
        recursive: Some(true),
        filter: Some(vec![Filter::Function, Filter::Struct]),
        ..GetItem::default()
    };
    let text = listing(&ctx, "crate", &FormatContext::from_get_item(&functions));
    assert_eq!(
        text,
        "\nStructs:\nRenamed\nTestStruct\n\
         \nFunctions:\nTestStruct::increment_count\nTestStruct::test_method\ntest_function\n"
    );
}

#[test]
fn listing_shows_the_first_line_of_documentation() {
    let mut documented = item(1, Some("helper"), ItemPayload::Function(String::new()));
    documented.docs = Some("Helps.\nAt length.".to_string());
    let mut other = item(2, Some("Thing"), ItemPayload::Struct(StructKind::Unit));
    other.docs = Some("A thing.".to_string());
    let items = vec![
        item(0, Some("test_crate"), ItemPayload::Module(vec![1, 2, 3])),
        documented,
        other,
        item(3, Some("FIELD"), ItemPayload::StructField),
    ];
    let s = Snapshot::new("test-crate".to_string(), items, 0).unwrap();
    let ctx = RequestContext::new(names()).provide(s);
    assert_eq!(
        listing(&ctx, "crate", &FormatContext::default()),
        "\nStructs:\nThing // A thing.\n\nFunctions:\nhelper // Helps. [+1 more lines]\n\
         \nStructField:\nFIELD\n"
    );
    let quiet = GetItem { verbosity: Some(Verbosity::Minimal), ..GetItem::default() };
    assert_eq!(
        listing(&ctx, "crate", &FormatContext::from_get_item(&quiet)),
        "\nStructs:\nThing\n\nFunctions:\nhelper\n\nStructField:\nFIELD\n"
    );
}

fn aliased_crate() -> Snapshot {
    let items = vec![
        item(0, Some("test_crate"), ItemPayload::Module(vec![1, 2, 3, 10, 11, 12, 13, 14, 15])),
        item(1, Some("Plain"), ItemPayload::Struct(StructKind::Unit)),
        item(2, Some("Rich"), ItemPayload::Struct(StructKind::Unit)),
        item(3, Some("inner"), ItemPayload::Module(vec![4, 5])),
        item(4, Some("Choice"), ItemPayload::Enum(vec![6, 7])),
        item(5, Some("helper"), ItemPayload::Function(String::new())),
        item(6, Some("Yes"), ItemPayload::Variant),
        item(7, Some("No"), ItemPayload::Variant),
        item(8, None, block(2, false, vec![9])),
        item(9, Some("build"), ItemPayload::Function(String::new())),
        item(10, None, alias("crate::Plain", "PlainAgain", Some(1), false)),
        item(11, None, alias("crate::Rich", "RichAgain", Some(2), false)),
        item(12, None, alias("crate::inner", "within", Some(3), false)),
        item(13, None, alias("crate::inner::Choice", "Pick", Some(4), false)),
        item(14, None, alias("crate::RichAgain", "RichOnceMore", Some(11), false)),
        item(15, None, alias("crate::inner::Choice", "Choice", Some(4), true)),
        item(20, None, block(4, false, vec![21])),
        item(21, Some("flip"), ItemPayload::Function(String::new())),
    ];
    Snapshot::new("test-crate".to_string(), items, 0).unwrap()
}

#[test]
fn alias_as_root_behaves_like_its_target() {
    let ctx = RequestContext::new(names()).provide(aliased_crate());
    let root = done(ctx.resolve_path("crate", &mut vec![])).unwrap();
    let children = |id: u32| shown(&done(root.get(id).unwrap().child_items(&ctx, false)));
    // a compound type without methods has no children, nor has its alias
    assert!(children(1).is_empty());
    assert_eq!(children(10), children(1));
    assert_eq!(children(2), vec!["build"]);
    assert_eq!(children(11), children(2));
    assert_eq!(children(3), vec!["Choice", "helper"]);
    assert_eq!(children(12), children(3));
    // a tagged union has its variants, then its methods, by whatever alias
    assert_eq!(children(4), vec!["Yes", "No", "flip"]);
    assert_eq!(children(13), children(4));
    assert_eq!(children(15), children(4));
    // an alias of an alias behaves like the item at the end of the chain
    assert_eq!(children(14), children(2));
}

#[test]
fn alias_as_root_with_aliases_shown() {
    let ctx = RequestContext::new(names()).provide(aliased_crate());
    let root = done(ctx.resolve_path("crate", &mut vec![])).unwrap();
    let children = |id: u32| shown(&done(root.get(id).unwrap().child_items(&ctx, true)));
    // a named alias shows the item that it stands for, under its own name
    assert_eq!(children(10), vec!["PlainAgain"]);
    assert_eq!(children(14), vec!["RichOnceMore"]);
    assert_eq!(done(root.get(14).unwrap().child_items(&ctx, true))[0].kind(), ItemKind::Use);
    // a glob alias shows what the ids of its target name
    assert_eq!(children(15), vec!["Yes", "No"]);
}

#[test]
fn path_through_an_alias_of_an_alias() {
    let ctx = RequestContext::new(names()).provide(aliased_crate());
    // the module lists the alias of an alias under the alias's name; below
    // it stand the children of the item at the end of the chain
    let found = done(ctx.resolve_path("crate::RichOnceMore::build", &mut vec![])).unwrap();
    assert_eq!(found.id(), 9);
    let found = done(ctx.resolve_path("crate::within::Choice::flip", &mut vec![])).unwrap();
    assert_eq!(found.id(), 21);
}
