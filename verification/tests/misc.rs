use docgraph::chars::{chars_of, decimal, join_names, starts_with, str_eq};
use docgraph::documentation::DocInfo;
use docgraph::filter::Filter;
use docgraph::format_context::FormatContext;
use docgraph::indent::Indent;
use docgraph::lines::count_lines;
use docgraph::model::ItemKind;
use docgraph::project::{
    header_fits, is_stale, next_step, CrateInfo, CrateType, LoadStep, Probe,
};
use docgraph::string_utils::case_mismatches;
use docgraph::tools::{GetItem, ListCrates, Search, SetWorkingDirectory};
use docgraph::verbosity::Verbosity;

#[test]
fn characters_of_a_text() {
    assert_eq!(chars_of("héllo"), vec!['h', 'é', 'l', 'l', 'o']);
    assert!(chars_of("").is_empty());
    assert!(str_eq("abc", "abc"));
    assert!(!str_eq("abc", "abd"));
    assert!(starts_with(&chars_of("rustc_hash"), &chars_of("rustc_")));
    assert!(!starts_with(&chars_of("rust"), &chars_of("rustc_")));
    assert!(starts_with(&chars_of("x"), &chars_of("")));
}

#[test]
fn decimal_digits() {
    assert_eq!(decimal(0), "0");
    assert_eq!(decimal(7), "7");
    assert_eq!(decimal(10), "10");
    assert_eq!(decimal(1234567890), "1234567890");
    assert_eq!(decimal(usize::MAX), usize::MAX.to_string());
}

#[test]
fn indent_moves_every_line() {
    assert_eq!(Indent::new("one\ntwo", 4).render(), "    one\n    two\n");
    assert_eq!(Indent::new("one\ntwo\n", 2).render(), "  one\n  two\n");
    assert_eq!(Indent::new("one\r\ntwo\r", 1).render(), " one\n two\r\n");
    assert_eq!(Indent::new("one\n\nthree", 1).render(), " one\n \n three\n");
    assert_eq!(Indent::new("\r\n", 1).render(), " \n");
    assert_eq!(Indent::new("", 4).render(), "");
    assert_eq!(Indent::new("plain", 0).render(), "plain\n");
}

#[test]
fn lines_are_counted_as_shown() {
    for text in ["", "one", "one\n", "one\ntwo", "\n", "\n\n", "a\r\nb\r\n", "a\n\nb"] {
        assert_eq!(count_lines(&chars_of(text)), text.lines().count());
    }
}

#[test]
fn elided_lines_and_indicator() {
    let info = DocInfo {
        text: "shown".to_string(),
        total_lines: 12,
        displayed_lines: 7,
        is_truncated: true,
    };
    assert_eq!(info.elided_lines(), 5);
    assert_eq!(info.elided_indicator(), Some("[+5 lines elided]".to_string()));
    let whole = DocInfo {
        text: "shown".to_string(),
        total_lines: 3,
        displayed_lines: 3,
        is_truncated: false,
    };
    assert_eq!(whole.elided_lines(), 0);
    assert_eq!(whole.elided_indicator(), None);
    let odd = DocInfo { text: String::new(), total_lines: 1, displayed_lines: 4, is_truncated: true };
    assert_eq!(odd.elided_lines(), 0);
    assert_eq!(odd.elided_indicator(), Some("[+0 lines elided]".to_string()));
}

#[test]
fn filters_match_kinds() {
    assert!(Filter::Struct.matches_kind(ItemKind::Struct));
    assert!(!Filter::Struct.matches_kind(ItemKind::Enum));
    assert!(Filter::Macro.matches_kind(ItemKind::Macro));
    assert!(Filter::Macro.matches_kind(ItemKind::ProcAttribute));
    assert!(Filter::Macro.matches_kind(ItemKind::ProcDerive));
    assert!(!Filter::Macro.matches_kind(ItemKind::Function));
    assert!(Filter::Type.matches_kind(ItemKind::TypeAlias));
    assert!(!Filter::Type.matches_kind(ItemKind::AssocType));
    assert!(Filter::Variant.matches_kind(ItemKind::Variant));
    // the filter without a kind of its own hides nothing
    assert!(Filter::Union.matches_kind(ItemKind::Union));
    assert!(Filter::Union.matches_kind(ItemKind::Function));
    assert_eq!(Filter::all().len(), 11);
    assert_eq!(Filter::all()[0], Filter::Struct);
    assert_eq!(Filter::all()[10], Filter::Variant);
}

#[test]
fn get_item_defaults() {
    let item = GetItem::default();
    assert_eq!(item.name, "");
    assert!(!item.include_source());
    assert!(!item.recursive());
    assert_eq!(item.verbosity(), Verbosity::Brief);
    assert_eq!(item.filters(), Filter::all());
    let set = GetItem {
        name: "crate::MyStruct".to_string(),
        include_source: Some(true),
        recursive: Some(false),
        filter: Some(vec![Filter::Function, Filter::Struct]),
        verbosity: Some(Verbosity::Full),
    };
    assert!(set.include_source());
    assert!(!set.recursive());
    assert_eq!(set.verbosity(), Verbosity::Full);
    assert_eq!(set.filters(), vec![Filter::Function, Filter::Struct]);
    assert_eq!(Verbosity::default(), Verbosity::Brief);
}

#[test]
fn format_context_from_arguments() {
    let context = FormatContext::default();
    assert!(!context.include_source());
    assert!(!context.is_recursive());
    assert_eq!(context.verbosity(), Verbosity::Brief);
    assert_eq!(context.filters(), Filter::all());
    assert!(context.filter_match_kind(ItemKind::Primitive));
    let set = GetItem {
        name: "crate".to_string(),
        include_source: None,
        recursive: Some(true),
        filter: Some(vec![Filter::Struct, Filter::Enum]),
        verbosity: Some(Verbosity::Minimal),
    };
    let context = FormatContext::from_get_item(&set);
    assert!(!context.include_source());
    assert!(context.is_recursive());
    assert_eq!(context.verbosity(), Verbosity::Minimal);
    assert!(context.filter_match_kind(ItemKind::Enum));
    assert!(!context.filter_match_kind(ItemKind::Function));
    let nothing = GetItem { filter: Some(vec![]), ..GetItem::default() };
    assert!(!FormatContext::from_get_item(&nothing).filter_match_kind(ItemKind::Struct));
}

#[test]
fn other_tool_arguments() {
    assert!(ListCrates::default().workspace_member.is_none());
    let search = Search { crate_name: "std".to_string(), query: "Error".to_string(), limit: None };
    assert_eq!(search.limit(), 10);
    let search = Search { limit: Some(5), ..search };
    assert_eq!(search.limit(), 5);
    let dir = SetWorkingDirectory { path: "/path/to/project".to_string() };
    assert_eq!(dir.path, "/path/to/project");
}

#[test]
fn crate_types_and_listing() {
    assert!(CrateType::Workspace.is_workspace());
    assert!(!CrateType::Library.is_workspace());
    assert!(!CrateType::Rust.is_workspace());
    let info = |crate_type: CrateType, used_by: Vec<&str>| CrateInfo {
        crate_type,
        version: None,
        description: None,
        dev_dep: false,
        name: "x".to_string(),
        default_crate: false,
        used_by: used_by.into_iter().map(String::from).collect(),
    };
    assert!(info(CrateType::Library, vec![]).is_listed_for(None));
    assert!(info(CrateType::Workspace, vec![]).is_listed_for(Some("crate-a")));
    assert!(info(CrateType::Rust, vec![]).is_listed_for(Some("crate-a")));
    assert!(info(CrateType::Library, vec!["crate-b", "crate-a"]).is_listed_for(Some("crate-a")));
    assert!(!info(CrateType::Library, vec!["crate-b"]).is_listed_for(Some("crate-a")));
    assert!(!info(CrateType::Library, vec![]).is_listed_for(Some("crate-a")));
}

#[test]
fn case_mismatches_are_counted() {
    assert_eq!(case_mismatches("incrementCount", "increment_count"), 0);
    assert_eq!(case_mismatches("teststruct", "TestStruct"), 2);
    assert_eq!(case_mismatches("ABC", "abcdef"), 3);
    assert_eq!(case_mismatches("abc", "abc"), 0);
    assert_eq!(case_mismatches("", "abc"), 0);
    // only ASCII letters have a case here
    assert_eq!(case_mismatches("É", "é"), 0);
    assert_eq!(case_mismatches("@", "`"), 0);
}

#[test]
fn snapshot_is_rebuilt_once() {
    for kind in [CrateType::Workspace, CrateType::Library, CrateType::Rust] {
        for tried in [false, true] {
            assert_eq!(next_step(kind, tried, Probe::Usable), LoadStep::Accept);
            assert_eq!(next_step(kind, tried, Probe::Unreadable), LoadStep::GiveUp);
        }
        assert_eq!(next_step(kind, true, Probe::Outdated), LoadStep::GiveUp);
    }
    assert_eq!(next_step(CrateType::Workspace, false, Probe::Outdated), LoadStep::Rebuild);
    assert_eq!(next_step(CrateType::Library, false, Probe::Outdated), LoadStep::Rebuild);
    assert_eq!(next_step(CrateType::Rust, false, Probe::Outdated), LoadStep::GiveUp);

    assert!(is_stale(None, &vec![]));
    assert!(!is_stale(Some(10), &vec![]));
    assert!(!is_stale(Some(10), &vec![3, 10, 9]));
    assert!(is_stale(Some(10), &vec![3, 11, 9]));

    assert!(header_fits(61, 61, None, None));
    assert!(!header_fits(60, 61, None, None));
    assert!(header_fits(61, 61, Some("1.0.0"), None));
    assert!(header_fits(61, 61, Some("1.0.0"), Some(Some("1.0.0"))));
    assert!(!header_fits(61, 61, Some("1.0.0"), Some(Some("1.0.1"))));
    assert!(!header_fits(61, 61, None, Some(Some("1.0.0"))));
    assert!(!header_fits(61, 61, Some("1.0.0"), Some(None)));
    assert!(header_fits(61, 61, None, Some(None)));
}

#[test]
fn names_joined_to_a_path() {
    assert_eq!(join_names(&vec!["std", "vec", "Vec"], "::"), "std::vec::Vec");
    assert_eq!(join_names(&vec!["alone"], "::"), "alone");
    assert_eq!(join_names(&vec![], "::"), "");
    assert_eq!(join_names(&vec!["", ""], ", "), ", ");
}
