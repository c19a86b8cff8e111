use docgraph::graph::ItemRef;
use docgraph::hashing::hash_term;
use docgraph::indexer::{
    cache_action, group_by_document, index_file_name, CacheAction, Match, Part, Posting,
    SearchIndex, SearchableTerms, TermEntry, Terms,
};
use docgraph::model::{
    Alias, ImplBlock, Item, ItemPayload, Snapshot, StructKind, Visibility,
};
use docgraph::names::ProjectNames;
use docgraph::ranking::rank_descending;
use docgraph::request::{RequestContext, Step};

fn item(id: u32, name: Option<&str>, docs: Option<&str>, payload: ItemPayload) -> Item {
    Item { id, name: name.map(String::from), docs: docs.map(String::from), visibility: Visibility::Public, span: None, payload }
}

fn names() -> ProjectNames {
    ProjectNames {
        available: vec!["demo".to_string(), "other".to_string()],
        workspace_members: 1,
        default_package: Some("demo".to_string()),
    }
}

fn done<T>(step: Step<T>) -> T {
    match step {
        Step::Done(x) => x,
        Step::Load(c) => panic!("asks for {c}"),
    }
}

fn demo() -> Snapshot {
    let items = vec![
        item(0, Some("demo"), Some("A demo package."), ItemPayload::Module(vec![1, 2, 7, 8])),
        item(1, Some("outer"), None, ItemPayload::Module(vec![3])),
        item(2, Some("Widget"), Some("A widget holds gears."), ItemPayload::Struct(
            StructKind::Plain(vec![5]),
        )),
        item(3, Some("inner"), None, ItemPayload::Module(vec![4, 7])),
        item(4, Some("deep_gear"), Some("Gear of gears"), ItemPayload::Function(String::new())),
        item(5, Some("gear_count"), Some("How many gears."), ItemPayload::StructField),
        item(6, None, None, ItemPayload::Impl(ImplBlock {
            target: Some(2),
            interface: None,
            items: vec![9],
        })),
        item(7, Some("Shared"), Some("Reached twice."), ItemPayload::Struct(StructKind::Unit)),
        item(8, Some("Shape"), None, ItemPayload::Trait(vec![10, 11])),
        item(9, Some("spin"), None, ItemPayload::Function(String::new())),
        item(10, Some("area"), None, ItemPayload::Function(String::new())),
        item(11, Some("outline"), None, ItemPayload::Function(String::new())),
    ];
    Snapshot::new("demo".to_string(), items, 0).unwrap()
}

fn build(ctx: &RequestContext, path: &str) -> SearchIndex {
    match done(SearchIndex::build(ctx, path)) {
        Ok(index) => index,
        Err(_) => panic!("the path names nothing"),
    }
}

fn path_of(index: &SearchIndex, doc: usize) -> Vec<u32> {
    index.searchable().path(doc).unwrap().clone()
}

fn docs_for(index: &SearchIndex, query: &str) -> Vec<Vec<u32>> {
    index.search(query).iter().map(|m| path_of(index, m.doc)).collect()
}

#[test]
fn shorter_path_wins() {
    let ctx = RequestContext::new(names()).provide(demo());
    let index = build(&ctx, "crate");
    // `Shared` is met below outer::inner and at the root: the root wins,
    // though the module that leads to the longer path is declared first
    assert_eq!(docs_for(&index, "shared"), vec![vec![7]]);
    assert_eq!(docs_for(&index, "deep"), vec![vec![1, 3, 4]]);
}

#[test]
fn shorter_path_wins_in_either_order() {
    let mut snapshot_items = vec![
        item(0, Some("demo"), None, ItemPayload::Module(vec![7, 1])),
        item(1, Some("outer"), None, ItemPayload::Module(vec![3])),
        item(3, Some("inner"), None, ItemPayload::Module(vec![7])),
        item(7, Some("Shared"), None, ItemPayload::Struct(StructKind::Unit)),
    ];
    let first = Snapshot::new("demo".to_string(), snapshot_items.clone(), 0).unwrap();
    snapshot_items[0] = item(0, Some("demo"), None, ItemPayload::Module(vec![1, 7]));
    let second = Snapshot::new("demo".to_string(), snapshot_items, 0).unwrap();
    for snapshot in [first, second] {
        let ctx = RequestContext::new(names()).provide(snapshot);
        let index = build(&ctx, "demo");
        assert_eq!(docs_for(&index, "Shared"), vec![vec![7]]);
        assert_eq!(index.searchable().document_count(), 4);
    }
}

#[test]
fn every_item_is_one_document() {
    let ctx = RequestContext::new(names()).provide(demo());
    let index = build(&ctx, "crate");
    // root, outer, Widget, Shared, Shape, inner, spin, deep_gear: fields and
    // associated items are filed under their owners
    assert_eq!(index.searchable().document_count(), 8);
    assert_eq!(index.crate_name(), "demo");
    assert_eq!(path_of(&index, 0), Vec::<u32>::new());
    assert_eq!(path_of(&index, 1), vec![1]);
    assert_eq!(path_of(&index, 2), vec![2]);
}

#[test]
fn raw_frequencies() {
    let ctx = RequestContext::new(names()).provide(demo());
    let index = build(&ctx, "crate");
    // "gear": Widget has it once in its own text, once in the name and once
    // in the text of its field; deep_gear once in its name and twice in its
    // text
    let hits = index.search("gear");
    assert_eq!(
        hits,
        vec![
            Match { doc: 2, tf: 1 + 2 + 1, df: 2 },
            Match { doc: 7, tf: 2 + 1 + 1, df: 2 },
        ]
    );
    // a token of the name counts twice, one of the text once
    assert_eq!(index.search("widget"), vec![Match { doc: 2, tf: 2 + 1, df: 1 }]);
    assert_eq!(index.search("reached"), vec![Match { doc: 3, tf: 1, df: 1 }]);
    assert_eq!(path_of(&index, 2), vec![2]);
    assert_eq!(path_of(&index, 7), vec![1, 3, 4]);
    // the associated items of an interface count for the interface
    assert_eq!(docs_for(&index, "outline"), vec![vec![8]]);
    assert_eq!(docs_for(&index, "area"), vec![vec![8]]);
    assert_eq!(index.search("outline")[0].tf, 2);
}

#[test]
fn query_terms_add_up() {
    let ctx = RequestContext::new(names()).provide(demo());
    let index = build(&ctx, "crate");
    let both = index.search("widget spin");
    assert_eq!(both.len(), 2);
    assert_eq!(path_of(&index, both[0].doc), vec![2]);
    assert_eq!(path_of(&index, both[1].doc), vec![2, 9]);
    // a term asked for twice is found twice
    assert_eq!(index.search("spin spin").len(), 2);
    // case is ignored
    assert_eq!(index.search("WIDGET"), index.search("widget"));
}

#[test]
fn absent_term_finds_nothing() {
    let ctx = RequestContext::new(names()).provide(demo());
    let index = build(&ctx, "crate");
    assert!(index.search("nonexistent").is_empty());
    assert!(index.search("").is_empty());
    assert!(index.search("a b").is_empty());
}

#[test]
fn stored_index_gives_the_same_results() {
    let ctx = RequestContext::new(names()).provide(demo());
    let fresh = build(&ctx, "crate");
    let (entries, ids) = build(&ctx, "crate").into_terms().into_parts();
    let stored: Vec<(u64, Vec<(usize, u64)>)> = entries
        .iter()
        .map(|e| (e.key, e.postings.iter().map(|p| (p.doc, p.tf)).collect()))
        .collect();
    let entries: Vec<TermEntry> = stored
        .into_iter()
        .map(|(key, postings)| TermEntry {
            key,
            postings: postings.into_iter().map(|(doc, tf)| Posting { doc, tf }).collect(),
        })
        .collect();
    let loaded = SearchableTerms::from_parts(entries, ids).expect("the parts make an index");
    let loaded = SearchIndex::from_terms("demo".to_string(), loaded);
    for query in ["gear", "widget spin", "demo", "Shared shape", "nothing"] {
        assert_eq!(loaded.search(query), fresh.search(query));
    }
    assert_eq!(
        loaded.searchable().document_count(),
        fresh.searchable().document_count()
    );
}

#[test]
fn parts_that_make_no_index() {
    let entry = |key: u64, docs: Vec<usize>| TermEntry {
        key,
        postings: docs.into_iter().map(|doc| Posting { doc, tf: 1 }).collect(),
    };
    let ids = || vec![vec![], vec![1]];
    assert!(SearchableTerms::from_parts(vec![entry(1, vec![0, 1])], ids()).is_some());
    assert!(SearchableTerms::from_parts(vec![], vec![]).is_some());
    // a document that the index does not hold
    assert!(SearchableTerms::from_parts(vec![entry(1, vec![0, 2])], ids()).is_none());
    // documents out of order, or twice
    assert!(SearchableTerms::from_parts(vec![entry(1, vec![1, 0])], ids()).is_none());
    assert!(SearchableTerms::from_parts(vec![entry(1, vec![1, 1])], ids()).is_none());
    // a term with two entries
    assert!(
        SearchableTerms::from_parts(vec![entry(1, vec![0]), entry(1, vec![1])], ids()).is_none()
    );
}

#[test]
fn search_by_term_key() {
    let entries = vec![TermEntry {
        key: hash_term("gear"),
        postings: vec![Posting { doc: 0, tf: 3 }],
    }];
    let index = SearchableTerms::from_parts(entries, vec![vec![4, 2]]).unwrap();
    assert_eq!(index.search("Gears"), vec![Match { doc: 0, tf: 3, df: 1 }]);
    assert_eq!(index.path(0), Some(&vec![4, 2]));
    assert_eq!(index.path(1), None);
}

#[test]
fn walk_stops_at_the_limit() {
    let ctx = RequestContext::new(names()).provide(demo());
    let root = done(ctx.resolve_path("crate", &mut vec![])).unwrap();
    let none = done(Terms::walk_graph(&ctx, root, 0)).finalize();
    assert_eq!(none.document_count(), 0);
    let top = done(Terms::walk_graph(&ctx, root, 1)).finalize();
    assert_eq!(top.document_count(), 1);
    let two = done(Terms::walk_graph(&ctx, root, 2)).finalize();
    assert_eq!(two.document_count(), 5);
    let all = done(Terms::walk_graph(&ctx, root, usize::MAX)).finalize();
    assert_eq!(all.document_count(), 8);
}

#[test]
fn index_of_an_unknown_package() {
    let ctx = RequestContext::new(names()).provide(demo());
    match done(SearchIndex::build(&ctx, "dmeo")) {
        Ok(_) => panic!("no such package"),
        Err(guesses) => {
            let paths: Vec<&str> = guesses.iter().map(|g| g.path()).collect();
            assert_eq!(paths, vec!["demo", "other"]);
        }
    }
    let empty = RequestContext::new(names());
    assert!(matches!(SearchIndex::build(&empty, "crate"), Step::Load(_)));
}

#[test]
fn walk_through_an_alias_into_another_package() {
    let home = Snapshot::new(
        "demo".to_string(),
        vec![
            item(0, Some("demo"), None, ItemPayload::Module(vec![1])),
            item(1, None, None, ItemPayload::Use(Alias {
                source: "other::Thing".to_string(),
                name: "Borrowed".to_string(),
                target: None,
                is_glob: false,
            })),
        ],
        0,
    )
    .unwrap();
    let other = Snapshot::new(
        "other".to_string(),
        vec![
            item(0, Some("other"), None, ItemPayload::Module(vec![1])),
            item(1, Some("Thing"), Some("The real thing."), ItemPayload::Struct(StructKind::Unit)),
        ],
        0,
    )
    .unwrap();
    let ctx = RequestContext::new(names()).provide(home);
    match SearchIndex::build(&ctx, "crate") {
        Step::Load(name) => assert_eq!(name, "other"),
        Step::Done(_) => panic!("the other package is not loaded"),
    }
    let ctx = ctx.provide(other);
    let index = build(&ctx, "crate");
    // the alias and its target are two documents; the target is filed
    // under the alias's name, by the ids of the alias and of the target
    assert_eq!(index.searchable().document_count(), 3);
    assert_eq!(docs_for(&index, "borrowed"), vec![vec![1, 1]]);
    assert_eq!(docs_for(&index, "real"), vec![vec![1, 1]]);
    let (found, names) = done(ctx.get_item_from_id_path("crate", &vec![1, 1])).unwrap();
    assert_eq!(found.name(), Some("Thing"));
    assert_eq!(names, vec!["demo", "Thing"]);
    let _ = ItemRef::root(found.snapshot());
}

#[test]
fn stored_index_freshness() {
    assert_eq!(cache_action(Some(10), Some(10)), CacheAction::Read);
    assert_eq!(cache_action(Some(11), Some(10)), CacheAction::Read);
    assert_eq!(cache_action(Some(9), Some(10)), CacheAction::Replace);
    assert_eq!(cache_action(None, Some(10)), CacheAction::Build);
    assert_eq!(cache_action(Some(10), None), CacheAction::Build);
    assert_eq!(cache_action(None, None), CacheAction::Build);
}

#[test]
fn index_file_names() {
    assert_eq!(index_file_name("serde-json"), "serde_json.index");
    assert_eq!(index_file_name("a-b-c"), "a_b_c.index");
    assert_eq!(index_file_name("plain"), "plain.index");
    assert_eq!(index_file_name(""), ".index");
}

fn weight(tf: u64, df: usize, documents: usize) -> f32 {
    (1.0 + (tf as f32).ln()) * (documents as f32 / df as f32).ln()
}

fn key(score: f32) -> u64 {
    let bits = (score as f64).to_bits() as i64;
    let ordered = bits ^ ((((bits >> 63) as u64) >> 1) as i64);
    (ordered as u64) ^ (1 << 63)
}

#[test]
fn results_ranked_by_score() {
    let ctx = RequestContext::new(names()).provide(demo());
    let index = build(&ctx, "crate");
    let documents = index.searchable().document_count();
    assert_eq!(documents, 8);
    // the scores of the postings of each document add up
    let scored: Vec<(usize, f32)> = group_by_document(&index.search("gear widget deep"))
        .iter()
        .map(|group| {
            let total = group
                .parts
                .iter()
                .fold(0.0, |sum, part| sum + weight(part.tf, part.df, documents));
            (group.doc, total)
        })
        .collect();
    // Widget: "gear" 4 times in 2 of 8 documents, "widget" 3 times in 1
    let widget = (1.0 + 4f32.ln()) * 4f32.ln() + (1.0 + 3f32.ln()) * 8f32.ln();
    // deep_gear: "gear" 4 times in 2 documents, "deep" twice in 1
    let deep = (1.0 + 4f32.ln()) * 4f32.ln() + (1.0 + 2f32.ln()) * 8f32.ln();
    assert_eq!(scored, vec![(2, widget), (7, deep)]);
    assert!((widget - 7.672_048).abs() < 1e-4);
    assert!((deep - 6.828_908).abs() < 1e-4);
    let keys: Vec<u64> = scored.iter().map(|(_, score)| key(*score)).collect();
    let ranked: Vec<Vec<u32>> = rank_descending(&keys)
        .into_iter()
        .map(|entry| path_of(&index, scored[entry].0))
        .collect();
    assert_eq!(ranked, vec![vec![2], vec![1, 3, 4]]);
}

#[test]
fn postings_grouped_by_document() {
    let found = |doc: usize, tf: u64, df: usize| Match { doc, tf, df };
    let matches = vec![
        found(5, 1, 3),
        found(2, 4, 3),
        found(9, 2, 3),
        found(2, 7, 1),
        found(5, 1, 2),
        found(0, 3, 9),
        found(2, 4, 3),
    ];
    let groups: Vec<(usize, Vec<Part>)> =
        group_by_document(&matches).into_iter().map(|g| (g.doc, g.parts)).collect();
    let part = |tf: u64, df: usize| Part { tf, df };
    assert_eq!(
        groups,
        vec![
            (0, vec![part(3, 9)]),
            (2, vec![part(4, 3), part(7, 1), part(4, 3)]),
            (5, vec![part(1, 3), part(1, 2)]),
            (9, vec![part(2, 3)]),
        ]
    );
    assert!(group_by_document(&vec![]).is_empty());
}

#[test]
fn the_walk_asks_for_what_it_needs() {
    // nothing is asked for that no item on a walk from the root needs
    let ctx = RequestContext::new(names()).provide(demo());
    assert!(matches!(SearchIndex::build(&ctx, "crate"), Step::Done(Ok(_))));
    let root = done(ctx.resolve_path("crate", &mut vec![])).unwrap();
    assert!(matches!(Terms::walk_graph(&ctx, root, usize::MAX), Step::Done(_)));
}
