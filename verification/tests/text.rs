use docgraph::chars::chars_of;
use docgraph::documentation::{
    docs_to_show, first_line, first_text_span, shapes, truncate_to_paragraph_or_lines, Shape,
};
use docgraph::graph::ItemRef;
use docgraph::model::{Item, ItemPayload, Snapshot, Span, Visibility};
use docgraph::order::{comes_before, sort_by_location, text_before};
use docgraph::verbosity::Verbosity;

const TEXTS: [&str; 14] = [
    "",
    "one line",
    "one line\n",
    "first\nsecond\nthird",
    "first paragraph\n\nsecond paragraph\n\nthird paragraph",
    "a\n\nb\n\nc\n\nd",
    "\n\n\n\n",
    "\n\nlate",
    "no second\n\nbreak here",
    "windows\r\nline\r\n\r\nends",
    "   \n\t\n  indented text  \nmore",
    "1\n2\n3\n4\n5\n6\n7\n8\n9\n10\n11\n12\n13\n14\n15\n16\n17\n18\n19\n20",
    "1\n2\n3\n4\n5\n6\n7\n8\n9\n10\n11\n12\n13\n14\n15\n16\n17\n\n18\n\n19",
    "short\n\nstill short\n\nthe rest\nof the text",
];

fn count(text: &str) -> usize {
    text.lines().count()
}

fn cut(text: &str, max_lines: usize) -> String {
    if let Some(first_break) = text.find("\n\n") {
        let after = &text[first_break + 2..];
        if let Some(offset) = after.find("\n\n") {
            let section = &text[..first_break + 2 + offset];
            if count(section) <= max_lines {
                return section.to_string();
            }
        }
    }
    let lines: Vec<&str> = text.lines().collect();
    lines[..max_lines.min(lines.len())].join("\n")
}

#[test]
fn truncation_by_paragraph_or_lines() {
    for text in TEXTS {
        for max_lines in [0, 1, 2, 3, 16] {
            assert_eq!(
                truncate_to_paragraph_or_lines(text, max_lines),
                cut(text, max_lines),
                "{text:?} cut to {max_lines}"
            );
        }
    }
    assert_eq!(
        truncate_to_paragraph_or_lines("first paragraph\n\nsecond paragraph\n\nthird", 16),
        "first paragraph\n\nsecond paragraph"
    );
    assert_eq!(truncate_to_paragraph_or_lines("a\nb\nc", 2), "a\nb");
}

#[test]
fn first_line_with_text() {
    for text in TEXTS {
        let expected = text
            .lines()
            .find(|line| !line.trim().is_empty())
            .map(|line| line.trim().to_string());
        assert_eq!(first_line(text), expected, "{text:?}");
    }
    assert_eq!(first_line("  \n\u{a0} padded \u{2003}\nnext"), Some("padded".to_string()));
}

#[test]
fn docs_shown_by_verbosity() {
    let long = TEXTS[11];
    assert_eq!(docs_to_show(None, false, Verbosity::Full), None);
    assert_eq!(docs_to_show(Some(""), false, Verbosity::Full), None);
    assert_eq!(docs_to_show(Some("text"), false, Verbosity::Minimal), None);
    assert_eq!(docs_to_show(Some("text"), true, Verbosity::Minimal), None);
    assert_eq!(docs_to_show(Some(long), false, Verbosity::Full), Some(long.to_string()));
    assert_eq!(
        docs_to_show(Some(long), false, Verbosity::Brief),
        Some("1\n2\n3\n4\n5\n6\n7\n8\n9\n10\n11\n12\n13\n14\n15\n16\n[+4 lines elided]".to_string())
    );
    assert_eq!(
        docs_to_show(Some("short\ntext"), false, Verbosity::Brief),
        Some("short\ntext".to_string())
    );
    assert_eq!(
        docs_to_show(Some(TEXTS[13]), false, Verbosity::Brief),
        Some("short\n\nstill short\n[+3 lines elided]".to_string())
    );
}

#[test]
fn docs_shown_in_a_listing() {
    assert_eq!(
        docs_to_show(Some("  First line.  \nSecond.\nThird."), true, Verbosity::Full),
        Some("First line. [+2 more lines]".to_string())
    );
    assert_eq!(
        docs_to_show(Some("Only line."), true, Verbosity::Brief),
        Some("Only line.".to_string())
    );
    assert_eq!(docs_to_show(Some("  \n \n"), true, Verbosity::Brief), None);
    assert_eq!(
        docs_to_show(Some("\n\nlate"), true, Verbosity::Brief),
        Some("late [+2 more lines]".to_string())
    );
}

#[test]
fn texts_in_dictionary_order() {
    let words = ["", "a", "ab", "abc", "abd", "b", "B", "é", "z", "src/lib.rs", "src/main.rs"];
    for a in words {
        for b in words {
            assert_eq!(text_before(a, b), a < b, "{a:?} before {b:?}");
        }
    }
}

fn located(id: u32, name: Option<&str>, place: Option<(&str, usize, usize)>) -> Item {
    Item {
        id,
        name: name.map(String::from),
        visibility: Visibility::Public,
        docs: None,
        span: place.map(|(file, line, column)| Span { file: file.to_string(), line, column }),
        payload: ItemPayload::Function(String::new()),
    }
}

#[test]
fn items_in_order_of_declaration() {
    let items = vec![
        located(1, Some("zeta"), None),
        located(2, Some("late"), Some(("src/lib.rs", 40, 5))),
        located(3, None, None),
        located(4, Some("other_file"), Some(("src/a.rs", 90, 1))),
        located(5, Some("early"), Some(("src/lib.rs", 7, 5))),
        located(6, Some("alpha"), None),
        located(7, Some("same_line"), Some(("src/lib.rs", 40, 1))),
        located(8, Some("twin"), Some(("src/lib.rs", 7, 5))),
        located(9, Some("alpha"), None),
    ];
    let snapshot = Snapshot::new("demo".to_string(), items, 1).unwrap();
    let all: Vec<ItemRef<'_>> = (1..=9).map(|id| ItemRef::lookup(&snapshot, id).unwrap()).collect();
    let sorted: Vec<u32> = sort_by_location(&all).iter().map(|x| x.id()).collect();
    // by file, line and column; then the items without a place, the nameless
    // one first; items that compare alike keep their order
    assert_eq!(sorted, vec![4, 5, 8, 7, 2, 3, 6, 9, 1]);
    assert!(sort_by_location(&vec![]).is_empty());
    assert!(comes_before(all[4].item(), all[1].item()));
    assert!(!comes_before(all[1].item(), all[4].item()));
    assert!(comes_before(all[1].item(), all[0].item()));
    assert!(!comes_before(all[5].item(), all[8].item()));
}

#[test]
fn first_line_by_the_shapes_of_characters() {
    let text = Shape { feed: false, ret: false, space: false };
    let space = Shape { feed: false, ret: false, space: true };
    let feed = Shape { feed: true, ret: false, space: true };
    let ret = Shape { feed: false, ret: true, space: true };
    // "  \n ab c \r\nd"
    let line = vec![space, space, feed, space, text, text, space, text, space, ret, feed, text];
    assert_eq!(first_text_span(&line), Some((4, 8)));
    assert_eq!(first_text_span(&vec![space, feed, ret, feed, space]), None);
    assert_eq!(first_text_span(&vec![]), None);
    assert_eq!(first_text_span(&vec![text]), Some((0, 1)));
    // a carriage return that no line feed follows belongs to the line, but
    // not to its text where it counts as white space
    assert_eq!(first_text_span(&vec![text, ret]), Some((0, 1)));
    let odd = Shape { feed: false, ret: true, space: false };
    assert_eq!(first_text_span(&vec![text, odd]), Some((0, 2)));
    assert_eq!(first_text_span(&vec![text, odd, feed]), Some((0, 1)));
}

#[test]
fn shapes_of_characters() {
    let found = shapes(&chars_of("a \n\r\u{a0}"));
    assert_eq!(found[0], Shape { feed: false, ret: false, space: false });
    assert_eq!(found[1], Shape { feed: false, ret: false, space: true });
    assert_eq!(found[2], Shape { feed: true, ret: false, space: true });
    assert_eq!(found[3], Shape { feed: false, ret: true, space: true });
    assert_eq!(found[4], Shape { feed: false, ret: false, space: true });
}
