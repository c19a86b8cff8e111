//! The order in which the methods and implementations of an item are shown.
//!
//! The scan that finds them follows the snapshot, not the source. Before they
//! are shown they are put in the order of their declaration: by file, then
//! line, then column. Items without a place in the source come last, by name.

use vstd::prelude::*;
use vstd::seq_lib::to_multiset_insert;
use vstd::string::StringExecFns;
use crate::chars::{chars_of, str_eq};
use crate::project::string_views;
use crate::graph::{views, ItemRef, Node};
use crate::model::{Item, Span};

verus! {

/// Whether `a[from..]` comes before `b[from..]` in the order of a dictionary,
/// character by character code.
pub open spec fn text_lt_from(a: Seq<char>, b: Seq<char>, from: int) -> bool
    decreases a.len() - from,
{
    if from < 0 || from >= b.len() {
        false
    } else if from >= a.len() {
        true
    } else if a[from] != b[from] {
        (a[from] as u32) < (b[from] as u32)
    } else {
        text_lt_from(a, b, from + 1)
    }
}

/// Whether `a` comes before `b` in the order of a dictionary.
pub open spec fn text_lt(a: Seq<char>, b: Seq<char>) -> bool {
    text_lt_from(a, b, 0)
}

/// Where two texts part: the first position at which they differ or at
/// which one of them ends.
pub open spec fn parting(a: Seq<char>, b: Seq<char>, from: int) -> int
    decreases a.len() - from,
{
    if from < 0 || from >= a.len() || from >= b.len() || a[from] != b[from] {
        from
    } else {
        parting(a, b, from + 1)
    }
}

proof fn lemma_parting(a: Seq<char>, b: Seq<char>, from: int)
    requires
        0 <= from <= a.len(),
        from <= b.len(),
    ensures
        from <= parting(a, b, from) <= a.len(),
        parting(a, b, from) <= b.len(),
        forall|k: int| from <= k < parting(a, b, from) ==> a[k] == b[k],
        parting(a, b, from) < a.len() && parting(a, b, from) < b.len() ==> a[parting(a, b, from)]
            != b[parting(a, b, from)],
        text_lt_from(a, b, from) <==> (parting(a, b, from) < b.len() && (parting(a, b, from)
            == a.len() || (a[parting(a, b, from)] as u32) < (b[parting(a, b, from)] as u32))),
    decreases a.len() - from,
{
    if from < a.len() && from < b.len() && a[from] == b[from] {
        lemma_parting(a, b, from + 1);
    }
}

/// The order of a dictionary passes on: what comes before a text comes
/// before all that the text comes before.
pub proof fn lemma_text_lt_transitive(a: Seq<char>, b: Seq<char>, c: Seq<char>)
    requires
        text_lt(a, b),
        text_lt(b, c),
    ensures
        text_lt(a, c),
{
    lemma_parting(a, b, 0);
    lemma_parting(b, c, 0);
    lemma_parting(a, c, 0);
    let p = parting(a, b, 0);
    let q = parting(b, c, 0);
    let r = parting(a, c, 0);
    if p <= q {
        assert(forall|k: int| 0 <= k < p ==> a[k] == c[k]);
        if r < p {
            assert(a[r] == c[r]);
        }
        if p < q {
            if p < a.len() {
                assert(b[p] == c[p]);
            }
            if r > p {
                assert(a[p] == c[p]);
            }
        } else {
            if r > p {
                assert(a[p] == c[p]);
            }
        }
    } else {
        assert(forall|k: int| 0 <= k < q ==> a[k] == c[k]);
        assert(a[q] == b[q]);
        if r < q {
            assert(a[r] == c[r]);
        }
        if r > q {
            assert(a[q] == c[q]);
        }
    }
}

/// Whether one name comes before another: no name before any name, and
/// names in the order of a dictionary.
pub open spec fn name_lt(a: Option<String>, b: Option<String>) -> bool {
    match (a, b) {
        (None, Some(_)) => true,
        (Some(x), Some(y)) => text_lt(x@, y@),
        _ => false,
    }
}

/// Whether one place in the source comes before another.
pub open spec fn span_lt(a: Span, b: Span) -> bool {
    text_lt(a.file@, b.file@) || (a.file@ == b.file@ && (a.line < b.line || (a.line == b.line
        && a.column < b.column)))
}

/// Whether the item `a` is shown before the item `b`.
pub open spec fn shown_before(a: Item, b: Item) -> bool {
    match (a.span, b.span) {
        (Some(x), Some(y)) => span_lt(x, y),
        (Some(_), None) => true,
        (None, Some(_)) => false,
        (None, None) => name_lt(a.name, b.name),
    }
}

/// The order of showing passes on.
pub proof fn lemma_shown_before_transitive(a: Item, b: Item, c: Item)
    requires
        shown_before(a, b),
        shown_before(b, c),
    ensures
        shown_before(a, c),
{
    match (a.span, b.span, c.span) {
        (Some(x), Some(y), Some(z)) => {
            if text_lt(x.file@, y.file@) && text_lt(y.file@, z.file@) {
                lemma_text_lt_transitive(x.file@, y.file@, z.file@);
            }
        },
        (None, None, None) => {
            match (a.name, b.name, c.name) {
                (Some(x), Some(y), Some(z)) => {
                    lemma_text_lt_transitive(x@, y@, z@);
                },
                _ => {},
            }
        },
        _ => {},
    }
}

/// No text comes before itself.
pub proof fn lemma_text_lt_irreflexive(a: Seq<char>)
    ensures
        !text_lt(a, a),
{
    lemma_parting(a, a, 0);
}

/// No item is shown before itself.
pub proof fn lemma_shown_before_irreflexive(a: Item)
    ensures
        !shown_before(a, a),
{
    match a.span {
        Some(x) => {
            lemma_text_lt_irreflexive(x.file@);
        },
        None => match a.name {
            Some(n) => {
                lemma_text_lt_irreflexive(n@);
            },
            None => {},
        },
    }
}

/// Whether the node `a` is shown before the node `b`.
pub open spec fn node_before(a: Node, b: Node) -> bool {
    shown_before(a.item(), b.item())
}

/// No node stands after one that is shown after it.
pub open spec fn in_order(s: Seq<Node>) -> bool {
    forall|i: int, j: int| 0 <= i < j < s.len() ==> !node_before(s[j], s[i])
}

/// Where `x` goes among `s[from..]`: before the first node that it is shown
/// before.
pub open spec fn place(s: Seq<Node>, x: Node, from: int) -> int
    decreases s.len() - from,
{
    if from < 0 || from >= s.len() {
        s.len() as int
    } else if node_before(x, s[from]) {
        from
    } else {
        place(s, x, from + 1)
    }
}

/// The nodes in the order of showing. Nodes of which neither is shown
/// before the other keep the order in which they came.
pub open spec fn arranged(s: Seq<Node>) -> Seq<Node>
    decreases s.len(),
{
    if s.len() == 0 {
        Seq::empty()
    } else {
        let rest = arranged(s.drop_last());
        rest.insert(place(rest, s.last(), 0), s.last())
    }
}

proof fn lemma_place(s: Seq<Node>, x: Node, from: int)
    requires
        0 <= from <= s.len(),
    ensures
        from <= place(s, x, from) <= s.len(),
        forall|k: int| from <= k < place(s, x, from) ==> !node_before(x, s[k]),
        place(s, x, from) < s.len() ==> node_before(x, s[place(s, x, from)]),
    decreases s.len() - from,
{
    if from < s.len() && !node_before(x, s[from]) {
        lemma_place(s, x, from + 1);
    }
}

/// The arranged nodes are the same nodes, and they stand in order.
#[verifier::rlimit(40)]
pub proof fn lemma_arranged(s: Seq<Node>)
    ensures
        arranged(s).len() == s.len(),
        arranged(s).to_multiset() == s.to_multiset(),
        in_order(arranged(s)),
    decreases s.len(),
{
    if s.len() == 0 {
        assert(s =~= Seq::empty());
    } else {
        let front = s.drop_last();
        let x = s.last();
        lemma_arranged(front);
        let rest = arranged(front);
        lemma_place(rest, x, 0);
        let p = place(rest, x, 0);
        let out = rest.insert(p, x);
        to_multiset_insert(rest, p, x);
        assert(s =~= front.push(x));
        assert(front.push(x) =~= front.insert(front.len() as int, x));
        to_multiset_insert(front, front.len() as int, x);
        assert forall|i: int, j: int| 0 <= i < j < out.len() implies !node_before(
            out[j],
            out[i],
        ) by {
            if j == p {
                assert(out[i] == rest[i]);
                assert(out[j] == x);
                assert(!node_before(x, rest[i]));
            } else if i == p {
                assert(out[i] == x);
                assert(out[j] == rest[j - 1]);
                assert(node_before(x, rest[p]));
                if j - 1 > p {
                    assert(!node_before(rest[j - 1], rest[p]));
                }
                lemma_shown_before_irreflexive(rest[p].item());
                if node_before(rest[j - 1], x) {
                    lemma_shown_before_transitive(rest[j - 1].item(), x.item(), rest[p].item());
                }
            } else {
                let a = if i < p {
                    i
                } else {
                    i - 1
                };
                let b = if j < p {
                    j
                } else {
                    j - 1
                };
                assert(out[i] == rest[a] && out[j] == rest[b]);
                assert(!node_before(rest[b], rest[a]));
            }
        }
    }
}

/// Compares two texts in the order of a dictionary.
pub fn text_before(a: &str, b: &str) -> (r: bool)
    ensures
        r == text_lt(a@, b@),
{
    let xs = chars_of(a);
    let ys = chars_of(b);
    let mut i: usize = 0;
    while i < xs.len() && i < ys.len()
        invariant
            i <= xs@.len(),
            i <= ys@.len(),
            xs@ == a@,
            ys@ == b@,
            text_lt(a@, b@) == text_lt_from(a@, b@, i as int),
        decreases xs@.len() - i,
    {
        if xs[i] != ys[i] {
            return (xs[i] as u32) < (ys[i] as u32);
        }
        i += 1;
    }
    i < ys.len()
}

/// Whether the item `a` is shown before the item `b`.
pub fn comes_before(a: &Item, b: &Item) -> (r: bool)
    ensures
        r == shown_before(*a, *b),
{
    match (&a.span, &b.span) {
        (Some(x), Some(y)) => {
            if text_before(x.file.as_str(), y.file.as_str()) {
                true
            } else if str_eq(x.file.as_str(), y.file.as_str()) {
                x.line < y.line || (x.line == y.line && x.column < y.column)
            } else {
                false
            }
        },
        (Some(_), None) => true,
        (None, Some(_)) => false,
        (None, None) => match (&a.name, &b.name) {
            (None, Some(_)) => true,
            (Some(x), Some(y)) => text_before(x.as_str(), y.as_str()),
            _ => false,
        },
    }
}

/// Puts items in the order in which they are shown: by file, line and
/// column of their declaration, then the items without a place, by name.
#[verifier::rlimit(40)]
pub fn sort_by_location<'a>(items: &Vec<ItemRef<'a>>) -> (r: Vec<ItemRef<'a>>)
    ensures
        views(r@) == arranged(views(items@)),
        in_order(views(r@)),
        views(r@).to_multiset() == views(items@).to_multiset(),
        r@.len() == items@.len(),
{
    let mut out: Vec<ItemRef<'a>> = Vec::new();
    let mut i: usize = 0;
    assert(views(items@).take(0) =~= Seq::<Node>::empty());
    assert(views(out@) =~= Seq::<Node>::empty());
    while i < items.len()
        invariant
            i <= items@.len(),
            out@.len() == i,
            views(out@) == arranged(views(items@).take(i as int)),
        decreases items@.len() - i,
    {
        let x = items[i];
        let ghost done = views(out@);
        let mut p: usize = 0;
        while p < out.len() && !comes_before(x.item(), out[p].item())
            invariant
                p <= out@.len(),
                done == views(out@),
                place(done, x@, 0) == place(done, x@, p as int),
            decreases out@.len() - p,
        {
            assert(done[p as int] == out@[p as int]@);
            p += 1;
        }
        proof {
            if p < out@.len() {
                assert(done[p as int] == out@[p as int]@);
            }
            assert(p == place(done, x@, 0));
        }
        out.insert(p, x);
        proof {
            let upto = views(items@).take(i + 1);
            assert(upto.drop_last() =~= views(items@).take(i as int));
            assert(upto.last() == x@);
            assert(views(out@) =~= done.insert(p as int, x@));
        }
        i += 1;
    }
    proof {
        assert(views(items@).take(i as int) =~= views(items@));
        lemma_arranged(views(items@));
    }
    out
}

/// Where the text `x` goes among `s[from..]`: before the first text that it
/// comes before.
pub open spec fn text_place(s: Seq<Seq<char>>, x: Seq<char>, from: int) -> int
    decreases s.len() - from,
{
    if from < 0 || from >= s.len() {
        s.len() as int
    } else if text_lt(x, s[from]) {
        from
    } else {
        text_place(s, x, from + 1)
    }
}

/// The texts in the order of a dictionary.
pub open spec fn texts_arranged(s: Seq<Seq<char>>) -> Seq<Seq<char>>
    decreases s.len(),
{
    if s.len() == 0 {
        Seq::empty()
    } else {
        let rest = texts_arranged(s.drop_last());
        rest.insert(text_place(rest, s.last(), 0), s.last())
    }
}

/// No text stands after one that comes after it.
pub open spec fn texts_in_order(s: Seq<Seq<char>>) -> bool {
    forall|i: int, j: int| 0 <= i < j < s.len() ==> !text_lt(s[j], s[i])
}

proof fn lemma_text_place(s: Seq<Seq<char>>, x: Seq<char>, from: int)
    requires
        0 <= from <= s.len(),
    ensures
        from <= text_place(s, x, from) <= s.len(),
        forall|k: int| from <= k < text_place(s, x, from) ==> !text_lt(x, s[k]),
        text_place(s, x, from) < s.len() ==> text_lt(x, s[text_place(s, x, from)]),
    decreases s.len() - from,
{
    if from < s.len() && !text_lt(x, s[from]) {
        lemma_text_place(s, x, from + 1);
    }
}

/// The arranged texts are the same texts, and they stand in order.
pub proof fn lemma_texts_arranged(s: Seq<Seq<char>>)
    ensures
        texts_arranged(s).len() == s.len(),
        texts_arranged(s).to_multiset() == s.to_multiset(),
        texts_in_order(texts_arranged(s)),
    decreases s.len(),
{
    if s.len() == 0 {
        assert(s =~= Seq::empty());
    } else {
        let front = s.drop_last();
        let x = s.last();
        lemma_texts_arranged(front);
        let rest = texts_arranged(front);
        lemma_text_place(rest, x, 0);
        let p = text_place(rest, x, 0);
        let out = rest.insert(p, x);
        to_multiset_insert(rest, p, x);
        assert(s =~= front.push(x));
        assert(front.push(x) =~= front.insert(front.len() as int, x));
        to_multiset_insert(front, front.len() as int, x);
        assert forall|i: int, j: int| 0 <= i < j < out.len() implies !text_lt(out[j], out[i]) by {
            if j == p {
                assert(out[i] == rest[i]);
                assert(out[j] == x);
            } else if i == p {
                assert(out[i] == x);
                assert(out[j] == rest[j - 1]);
                if j - 1 > p {
                    assert(!text_lt(rest[j - 1], rest[p]));
                }
                lemma_text_lt_irreflexive(rest[p]);
                if text_lt(rest[j - 1], x) {
                    lemma_text_lt_transitive(rest[j - 1], x, rest[p]);
                }
            } else {
                let a = if i < p {
                    i
                } else {
                    i - 1
                };
                let b = if j < p {
                    j
                } else {
                    j - 1
                };
                assert(out[i] == rest[a] && out[j] == rest[b]);
                assert(!text_lt(rest[b], rest[a]));
            }
        }
    }
}

/// Puts texts in the order of a dictionary.
#[verifier::rlimit(40)]
pub fn sort_texts(texts: &Vec<String>) -> (r: Vec<String>)
    ensures
        string_views(r@) == texts_arranged(string_views(texts@)),
        texts_in_order(string_views(r@)),
        r@.len() == texts@.len(),
{
    let ghost all = string_views(texts@);
    let mut out: Vec<String> = Vec::new();
    let mut i: usize = 0;
    assert(all.take(0) =~= Seq::<Seq<char>>::empty());
    assert(string_views(out@) =~= Seq::<Seq<char>>::empty());
    while i < texts.len()
        invariant
            i <= texts@.len(),
            all == string_views(texts@),
            out@.len() == i,
            string_views(out@) == texts_arranged(all.take(i as int)),
        decreases texts@.len() - i,
    {
        let x = texts[i].as_str();
        let ghost done = string_views(out@);
        let mut p: usize = 0;
        while p < out.len() && !text_before(x, out[p].as_str())
            invariant
                p <= out@.len(),
                done == string_views(out@),
                text_place(done, x@, 0) == text_place(done, x@, p as int),
            decreases out@.len() - p,
        {
            assert(done[p as int] == out@[p as int]@);
            p += 1;
        }
        proof {
            if p < out@.len() {
                assert(done[p as int] == out@[p as int]@);
            }
        }
        out.insert(p, String::from_str(x));
        proof {
            let upto = all.take(i + 1);
            assert(upto.drop_last() =~= all.take(i as int));
            assert(upto.last() == x@);
            assert(string_views(out@) =~= done.insert(p as int, x@));
        }
        i += 1;
    }
    proof {
        assert(all.take(i as int) =~= all);
        lemma_texts_arranged(all);
    }
    out
}

} // verus!
