//! How much of a documentation text is shown, and how much is left out.

use vstd::prelude::*;
use vstd::string::StrSliceExecFns;
use vstd::string::StringExecFns;
use crate::chars::{chars_of, decimal, decimal_of, is_whitespace, whitespace};
use crate::lines::{
    blank_at, count_lines, find_blank, find_break, joined_lines, line_break, line_end,
    lines_from, next_line,
};
use crate::verbosity::Verbosity;

verus! {

/// Information about documentation text with truncation details.
#[derive(Debug)]
pub struct DocInfo {
    /// The truncated documentation text (complete if not truncated).
    pub text: String,
    /// Total number of lines of the whole documentation.
    pub total_lines: usize,
    /// Number of lines included in the truncated text.
    pub displayed_lines: usize,
    /// Whether the documentation was truncated.
    pub is_truncated: bool,
}

/// The note that stands for `n` lines left out.
pub open spec fn elided_note(n: nat) -> Seq<char> {
    "[+"@ + decimal_of(n) + " lines elided]"@
}

impl DocInfo {
    /// The number of lines that were left out.
    pub fn elided_lines(&self) -> (r: usize)
        ensures
            r == if self.total_lines >= self.displayed_lines {
                self.total_lines - self.displayed_lines
            } else {
                0
            },
    {
        if self.total_lines >= self.displayed_lines {
            self.total_lines - self.displayed_lines
        } else {
            0
        }
    }

    /// The note on the lines left out, if any were.
    pub fn elided_indicator(&self) -> (r: Option<String>)
        ensures
            r is Some <==> self.is_truncated,
            r matches Some(s) ==> s@ == elided_note(
                if self.total_lines >= self.displayed_lines {
                    (self.total_lines - self.displayed_lines) as nat
                } else {
                    0
                },
            ),
    {
        if self.is_truncated {
            let mut s = String::from_str("[+");
            s.append(decimal(self.elided_lines()).as_str());
            s.append(" lines elided]");
            Some(s)
        } else {
            None
        }
    }
}

/// The most lines of documentation that the brief form shows.
pub const BRIEF_LINES: usize = 16;

/// Where the second empty line of a text stands.
pub open spec fn second_blank(s: Seq<char>) -> Option<int> {
    match blank_at(s, 0) {
        Some(first) => blank_at(s, first + 2),
        None => None,
    }
}

/// The beginning of a text: all up to its second empty line, where there is
/// one and no more than `max_lines` lines come before it; else its first
/// `max_lines` lines.
pub open spec fn truncated(s: Seq<char>, max_lines: nat) -> Seq<char> {
    match second_blank(s) {
        Some(cut) if lines_from(s.subrange(0, cut), 0) <= max_lines => s.subrange(0, cut),
        _ => joined_lines(s, 0, max_lines),
    }
}

/// What the search for a line of text needs to know of one character.
#[derive(Clone, Copy, Debug, PartialEq, Eq, Structural)]
pub struct Shape {
    /// The character is a line feed.
    pub feed: bool,
    /// The character is a carriage return.
    pub ret: bool,
    /// The character is white space.
    pub space: bool,
}

/// The shape of one character.
pub open spec fn shape_of(c: char) -> Shape {
    Shape { feed: c == '\n', ret: c == '\r', space: whitespace(c) }
}

/// The shape of each character of a text.
pub open spec fn shapes_of(s: Seq<char>) -> Seq<Shape> {
    Seq::new(s.len(), |i: int| shape_of(s[i]))
}

/// The position of the first line feed at or after `from`; the length of the
/// text where there is none.
pub open spec fn feed_at(shapes: Seq<Shape>, from: int) -> int
    decreases shapes.len() - from,
{
    if from < 0 || from >= shapes.len() {
        shapes.len() as int
    } else if shapes[from].feed {
        from
    } else {
        feed_at(shapes, from + 1)
    }
}

/// Where the line that begins at `start` and breaks at `brk` ends: before
/// the carriage return that stands right before the line feed, if one does.
pub open spec fn shape_line_end(shapes: Seq<Shape>, start: int, brk: int) -> int {
    if start < brk < shapes.len() && shapes[brk - 1].ret {
        brk - 1
    } else {
        brk
    }
}

/// Where the line after the one that begins at `from` begins.
pub open spec fn shape_next_line(shapes: Seq<Shape>, from: int) -> int {
    if from <= feed_at(shapes, from) < shapes.len() {
        feed_at(shapes, from) + 1
    } else {
        shapes.len() as int
    }
}

/// The first position in `[from, to)` that holds no white space; `to` where
/// there is none.
pub open spec fn skip_space(shapes: Seq<Shape>, from: int, to: int) -> int
    decreases to - from,
{
    if from >= to || from < 0 || from >= shapes.len() {
        to
    } else if !shapes[from].space {
        from
    } else {
        skip_space(shapes, from + 1, to)
    }
}

/// The end of `[from, to)` without the white space that closes it.
pub open spec fn drop_space(shapes: Seq<Shape>, from: int, to: int) -> int
    decreases to - from,
{
    if to <= from || to > shapes.len() || to <= 0 {
        from
    } else if !shapes[to - 1].space {
        to
    } else {
        drop_space(shapes, from, to - 1)
    }
}

/// The extent of the first line from `from` on that holds more than white
/// space, without the white space around it.
pub open spec fn first_span(shapes: Seq<Shape>, from: int) -> Option<(usize, usize)>
    decreases shapes.len() - from,
{
    if from < 0 || from >= shapes.len() {
        None
    } else {
        let end = shape_line_end(shapes, from, feed_at(shapes, from));
        let begin = skip_space(shapes, from, end);
        if begin < end {
            Some((begin as usize, drop_space(shapes, begin, end) as usize))
        } else {
            first_span(shapes, shape_next_line(shapes, from))
        }
    }
}

/// The first line of a text that holds more than white space, without the
/// white space around it.
pub open spec fn first_text_line(s: Seq<char>) -> Option<Seq<char>> {
    match first_span(shapes_of(s), 0) {
        Some(span) => Some(s.subrange(span.0 as int, span.1 as int)),
        None => None,
    }
}

/// The note on the lines that a listing leaves out.
pub open spec fn more_note(n: nat) -> Seq<char> {
    " [+"@ + decimal_of(n) + " more lines]"@
}

/// The documentation that is shown for an item.
///
/// None at the least verbosity, and none for an item without any. In a
/// listing, the first line that holds text, with a note of how many lines
/// follow. Else all of it at the fullest verbosity, and at the brief one its
/// beginning, with a note of the lines left out.
pub open spec fn shown_docs(docs: Option<Seq<char>>, is_listing: bool, verbosity: Verbosity) -> Option<
    Seq<char>,
> {
    match docs {
        None => None,
        Some(s) => if s.len() == 0 || verbosity == Verbosity::Minimal {
            None
        } else if is_listing {
            match first_text_line(s) {
                None => None,
                Some(line) => if lines_from(s, 0) > 1 {
                    Some(line + more_note((lines_from(s, 0) - 1) as nat))
                } else {
                    Some(line)
                },
            }
        } else if verbosity == Verbosity::Full {
            Some(s)
        } else {
            let cut = truncated(s, BRIEF_LINES as nat);
            if lines_from(cut, 0) < lines_from(s, 0) {
                Some(
                    cut + seq!['\n'] + elided_note((lines_from(s, 0) - lines_from(cut, 0)) as nat),
                )
            } else {
                Some(cut)
            }
        },
    }
}

/// Cuts a text to its first paragraphs, or to `max_lines` lines.
#[verifier::rlimit(40)]
pub fn truncate_to_paragraph_or_lines(text: &str, max_lines: usize) -> (r: String)
    ensures
        r@ == truncated(text@, max_lines as nat),
{
    let chars = chars_of(text);
    let length: usize = chars.len();
    let second: Option<usize> = match find_blank(&chars, 0) {
        Some(first) => {
            assert(first + 1 < length);
            find_blank(&chars, first + 2)
        },
        None => None,
    };
    match second {
        Some(cut) => {
            let section = text.substring_char(0, cut);
            if count_lines(&chars_of(section)) <= max_lines {
                return String::from_str(section);
            }
        },
        None => {},
    }
    let mut out = String::from_str("");
    proof {
        reveal_strlit("");
        reveal_strlit("\n");
    }
    let mut start: usize = 0;
    let mut left: usize = max_lines;
    let ghost goal = joined_lines(text@, 0, max_lines as nat);
    assert(out@ + goal =~= goal);
    while left > 0 && start < chars.len()
        invariant
            start <= chars@.len(),
            chars@ == text@,
            "\n"@ == seq!['\n'],
            out@ + joined_lines(text@, start as int, left as nat) == goal,
        decreases left,
    {
        let b = find_break(&chars, start);
        let end: usize = if start < b && b < chars.len() && chars[b - 1] == '\r' {
            b - 1
        } else {
            b
        };
        let next: usize = if b < chars.len() {
            b + 1
        } else {
            chars.len()
        };
        let ghost before = out@;
        out.append(text.substring_char(start, end));
        if left > 1 && next < chars.len() {
            out.append("\n");
        }
        assert(out@ + joined_lines(text@, next as int, (left - 1) as nat) =~= before + joined_lines(
            text@,
            start as int,
            left as nat,
        ));
        start = next;
        left -= 1;
    }
    assert(out@ + Seq::<char>::empty() =~= out@);
    out
}

/// The shape of each character of a text.
pub fn shapes(chars: &Vec<char>) -> (r: Vec<Shape>)
    ensures
        r@ == shapes_of(chars@),
{
    let mut out: Vec<Shape> = Vec::new();
    let mut i: usize = 0;
    while i < chars.len()
        invariant
            i <= chars@.len(),
            out@ == shapes_of(chars@.take(i as int)),
        decreases chars@.len() - i,
    {
        let c = chars[i];
        out.push(Shape { feed: c == '\n', ret: c == '\r', space: is_whitespace(c) });
        i += 1;
        assert(out@ =~= shapes_of(chars@.take(i as int)));
    }
    assert(chars@.take(i as int) =~= chars@);
    out
}

/// Finds the first line that holds more than white space: the positions at
/// which its text begins and ends.
#[verifier::rlimit(40)]
pub fn first_text_span(shapes: &Vec<Shape>) -> (r: Option<(usize, usize)>)
    ensures
        r == first_span(shapes@, 0),
        r matches Some(span) ==> span.0 < span.1 <= shapes@.len(),
{
    let mut start: usize = 0;
    while start < shapes.len()
        invariant
            start <= shapes@.len(),
            first_span(shapes@, 0) == first_span(shapes@, start as int),
        decreases shapes@.len() - start,
    {
        let mut b: usize = start;
        while b < shapes.len() && !shapes[b].feed
            invariant
                start <= b <= shapes@.len(),
                feed_at(shapes@, start as int) == feed_at(shapes@, b as int),
            decreases shapes@.len() - b,
        {
            b += 1;
        }
        let end: usize = if start < b && b < shapes.len() && shapes[b - 1].ret {
            b - 1
        } else {
            b
        };
        let mut begin: usize = start;
        while begin < end && shapes[begin].space
            invariant
                start <= begin <= end <= shapes@.len(),
                skip_space(shapes@, start as int, end as int) == skip_space(
                    shapes@,
                    begin as int,
                    end as int,
                ),
            decreases end - begin,
        {
            begin += 1;
        }
        if begin < end {
            let mut stop: usize = end;
            while stop > begin && shapes[stop - 1].space
                invariant
                    begin < end,
                    begin < stop <= end <= shapes@.len(),
                    !shapes@[begin as int].space,
                    drop_space(shapes@, begin as int, end as int) == drop_space(
                        shapes@,
                        begin as int,
                        stop as int,
                    ),
                decreases stop - begin,
            {
                stop -= 1;
            }
            return Some((begin, stop));
        }
        start = if b < shapes.len() {
            b + 1
        } else {
            shapes.len()
        };
    }
    None
}

/// The first line that holds more than white space, without the white space
/// around it.
pub fn first_line(text: &str) -> (r: Option<String>)
    ensures
        match r {
            Some(line) => first_text_line(text@) == Some(line@),
            None => first_text_line(text@) is None,
        },
{
    let chars = chars_of(text);
    match first_text_span(&shapes(&chars)) {
        Some((begin, stop)) => Some(String::from_str(text.substring_char(begin, stop))),
        None => None,
    }
}

/// The documentation to show for an item, by verbosity and by whether the
/// item stands in a listing.
#[verifier::rlimit(40)]
pub fn docs_to_show(docs: Option<&str>, is_listing: bool, verbosity: Verbosity) -> (r: Option<
    String,
>)
    ensures
        match r {
            Some(text) => shown_docs(
                match docs {
                    Some(d) => Some(d@),
                    None => None,
                },
                is_listing,
                verbosity,
            ) == Some(text@),
            None => shown_docs(
                match docs {
                    Some(d) => Some(d@),
                    None => None,
                },
                is_listing,
                verbosity,
            ) is None,
        },
{
    let docs = match docs {
        Some(d) => d,
        None => {
            return None;
        },
    };
    let chars = chars_of(docs);
    if chars.len() == 0 {
        return None;
    }
    match verbosity {
        Verbosity::Minimal => {
            return None;
        },
        _ => {},
    }
    let total: usize = count_lines(&chars);
    if is_listing {
        match first_line(docs) {
            None => None,
            Some(line) => {
                if total > 1 {
                    let mut out = line;
                    out.append(" [+");
                    out.append(decimal(total - 1).as_str());
                    out.append(" more lines]");
                    Some(out)
                } else {
                    Some(line)
                }
            },
        }
    } else {
        match verbosity {
            Verbosity::Full => Some(String::from_str(docs)),
            _ => {
                let text = truncate_to_paragraph_or_lines(docs, BRIEF_LINES);
                let displayed: usize = count_lines(&chars_of(text.as_str()));
                let info = DocInfo {
                    text,
                    total_lines: total,
                    displayed_lines: displayed,
                    is_truncated: displayed < total,
                };
                match info.elided_indicator() {
                    Some(note) => {
                        proof {
                            reveal_strlit("\n");
                        }
                        let mut out = info.text;
                        out.append("\n");
                        out.append(note.as_str());
                        Some(out)
                    },
                    None => Some(info.text),
                }
            },
        }
    }
}

} // verus!
