//! Lines of a text.
//!
//! A line ends at a line feed, or at the end of the text. The line feed is
//! no part of the line, nor is a carriage return that stands right before
//! it. Nothing follows the last line feed: a text that ends in one has no
//! empty last line.

use vstd::prelude::*;

verus! {

/// The position of the first line feed at or after `from`; the length of the
/// text where there is none.
pub open spec fn line_break(s: Seq<char>, from: int) -> int
    decreases s.len() - from,
{
    if from < 0 || from >= s.len() {
        s.len() as int
    } else if s[from] == '\n' {
        from
    } else {
        line_break(s, from + 1)
    }
}

/// Where the line that begins at `start` and breaks at `brk` ends.
pub open spec fn line_end(s: Seq<char>, start: int, brk: int) -> int {
    if start < brk < s.len() && s[brk - 1] == '\r' {
        brk - 1
    } else {
        brk
    }
}

/// Where the line after the one that begins at `from` begins.
pub open spec fn next_line(s: Seq<char>, from: int) -> int {
    if from <= line_break(s, from) < s.len() {
        line_break(s, from) + 1
    } else {
        s.len() as int
    }
}

/// The number of lines from `from` on.
pub open spec fn lines_from(s: Seq<char>, from: int) -> nat
    decreases s.len() - from,
{
    if from < 0 || from >= s.len() {
        0
    } else {
        1 + lines_from(s, next_line(s, from))
    }
}

/// Finds the end of the line that begins at `from`.
pub fn find_break(chars: &Vec<char>, from: usize) -> (r: usize)
    requires
        from <= chars@.len(),
    ensures
        r == line_break(chars@, from as int),
        from <= r <= chars@.len(),
{
    let mut b: usize = from;
    while b < chars.len() && chars[b] != '\n'
        invariant
            from <= b <= chars@.len(),
            line_break(chars@, from as int) == line_break(chars@, b as int),
        decreases chars@.len() - b,
    {
        b += 1;
    }
    b
}

/// Counts the lines of a text.
pub fn count_lines(chars: &Vec<char>) -> (n: usize)
    ensures
        n == lines_from(chars@, 0),
{
    let mut n: usize = 0;
    let mut start: usize = 0;
    while start < chars.len()
        invariant
            start <= chars@.len(),
            n <= start,
            n + lines_from(chars@, start as int) == lines_from(chars@, 0),
        decreases chars@.len() - start,
    {
        let b = find_break(chars, start);
        n += 1;
        start = if b < chars.len() {
            b + 1
        } else {
            chars.len()
        };
    }
    n
}

/// The position of the first empty line at or after `from`: of two line
/// feeds in a row.
pub open spec fn blank_at(s: Seq<char>, from: int) -> Option<int>
    decreases s.len() - from,
{
    if from < 0 || from + 1 >= s.len() {
        None
    } else if s[from] == '\n' && s[from + 1] == '\n' {
        Some(from)
    } else {
        blank_at(s, from + 1)
    }
}

/// Finds the first empty line at or after `from`.
pub fn find_blank(chars: &Vec<char>, from: usize) -> (r: Option<usize>)
    ensures
        match r {
            Some(e) => blank_at(chars@, from as int) == Some(e as int) && from <= e && e + 1
                < chars@.len(),
            None => blank_at(chars@, from as int) is None,
        },
{
    let mut i: usize = from;
    while i < chars.len() && i + 1 < chars.len()
        invariant
            from <= i,
            blank_at(chars@, from as int) == blank_at(chars@, i as int),
        decreases chars@.len() - i,
    {
        if chars[i] == '\n' && chars[i + 1] == '\n' {
            return Some(i);
        }
        i += 1;
    }
    None
}

/// The first `count` lines from `from` on, with a line feed between each
/// two of them.
pub open spec fn joined_lines(s: Seq<char>, from: int, count: nat) -> Seq<char>
    decreases count,
{
    if count == 0 || from < 0 || from >= s.len() {
        Seq::empty()
    } else {
        let line = s.subrange(from, line_end(s, from, line_break(s, from)));
        if count > 1 && next_line(s, from) < s.len() {
            line + seq!['\n'] + joined_lines(s, next_line(s, from), (count - 1) as nat)
        } else {
            line
        }
    }
}

/// The lines of a file to show for an item that spans the lines `begin` to
/// `end`, counted from one, of a file of `lines` lines: the item with one
/// line around it, or three where it spans ten lines or more. The result
/// counts from zero and names the first and the last line shown; there is
/// none where the item begins beyond the end of the file.
pub open spec fn window(begin: usize, end: usize, lines: usize) -> Option<(usize, usize)> {
    let first = if begin > 0 {
        (begin - 1) as usize
    } else {
        0usize
    };
    if first >= lines {
        None
    } else {
        let hoped = if end > 0 {
            (end - 1) as usize
        } else {
            0usize
        };
        let last = if hoped < first {
            first
        } else if hoped > lines - 1 {
            (lines - 1) as usize
        } else {
            hoped
        };
        let around = if last - first < 10 {
            1usize
        } else {
            3usize
        };
        Some(
            (
                if first >= around {
                    (first - around) as usize
                } else {
                    0usize
                },
                if last + around > lines - 1 {
                    (lines - 1) as usize
                } else {
                    (last + around) as usize
                },
            ),
        )
    }
}

/// Chooses the lines of a file to show for an item.
pub fn source_window(begin: usize, end: usize, lines: usize) -> (r: Option<(usize, usize)>)
    ensures
        r == window(begin, end, lines),
        r matches Some(w) ==> w.0 <= w.1 < lines,
{
    let first: usize = if begin > 0 {
        begin - 1
    } else {
        0
    };
    if first >= lines {
        return None;
    }
    let hoped: usize = if end > 0 {
        end - 1
    } else {
        0
    };
    let last: usize = if hoped < first {
        first
    } else if hoped > lines - 1 {
        lines - 1
    } else {
        hoped
    };
    let around: usize = if last - first < 10 {
        1
    } else {
        3
    };
    let from: usize = if first >= around {
        first - around
    } else {
        0
    };
    let to: usize = if lines - 1 - last < around {
        lines - 1
    } else {
        last + around
    };
    Some((from, to))
}

} // verus!
