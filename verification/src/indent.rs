//! Indentation of a block of text.

use vstd::prelude::*;
use vstd::string::StrSliceExecFns;
use vstd::string::StringExecFns;
use crate::chars::chars_of;
use crate::lines::{find_break, line_break, line_end, next_line};

verus! {

/// A text to be shown with each of its lines moved to the right.
pub struct Indent<'a>(&'a str, usize);

/// `n` spaces.
pub open spec fn spaces(n: nat) -> Seq<char> {
    Seq::new(n, |i: int| ' ')
}

/// The lines of `s` from `from` on, each after `pad` and closed by a line
/// feed.
pub open spec fn indent_from(s: Seq<char>, from: int, pad: Seq<char>) -> Seq<char>
    decreases s.len() - from,
{
    if from < 0 || from >= s.len() {
        Seq::empty()
    } else {
        pad + s.subrange(from, line_end(s, from, line_break(s, from))) + seq!['\n'] + indent_from(
            s,
            next_line(s, from),
            pad,
        )
    }
}

impl<'a> Indent<'a> {
    /// The text to indent.
    pub closed spec fn text(&self) -> Seq<char> {
        self.0@
    }

    /// The number of columns to indent by.
    pub closed spec fn width(&self) -> nat {
        self.1 as nat
    }

    /// The text `string`, to be moved `indentation` columns to the right.
    pub fn new(string: &'a str, indentation: usize) -> (r: Self)
        ensures
            r.text() == string@,
            r.width() == indentation,
    {
        Indent(string, indentation)
    }

    /// The indented text: each line after as many spaces as the indentation
    /// asks for, and closed by a line feed.
    pub fn render(&self) -> (r: String)
        ensures
            r@ == indent_from(self.text(), 0, spaces(self.width())),
    {
        let chars = chars_of(self.0);
        let mut pad = String::from_str("");
        proof {
            reveal_strlit("");
            reveal_strlit(" ");
            reveal_strlit("\n");
            assert(pad@ =~= spaces(0));
        }
        let mut k: usize = 0;
        while k < self.1
            invariant
                k <= self.1,
                " "@ == seq![' '],
                pad@ == spaces(k as nat),
            decreases self.1 - k,
        {
            pad.append(" ");
            assert(pad@ =~= spaces((k + 1) as nat));
            k += 1;
        }
        let mut out = String::from_str("");
        let mut start: usize = 0;
        let ghost goal = indent_from(self.text(), 0, pad@);
        assert(out@ + goal =~= goal);
        while start < chars.len()
            invariant
                start <= chars@.len(),
                chars@ == self.0@,
                "\n"@ == seq!['\n'],
                out@ + indent_from(self.0@, start as int, pad@) == goal,
            decreases chars@.len() - start,
        {
            let b = find_break(&chars, start);
            let end: usize = if start < b && b < chars.len() && chars[b - 1] == '\r' {
                b - 1
            } else {
                b
            };
            let ghost before = out@;
            let line = self.0.substring_char(start, end);
            out.append(pad.as_str());
            out.append(line);
            out.append("\n");
            let next: usize = if b < chars.len() {
                b + 1
            } else {
                chars.len()
            };
            assert(out@ + indent_from(self.0@, next as int, pad@) =~= before + indent_from(
                self.0@,
                start as int,
                pad@,
            ));
            start = next;
        }
        assert(out@ + Seq::<char>::empty() =~= out@);
        out
    }
}

} // verus!
