//! Character-level helpers shared by the tokenizer, the name rules and the
//! path resolver. Text is modelled as `Seq<char>`.

use vstd::prelude::*;
use vstd::std_specs::iter::IteratorSpec;
use vstd::string::StringExecFns;

verus! {

/// Whether `c` has the Unicode `Alphabetic` property, as `char::is_alphabetic` reports it.
pub uninterp spec fn alphabetic(c: char) -> bool;

/// Whether `c` has the Unicode `Uppercase` property, as `char::is_uppercase` reports it.
pub uninterp spec fn uppercase(c: char) -> bool;

/// Whether `c` has the Unicode `White_Space` property, as
/// `char::is_whitespace` reports it.
pub uninterp spec fn whitespace(c: char) -> bool;

/// The lowercase form of a text, as `str::to_lowercase` computes it.
pub uninterp spec fn lowercase(s: Seq<char>) -> Seq<char>;

/// Calls `char::is_alphabetic`. Trusted: the result is the Unicode property
/// named by [`alphabetic`], a fixed function of the character.
#[verifier::external_body]
pub(crate) fn is_alphabetic(c: char) -> (b: bool)
    ensures
        b == alphabetic(c),
{
    c.is_alphabetic()
}

/// Calls `char::is_uppercase`. Trusted: the result is the Unicode property
/// named by [`uppercase`], a fixed function of the character.
#[verifier::external_body]
pub(crate) fn is_uppercase(c: char) -> (b: bool)
    ensures
        b == uppercase(c),
{
    c.is_uppercase()
}

/// Calls `char::is_whitespace`. Trusted: the result is the Unicode property
/// named by [`whitespace`], a fixed function of the character.
#[verifier::external_body]
pub(crate) fn is_whitespace(c: char) -> (b: bool)
    ensures
        b == whitespace(c),
{
    c.is_whitespace()
}

/// Calls `str::to_lowercase`. Trusted: the result is the text named by
/// [`lowercase`], a fixed function of the input's characters.
#[verifier::external_body]
pub(crate) fn to_lowercase(s: &str) -> (r: String)
    ensures
        r@ == lowercase(s@),
{
    s.to_lowercase()
}

/// The characters of `s`, in order.
pub fn chars_of(s: &str) -> (v: Vec<char>)
    ensures
        v@ == s@,
{
    let mut v: Vec<char> = Vec::new();
    let it0 = s.chars();
    for c in it: it0
        invariant
            it.seq() == s@,
            v@ == s@.take(it.index()),
    {
        v.push(c);
    }
    v
}

/// Whether two texts hold the same characters.
pub fn str_eq(a: &str, b: &str) -> (r: bool)
    ensures
        r == (a@ == b@),
{
    a.to_owned() == b.to_owned()
}

/// Whether `s` begins with `prefix`.
pub fn starts_with(s: &Vec<char>, prefix: &Vec<char>) -> (r: bool)
    ensures
        r == prefix@.is_prefix_of(s@),
{
    if prefix.len() > s.len() {
        return false;
    }
    let mut i: usize = 0;
    while i < prefix.len()
        invariant
            i <= prefix@.len() <= s@.len(),
            forall|k: int| 0 <= k < i ==> prefix@[k] == s@[k],
        decreases prefix@.len() - i,
    {
        if prefix[i] != s[i] {
            return false;
        }
        i += 1;
    }
    assert(prefix@ =~= s@.subrange(0, prefix@.len() as int));
    true
}

/// The texts `parts[from..]` in a row, with `separator` between each two.
pub open spec fn joined(parts: Seq<Seq<char>>, separator: Seq<char>, from: int) -> Seq<char>
    decreases parts.len() - from,
{
    if from < 0 || from >= parts.len() {
        Seq::empty()
    } else if from + 1 == parts.len() {
        parts[from]
    } else {
        parts[from] + separator + joined(parts, separator, from + 1)
    }
}

/// The texts of a list of names.
pub open spec fn name_texts<'a>(v: Seq<&'a str>) -> Seq<Seq<char>> {
    Seq::new(v.len(), |i: int| v[i]@)
}

/// Writes names in a row, with `separator` between each two: the segments of
/// a path with `::` between them.
pub fn join_names(parts: &Vec<&str>, separator: &str) -> (r: String)
    ensures
        r@ == joined(name_texts(parts@), separator@, 0),
{
    let mut out = String::from_str("");
    proof {
        reveal_strlit("");
    }
    let ghost texts = name_texts(parts@);
    let mut i: usize = 0;
    assert(out@ + joined(texts, separator@, 0) =~= joined(texts, separator@, 0));
    while i < parts.len()
        invariant
            i <= parts@.len(),
            texts == name_texts(parts@),
            out@ + joined(texts, separator@, i as int) == joined(texts, separator@, 0),
        decreases parts@.len() - i,
    {
        let ghost before = out@;
        out.append(parts[i]);
        assert(texts[i as int] == parts@[i as int]@);
        if i + 1 < parts.len() {
            out.append(separator);
        }
        assert(out@ + joined(texts, separator@, i + 1) =~= before + joined(
            texts,
            separator@,
            i as int,
        ));
        i += 1;
    }
    assert(out@ + Seq::<char>::empty() =~= out@);
    out
}

/// The character of a decimal digit.
pub open spec fn digit_char(d: int) -> char {
    if d == 0 {
        '0'
    } else if d == 1 {
        '1'
    } else if d == 2 {
        '2'
    } else if d == 3 {
        '3'
    } else if d == 4 {
        '4'
    } else if d == 5 {
        '5'
    } else if d == 6 {
        '6'
    } else if d == 7 {
        '7'
    } else if d == 8 {
        '8'
    } else {
        '9'
    }
}

/// A number in decimal digits, without leading zeros.
pub open spec fn decimal_of(n: nat) -> Seq<char>
    decreases n,
{
    if n < 10 {
        seq![digit_char(n as int)]
    } else {
        decimal_of(n / 10).push(digit_char((n % 10) as int))
    }
}

/// The digits of `rev`, last first.
pub open spec fn digits_reversed(rev: Seq<u8>) -> Seq<char> {
    Seq::new(rev.len(), |i: int| digit_char(rev[rev.len() - 1 - i] as int))
}

/// The text of one decimal digit.
fn digit_text(d: u8) -> (r: &'static str)
    requires
        d < 10,
    ensures
        r@ == seq![digit_char(d as int)],
{
    proof {
        reveal_strlit("0");
        reveal_strlit("1");
        reveal_strlit("2");
        reveal_strlit("3");
        reveal_strlit("4");
        reveal_strlit("5");
        reveal_strlit("6");
        reveal_strlit("7");
        reveal_strlit("8");
        reveal_strlit("9");
    }
    let r = if d == 0 {
        "0"
    } else if d == 1 {
        "1"
    } else if d == 2 {
        "2"
    } else if d == 3 {
        "3"
    } else if d == 4 {
        "4"
    } else if d == 5 {
        "5"
    } else if d == 6 {
        "6"
    } else if d == 7 {
        "7"
    } else if d == 8 {
        "8"
    } else {
        "9"
    };
    assert(r@ =~= seq![digit_char(d as int)]);
    r
}

/// Writes a number in decimal digits.
pub fn decimal(n: usize) -> (r: String)
    ensures
        r@ == decimal_of(n as nat),
{
    let mut rev: Vec<u8> = Vec::new();
    let mut m: usize = n;
    rev.push((m % 10) as u8);
    m = m / 10;
    assert(digits_reversed(rev@) =~= seq![digit_char((n % 10) as int)]);
    while m > 0
        invariant
            rev@.len() > 0,
            forall|i: int| 0 <= i < rev@.len() ==> (#[trigger] rev@[i]) < 10,
            decimal_of(n as nat) == if m > 0 {
                decimal_of(m as nat) + digits_reversed(rev@)
            } else {
                digits_reversed(rev@)
            },
        decreases m,
    {
        let d: u8 = (m % 10) as u8;
        let ghost before = rev@;
        let ghost was = m;
        rev.push(d);
        m = m / 10;
        proof {
            assert(digits_reversed(rev@) =~= seq![digit_char(d as int)] + digits_reversed(before));
            if was >= 10 {
                assert(decimal_of(was as nat) =~= decimal_of(m as nat) + seq![
                    digit_char(d as int),
                ]);
                assert(decimal_of(was as nat) + digits_reversed(before) =~= decimal_of(m as nat)
                    + digits_reversed(rev@));
            } else {
                assert(decimal_of(was as nat) =~= seq![digit_char(d as int)]);
            }
        }
    }
    let mut out = String::from_str("");
    proof {
        reveal_strlit("");
    }
    let ghost all = digits_reversed(rev@);
    let mut k: usize = rev.len();
    assert(out@ =~= all.take(0));
    while k > 0
        invariant
            k <= rev@.len(),
            all == digits_reversed(rev@),
            forall|i: int| 0 <= i < rev@.len() ==> (#[trigger] rev@[i]) < 10,
            out@ == all.take(rev@.len() - k),
        decreases k,
    {
        k -= 1;
        out.append(digit_text(rev[k]));
        assert(out@ =~= all.take(rev@.len() - k));
    }
    assert(all.take(rev@.len() as int) =~= all);
    out
}

} // verus!
