//! The tokenizer of the search index.
//!
//! A text is cut into words at every character that is neither a letter nor a
//! joiner (`-` or `_`). Inside a word, joiners and lowercase-to-uppercase
//! transitions close a subword. Subwords and words of three or more
//! characters become tokens; a trailing `s` is dropped from each token after
//! the length test.

use vstd::prelude::*;
use vstd::string::StrSliceExecFns;
use crate::chars::{alphabetic, chars_of, is_alphabetic, is_uppercase, uppercase};

verus! {

/// What the scanner needs to know about one character.
#[derive(Clone, Copy, Debug, PartialEq, Eq, Structural)]
pub struct CharKind {
    /// The character is `-` or `_`.
    pub joiner: bool,
    /// The character is alphabetic.
    pub letter: bool,
    /// The character is uppercase.
    pub upper: bool,
}

/// A token's extent in the text: the character positions `[start, end)`.
pub type Span = (usize, usize);

/// The scanner's state after some prefix of the text.
pub struct Scan {
    /// The last character was a lowercase letter.
    pub last_lower: bool,
    /// Where the current word began.
    pub word: usize,
    /// Where the current subword began.
    pub sub: usize,
    /// The next character opens a new word.
    pub fresh_word: bool,
    /// The next character opens a new subword.
    pub fresh_sub: bool,
    /// The spans emitted so far.
    pub out: Seq<Span>,
}

/// The kind of one character.
pub open spec fn kind_of(c: char) -> CharKind {
    CharKind { joiner: c == '-' || c == '_', letter: alphabetic(c), upper: uppercase(c) }
}

/// The kind of each character of a text.
pub open spec fn kinds_of(s: Seq<char>) -> Seq<CharKind> {
    Seq::new(s.len(), |i: int| kind_of(s[i]))
}

/// `[(a, b)]` when the extent holds at least three characters and `wanted`
/// holds, nothing otherwise.
pub open spec fn emit(wanted: bool, a: usize, b: usize) -> Seq<Span> {
    if wanted && b - a > 2 {
        seq![(a, b)]
    } else {
        Seq::empty()
    }
}

/// The scanner's state before the first character.
pub open spec fn scan_start() -> Scan {
    Scan { last_lower: false, word: 0, sub: 0, fresh_word: true, fresh_sub: true, out: Seq::empty() }
}

/// The scanner's move on the character of kind `k` at position `i`.
pub open spec fn scan_step(st: Scan, k: CharKind, i: usize) -> Scan {
    let word = if st.fresh_word { i } else { st.word };
    let sub = if st.fresh_word || st.fresh_sub { i } else { st.sub };
    let last_lower = k.letter && !k.upper;
    if k.joiner {
        Scan {
            last_lower,
            word,
            sub,
            fresh_word: false,
            fresh_sub: true,
            out: st.out + emit(true, sub, i),
        }
    } else if !k.letter {
        Scan {
            last_lower,
            word,
            sub,
            fresh_word: true,
            fresh_sub: false,
            out: st.out + emit(sub != word, sub, i) + emit(true, word, i),
        }
    } else if st.last_lower && k.upper {
        Scan {
            last_lower,
            word,
            sub: i,
            fresh_word: false,
            fresh_sub: false,
            out: st.out + emit(true, sub, i),
        }
    } else {
        Scan { last_lower, word, sub, fresh_word: false, fresh_sub: false, out: st.out }
    }
}

/// The scanner's state after the first `n` characters.
pub open spec fn scan(kinds: Seq<CharKind>, n: nat) -> Scan
    decreases n,
{
    if n == 0 {
        scan_start()
    } else {
        scan_step(scan(kinds, (n - 1) as nat), kinds[n - 1], (n - 1) as usize)
    }
}

/// The spans of all tokens of a text with these character kinds: what the
/// scanner emitted on the way, then the word that the end of the text closes.
pub open spec fn spans(kinds: Seq<CharKind>) -> Seq<Span> {
    let st = scan(kinds, kinds.len());
    let n = kinds.len() as usize;
    if st.fresh_word {
        st.out
    } else {
        st.out + emit(st.word != st.sub, st.sub, n) + emit(true, st.word, n)
    }
}

/// A token without its plural `s`.
pub open spec fn strip_plural(t: Seq<char>) -> Seq<char> {
    if t.len() > 0 && t.last() == 's' {
        t.drop_last()
    } else {
        t
    }
}

/// The tokens of a text, in the order in which the scanner emits them.
pub open spec fn tokens_of(s: Seq<char>) -> Seq<Seq<char>> {
    let sp = spans(kinds_of(s));
    Seq::new(sp.len(), |i: int| strip_plural(s.subrange(sp[i].0 as int, sp[i].1 as int)))
}

/// Every span holds at least three characters and lies inside the first
/// `limit` positions.
pub open spec fn spans_within(out: Seq<Span>, limit: int) -> bool {
    forall|j: int| 0 <= j < out.len() ==> (#[trigger] out[j]).0 + 3 <= out[j].1 <= limit
}

/// The scanner's starts never run ahead of its position, and its spans are
/// well formed.
pub proof fn lemma_scan_bounds(kinds: Seq<CharKind>, n: nat)
    requires
        n <= kinds.len() <= usize::MAX,
    ensures
        scan(kinds, n).word <= scan(kinds, n).sub <= n,
        spans_within(scan(kinds, n).out, n as int),
    decreases n,
{
    if n > 0 {
        lemma_scan_bounds(kinds, (n - 1) as nat);
    }
}

/// Every token holds at least three characters of the text before its plural
/// is stripped.
pub proof fn lemma_spans_bounds(kinds: Seq<CharKind>)
    requires
        kinds.len() <= usize::MAX,
    ensures
        spans_within(spans(kinds), kinds.len() as int),
{
    lemma_scan_bounds(kinds, kinds.len());
}

/// Every position of `[a, b)` holds a letter or a joiner.
pub open spec fn word_chars(kinds: Seq<CharKind>, a: int, b: int) -> bool {
    forall|k: int| a <= k < b ==> (#[trigger] kinds[k]).letter || kinds[k].joiner
}

/// Every span covers letters and joiners only.
pub open spec fn spans_of_words(kinds: Seq<CharKind>, out: Seq<Span>) -> bool {
    forall|j: int| 0 <= j < out.len() ==> word_chars(kinds, (#[trigger] out[j]).0 as int, out[j].1 as int)
}

/// While the scanner is inside a word, all from the start of the word on is
/// letters and joiners, and so is all that it has emitted.
proof fn lemma_scan_words(kinds: Seq<CharKind>, n: nat)
    requires
        n <= kinds.len() <= usize::MAX,
    ensures
        !scan(kinds, n).fresh_word ==> word_chars(kinds, scan(kinds, n).word as int, n as int),
        spans_of_words(kinds, scan(kinds, n).out),
    decreases n,
{
    if n > 0 {
        lemma_scan_words(kinds, (n - 1) as nat);
        lemma_scan_bounds(kinds, (n - 1) as nat);
        lemma_scan_bounds(kinds, n);
        let before = scan(kinds, (n - 1) as nat);
        let after = scan(kinds, n);
        let i = (n - 1) as usize;
        let word = if before.fresh_word {
            i
        } else {
            before.word
        };
        assert(word_chars(kinds, word as int, i as int));
        assert forall|j: int| 0 <= j < after.out.len() implies word_chars(
            kinds,
            (#[trigger] after.out[j]).0 as int,
            after.out[j].1 as int,
        ) by {
            if j < before.out.len() {
                assert(after.out[j] == before.out[j]);
            } else {
                assert(word <= after.out[j].0 && after.out[j].1 == i);
            }
        }
    }
}

/// A token holds letters and joiners only: no other character of the text is
/// part of any token.
pub proof fn lemma_tokens_are_words(kinds: Seq<CharKind>)
    requires
        kinds.len() <= usize::MAX,
    ensures
        spans_of_words(kinds, spans(kinds)),
{
    let n = kinds.len();
    lemma_scan_words(kinds, n);
    lemma_scan_bounds(kinds, n);
    let st = scan(kinds, n);
    let out = spans(kinds);
    assert forall|j: int| 0 <= j < out.len() implies word_chars(
        kinds,
        (#[trigger] out[j]).0 as int,
        out[j].1 as int,
    ) by {
        if j < st.out.len() {
            assert(out[j] == st.out[j]);
        } else {
            assert(st.word <= out[j].0 && out[j].1 == n);
        }
    }
}

/// The spans of the tokens of a text whose characters have these kinds.
pub fn token_spans(kinds: &Vec<CharKind>) -> (out: Vec<Span>)
    ensures
        out@ == spans(kinds@),
        spans_within(out@, kinds@.len() as int),
{
    let n: usize = kinds.len();
    let mut out: Vec<Span> = Vec::new();
    let mut last_lower: bool = false;
    let mut word: usize = 0;
    let mut sub: usize = 0;
    let mut fresh_word: bool = true;
    let mut fresh_sub: bool = true;
    let mut i: usize = 0;
    while i < n
        invariant
            n == kinds@.len(),
            i <= n,
            scan(kinds@, i as nat) == (Scan {
                last_lower,
                word,
                sub,
                fresh_word,
                fresh_sub,
                out: out@,
            }),
        decreases n - i,
    {
        proof {
            lemma_scan_bounds(kinds@, i as nat);
        }
        let k = kinds[i];
        if fresh_word {
            word = i;
            sub = i;
            fresh_word = false;
            fresh_sub = false;
        }
        if fresh_sub {
            sub = i;
            fresh_sub = false;
        }
        let case_change = last_lower && k.letter && k.upper;
        last_lower = k.letter && !k.upper;
        if k.joiner {
            if i - sub > 2 {
                out.push((sub, i));
            }
            fresh_sub = true;
        } else if !k.letter {
            if i - sub > 2 && sub != word {
                out.push((sub, i));
            }
            if i - word > 2 {
                out.push((word, i));
            }
            fresh_word = true;
        } else if case_change {
            if i - sub > 2 {
                out.push((sub, i));
            }
            sub = i;
        }
        i += 1;
        assert(scan(kinds@, i as nat).out =~= out@);
    }
    proof {
        lemma_scan_bounds(kinds@, n as nat);
        lemma_spans_bounds(kinds@);
    }
    if !fresh_word {
        if word != sub && n - sub > 2 {
            out.push((sub, n));
        }
        if n - word > 2 {
            out.push((word, n));
        }
    }
    assert(out@ =~= spans(kinds@));
    out
}

/// The kind of each character of a text.
pub fn classify(chars: &Vec<char>) -> (kinds: Vec<CharKind>)
    ensures
        kinds@ == kinds_of(chars@),
{
    let mut kinds: Vec<CharKind> = Vec::new();
    let mut i: usize = 0;
    while i < chars.len()
        invariant
            i <= chars@.len(),
            kinds@ == kinds_of(chars@.take(i as int)),
        decreases chars@.len() - i,
    {
        let c = chars[i];
        kinds.push(CharKind { joiner: c == '-' || c == '_', letter: is_alphabetic(c), upper: is_uppercase(c) });
        i += 1;
        assert(kinds@ =~= kinds_of(chars@.take(i as int)));
    }
    assert(chars@.take(i as int) =~= chars@);
    kinds
}

/// Appends `token` to `tokens`, without its trailing `s` if it has one.
pub fn add_token<'a>(token: &'a str, tokens: &mut Vec<&'a str>)
    ensures
        final(tokens)@.len() == old(tokens)@.len() + 1,
        final(tokens)@.drop_last() == old(tokens)@,
        final(tokens)@.last()@ == strip_plural(token@),
{
    let n: usize = token.unicode_len();
    if n > 0 && token.get_char(n - 1) == 's' {
        let stem = token.substring_char(0, n - 1);
        assert(token@.subrange(0, n - 1) =~= token@.drop_last());
        tokens.push(stem);
    } else {
        tokens.push(token);
    }
    assert(tokens@.drop_last() =~= old(tokens)@);
}

/// Cuts a text into the tokens under which it is indexed and searched.
pub fn tokenize<'a>(text: &'a str) -> (tokens: Vec<&'a str>)
    ensures
        tokens@.len() == tokens_of(text@).len(),
        forall|j: int| 0 <= j < tokens@.len() ==> (#[trigger] tokens@[j])@ == tokens_of(text@)[j],
{
    let chars = chars_of(text);
    let kinds = classify(&chars);
    let found = token_spans(&kinds);
    let mut tokens: Vec<&'a str> = Vec::new();
    let mut i: usize = 0;
    while i < found.len()
        invariant
            i <= found@.len(),
            found@ == spans(kinds_of(text@)),
            spans_within(found@, text@.len() as int),
            tokens@.len() == i,
            forall|j: int| 0 <= j < i ==> (#[trigger] tokens@[j])@ == tokens_of(text@)[j],
        decreases found@.len() - i,
    {
        let (a, b) = found[i];
        assert(found@[i as int].0 + 3 <= found@[i as int].1 <= text@.len());
        let raw = text.substring_char(a, b);
        let ghost before = tokens@;
        add_token(raw, &mut tokens);
        assert forall|j: int| 0 <= j < i + 1 implies (#[trigger] tokens@[j])@ == tokens_of(
            text@,
        )[j] by {
            if j < i {
                assert(tokens@.drop_last()[j] == tokens@[j]);
                assert(before[j]@ == tokens_of(text@)[j]);
            } else {
                assert(tokens@[j] == tokens@.last());
            }
        }
        i += 1;
    }
    tokens
}

} // verus!
