//! Character-level model of the corpus text: lines, the label/message split
//! at the first tab, and whitespace tokens.
use vstd::prelude::*;

verus! {

/// Unicode `White_Space` characters, the set that `char::is_whitespace` tests.
pub open spec fn is_white(c: char) -> bool {
    ('\u{9}' <= c && c <= '\u{d}') || c == ' ' || c == '\u{85}' || c == '\u{a0}' || c == '\u{1680}'
        || ('\u{2000}' <= c && c <= '\u{200a}') || c == '\u{2028}' || c == '\u{2029}' || c == '\u{202f}'
        || c == '\u{205f}' || c == '\u{3000}'
}

pub fn is_white_char(c: char) -> (r: bool)
    ensures
        r == is_white(c),
{
    ('\u{9}' <= c && c <= '\u{d}') || c == ' ' || c == '\u{85}' || c == '\u{a0}' || c == '\u{1680}'
        || ('\u{2000}' <= c && c <= '\u{200a}') || c == '\u{2028}' || c == '\u{2029}' || c == '\u{202f}'
        || c == '\u{205f}' || c == '\u{3000}'
}

/// A line without the carriage return of a `\r\n` ending.
pub open spec fn strip_cr(l: Seq<char>) -> Seq<char> {
    if l.len() > 0 && l.last() == '\r' { l.drop_last() } else { l }
}

/// Lines of `s` from position `i` on, where the current line began at `start`.
/// A line ends at `\n` (with a `\r` before it dropped); a final line ending
/// is optional, and an empty text has no lines.
pub open spec fn lines_from(s: Seq<char>, start: int, i: int) -> Seq<Seq<char>>
    decreases s.len() - i,
{
    if i >= s.len() {
        if start < s.len() { seq![s.subrange(start, s.len() as int)] } else { seq![] }
    } else if s[i] == '\n' {
        seq![strip_cr(s.subrange(start, i))] + lines_from(s, i + 1, i + 1)
    } else {
        lines_from(s, start, i + 1)
    }
}

/// The lines of a text.
pub open spec fn lines(s: Seq<char>) -> Seq<Seq<char>> {
    lines_from(s, 0, 0)
}

/// Position of the first tab at or after `i`, or the length when there is none.
pub open spec fn tab_from(l: Seq<char>, i: int) -> int
    decreases l.len() - i,
{
    if i >= l.len() {
        l.len() as int
    } else if l[i] == '\t' {
        i
    } else {
        tab_from(l, i + 1)
    }
}

/// Position of the first tab of a line, or its length when there is none.
pub open spec fn first_tab(l: Seq<char>) -> int {
    tab_from(l, 0)
}

pub open spec fn has_tab(l: Seq<char>) -> bool {
    first_tab(l) < l.len()
}

/// What stands before the first tab.
pub open spec fn label_part(l: Seq<char>) -> Seq<char> {
    l.subrange(0, first_tab(l))
}

/// What stands after the first tab.
pub open spec fn message_part(l: Seq<char>) -> Seq<char> {
    l.subrange(first_tab(l) + 1, l.len() as int)
}

/// Maximal runs of non-whitespace characters of `t` from position `i` on,
/// where the current run began at `start`.
pub open spec fn tokens_from(t: Seq<char>, start: int, i: int) -> Seq<Seq<char>>
    decreases t.len() - i,
{
    if i >= t.len() {
        if start < t.len() { seq![t.subrange(start, t.len() as int)] } else { seq![] }
    } else if is_white(t[i]) {
        (if start < i { seq![t.subrange(start, i)] } else { seq![] }) + tokens_from(t, i + 1, i + 1)
    } else {
        tokens_from(t, start, i + 1)
    }
}

/// The whitespace-separated tokens of a text, in order; no token is empty.
pub open spec fn tokens(t: Seq<char>) -> Seq<Seq<char>> {
    tokens_from(t, 0, 0)
}

/// The characters of a string.
pub fn chars_of(text: &str) -> (r: Vec<char>)
    ensures
        r@ == text@,
{
    let mut r: Vec<char> = Vec::new();
    for c in it: text.chars()
        invariant
            r@ == it.seq().take(it.index() as int),
    {
        r.push(c);
        assert(r@ =~= it.seq().take(it.index() as int + 1));
    }
    r
}

/// A copy of `v[from..to]`.
pub fn copy_range(v: &Vec<char>, from: usize, to: usize) -> (r: Vec<char>)
    requires
        from <= to <= v.len(),
    ensures
        r@ == v@.subrange(from as int, to as int),
{
    let mut r: Vec<char> = Vec::new();
    let mut i: usize = from;
    while i < to
        invariant
            from <= i <= to <= v.len(),
            r@ == v@.subrange(from as int, i as int),
        decreases to - i,
    {
        r.push(v[i]);
        i = i + 1;
        assert(r@ =~= v@.subrange(from as int, i as int));
    }
    r
}

/// Position of the first tab of `l`, or its length when there is none.
pub fn find_tab(l: &Vec<char>) -> (r: usize)
    ensures
        r == first_tab(l@),
        r <= l.len(),
{
    let mut i: usize = 0;
    while i < l.len()
        invariant
            i <= l.len(),
            tab_from(l@, 0) == tab_from(l@, i as int),
        decreases l.len() - i,
    {
        if l[i] == '\t' {
            return i;
        }
        i = i + 1;
    }
    i
}

/// The whitespace-separated tokens of `t`.
pub fn split_tokens(t: &Vec<char>) -> (r: Vec<Vec<char>>)
    ensures
        r@.map_values(|v: Vec<char>| v@) == tokens(t@),
{
    let ghost s = t@;
    let mut r: Vec<Vec<char>> = Vec::new();
    let mut start: usize = 0;
    let mut i: usize = 0;
    while i < t.len()
        invariant
            start <= i <= t.len(),
            s == t@,
            tokens(s) == r@.map_values(|v: Vec<char>| v@) + tokens_from(s, start as int, i as int),
        decreases t.len() - i,
    {
        if is_white_char(t[i]) {
            if start < i {
                let w = copy_range(t, start, i);
                r.push(w);
            }
            i = i + 1;
            start = i;
        } else {
            i = i + 1;
        }
        assert(tokens(s) =~= r@.map_values(|v: Vec<char>| v@) + tokens_from(s, start as int, i as int));
    }
    if start < i {
        let w = copy_range(t, start, i);
        r.push(w);
    }
    assert(tokens(s) =~= r@.map_values(|v: Vec<char>| v@));
    r
}

} // verus!
