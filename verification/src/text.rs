//! Strings as sequences of characters: conversion, trimming, lines.

use vstd::prelude::*;

verus! {

/// `String::push` of the standard library puts `c` at the end of the string
/// and leaves what stood before it as it was.
pub assume_specification[ String::push ](s: &mut String, c: char)
    ensures
        final(s)@ == old(s)@.push(c),
;

/// The characters of `s`, in order.
pub fn chars_of(s: &str) -> (chars: Vec<char>)
    ensures
        chars@ == s@,
{
    broadcast use vstd::string::group_string_axioms;

    let mut chars: Vec<char> = Vec::new();
    for c in it: s.chars()
        invariant
            it.seq() == s@,
            chars@ == s@.take(it.index()),
    {
        chars.push(c);
    }
    chars
}

/// The string made of `chars[from..to]`.
pub fn string_of(chars: &[char], from: usize, to: usize) -> (s: String)
    requires
        from <= to <= chars@.len(),
    ensures
        s@ == chars@.subrange(from as int, to as int),
{
    let mut s = String::new();
    let mut i: usize = from;
    while i < to
        invariant
            from <= i <= to <= chars@.len(),
            s@ == chars@.subrange(from as int, i as int),
        decreases to - i,
    {
        s.push(chars[i]);
        i += 1;
    }
    s
}

/// An ASCII letter.
pub open spec fn is_letter(c: char) -> bool {
    'A' <= c <= 'Z' || 'a' <= c <= 'z'
}

/// An ASCII digit.
pub open spec fn is_digit(c: char) -> bool {
    '0' <= c <= '9'
}

/// The sets of characters that the syntax is made of.
#[derive(Clone, Copy, Debug)]
pub enum CharClass {
    /// What a section's name is made of: ASCII letters, digits, `-` and `.`.
    Section,
    /// What a variable's name is made of: ASCII letters and `-`.
    Name,
    /// The space, U+0020, alone.
    Space,
}

impl CharClass {
    /// Whether `c` is of this class.
    pub open spec fn has(self, c: char) -> bool {
        match self {
            CharClass::Section => is_letter(c) || is_digit(c) || c == '-' || c == '.',
            CharClass::Name => is_letter(c) || c == '-',
            CharClass::Space => c == ' ',
        }
    }

    /// Whether `c` is of this class.
    #[verifier::when_used_as_spec(has)]
    pub fn contains(self, c: char) -> (b: bool)
        ensures
            b == self.has(c),
    {
        let letter = ('A' <= c && c <= 'Z') || ('a' <= c && c <= 'z');
        match self {
            CharClass::Section => letter || ('0' <= c && c <= '9') || c == '-' || c == '.',
            CharClass::Name => letter || c == '-',
            CharClass::Space => c == ' ',
        }
    }
}

/// How many characters at the start of `s` are of `class`, up to the first
/// that is not.
pub open spec fn run(s: Seq<char>, class: CharClass) -> nat
    decreases s.len(),
{
    if s.len() > 0 && class.has(s.first()) {
        1 + run(s.drop_first(), class)
    } else {
        0
    }
}

/// A run stays inside `s`, holds only characters of its class, and ends
/// at the end of `s` or before a character of another kind.
pub proof fn lemma_run(s: Seq<char>, class: CharClass)
    ensures
        run(s, class) <= s.len(),
        forall|i: int| 0 <= i < run(s, class) ==> class.has(#[trigger] s[i]),
        run(s, class) < s.len() ==> !class.has(s[run(s, class) as int]),
    decreases s.len(),
{
    if s.len() > 0 && class.has(s.first()) {
        let rest = s.drop_first();
        lemma_run(rest, class);
        assert forall|i: int| 0 <= i < run(s, class) implies class.has(#[trigger] s[i]) by {
            if i > 0 {
                assert(s[i] == rest[i - 1]);
            }
        }
    }
}

/// The run is the only stretch at the start of `s` that holds characters of
/// `class` alone and cannot be made longer.
pub proof fn lemma_run_is(s: Seq<char>, class: CharClass, n: int)
    requires
        0 <= n <= s.len(),
        forall|i: int| 0 <= i < n ==> class.has(#[trigger] s[i]),
        n < s.len() ==> !class.has(s[n]),
    ensures
        run(s, class) == n,
    decreases n,
{
    if n > 0 {
        let rest = s.drop_first();
        lemma_run_is(rest, class, n - 1);
    }
}

/// The end of the run of `class` that starts at `from`.
pub fn skip_run(chars: &[char], from: usize, class: CharClass) -> (to: usize)
    requires
        from <= chars@.len(),
    ensures
        to == from + run(chars@.skip(from as int), class),
        to <= chars@.len(),
{
    let n: usize = chars.len();
    let mut to: usize = from;
    while to < n && class.contains(chars[to])
        invariant
            from <= to <= n == chars@.len(),
            forall|i: int| from <= i < to ==> class.has(#[trigger] chars@[i]),
        decreases n - to,
    {
        to += 1;
    }
    proof {
        let rest = chars@.skip(from as int);
        lemma_run_is(rest, class, to - from);
    }
    to
}

/// Whether `chars` holds a line feed.
pub fn has_newline(chars: &[char]) -> (b: bool)
    ensures
        b == chars@.contains('\n'),
{
    let n: usize = chars.len();
    let mut i: usize = 0;
    while i < n
        invariant
            i <= n == chars@.len(),
            forall|j: int| 0 <= j < i ==> chars@[j] != '\n',
        decreases n - i,
    {
        if chars[i] == '\n' {
            return true;
        }
        i += 1;
    }
    false
}

/// Whether `c` has the Unicode property White_Space.
pub open spec fn is_white_space(c: char) -> bool {
    ||| '\u{9}' <= c <= '\u{d}'
    ||| c == ' '
    ||| c == '\u{85}'
    ||| c == '\u{a0}'
    ||| c == '\u{1680}'
    ||| '\u{2000}' <= c <= '\u{200a}'
    ||| c == '\u{2028}'
    ||| c == '\u{2029}'
    ||| c == '\u{202f}'
    ||| c == '\u{205f}'
    ||| c == '\u{3000}'
}

/// Whether `c` is white space, as `char::is_whitespace` has it.
#[verifier::when_used_as_spec(is_white_space)]
pub fn is_whitespace(c: char) -> (b: bool)
    ensures
        b == is_white_space(c),
{
    ('\u{9}' <= c && c <= '\u{d}') || c == ' ' || c == '\u{85}' || c == '\u{a0}' || c == '\u{1680}'
        || ('\u{2000}' <= c && c <= '\u{200a}') || c == '\u{2028}' || c == '\u{2029}'
        || c == '\u{202f}' || c == '\u{205f}' || c == '\u{3000}'
}

/// `s` without its leading white space.
pub open spec fn trim_start(s: Seq<char>) -> Seq<char>
    decreases s.len(),
{
    if s.len() > 0 && is_white_space(s.first()) {
        trim_start(s.drop_first())
    } else {
        s
    }
}

/// `s` without its trailing white space.
pub open spec fn trim_end(s: Seq<char>) -> Seq<char>
    decreases s.len(),
{
    if s.len() > 0 && is_white_space(s.last()) {
        trim_end(s.drop_last())
    } else {
        s
    }
}

/// `s` without white space at either end.
pub open spec fn trimmed(s: Seq<char>) -> Seq<char> {
    trim_end(trim_start(s))
}

/// Leading white space can be dropped in one step.
proof fn lemma_trim_start_skip(s: Seq<char>, n: int)
    requires
        0 <= n <= s.len(),
        forall|i: int| 0 <= i < n ==> is_white_space(#[trigger] s[i]),
    ensures
        trim_start(s) == trim_start(s.skip(n)),
    decreases n,
{
    if n == 0 {
        assert(s.skip(0) =~= s);
    } else {
        lemma_trim_start_skip(s.drop_first(), n - 1);
        assert(s.drop_first().skip(n - 1) =~= s.skip(n));
    }
}

/// Trailing white space can be dropped in one step.
proof fn lemma_trim_end_take(s: Seq<char>, n: int)
    requires
        0 <= n <= s.len(),
        forall|i: int| n <= i < s.len() ==> is_white_space(#[trigger] s[i]),
    ensures
        trim_end(s) == trim_end(s.take(n)),
    decreases s.len() - n,
{
    if n == s.len() {
        assert(s.take(n) =~= s);
    } else {
        lemma_trim_end_take(s.drop_last(), n);
        assert(s.drop_last().take(n) =~= s.take(n));
    }
}

/// What trimming leaves: a stretch of `s` with white space on both sides of
/// it and none at its own ends.
pub proof fn lemma_trimmed_is_core(s: Seq<char>, from: int, to: int)
    requires
        0 <= from <= to <= s.len(),
        forall|i: int| 0 <= i < from ==> is_white_space(#[trigger] s[i]),
        forall|i: int| to <= i < s.len() ==> is_white_space(#[trigger] s[i]),
        from < to ==> !is_white_space(s[from]) && !is_white_space(s[to - 1]),
    ensures
        trimmed(s) == s.subrange(from, to),
{
    lemma_trim_start_skip(s, from);
    if from == to {
        // all of `s` is white space
        lemma_trim_start_skip(s, s.len() as int);
    } else {
        lemma_trim_end_take(s.skip(from), to - from);
    }
}

/// `s` without white space at either end, as `str::trim` gives it.
pub fn trim(s: &str) -> (t: &str)
    ensures
        t@ == trimmed(s@),
{
    let chars = chars_of(s);
    let n: usize = chars.len();
    let mut from: usize = 0;
    while from < n && is_whitespace(chars[from])
        invariant
            from <= n == chars@.len(),
            forall|i: int| 0 <= i < from ==> is_white_space(#[trigger] chars@[i]),
        decreases n - from,
    {
        from += 1;
    }
    let mut to: usize = n;
    while to > from && is_whitespace(chars[to - 1])
        invariant
            from <= to <= n == chars@.len(),
            forall|i: int| to <= i < n ==> is_white_space(#[trigger] chars@[i]),
        decreases to,
    {
        to -= 1;
    }
    proof {
        lemma_trimmed_is_core(s@, from as int, to as int);
    }
    s.substring_char(from, to)
}

/// The lines of `s`: what stands between one `'\n'` and the next. A text that
/// ends in `'\n'` ends in an empty line.
pub open spec fn lines(s: Seq<char>) -> Seq<Seq<char>>
    decreases s.len(),
{
    if s.len() == 0 {
        seq![Seq::<char>::empty()]
    } else {
        let before = lines(s.drop_last());
        if s.last() == '\n' {
            before.push(Seq::<char>::empty())
        } else {
            before.drop_last().push(before.last().push(s.last()))
        }
    }
}

/// `parts` with `separator` between each and the next.
pub open spec fn joined(parts: Seq<Seq<char>>, separator: char) -> Seq<char>
    decreases parts.len(),
{
    if parts.len() == 0 {
        Seq::<char>::empty()
    } else if parts.len() == 1 {
        parts[0]
    } else {
        joined(parts.drop_last(), separator) + seq![separator] + parts.last()
    }
}

/// How many line feeds `s` holds.
pub open spec fn line_feeds(s: Seq<char>) -> nat {
    s.filter(|c: char| c == '\n').len()
}

/// A text has one line more than it has line feeds, no line holds a line
/// feed, and the lines joined by line feeds are the text again.
pub proof fn lemma_lines(s: Seq<char>)
    ensures
        lines(s).len() == line_feeds(s) + 1,
        forall|i: int| 0 <= i < lines(s).len() ==> !(#[trigger] lines(s)[i]).contains('\n'),
        joined(lines(s), '\n') == s,
    decreases s.len(),
{
    broadcast use Seq::lemma_filter_push;

    if s.len() == 0 {
        assert(s.filter(|c: char| c == '\n').len() == 0) by {
            broadcast use Seq::lemma_filter_len;
        }
    } else {
        let init = s.drop_last();
        let before = lines(init);
        lemma_lines(init);
        assert(init.push(s.last()) =~= s);
        if s.last() == '\n' {
            assert(before.push(Seq::<char>::empty()).drop_last() =~= before);
        } else {
            let ended = before.last().push(s.last());
            let all = before.drop_last().push(ended);
            assert(all.drop_last() =~= before.drop_last());
            assert forall|i: int| 0 <= i < all.len() implies !(#[trigger] all[i]).contains(
                '\n',
            ) by {}
        }
    }
}

/// Texts without line feeds, joined by line feeds, are the lines of what
/// they are joined to: no other lines give the same text.
pub proof fn lemma_lines_of_joined(parts: Seq<Seq<char>>)
    requires
        parts.len() > 0,
        forall|i: int| 0 <= i < parts.len() ==> !(#[trigger] parts[i]).contains('\n'),
    ensures
        lines(joined(parts, '\n')) == parts,
    decreases parts.len(), parts.last().len(),
{
    let text = joined(parts, '\n');
    let last = parts.last();
    if last.len() > 0 {
        let shorter = parts.drop_last().push(last.drop_last());
        assert forall|i: int| 0 <= i < shorter.len() implies !(#[trigger] shorter[i]).contains(
            '\n',
        ) by {}
        assert(shorter.drop_last() =~= parts.drop_last());
        lemma_lines_of_joined(shorter);
        assert(text.drop_last() =~= joined(shorter, '\n'));
        assert(last.drop_last().push(last.last()) =~= last);
    } else if parts.len() == 1 {
        assert(text =~= Seq::<char>::empty());
    } else {
        let init = parts.drop_last();
        lemma_lines_of_joined(init);
        assert(text.drop_last() =~= joined(init, '\n'));
        assert(last =~= Seq::<char>::empty());
    }
}

/// The lines of `text`, as `str::split` at `"\n"` gives them.
pub fn split_lines(text: &str) -> (ls: Vec<String>)
    ensures
        ls.deep_view() == lines(text@),
{
    let chars = chars_of(text);
    let n: usize = chars.len();
    let mut ls: Vec<String> = Vec::new();
    let mut start: usize = 0;
    let mut i: usize = 0;
    assert(chars@.take(0) =~= Seq::<char>::empty());
    while i < n
        invariant
            start <= i <= n == chars@.len(),
            lines(chars@.take(i as int)) == ls.deep_view().push(
                chars@.subrange(start as int, i as int),
            ),
        decreases n - i,
    {
        let ghost current = chars@.subrange(start as int, i as int);
        assert(chars@.take(i + 1).drop_last() =~= chars@.take(i as int));
        if chars[i] == '\n' {
            ls.push(string_of(chars.as_slice(), start, i));
            start = i + 1;
            assert(chars@.subrange(start as int, i + 1) =~= Seq::<char>::empty());
        } else {
            assert(current.push(chars@[i as int]) =~= chars@.subrange(start as int, i + 1));
        }
        i += 1;
    }
    ls.push(string_of(chars.as_slice(), start, n));
    assert(chars@.take(n as int) =~= chars@);
    ls
}

} // verus!
