//! What is kept of a variable's raw value: a trailing comment goes, unless
//! its marker stands inside an open quotation, and then the quotation marks
//! and their escapes go.

use crate::text::{
    chars_of, has_newline, lemma_run, lemma_run_is, run, string_of, CharClass,
};
use vstd::prelude::*;
use vstd::slice::slice_subrange;

verus! {

/// `#` and `;` start a comment.
pub open spec fn is_comment_marker(c: char) -> bool {
    c == '#' || c == ';'
}

/// Whether `s` is a comment: spaces, if any, then a marker, then anything.
pub open spec fn begins_comment(s: Seq<char>) -> bool {
    let spaces = run(s, CharClass::Space) as int;
    spaces < s.len() && is_comment_marker(s[spaces])
}

/// The first position of `s` at which a comment begins, its leading spaces
/// included; `s.len()` where `s` holds no marker.
pub open spec fn comment_start(s: Seq<char>) -> nat
    decreases s.len(),
{
    if s.len() == 0 || begins_comment(s) {
        0
    } else {
        1 + comment_start(s.drop_first())
    }
}

/// A `"` with no `\` right before it.
pub open spec fn is_unescaped_quote(s: Seq<char>, i: int) -> bool {
    s[i] == '"' && (i == 0 || s[i - 1] != '\\')
}

/// A `\` with a `"` right after it.
pub open spec fn is_quote_escape(s: Seq<char>, i: int) -> bool {
    s[i] == '\\' && i + 1 < s.len() && s[i + 1] == '"'
}

/// How many unescaped quotes `s` holds.
pub open spec fn unescaped_quotes(s: Seq<char>) -> nat
    decreases s.len(),
{
    if s.len() == 0 {
        0
    } else if is_unescaped_quote(s, s.len() - 1) {
        unescaped_quotes(s.drop_last()) + 1
    } else {
        unescaped_quotes(s.drop_last())
    }
}

/// Whether a quotation is left open in `s`.
pub open spec fn odd_quotes(s: Seq<char>) -> bool {
    unescaped_quotes(s) % 2 == 1
}

/// `s` without its comment. The text is cut where the first comment begins,
/// and the cut is given up where both sides of it leave a quotation open:
/// the marker then stands inside a quoted value. A text of several lines
/// holds no comment.
pub open spec fn without_comment(s: Seq<char>) -> Seq<char> {
    let at = comment_start(s) as int;
    if s.contains('\n') || (odd_quotes(s.take(at)) && odd_quotes(s.skip(at))) {
        s
    } else {
        s.take(at)
    }
}

/// The first `n` characters of `s` without the unescaped quotes and the
/// escapes of quotes among them. Each character is judged by its neighbours
/// in `s`, not by what is left of them.
pub open spec fn unquoted_prefix(s: Seq<char>, n: nat) -> Seq<char>
    decreases n,
{
    if n == 0 {
        Seq::<char>::empty()
    } else {
        let before = unquoted_prefix(s, (n - 1) as nat);
        if is_unescaped_quote(s, n - 1) || is_quote_escape(s, n - 1) {
            before
        } else {
            before.push(s[n - 1])
        }
    }
}

/// `s` without its unescaped quotes and its escapes of quotes: `\"` becomes `"`.
pub open spec fn unquoted(s: Seq<char>) -> Seq<char> {
    unquoted_prefix(s, s.len())
}

/// The value that a raw value stands for.
pub open spec fn sanitized(raw: Seq<char>) -> Seq<char> {
    unquoted(without_comment(raw))
}

/// No comment begins before `comment_start`, and one begins there unless
/// `comment_start` is the end of `s`.
pub proof fn lemma_comment_start(s: Seq<char>)
    ensures
        comment_start(s) <= s.len(),
        forall|j: int| 0 <= j < comment_start(s) ==> !begins_comment(#[trigger] s.skip(j)),
        comment_start(s) < s.len() ==> begins_comment(s.skip(comment_start(s) as int)),
    decreases s.len(),
{
    assert(s.skip(0) =~= s);
    if s.len() > 0 && !begins_comment(s) {
        let rest = s.drop_first();
        lemma_comment_start(rest);
        assert forall|j: int| 0 <= j < comment_start(s) implies !begins_comment(
            #[trigger] s.skip(j),
        ) by {
            if j > 0 {
                assert(s.skip(j) =~= rest.skip(j - 1));
            }
        }
        assert(s.skip(comment_start(s) as int) =~= rest.skip(comment_start(rest) as int));
    }
}

/// The least position from which on `s` is a comment is `comment_start`.
pub proof fn lemma_comment_start_is(s: Seq<char>, at: int)
    requires
        0 <= at <= s.len(),
        forall|j: int| 0 <= j < at ==> !begins_comment(#[trigger] s.skip(j)),
        at < s.len() ==> begins_comment(s.skip(at)),
    ensures
        comment_start(s) == at,
    decreases at,
{
    assert(s.skip(0) =~= s);
    if at > 0 {
        let rest = s.drop_first();
        assert forall|j: int| 0 <= j < at - 1 implies !begins_comment(#[trigger] rest.skip(j)) by {
            assert(rest.skip(j) =~= s.skip(j + 1));
        }
        assert(rest.skip(at - 1) =~= s.skip(at));
        lemma_comment_start_is(rest, at - 1);
    }
}

/// A text without a marker holds no comment.
proof fn lemma_no_marker_no_comment(s: Seq<char>)
    requires
        forall|i: int| 0 <= i < s.len() ==> !is_comment_marker(#[trigger] s[i]),
    ensures
        comment_start(s) == s.len(),
{
    assert forall|j: int| 0 <= j < s.len() implies !begins_comment(#[trigger] s.skip(j)) by {
        lemma_run(s.skip(j), CharClass::Space);
    }
    lemma_comment_start_is(s, s.len() as int);
}

/// A text without a quote loses nothing with its quotes.
proof fn lemma_no_quote_unquoted(s: Seq<char>, n: nat)
    requires
        n <= s.len(),
        forall|i: int| 0 <= i < s.len() ==> #[trigger] s[i] != '"',
    ensures
        unquoted_prefix(s, n) == s.take(n as int),
    decreases n,
{
    if n > 0 {
        lemma_no_quote_unquoted(s, (n - 1) as nat);
    }
}

/// A value that holds neither a quote nor a comment marker is kept as it is.
pub proof fn lemma_clean_value_is_kept(raw: Seq<char>)
    requires
        forall|i: int| 0 <= i < raw.len() ==> #[trigger] raw[i] != '"' && !is_comment_marker(raw[i]),
    ensures
        without_comment(raw) == raw,
        unquoted(raw) == raw,
        sanitized(raw) == raw,
{
    lemma_no_marker_no_comment(raw);
    lemma_no_quote_unquoted(raw, raw.len());
}

/// From `from` on, `s` is spaces up to `to`, where a character that is no
/// space stands or `s` ends: whether a comment begins at `from` is whether
/// that character is a marker.
proof fn lemma_begins_comment_at(s: Seq<char>, from: int, to: int)
    requires
        0 <= from <= to <= s.len(),
        forall|i: int| from <= i < to ==> #[trigger] s[i] == ' ',
        to < s.len() ==> s[to] != ' ',
    ensures
        begins_comment(s.skip(from)) == (to < s.len() && is_comment_marker(s[to])),
{
    lemma_run_is(s.skip(from), CharClass::Space, to - from);
}

/// Where the first comment of `chars` begins.
fn find_comment(chars: &[char]) -> (at: usize)
    ensures
        at == comment_start(chars@),
        at <= chars@.len(),
{
    let n: usize = chars.len();
    let ghost s = chars@;
    // `chars[spaces..i]` is the run of spaces that ends at `i`
    let mut spaces: usize = 0;
    let mut i: usize = 0;
    while i < n
        invariant
            spaces <= i <= n == s.len(),
            s == chars@,
            forall|j: int| 0 <= j < spaces ==> !begins_comment(#[trigger] s.skip(j)),
            forall|j: int| spaces <= j < i ==> #[trigger] s[j] == ' ',
        decreases n - i,
    {
        let c = chars[i];
        if c == '#' || c == ';' {
            proof {
                lemma_begins_comment_at(s, spaces as int, i as int);
                lemma_comment_start_is(s, spaces as int);
            }
            return spaces;
        }
        if c != ' ' {
            assert forall|j: int| spaces <= j <= i implies !begins_comment(#[trigger] s.skip(j)) by {
                lemma_begins_comment_at(s, j, i as int);
            }
            spaces = i + 1;
        }
        i += 1;
    }
    proof {
        assert forall|j: int| 0 <= j < n implies !begins_comment(#[trigger] s.skip(j)) by {
            if j >= spaces {
                lemma_begins_comment_at(s, j, n as int);
            }
        }
        lemma_comment_start_is(s, n as int);
    }
    n
}

/// Whether `chars` leaves a quotation open.
fn odd_quotes_in(chars: &[char]) -> (odd: bool)
    ensures
        odd == odd_quotes(chars@),
{
    let n: usize = chars.len();
    let mut odd = false;
    let mut i: usize = 0;
    while i < n
        invariant
            i <= n == chars@.len(),
            odd == odd_quotes(chars@.take(i as int)),
        decreases n - i,
    {
        let ghost upto = chars@.take(i + 1);
        assert(upto.drop_last() =~= chars@.take(i as int));
        if chars[i] == '"' && (i == 0 || chars[i - 1] != '\\') {
            odd = !odd;
        }
        i += 1;
    }
    assert(chars@.take(n as int) =~= chars@);
    odd
}

/// Whether `text` holds an odd number of unescaped quotes.
pub fn has_odd_number_of_quotes(text: &str) -> (odd: bool)
    ensures
        odd == odd_quotes(text@),
{
    let chars = chars_of(text);
    odd_quotes_in(chars.as_slice())
}

/// `raw_value` without its comment.
pub fn remove_comments(raw_value: &str) -> (value: String)
    ensures
        value@ == without_comment(raw_value@),
{
    let chars = chars_of(raw_value);
    let n: usize = chars.len();
    let at = find_comment(chars.as_slice());
    let keep_all = has_newline(chars.as_slice()) || (odd_quotes_in(
        slice_subrange(chars.as_slice(), 0, at),
    ) && odd_quotes_in(slice_subrange(chars.as_slice(), at, n)));
    if keep_all {
        raw_value.to_owned()
    } else {
        string_of(chars.as_slice(), 0, at)
    }
}

/// `text` without its unescaped quotes and its escapes of quotes.
pub fn remove_quotes(text: &String) -> (value: String)
    ensures
        value@ == unquoted(text@),
{
    let chars = chars_of(text.as_str());
    let n: usize = chars.len();
    let mut value = String::new();
    let mut i: usize = 0;
    while i < n
        invariant
            i <= n == chars@.len(),
            chars@ == text@,
            value@ == unquoted_prefix(text@, i as nat),
        decreases n - i,
    {
        let c = chars[i];
        let is_quote = c == '"' && (i == 0 || chars[i - 1] != '\\');
        let is_escape = c == '\\' && i + 1 < n && chars[i + 1] == '"';
        if !is_quote && !is_escape {
            value.push(c);
        }
        i += 1;
    }
    value
}

/// The value that `raw_value` stands for.
pub fn sanitize_value(raw_value: &str) -> (value: String)
    ensures
        value@ == sanitized(raw_value@),
{
    let kept = remove_comments(raw_value);
    remove_quotes(&kept)
}

} // verus!
