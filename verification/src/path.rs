//! The dotted key under which a variable is looked up: the section and the
//! variable's name in lower case, the subsection as it was written.

use crate::text::{chars_of, joined};
use vstd::prelude::*;
use vstd::string::StringExecFns;
use vstd::utf8::is_ascii_chars;

verus! {

/// What `str::to_lowercase` makes of a text.
pub uninterp spec fn unicode_lowercase(s: Seq<char>) -> Seq<char>;

/// `str::to_lowercase` returns the lower case form of `s` as a new string:
/// a function of the characters of `s` alone, set down in Unicode's tables.
pub assume_specification[ str::to_lowercase ](s: &str) -> (lower: String)
    ensures
        lower@ == unicode_lowercase(s@),
;

/// An upper case ASCII letter becomes its lower case one; any other
/// character stays.
pub open spec fn lower_letter(c: char) -> char {
    if 'A' <= c <= 'Z' {
        ((c as u8) + 32) as char
    } else {
        c
    }
}

/// `s` with its upper case ASCII letters in lower case.
pub open spec fn folded(s: Seq<char>) -> Seq<char> {
    s.map_values(|c: char| lower_letter(c))
}

/// `s` in lower case. Of an ASCII text, which every name that the syntax
/// admits is, the letters `A` to `Z` are folded. What becomes of any other
/// text is left to `str::to_lowercase`.
pub open spec fn lowercase(s: Seq<char>) -> Seq<char> {
    if is_ascii_chars(s) {
        folded(s)
    } else {
        unicode_lowercase(s)
    }
}

/// Those of `parts` that are not empty.
pub open spec fn non_empty(parts: Seq<Seq<char>>) -> Seq<Seq<char>> {
    parts.filter(|part: Seq<char>| part.len() > 0)
}

/// The key of the variable `name` in `section` and `subsection`. A part
/// that is empty leaves no trace in it, not even a dot.
pub open spec fn path_of(section: Seq<char>, subsection: Seq<char>, name: Seq<char>) -> Seq<
    char,
> {
    joined(non_empty(seq![lowercase(section), subsection, lowercase(name)]), '.')
}

/// `path` with one more part, which counts only if it is not empty.
pub open spec fn extended(path: Seq<char>, part: Seq<char>) -> Seq<char> {
    if part.len() == 0 {
        path
    } else if path.len() == 0 {
        part
    } else {
        path + seq!['.'] + part
    }
}

/// Parts that are not empty join to a text that is empty only where there
/// is no part.
proof fn lemma_joined_is_empty(parts: Seq<Seq<char>>)
    requires
        forall|i: int| 0 <= i < parts.len() ==> (#[trigger] parts[i]).len() > 0,
    ensures
        joined(parts, '.').len() == 0 <==> parts.len() == 0,
    decreases parts.len(),
{
    if parts.len() > 1 {
        lemma_joined_is_empty(parts.drop_last());
    }
}

/// Joining one part more is extending the path.
pub proof fn lemma_joined_push(parts: Seq<Seq<char>>, part: Seq<char>)
    ensures
        joined(non_empty(parts.push(part)), '.') == extended(joined(non_empty(parts), '.'), part),
{
    broadcast use Seq::lemma_filter_push, Seq::lemma_filter_pred;

    let kept = non_empty(parts);
    lemma_joined_is_empty(kept);
    if part.len() > 0 {
        assert(kept.push(part).drop_last() =~= kept);
    }
}

/// `s` in lower case.
pub fn to_lower(s: &str) -> (lower: String)
    ensures
        lower@ == lowercase(s@),
{
    if s.is_ascii() {
        let chars = chars_of(s);
        let n: usize = chars.len();
        let mut lower = String::new();
        let mut i: usize = 0;
        while i < n
            invariant
                i <= n == chars@.len(),
                chars@ == s@,
                lower@ == folded(s@.take(i as int)),
            decreases n - i,
        {
            let c = chars[i];
            let low = if 'A' <= c && c <= 'Z' {
                ((c as u8) + 32) as char
            } else {
                c
            };
            lower.push(low);
            i += 1;
        }
        lower
    } else {
        s.to_lowercase()
    }
}

/// Adds `part` to `path`, after a dot where `path` holds something
/// already; an empty part adds nothing.
fn add_part(path: &mut String, part: &str)
    ensures
        final(path)@ == extended(old(path)@, part@),
{
    if !part.is_empty() {
        if !path.as_str().is_empty() {
            path.push('.');
        }
        path.append(part);
    }
}

/// The key of the variable `name` in `section` and `subsection`.
pub fn get_path(section: &str, subsection: &str, name: &String) -> (path: String)
    ensures
        path@ == path_of(section@, subsection@, name@),
{
    let lower_section = to_lower(section);
    let lower_name = to_lower(name.as_str());
    let mut path = String::new();
    add_part(&mut path, lower_section.as_str());
    add_part(&mut path, subsection);
    add_part(&mut path, lower_name.as_str());
    proof {
        let none = Seq::<Seq<char>>::empty();
        let parts = seq![lower_section@, subsection@, lower_name@];
        lemma_joined_push(none, lower_section@);
        lemma_joined_push(none.push(lower_section@), subsection@);
        lemma_joined_push(none.push(lower_section@).push(subsection@), lower_name@);
        assert(parts =~= none.push(lower_section@).push(subsection@).push(lower_name@));
        assert(non_empty(none) =~= none) by {
            broadcast use Seq::lemma_filter_len;
        }
    }
    path
}

} // verus!
