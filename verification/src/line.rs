//! What a line is: a section header, a variable, or neither. A line is
//! judged whole, with the white space at its ends already taken off.

use crate::text::{
    chars_of, has_newline, is_letter, lemma_run, lemma_run_is, run, skip_run, string_of,
    CharClass,
};
use crate::value::{sanitize_value, sanitized};
use vstd::prelude::*;
use vstd::slice::slice_subrange;

verus! {

/// A section's name: one or more ASCII letters, digits, `-` and `.`.
pub open spec fn is_section_name(s: Seq<char>) -> bool {
    &&& s.len() > 0
    &&& forall|i: int| 0 <= i < s.len() ==> CharClass::Section.has(#[trigger] s[i])
}

/// A variable's name: an ASCII letter, then ASCII letters and `-`.
pub open spec fn is_variable_name(s: Seq<char>) -> bool {
    &&& s.len() > 0
    &&& is_letter(s[0])
    &&& forall|i: int| 0 <= i < s.len() ==> CharClass::Name.has(#[trigger] s[i])
}

/// The header of a section: `[section]`, or `[section "subsection"]` with
/// one space before the quoted subsection.
pub open spec fn header_text(section: Seq<char>, subsection: Option<Seq<char>>) -> Seq<char> {
    match subsection {
        None => seq!['['] + section + seq![']'],
        Some(sub) => seq!['['] + section + seq![' ', '"'] + sub + seq!['"', ']'],
    }
}

/// `s` from its first character on that is no space.
pub open spec fn skip_spaces(s: Seq<char>) -> Seq<char> {
    s.skip(run(s, CharClass::Space) as int)
}

/// The value of a variable that is named and not assigned.
pub open spec fn true_text() -> Seq<char> {
    seq!['t', 'r', 'u', 'e']
}

/// The section and subsection that `line` is the header of, if it is one.
/// Between the brackets stands the section's name, and after it nothing or
/// the subsection: whatever one line holds between ` "` and the last `"`.
/// A header without a subsection has the empty one.
pub open spec fn section_header(line: Seq<char>) -> Option<(Seq<char>, Seq<char>)> {
    if line.len() < 2 || line.first() != '[' || line.last() != ']' {
        None
    } else {
        let inner = line.subrange(1, line.len() - 1);
        let n = run(inner, CharClass::Section) as int;
        let rest = inner.skip(n);
        if n == 0 {
            None
        } else if rest.len() == 0 {
            Some((inner.take(n), Seq::<char>::empty()))
        } else if rest.len() >= 3 && rest[0] == ' ' && rest[1] == '"' && rest.last() == '"'
            && !rest.contains('\n') {
            Some((inner.take(n), rest.subrange(2, rest.len() - 1)))
        } else {
            None
        }
    }
}

/// The name and the raw value of the variable that `line` sets, if it is
/// one. After the name stands nothing, and the raw value is `true`; or
/// spaces, `=`, spaces, and the raw value up to the end of the line.
pub open spec fn variable(line: Seq<char>) -> Option<(Seq<char>, Seq<char>)> {
    let n = run(line, CharClass::Name) as int;
    let rest = line.skip(n);
    if n == 0 || !is_letter(line[0]) {
        None
    } else if rest.len() == 0 {
        Some((line, true_text()))
    } else {
        let sign = skip_spaces(rest);
        if sign.len() > 0 && sign[0] == '=' {
            let raw = skip_spaces(sign.drop_first());
            if raw.contains('\n') {
                None
            } else {
                Some((line.take(n), raw))
            }
        } else {
            None
        }
    }
}

/// `n` spaces.
pub open spec fn spaces(n: nat) -> Seq<char> {
    Seq::new(n, |i: int| ' ')
}

/// A line that assigns to a variable: the name, `=` with any number of
/// spaces on either side, and the raw value.
pub open spec fn assignment_text(name: Seq<char>, before: nat, after: nat, raw: Seq<char>) -> Seq<
    char,
> {
    name + spaces(before) + seq!['='] + spaces(after) + raw
}

/// Every header that can be written is read as the header it is.
pub proof fn lemma_header_text_is_read(section: Seq<char>, subsection: Option<Seq<char>>)
    requires
        is_section_name(section),
        subsection matches Some(sub) ==> !sub.contains('\n'),
    ensures
        section_header(header_text(section, subsection)) == Some(
            (
                section,
                match subsection {
                    Some(sub) => sub,
                    None => Seq::<char>::empty(),
                },
            ),
        ),
{
    let line = header_text(section, subsection);
    let inner = line.subrange(1, line.len() - 1);
    lemma_run_is(inner, CharClass::Section, section.len() as int);
}

/// What is read as a header is one: its section is a section's name, its
/// subsection holds no line feed, and the line is the header of the two, or
/// the header of the section alone where the subsection is empty.
pub proof fn lemma_header_is_header_text(line: Seq<char>)
    requires
        section_header(line) is Some,
    ensures
        ({
            let (section, subsection) = section_header(line).unwrap();
            &&& is_section_name(section)
            &&& !subsection.contains('\n')
            &&& line == header_text(section, Some(subsection)) || (subsection.len() == 0 && line
                == header_text(section, None))
        }),
{
    lemma_run(line.subrange(1, line.len() - 1), CharClass::Section);
}

/// Every name that can be written alone is read as a variable that is true.
pub proof fn lemma_name_is_read(name: Seq<char>)
    requires
        is_variable_name(name),
    ensures
        variable(name) == Some((name, true_text())),
{
    lemma_run_is(name, CharClass::Name, name.len() as int);
}

/// Every assignment that can be written is read as the assignment it is.
/// The spaces after `=` are no part of the raw value.
pub proof fn lemma_assignment_text_is_read(
    name: Seq<char>,
    before: nat,
    after: nat,
    raw: Seq<char>,
)
    requires
        is_variable_name(name),
        raw.len() > 0 ==> raw[0] != ' ',
        !raw.contains('\n'),
    ensures
        variable(assignment_text(name, before, after, raw)) == Some((name, raw)),
{
    let line = assignment_text(name, before, after, raw);
    let n = name.len() as int;
    assert(line[n] == if before == 0 {
        '='
    } else {
        ' '
    });
    lemma_run_is(line, CharClass::Name, n);
    let rest = line.skip(n);
    lemma_run_is(rest, CharClass::Space, before as int);
    let sign = skip_spaces(rest);
    let tail = sign.drop_first();
    lemma_run_is(tail, CharClass::Space, after as int);
}

/// What is read as a variable is one: its name is a variable's name, and
/// the line is the name alone, with the raw value `true`, or an assignment
/// of a raw value that holds no line feed and begins with no space.
pub proof fn lemma_variable_is_text(line: Seq<char>)
    requires
        variable(line) is Some,
    ensures
        ({
            let (name, raw) = variable(line).unwrap();
            &&& is_variable_name(name)
            &&& (line == name && raw == true_text()) || (exists|before: nat, after: nat|
                line == assignment_text(name, before, after, raw))
            &&& !raw.contains('\n')
            &&& raw.len() > 0 ==> raw[0] != ' '
        }),
{
    let (name, raw) = variable(line).unwrap();
    let n = run(line, CharClass::Name) as int;
    let rest = line.skip(n);
    lemma_run(line, CharClass::Name);
    if rest.len() > 0 {
        lemma_run(rest, CharClass::Space);
        let before = run(rest, CharClass::Space);
        let tail = skip_spaces(rest).drop_first();
        lemma_run(tail, CharClass::Space);
        let after = run(tail, CharClass::Space);
        assert(rest.take(before as int) =~= spaces(before));
        assert(tail.take(after as int) =~= spaces(after));
        assert(line =~= assignment_text(name, before, after, raw));
    }
}

/// The section and the subsection of the header `line`; `None` where `line`
/// is no header.
pub fn extract_section_line(line: &str) -> (found: Option<(&str, &str)>)
    ensures
        match section_header(line@) {
            Some((section, subsection)) => found matches Some(f) && f.0@ == section && f.1@
                == subsection,
            None => found is None,
        },
{
    let chars = chars_of(line);
    let n: usize = chars.len();
    if n < 2 || chars[0] != '[' || chars[n - 1] != ']' {
        return None;
    }
    let inner = slice_subrange(chars.as_slice(), 1, n - 1);
    assert(inner@.skip(0) =~= inner@);
    let len: usize = skip_run(inner, 0, CharClass::Section);
    if len == 0 {
        return None;
    }
    let ghost rest = inner@.skip(len as int);
    assert(rest.len() >= 3 ==> rest[0] == inner@[len as int] && rest[1] == inner@[len + 1]
        && rest.last() == inner@[n - 3]);
    if len == n - 2 {
        proof {
            reveal_strlit("");
        }
        return Some((line.substring_char(1, 1 + len), ""));
    }
    if n - 2 - len < 3 || inner[len] != ' ' || inner[len + 1] != '"' || inner[n - 3] != '"' {
        return None;
    }
    if has_newline(slice_subrange(inner, len, n - 2)) {
        return None;
    }
    Some((line.substring_char(1, 1 + len), line.substring_char(len + 3, n - 2)))
}

/// The name of the variable that `line` sets and the value that it gets,
/// comment and quotes taken off; `None` where `line` sets no variable.
pub fn extract_variable_line(line: &str) -> (found: Option<(String, String)>)
    ensures
        match variable(line@) {
            Some((name, raw)) => found matches Some(f) && f.0@ == name && f.1@ == sanitized(raw),
            None => found is None,
        },
{
    let chars = chars_of(line);
    let n: usize = chars.len();
    assert(chars@.skip(0) =~= chars@);
    let len: usize = skip_run(chars.as_slice(), 0, CharClass::Name);
    if len == 0 || chars[0] == '-' {
        return None;
    }
    proof {
        lemma_run(chars@, CharClass::Name);
    }
    let name = string_of(chars.as_slice(), 0, len);
    if len == n {
        proof {
            reveal_strlit("true");
            assert("true"@ =~= true_text());
        }
        return Some((name, sanitize_value("true")));
    }
    let ghost rest = chars@.skip(len as int);
    let sign: usize = skip_run(chars.as_slice(), len, CharClass::Space);
    assert(skip_spaces(rest) =~= chars@.skip(sign as int));
    if sign == n || chars[sign] != '=' {
        return None;
    }
    let start: usize = skip_run(chars.as_slice(), sign + 1, CharClass::Space);
    assert(chars@.skip(sign as int).drop_first() =~= chars@.skip(sign + 1));
    assert(skip_spaces(chars@.skip(sign + 1)) =~= chars@.subrange(start as int, n as int));
    if has_newline(slice_subrange(chars.as_slice(), start, n)) {
        return None;
    }
    let raw = string_of(chars.as_slice(), start, n);
    Some((name, sanitize_value(raw.as_str())))
}

} // verus!
