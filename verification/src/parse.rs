//! The reader itself: one record for each line of the text, in order, with
//! the section in effect carried from line to line.

use crate::line::{
    extract_section_line, extract_variable_line, lemma_header_is_header_text,
    lemma_variable_is_text, section_header, true_text, variable,
};
use crate::path::{folded, get_path, non_empty, path_of};
use crate::text::{
    joined, lemma_lines, lemma_run, line_feeds, lines, run, split_lines, trim, trimmed, CharClass,
};
use crate::value::{lemma_clean_value_is_kept, sanitized};
use vstd::prelude::*;
use vstd::utf8::is_ascii_chars;

verus! {

/// What one line of the text says.
#[derive(PartialEq, Eq, Debug)]
pub struct ParsedConfig {
    /// The line as it stands in the text, white space included.
    pub line: String,
    /// Whether the line is a section header.
    pub is_section: bool,
    /// The section in effect, as it was written.
    pub section: String,
    /// The subsection in effect, as it was written; empty if there is none.
    pub subsection: String,
    /// The variable that the line sets; empty if it sets none.
    pub name: String,
    /// The value that the variable gets; empty if the line sets none.
    pub value: String,
    /// The key made of section, subsection and name.
    pub path: String,
}

/// A record as a mathematical value.
pub struct Record {
    pub line: Seq<char>,
    pub is_section: bool,
    pub section: Seq<char>,
    pub subsection: Seq<char>,
    pub name: Seq<char>,
    pub value: Seq<char>,
    pub path: Seq<char>,
}

impl View for ParsedConfig {
    type V = Record;

    open spec fn view(&self) -> Record {
        Record {
            line: self.line@,
            is_section: self.is_section,
            section: self.section@,
            subsection: self.subsection@,
            name: self.name@,
            value: self.value@,
            path: self.path@,
        }
    }
}

impl Record {
    /// Whether the record is one that a line can give: the record of its
    /// own line, read with its own section and subsection in effect.
    pub open spec fn wf(self) -> bool {
        self == record_of(self.section, self.subsection, self.line)
    }
}

impl ParsedConfig {
    /// Whether the record is one that a line can give.
    pub open spec fn wf(&self) -> bool {
        self@.wf()
    }
}

impl DeepView for ParsedConfig {
    type V = Record;

    open spec fn deep_view(&self) -> Record {
        self@
    }
}

/// The record of `line`, read while `section` and `subsection` are in
/// effect. A header puts its own section and subsection in effect, for
/// itself and for the lines after it; any other line leaves them as they
/// are. A line that is neither a header nor a variable sets nothing.
pub open spec fn record_of(section: Seq<char>, subsection: Seq<char>, line: Seq<char>) -> Record {
    let text = trimmed(line);
    let none = Seq::<char>::empty();
    match section_header(text) {
        Some((new_section, new_subsection)) => Record {
            line,
            is_section: true,
            section: new_section,
            subsection: new_subsection,
            name: none,
            value: none,
            path: path_of(new_section, new_subsection, none),
        },
        None => match variable(text) {
            Some((name, raw)) => Record {
                line,
                is_section: false,
                section,
                subsection,
                name,
                value: sanitized(raw),
                path: path_of(section, subsection, name),
            },
            None => Record {
                line,
                is_section: false,
                section,
                subsection,
                name: none,
                value: none,
                path: path_of(section, subsection, none),
            },
        },
    }
}

/// The section and subsection in effect after `records`: those of the last
/// record, and the empty ones before the first.
pub open spec fn state_after(records: Seq<Record>) -> (Seq<char>, Seq<char>) {
    if records.len() == 0 {
        (Seq::<char>::empty(), Seq::<char>::empty())
    } else {
        (records.last().section, records.last().subsection)
    }
}

/// The records of `ls`, line by line.
pub open spec fn records_of(ls: Seq<Seq<char>>) -> Seq<Record>
    decreases ls.len(),
{
    if ls.len() == 0 {
        Seq::<Record>::empty()
    } else {
        let before = records_of(ls.drop_last());
        let state = state_after(before);
        before.push(record_of(state.0, state.1, ls.last()))
    }
}

/// The records of a whole text.
pub open spec fn parsed(text: Seq<char>) -> Seq<Record> {
    records_of(lines(text))
}

/// What holds of every record: a header sets no variable, any other line
/// leaves the section as it was, a variable is set only by a line that is
/// one, and the path is made of the record's own section, subsection and
/// name.
pub proof fn lemma_record(section: Seq<char>, subsection: Seq<char>, line: Seq<char>)
    ensures
        ({
            let r = record_of(section, subsection, line);
            &&& r.line == line
            &&& r.is_section <==> section_header(trimmed(line)) is Some
            &&& r.is_section ==> r.name.len() == 0 && r.value.len() == 0 && Some(
                (r.section, r.subsection),
            ) == section_header(trimmed(line))
            &&& !r.is_section ==> r.section == section && r.subsection == subsection
            &&& r.name.len() > 0 ==> !r.is_section && variable(trimmed(line)) == Some(
                (r.name, variable(trimmed(line)).unwrap().1),
            ) && r.value == sanitized(variable(trimmed(line)).unwrap().1)
            &&& r.name.len() == 0 ==> r.value.len() == 0
            &&& r.path == path_of(r.section, r.subsection, r.name)
            &&& r.wf()
        }),
{
    let text = trimmed(line);
    if section_header(text) is None && variable(text) is Some {
        lemma_run(text, CharClass::Name);
    }
}

/// There is one record for each line.
pub proof fn lemma_one_record_per_line(ls: Seq<Seq<char>>)
    ensures
        records_of(ls).len() == ls.len(),
    decreases ls.len(),
{
    if ls.len() > 0 {
        lemma_one_record_per_line(ls.drop_last());
    }
}

/// The records of the first lines do not depend on the lines after them.
pub proof fn lemma_records_of_prefix(ls: Seq<Seq<char>>, n: int)
    requires
        0 <= n <= ls.len(),
    ensures
        records_of(ls.take(n)) == records_of(ls).take(n),
    decreases ls.len(),
{
    lemma_one_record_per_line(ls);
    if n == ls.len() {
        assert(ls.take(n) =~= ls);
    } else {
        lemma_records_of_prefix(ls.drop_last(), n);
        lemma_one_record_per_line(ls.drop_last());
        assert(ls.drop_last().take(n) =~= ls.take(n));
    }
}

/// Each record is that of its line, read with the section of the record
/// before it in effect, and with no section in effect at the first line.
pub proof fn lemma_record_at(ls: Seq<Seq<char>>, i: int)
    requires
        0 <= i < ls.len(),
    ensures
        records_of(ls).len() == ls.len(),
        i == 0 ==> records_of(ls)[i] == record_of(
            Seq::<char>::empty(),
            Seq::<char>::empty(),
            ls[i],
        ),
        i > 0 ==> records_of(ls)[i] == record_of(
            records_of(ls)[i - 1].section,
            records_of(ls)[i - 1].subsection,
            ls[i],
        ),
{
    lemma_one_record_per_line(ls);
    let upto = ls.take(i + 1);
    lemma_records_of_prefix(ls, i + 1);
    lemma_records_of_prefix(ls, i);
    lemma_one_record_per_line(upto);
    lemma_one_record_per_line(ls.take(i));
    assert(records_of(upto).last() == records_of(ls)[i]);
    if i > 0 {
        assert(records_of(ls.take(i)).last() == records_of(ls)[i - 1]);
    }
}

/// The section in effect changes at headers alone: the record of any other
/// line has the section and subsection of the record before it, and none
/// where it is the first.
pub proof fn lemma_section_changes_at_headers_only(ls: Seq<Seq<char>>, i: int)
    requires
        0 <= i < ls.len(),
        section_header(trimmed(ls[i])) is None,
    ensures
        i < records_of(ls).len(),
        !records_of(ls)[i].is_section,
        i == 0 ==> records_of(ls)[i].section.len() == 0 && records_of(ls)[i].subsection.len() == 0,
        i > 0 ==> records_of(ls)[i].section == records_of(ls)[i - 1].section && records_of(
            ls,
        )[i].subsection == records_of(ls)[i - 1].subsection,
{
    lemma_record_at(ls, i);
    if i == 0 {
        lemma_record(Seq::<char>::empty(), Seq::<char>::empty(), ls[i]);
    } else {
        lemma_record(records_of(ls)[i - 1].section, records_of(ls)[i - 1].subsection, ls[i]);
    }
}

/// Every record of a text is that of its own line, and its path is made of
/// its own section, subsection and name.
pub proof fn lemma_records_are_well_formed(ls: Seq<Seq<char>>, i: int)
    requires
        0 <= i < ls.len(),
    ensures
        i < records_of(ls).len(),
        records_of(ls)[i].wf(),
        records_of(ls)[i].line == ls[i],
        records_of(ls)[i].path == path_of(
            records_of(ls)[i].section,
            records_of(ls)[i].subsection,
            records_of(ls)[i].name,
        ),
{
    lemma_record_at(ls, i);
    if i == 0 {
        lemma_record(Seq::<char>::empty(), Seq::<char>::empty(), ls[i]);
    } else {
        lemma_record(records_of(ls)[i - 1].section, records_of(ls)[i - 1].subsection, ls[i]);
    }
}

/// The sections and names that a text's records hold are ASCII, so each
/// path is made by folding the letters `A` to `Z` and by nothing else.
pub proof fn lemma_record_names_are_ascii(ls: Seq<Seq<char>>, i: int)
    requires
        0 <= i < ls.len(),
    ensures
        i < records_of(ls).len(),
        is_ascii_chars(records_of(ls)[i].section),
        is_ascii_chars(records_of(ls)[i].name),
        records_of(ls)[i].path == joined(
            non_empty(
                seq![
                    folded(records_of(ls)[i].section),
                    records_of(ls)[i].subsection,
                    folded(records_of(ls)[i].name),
                ],
            ),
            '.',
        ),
    decreases i,
{
    lemma_record_at(ls, i);
    let text = trimmed(ls[i]);
    if i == 0 {
        lemma_record(Seq::<char>::empty(), Seq::<char>::empty(), ls[i]);
    } else {
        lemma_record_names_are_ascii(ls, i - 1);
        lemma_record(records_of(ls)[i - 1].section, records_of(ls)[i - 1].subsection, ls[i]);
    }
    if section_header(text) is Some {
        lemma_header_is_header_text(text);
    } else if variable(text) is Some {
        lemma_variable_is_text(text);
    }
}

/// Before the first header no section is in effect.
pub proof fn lemma_no_section_before_first_header(ls: Seq<Seq<char>>, j: int)
    requires
        0 <= j < ls.len(),
        forall|k: int| 0 <= k <= j ==> section_header(trimmed(#[trigger] ls[k])) is None,
    ensures
        j < records_of(ls).len(),
        !records_of(ls)[j].is_section,
        records_of(ls)[j].section.len() == 0,
        records_of(ls)[j].subsection.len() == 0,
    decreases j,
{
    lemma_record_at(ls, j);
    if j == 0 {
        lemma_record(Seq::<char>::empty(), Seq::<char>::empty(), ls[j]);
    } else {
        lemma_no_section_before_first_header(ls, j - 1);
        lemma_record(records_of(ls)[j - 1].section, records_of(ls)[j - 1].subsection, ls[j]);
    }
}

/// A header sets no variable, and its section and subsection are in effect
/// from its own record up to the record before the next header.
pub proof fn lemma_header_effect(ls: Seq<Seq<char>>, i: int, j: int)
    requires
        0 <= i <= j < ls.len(),
        section_header(trimmed(ls[i])) is Some,
        forall|k: int| i < k <= j ==> section_header(trimmed(#[trigger] ls[k])) is None,
    ensures
        j < records_of(ls).len(),
        records_of(ls)[i].is_section,
        records_of(ls)[i].name.len() == 0,
        records_of(ls)[i].value.len() == 0,
        i < j ==> !records_of(ls)[j].is_section,
        Some((records_of(ls)[j].section, records_of(ls)[j].subsection)) == section_header(
            trimmed(ls[i]),
        ),
    decreases j - i,
{
    lemma_record_at(ls, j);
    let none = Seq::<char>::empty();
    if i == j {
        if i == 0 {
            lemma_record(none, none, ls[i]);
        } else {
            lemma_record(records_of(ls)[i - 1].section, records_of(ls)[i - 1].subsection, ls[i]);
        }
    } else {
        lemma_header_effect(ls, i, j - 1);
        lemma_record(records_of(ls)[j - 1].section, records_of(ls)[j - 1].subsection, ls[j]);
    }
}

/// A variable that is named and not assigned is true.
pub proof fn lemma_boolean_shorthand(section: Seq<char>, subsection: Seq<char>, line: Seq<char>)
    requires
        variable(trimmed(line)) is Some,
        !trimmed(line).contains('='),
    ensures
        !record_of(section, subsection, line).is_section,
        record_of(section, subsection, line).name == trimmed(line),
        record_of(section, subsection, line).value == true_text(),
{
    let text = trimmed(line);
    lemma_run(text, CharClass::Name);
    let n = run(text, CharClass::Name) as int;
    let rest = text.skip(n);
    if rest.len() > 0 {
        lemma_run(rest, CharClass::Space);
    }
    lemma_clean_value_is_kept(true_text());
}

/// Reads one line while `section` and `subsection` are in effect. The
/// record's own section and subsection are those in effect after the line.
pub fn parse_line(section: &str, subsection: &str, line: &str) -> (record: ParsedConfig)
    ensures
        record@ == record_of(section@, subsection@, line@),
        record.wf(),
{
    proof {
        lemma_record(section@, subsection@, line@);
    }
    let text = trim(line);
    let none = String::new();
    match extract_section_line(text) {
        Some((new_section, new_subsection)) => {
            let path = get_path(new_section, new_subsection, &none);
            ParsedConfig {
                line: line.to_owned(),
                is_section: true,
                section: new_section.to_owned(),
                subsection: new_subsection.to_owned(),
                name: none,
                value: String::new(),
                path,
            }
        },
        None => {
            let (name, value) = match extract_variable_line(text) {
                Some(found) => found,
                None => (none, String::new()),
            };
            let path = get_path(section, subsection, &name);
            ParsedConfig {
                line: line.to_owned(),
                is_section: false,
                section: section.to_owned(),
                subsection: subsection.to_owned(),
                name,
                value,
                path,
            }
        },
    }
}

/// Reads a whole text: one record for each of its lines, in order. No text
/// is refused.
pub fn parse_config(text: String) -> (records: Vec<ParsedConfig>)
    ensures
        records.deep_view() == parsed(text@),
        records@.len() == line_feeds(text@) + 1,
        forall|i: int| 0 <= i < records@.len() ==> (#[trigger] records@[i]).wf(),
{
    let ls = split_lines(text.as_str());
    let mut records: Vec<ParsedConfig> = Vec::new();
    let mut section = String::new();
    let mut subsection = String::new();
    let mut i: usize = 0;
    while i < ls.len()
        invariant
            i <= ls.len(),
            records.deep_view() == records_of(ls.deep_view().take(i as int)),
            (section@, subsection@) == state_after(records.deep_view()),
            forall|k: int| 0 <= k < records@.len() ==> (#[trigger] records@[k]).wf(),
        decreases ls.len() - i,
    {
        let record = parse_line(section.as_str(), subsection.as_str(), ls[i].as_str());
        section = record.section.clone();
        subsection = record.subsection.clone();
        records.push(record);
        i += 1;
        proof {
            let upto = ls.deep_view().take(i as int);
            assert(upto.drop_last() =~= ls.deep_view().take(i - 1));
        }
    }
    proof {
        assert(ls.deep_view().take(ls.len() as int) =~= ls.deep_view());
        lemma_lines(text@);
        lemma_one_record_per_line(lines(text@));
    }
    records
}

} // verus!
