use git_config::parse::{parse_config, parse_line};
use git_config::ParsedConfig;

const CONFIG: &str = "# this repository\n\trepositoryformatversion = 0\n\tfilemode = false\n\tbare = false\n\tlogallrefupdates = true\n\tsymlinks = false\n\tignorecase = true\n[remote \"origin\"]\n\turl = https://github.com/Byron/gitoxide.git\n\tfetch = +refs/heads/*:refs/remotes/origin/*\n[branch \"main\"]\n\tremote = origin\n\tmerge = refs/heads/main\n";

fn record(
    line: &str,
    is_section: bool,
    section: &str,
    subsection: &str,
    name: &str,
    value: &str,
    path: &str,
) -> ParsedConfig {
    ParsedConfig {
        line: line.to_string(),
        is_section,
        section: section.to_string(),
        subsection: subsection.to_string(),
        name: name.to_string(),
        value: value.to_string(),
        path: path.to_string(),
    }
}

fn without_lines(records: Vec<ParsedConfig>) -> Vec<ParsedConfig> {
    let mut out = Vec::new();
    for r in records {
        out.push(ParsedConfig { line: "".to_string(), ..r });
    }
    out
}

#[test]
fn read_test_file() {
    assert_eq!(without_lines(parse_config(CONFIG.to_string())), vec![
        ParsedConfig { line: "".to_string(), is_section: false, section: "".to_string(), subsection: "".to_string(), name: "".to_string(), value: "".to_string(), path: "".to_string() },
        ParsedConfig { line: "".to_string(), is_section: false, section: "".to_string(), subsection: "".to_string(), name: "repositoryformatversion".to_string(), value: "0".to_string(), path: "repositoryformatversion".to_string() },
        ParsedConfig { line: "".to_string(), is_section: false, section: "".to_string(), subsection: "".to_string(), name: "filemode".to_string(), value: "false".to_string(), path: "filemode".to_string() },
        ParsedConfig { line: "".to_string(), is_section: false, section: "".to_string(), subsection: "".to_string(), name: "bare".to_string(), value: "false".to_string(), path: "bare".to_string() },
        ParsedConfig { line: "".to_string(), is_section: false, section: "".to_string(), subsection: "".to_string(), name: "logallrefupdates".to_string(), value: "true".to_string(), path: "logallrefupdates".to_string() },
        ParsedConfig { line: "".to_string(), is_section: false, section: "".to_string(), subsection: "".to_string(), name: "symlinks".to_string(), value: "false".to_string(), path: "symlinks".to_string() },
        ParsedConfig { line: "".to_string(), is_section: false, section: "".to_string(), subsection: "".to_string(), name: "ignorecase".to_string(), value: "true".to_string(), path: "ignorecase".to_string() },
        ParsedConfig { line: "".to_string(), is_section: true, section: "remote".to_string(), subsection: "origin".to_string(), name: "".to_string(), value: "".to_string(), path: "remote.origin".to_string() },
        ParsedConfig { line: "".to_string(), is_section: false, section: "remote".to_string(), subsection: "origin".to_string(), name: "url".to_string(), value: "https://github.com/Byron/gitoxide.git".to_string(), path: "remote.origin.url".to_string() },
        ParsedConfig { line: "".to_string(), is_section: false, section: "remote".to_string(), subsection: "origin".to_string(), name: "fetch".to_string(), value: "+refs/heads/*:refs/remotes/origin/*".to_string(), path: "remote.origin.fetch".to_string() },
        ParsedConfig { line: "".to_string(), is_section: true, section: "branch".to_string(), subsection: "main".to_string(), name: "".to_string(), value: "".to_string(), path: "branch.main".to_string() },
        ParsedConfig { line: "".to_string(), is_section: false, section: "branch".to_string(), subsection: "main".to_string(), name: "remote".to_string(), value: "origin".to_string(), path: "branch.main.remote".to_string() },
        ParsedConfig { line: "".to_string(), is_section: false, section: "branch".to_string(), subsection: "main".to_string(), name: "merge".to_string(), value: "refs/heads/main".to_string(), path: "branch.main.merge".to_string() },
        ParsedConfig { line: "".to_string(), is_section: false, section: "branch".to_string(), subsection: "main".to_string(), name: "".to_string(), value: "".to_string(), path: "branch.main".to_string() }
    ]);
}

#[test]
fn records_keep_their_lines_verbatim() {
    let records = parse_config(CONFIG.to_string());
    let lines: Vec<&str> = CONFIG.split("\n").collect();
    assert_eq!(records.len(), lines.len());
    for (record, line) in records.iter().zip(lines) {
        assert_eq!(record.line, line);
    }
    assert_eq!(records[1].line, "\trepositoryformatversion = 0");
    assert_eq!(records[13].line, "");
}

#[test]
fn header_with_subsection() {
    assert_eq!(
        parse_config("[remote \"origin\"]".to_string()),
        vec![record("[remote \"origin\"]", true, "remote", "origin", "", "", "remote.origin")]
    );
}

#[test]
fn header_without_subsection() {
    assert_eq!(
        parse_config("[core]\n\tbare = false".to_string()),
        vec![
            record("[core]", true, "core", "", "", "", "core"),
            record("\tbare = false", false, "core", "", "bare", "false", "core.bare"),
        ]
    );
}

#[test]
fn variable_inside_a_section() {
    let records =
        parse_config("[remote \"origin\"]\nurl = https://example.com/repo.git".to_string());
    assert_eq!(
        records[1],
        record(
            "url = https://example.com/repo.git",
            false,
            "remote",
            "origin",
            "url",
            "https://example.com/repo.git",
            "remote.origin.url"
        )
    );
}

#[test]
fn boolean_shorthand_at_top_level() {
    assert_eq!(
        parse_config("filemode".to_string()),
        vec![record("filemode", false, "", "", "filemode", "true", "filemode")]
    );
}

#[test]
fn boolean_shorthand_differs_from_an_empty_value() {
    let records = parse_config("[core]\nbare\nbare =\nbare=".to_string());
    assert_eq!(records[1].value, "true");
    assert_eq!(records[2].name, "bare");
    assert_eq!(records[2].value, "");
    assert_eq!(records[3].name, "bare");
    assert_eq!(records[3].value, "");
}

#[test]
fn blank_line_before_any_section() {
    assert_eq!(parse_config("".to_string()), vec![record("", false, "", "", "", "", "")]);
    let records = parse_config("   \n[a]".to_string());
    assert_eq!(records[0], record("   ", false, "", "", "", "", ""));
}

#[test]
fn blank_line_after_a_section() {
    let records = parse_config("[branch \"main\"]\n".to_string());
    assert_eq!(records.len(), 2);
    assert_eq!(records[1], record("", false, "branch", "main", "", "", "branch.main"));
}

#[test]
fn one_record_for_each_line() {
    assert_eq!(parse_config("".to_string()).len(), 1);
    assert_eq!(parse_config("\n".to_string()).len(), 2);
    assert_eq!(parse_config("\n\n".to_string()).len(), 3);
    assert_eq!(parse_config("a = b".to_string()).len(), 1);
    assert_eq!(parse_config("a = b\n".to_string()).len(), 2);
    assert_eq!(parse_config("a\n[b]\n??\n\nc=d".to_string()).len(), 5);
    for text in ["", "x", "\n", "a\nb", "[s]\n\n\n", "\r\n\r\n", "=\n#\n;\n"] {
        assert_eq!(parse_config(text.to_string()).len(), text.matches('\n').count() + 1);
    }
}

#[test]
fn a_header_lasts_until_the_next_header() {
    let text = "a\n[one]\nb\n\n?? not a line\nc = 1\n[two \"Sub\"]\nd\n[three]\ne";
    let records = parse_config(text.to_string());
    let sections: Vec<(&str, &str, bool)> = records
        .iter()
        .map(|r| (r.section.as_str(), r.subsection.as_str(), r.is_section))
        .collect();
    assert_eq!(
        sections,
        vec![
            ("", "", false),
            ("one", "", true),
            ("one", "", false),
            ("one", "", false),
            ("one", "", false),
            ("one", "", false),
            ("two", "Sub", true),
            ("two", "Sub", false),
            ("three", "", true),
            ("three", "", false),
        ]
    );
    for r in &records {
        if r.is_section {
            assert_eq!(r.name, "");
            assert_eq!(r.value, "");
        }
    }
}

#[test]
fn a_header_without_subsection_clears_the_subsection() {
    let records = parse_config("[a \"b\"]\n[c]\nd".to_string());
    assert_eq!(records[2], record("d", false, "c", "", "d", "true", "c.d"));
}

#[test]
fn every_path_is_made_of_its_record() {
    let text = "Top = 1\n[Remote \"Origin\"]\nURL = x\n\n[CORE]\nFileMode\n";
    let records = parse_config(text.to_string());
    let paths: Vec<&str> = records.iter().map(|r| r.path.as_str()).collect();
    assert_eq!(
        paths,
        vec!["top", "remote.Origin", "remote.Origin.url", "remote.Origin", "core", "core.filemode", "core"]
    );
    for r in &records {
        let parts: Vec<String> =
            vec![r.section.to_lowercase(), r.subsection.clone(), r.name.to_lowercase()]
                .into_iter()
                .filter(|part| !part.is_empty())
                .collect();
        assert_eq!(r.path, parts.join("."));
    }
}

#[test]
fn names_keep_their_case_outside_the_path() {
    let records = parse_config("[Remote \"Origin\"]\nURL = x".to_string());
    assert_eq!(records[0].section, "Remote");
    assert_eq!(records[0].subsection, "Origin");
    assert_eq!(records[1].name, "URL");
    assert_eq!(records[1].path, "remote.Origin.url");
}

#[test]
fn unmatched_lines_set_nothing_and_keep_the_section() {
    let text = "[s]\n# comment\n; comment\n= 1\n1a = 2\n[broken\na b\n-a = 1\n[t \"x]\n[]";
    let records = parse_config(text.to_string());
    assert_eq!(records.len(), 10);
    for r in &records[1..] {
        assert!(!r.is_section);
        assert_eq!(r.section, "s");
        assert_eq!(r.subsection, "");
        assert_eq!(r.name, "");
        assert_eq!(r.value, "");
        assert_eq!(r.path, "s");
    }
}

#[test]
fn lines_are_trimmed_before_they_are_read() {
    let records = parse_config("  \t[a \"b\"] \t\n\u{a0}name = value\u{3000}".to_string());
    assert_eq!(records[0], record("  \t[a \"b\"] \t", true, "a", "b", "", "", "a.b"));
    assert_eq!(
        records[1],
        record("\u{a0}name = value\u{3000}", false, "a", "b", "name", "value", "a.b.name")
    );
}

#[test]
fn a_carriage_return_is_not_a_line_break() {
    let records = parse_config("a = 1\r\nb = 2 \r# c\rd".to_string());
    assert_eq!(records.len(), 2);
    assert_eq!(records[0].line, "a = 1\r");
    assert_eq!(records[0].value, "1");
    assert_eq!(records[1].name, "b");
    assert_eq!(records[1].value, "2 \r");
}

#[test]
fn comments_and_quotes_in_values() {
    let text = "a = 1 # one\nb = \"x # y\"\nc = \"say \\\"hi\\\"\" ; greeting\nd = \"x\" b=\"y\" # c";
    let records = parse_config(text.to_string());
    assert_eq!(records[0].value, "1");
    assert_eq!(records[1].value, "x # y");
    assert_eq!(records[2].value, "say \"hi\"");
    assert_eq!(records[3].value, "x b=y");
}

#[test]
fn parse_line_is_one_step_of_the_pass() {
    let header = parse_line("old", "sub", " [new] ");
    assert_eq!(header, record(" [new] ", true, "new", "", "", "", "new"));
    let variable = parse_line(&header.section, &header.subsection, "\tkey = v");
    assert_eq!(variable, record("\tkey = v", false, "new", "", "key", "v", "new.key"));
    let other = parse_line("old", "sub", "???");
    assert_eq!(other, record("???", false, "old", "sub", "", "", "old.sub"));
}

#[test]
fn a_prefix_of_the_text_gives_a_prefix_of_the_records() {
    let lines: Vec<&str> = CONFIG.split('\n').collect();
    let all = parse_config(CONFIG.to_string());
    for n in 1..=lines.len() {
        let records = parse_config(lines[..n].join("\n"));
        assert_eq!(records[..], all[..n]);
        let last = &records[n - 1];
        let next = parse_line(&last.section, &last.subsection, "x");
        assert_eq!(next.section, last.section);
        assert_eq!(next.subsection, last.subsection);
    }
}
