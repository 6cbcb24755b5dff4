use git_config::text::{
    chars_of, has_newline, is_whitespace, skip_run, split_lines, string_of, trim, CharClass,
};

#[test]
fn characters_and_back() {
    for text in ["", "a", "abc", "\u{e4}\u{1F600}x", "a\nb", " \t "] {
        let chars = chars_of(text);
        assert_eq!(chars, text.chars().collect::<Vec<char>>());
        assert_eq!(string_of(&chars, 0, chars.len()), text);
    }
    let chars = chars_of("h\u{e4}llo");
    assert_eq!(string_of(&chars, 1, 3), "\u{e4}l");
    assert_eq!(string_of(&chars, 2, 2), "");
    assert_eq!(string_of(&chars, 4, 5), "o");
}

#[test]
fn white_space_is_what_the_standard_library_says() {
    for code in 0u32..=0x10FFFF {
        if let Some(c) = char::from_u32(code) {
            assert_eq!(is_whitespace(c), c.is_whitespace(), "U+{:04X}", code);
        }
    }
    assert!(is_whitespace(' '));
    assert!(is_whitespace('\t'));
    assert!(is_whitespace('\r'));
    assert!(is_whitespace('\u{3000}'));
    assert!(!is_whitespace('a'));
    assert!(!is_whitespace('\u{200b}'));
}

#[test]
fn trimming() {
    assert_eq!(trim(""), "");
    assert_eq!(trim("   "), "");
    assert_eq!(trim("a"), "a");
    assert_eq!(trim("  a b  "), "a b");
    assert_eq!(trim("\t[core]\r"), "[core]");
    assert_eq!(trim("\u{a0}\u{2003}x\u{3000}\u{85}"), "x");
    assert_eq!(trim("\u{200b}x\u{200b}"), "\u{200b}x\u{200b}");
    for text in [
        "", " ", "\n", "a ", " a", " a b ", "\u{1680}\u{e4} \u{1F600}\u{2028}\u{2029}", "\x0b\x0cx\x1c",
        "\u{202f}\u{205f}", "x\u{feff}",
    ] {
        assert_eq!(trim(text), text.trim(), "{:?}", text);
    }
}

#[test]
fn lines_of_a_text() {
    assert_eq!(split_lines(""), vec![""]);
    assert_eq!(split_lines("a"), vec!["a"]);
    assert_eq!(split_lines("a\n"), vec!["a", ""]);
    assert_eq!(split_lines("\n"), vec!["", ""]);
    assert_eq!(split_lines("\na"), vec!["", "a"]);
    assert_eq!(split_lines("a\nb\n\nc"), vec!["a", "b", "", "c"]);
    assert_eq!(split_lines("a\r\nb"), vec!["a\r", "b"]);
    for text in ["", "\n\n\n", "x\ny", "\u{e4}\n\u{1F600}\n", "a\u{2028}b\nc\x0bd"] {
        let expected: Vec<&str> = text.split("\n").collect();
        assert_eq!(split_lines(text), expected);
        assert_eq!(split_lines(text).join("\n"), text);
    }
}

#[test]
fn line_feeds_are_found() {
    assert!(!has_newline(&chars_of("")));
    assert!(!has_newline(&chars_of("abc\r")));
    assert!(has_newline(&chars_of("\n")));
    assert!(has_newline(&chars_of("ab\nc")));
}

#[test]
fn character_classes() {
    for code in 0u32..=0x10FFFF {
        if let Some(c) = char::from_u32(code) {
            assert_eq!(
                CharClass::Section.contains(c),
                c.is_ascii_alphanumeric() || c == '-' || c == '.'
            );
            assert_eq!(CharClass::Name.contains(c), c.is_ascii_alphabetic() || c == '-');
            assert_eq!(CharClass::Space.contains(c), c == ' ');
        }
    }
}

#[test]
fn runs_end_at_the_first_character_of_another_kind() {
    let chars = chars_of("ab-9. x  =y");
    assert_eq!(skip_run(&chars, 0, CharClass::Section), 5);
    assert_eq!(skip_run(&chars, 0, CharClass::Name), 3);
    assert_eq!(skip_run(&chars, 0, CharClass::Space), 0);
    assert_eq!(skip_run(&chars, 5, CharClass::Space), 6);
    assert_eq!(skip_run(&chars, 7, CharClass::Space), 9);
    assert_eq!(skip_run(&chars, 10, CharClass::Name), 11);
    assert_eq!(skip_run(&chars, 11, CharClass::Name), 11);
}
