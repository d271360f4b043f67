//! The text functions against those of the standard library.
use version_lens::json_line::{nesting, string_len, unquoted};
use version_lens::text::{
    bytes_in, chars_of, fit, has_prefix, has_suffix, is_white_space, joined, lines_of,
    pieces, push_decimal, same_text, skip, span_len, take, text_of, text_position, trimmed,
    trimmed_end, trimmed_start, width_of, without_prefixes, without_suffixes, CharClass,
};
use version_lens::text_map::TextMap;

fn samples() -> Vec<String> {
    let texts = [
        "", " ", "a", "\n", "\r\n", "a\n", "a\r\n", "a\rb\r\nc\r", "\n\n", "  x \t y  ", "é→…😀", "a\n\nb",
        "\u{a0}x\u{3000}", "{\"a\": {}}", "x.y..z", " # c", "\u{85}line\u{2028}",
    ];
    texts.iter().map(|t| t.to_string()).collect()
}

#[test]
fn white_space_is_that_of_std() {
    for c in '\0'..=char::MAX {
        assert_eq!(is_white_space(c), c.is_whitespace(), "{c:?}");
    }
}

#[test]
fn widths_are_those_of_utf_8() {
    for c in ['\0', 'a', '\u{7f}', '\u{80}', 'é', '\u{7ff}', '\u{800}', '…', '\u{ffff}', '\u{10000}', '😀', char::MAX] {
        assert_eq!(width_of(c), c.len_utf8());
    }
    for text in samples() {
        assert_eq!(bytes_in(&chars_of(&text)), text.len());
    }
}

#[test]
fn characters_make_the_text_again() {
    for text in samples() {
        assert_eq!(text_of(&chars_of(&text)), text);
        assert!(same_text(&text, &text));
        assert!(!same_text(&text, &format!("{text}!")));
    }
    assert!(!same_text("ab", "ac"));
}

#[test]
fn lines_are_those_of_std() {
    for text in samples() {
        let expected: Vec<&str> = text.lines().collect();
        assert_eq!(lines_of(&text), expected, "{text:?}");
    }
}

#[test]
fn trimming_is_that_of_std() {
    for text in samples() {
        let chars = chars_of(&text);
        assert_eq!(text_of(trimmed(&chars)), text.trim());
        assert_eq!(text_of(trimmed_start(&chars)), text.trim_start());
        assert_eq!(text_of(trimmed_end(&chars)), text.trim_end());
    }
}

#[test]
fn pieces_are_those_of_std() {
    for text in samples() {
        let expected: Vec<&str> = text.split('.').collect();
        assert_eq!(pieces(&chars_of(&text), '.'), expected);
    }
}

#[test]
fn texts_are_found_where_they_first_stand() {
    let text = chars_of("a # b # c");
    assert_eq!(text_position(&text, &chars_of(" #")), Some(1));
    assert_eq!(text_position(&text, &chars_of("#c")), None);
    assert_eq!(text_position(&text, &chars_of("")), Some(0));
    assert_eq!(span_len(&text, CharClass::NotSpace), 1);
    assert_eq!(text_of(take(&text, 3)), "a #");
    assert_eq!(text_of(skip(&text, 6)), "# c");
}

#[test]
fn affixes_come_off_as_often_as_they_stand() {
    let text = chars_of("git+git+x.git.git");
    let front = without_prefixes(&text, &['g', 'i', 't', '+']);
    assert_eq!(text_of(front), "x.git.git");
    assert_eq!(text_of(without_suffixes(front, &['.', 'g', 'i', 't'])), "x");
    assert!(has_prefix(&text, &['g', 'i']));
    assert!(!has_prefix(&['g'], &['g', 'i']));
    assert!(has_suffix(&text, &['i', 't']));
    assert!(!has_suffix(&text, &['g', 'i']));
}

#[test]
fn what_fits_ends_at_a_character() {
    let text = chars_of("aé…😀");
    let kept: Vec<usize> = (0..=11).map(|cap| fit(&text, cap).len()).collect();
    assert_eq!(kept, vec![0, 1, 1, 2, 2, 2, 3, 3, 3, 3, 4, 4]);
}

#[test]
fn numbers_are_written_in_decimal() {
    for n in [0, 7, 10, 99, 100, 1234567890, u64::MAX] {
        let mut out = "v".to_string();
        push_decimal(&mut out, n);
        assert_eq!(out, format!("v{n}"));
    }
}

#[test]
fn joining_puts_the_separator_between() {
    assert_eq!(joined(&vec![], "|"), "");
    assert_eq!(joined(&vec!["a".to_string()], "|"), "a");
    let three = vec!["a".to_string(), "".to_string(), "c".to_string()];
    assert_eq!(joined(&three, " · "), "a ·  · c");
}

#[test]
fn a_map_holds_what_was_put_in_last() {
    let mut map: TextMap<u32> = TextMap::new();
    assert_eq!(map.get("a"), None);
    map.insert("a".to_string(), 1);
    map.insert("b".to_string(), 2);
    map.insert("a".to_string(), 3);
    assert_eq!(map.get("a"), Some(&3));
    assert_eq!(map.get("b"), Some(&2));
    assert_eq!(map.remove("a"), Some(3));
    assert_eq!(map.remove("a"), None);
    assert_eq!(map.get("b"), Some(&2));
}

#[test]
fn braces_count_outside_of_strings() {
    let line = chars_of(r#"}{ "{{\"{" } {{ "{"#);
    let bare = unquoted(&line);
    assert_eq!(text_of(&bare), "}{  } {{ ");
    assert_eq!(nesting(&bare), (1, -1));
    assert_eq!(nesting(&[]), (0, 0));
    assert_eq!(string_len(&chars_of(r#"a\"b"c"#)), Some(4));
    assert_eq!(string_len(&chars_of(r#"a\"#)), None);
}
