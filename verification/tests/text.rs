use cachet::text::{
    chars_of, find, join, split, split_once, split_whitespace, starts_with, string_of, trim,
    trim_end, trim_start,
};

fn text(chars: &[char]) -> String {
    chars.iter().collect()
}

#[test]
fn characters_and_back() {
    assert_eq!(chars_of("aé😀"), vec!['a', 'é', '😀']);
    assert_eq!(string_of(&['a', 'é', '😀']), "aé😀");
}

#[test]
fn splitting_agrees_with_the_standard_library() {
    for s in ["", " ", "a", " a  b\tc\n", "x\u{a0}y\u{2003}z", "\u{200b}a"] {
        let expected: Vec<&str> = s.split_whitespace().collect();
        assert_eq!(split_whitespace(s), expected, "{s:?}");
    }
    for s in ["", ",", "a,b", ",a,,b,"] {
        let chars = chars_of(s);
        let got: Vec<String> = split(&chars, ',').iter().map(|p| text(p)).collect();
        let expected: Vec<&str> = s.split(',').collect();
        assert_eq!(got, expected, "{s:?}");
        let once = split_once(&chars, ',').map(|(a, b)| (text(a), text(b)));
        let expected = s.split_once(',').map(|(a, b)| (a.to_string(), b.to_string()));
        assert_eq!(once, expected, "{s:?}");
    }
}

#[test]
fn trimming_agrees_with_the_standard_library() {
    for s in ["", "  ", "a", " a b ", "\u{3000}x\u{85}", "\tx"] {
        let chars = chars_of(s);
        assert_eq!(text(trim(&chars)), s.trim(), "{s:?}");
        assert_eq!(text(trim_start(&chars)), s.trim_start(), "{s:?}");
        assert_eq!(text(trim_end(&chars)), s.trim_end(), "{s:?}");
    }
}

#[test]
fn prefixes_and_places() {
    assert!(starts_with(&chars_of("abc"), &chars_of("ab")));
    assert!(starts_with(&chars_of("abc"), &chars_of("")));
    assert!(!starts_with(&chars_of("abc"), &chars_of("ac")));
    assert!(!starts_with(&chars_of("a"), &chars_of("ab")));
    assert_eq!(find(&chars_of("abcb"), 'b'), Some(1));
    assert_eq!(find(&chars_of("abc"), 'x'), None);
}

#[test]
fn joining() {
    let list = |v: &[&str]| v.iter().map(|s| s.to_string()).collect::<Vec<String>>();
    assert_eq!(join(&list(&[]), " "), "");
    assert_eq!(join(&list(&["a"]), " "), "a");
    assert_eq!(join(&list(&["a", "", "b"]), ", "), "a, , b");
}

#[test]
fn white_space_is_the_unicode_property() {
    let white = |c: char| {
        matches!(
            c,
            '\u{9}'..='\u{d}'
                | ' '
                | '\u{85}'
                | '\u{a0}'
                | '\u{1680}'
                | '\u{2000}'..='\u{200a}'
                | '\u{2028}'
                | '\u{2029}'
                | '\u{202f}'
                | '\u{205f}'
                | '\u{3000}'
        )
    };
    for c in '\0'..=char::MAX {
        assert_eq!(c.is_whitespace(), white(c), "{c:?}");
        assert_eq!(trim(&[c]).is_empty(), white(c), "{c:?}");
    }
}

#[test]
fn ascii_letters_and_digits() {
    let all: String = ('\0'..='\u{7f}').collect();
    for c in all.chars() {
        assert_eq!(c.is_alphanumeric(), c.is_ascii_alphanumeric(), "{c:?}");
        assert_eq!(c.to_lowercase().collect::<String>(), c.to_ascii_lowercase().to_string());
    }
    assert_eq!(all.to_lowercase(), all.to_ascii_lowercase());
}
