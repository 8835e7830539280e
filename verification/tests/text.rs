use codex_account_switcher::text::{
    chars_of, decimal_text, error_string, glue, has_char, in_small_letters, is_white_space, join,
    replace_all,
    same_text, signed_decimal_text, trim, trim_leading, trim_start,
};

fn text_of(chars: Vec<char>) -> String {
    chars.into_iter().collect()
}

#[test]
fn white_space_is_what_unicode_says() {
    for c in '\u{0}'..=char::MAX {
        assert_eq!(is_white_space(c), c.is_whitespace(), "{:?}", c);
    }
}

#[test]
fn small_letters_are_those_of_unicode() {
    for text in ["", "KeyCrop.NET", "[@`{", "ИМЯ", "\u{130}x", "ΟΔΟΣ"] {
        assert_eq!(in_small_letters(text), text.to_lowercase());
    }
    assert_eq!(in_small_letters("AZ az"), "az az");
}

#[test]
fn trimming_agrees_with_str() {
    for text in [
        "",
        " ",
        "a",
        "  a b  ",
        "\t\r\nx\u{a0}\u{2003}",
        "\u{feff}x ",
        "...domain",
        ". x",
    ] {
        let chars = chars_of(text);
        assert_eq!(text_of(trim(&chars)), text.trim());
        assert_eq!(text_of(trim_start(&chars)), text.trim_start());
        assert_eq!(text_of(trim_leading(&chars, '.')), text.trim_start_matches('.'));
    }
}

#[test]
fn replacing_agrees_with_str() {
    for (text, from, to) in [
        ("", "a", "b"),
        ("aaa", "aa", "b"),
        ("a&amp;amp;b", "&amp;", "&"),
        ("x\\_y\\_", "\\_", "_"),
        ("абаб", "аб", ""),
        ("none", "&quot;", "\""),
    ] {
        assert_eq!(text_of(replace_all(&chars_of(text), from, to)), text.replace(from, to));
    }
}

#[test]
fn decimals_agree_with_the_standard_notation() {
    for n in [0u64, 7, 10, 409, 1_000_000, u64::MAX] {
        assert_eq!(decimal_text(n), n.to_string());
    }
    for n in [i64::MIN, -10, -1, 0, 1_700_000_000, i64::MAX] {
        assert_eq!(signed_decimal_text(n), n.to_string());
    }
}

#[test]
fn strings_are_joined_and_compared() {
    let parts = vec!["a=1".to_string(), "b=2".to_string(), "c=".to_string()];
    assert_eq!(join(&parts, "; "), "a=1; b=2; c=");
    assert_eq!(join(&Vec::new(), "; "), "");
    assert_eq!(glue("Codex ", "аккаунт"), "Codex аккаунт");
    assert!(same_text("ключ", "ключ"));
    assert!(!same_text("ключ", "Ключ"));
    assert!(has_char(&chars_of("a=b"), '='));
    assert!(!has_char(&chars_of("ab"), '='));
}

#[test]
fn errors_show_their_text() {
    let error = "x".parse::<u32>().unwrap_err();
    let shown = error.to_string();
    assert_eq!(error_string(error), shown);
}
