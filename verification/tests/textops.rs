use genchat::paths::build_target_path;
use genchat::paths::u64_to_dec;
use genchat::text::split_lines;
use genchat::text::str_eq;

#[test]
fn lines_split_on_newlines_and_keep_a_trailing_empty_line() {
    assert_eq!(split_lines("a\nb"), vec!["a".to_string(), "b".to_string()]);
    assert_eq!(split_lines("a\nb\n"), vec!["a".to_string(), "b".to_string(), String::new()]);
    assert_eq!(split_lines(""), vec![String::new()]);
    assert_eq!(split_lines("\n"), vec![String::new(), String::new()]);
    assert_eq!(split_lines("one"), vec!["one".to_string()]);
}

#[test]
fn string_equality_is_character_exact() {
    assert!(str_eq("", ""));
    assert!(str_eq("abc", "abc"));
    assert!(!str_eq("abc", "abd"));
    assert!(!str_eq("abc", "abcd"));
    assert!(str_eq("\u{e9}\u{4e16}", "\u{e9}\u{4e16}"));
}

#[test]
fn decimal_rendering_is_exact() {
    assert_eq!(u64_to_dec(0), "0");
    assert_eq!(u64_to_dec(7), "7");
    assert_eq!(u64_to_dec(10), "10");
    assert_eq!(u64_to_dec(907), "907");
    assert_eq!(u64_to_dec(u64::MAX), "18446744073709551615");
}

#[test]
fn target_paths_embed_counter_name_and_extension() {
    assert_eq!(build_target_path(0, "prompt", "py"), "responses/0_prompt.py");
    assert_eq!(build_target_path(42, "", "md"), "responses/42_.md");
    assert_eq!(build_target_path(7, "a_1", "rs"), "responses/7_a_1.rs");
}
