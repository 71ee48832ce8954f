use docli_cli::digest::sha_hex;
use docli_cli::json::json_string;
use docli_cli::json::Json;
use docli_cli::jsontext::array_element_spans;
use docli_cli::jsontext::json_value_extent;
use docli_cli::jsontext::scan_string;
use docli_cli::jsontext::top_level_value_brace;
use docli_cli::labels::label_of_lowered;
use docli_cli::labels::sanitize_label;
use docli_cli::labels::valid_label;
use docli_cli::report::plural;
use docli_cli::text::byte_len;
use docli_cli::text::decimal;
use docli_cli::text::is_control;
use docli_cli::text::is_whitespace;
use docli_cli::text::join;
use docli_cli::text::lines;
use docli_cli::text::pad_end;
use docli_cli::text::replace_char;
use docli_cli::text::signed;
use docli_cli::text::split;
use docli_cli::text::split_once;
use docli_cli::text::strip_prefix;
use docli_cli::text::strip_suffix;
use docli_cli::text::text_less;
use docli_cli::text::to_ascii_lower;
use docli_cli::text::trim;
use docli_cli::text::trim_end_char;
use docli_cli::text::trim_start_char;

const TEXTS: [&str; 9] =
    ["", "a", " a b ", "\tx\u{00a0}", "a/b//c/", "line\r\nnext\n", "Ёлка", "😀 end ", "a\u{2028}"];

fn owned(v: Vec<&str>) -> Vec<String> {
    v.into_iter().map(|s| s.to_string()).collect()
}

#[test]
fn the_text_functions_are_those_of_the_standard_library() {
    for s in TEXTS {
        assert_eq!(trim(s), s.trim(), "{s:?}");
        assert_eq!(split(s, '/'), owned(s.split('/').collect()), "{s:?}");
        assert_eq!(lines(s), owned(s.lines().collect()), "{s:?}");
        assert_eq!(byte_len(s), s.len(), "{s:?}");
        assert_eq!(trim_end_char(s, '/'), s.trim_end_matches('/'), "{s:?}");
        assert_eq!(trim_start_char(s, ' '), s.trim_start_matches(' '), "{s:?}");
        assert_eq!(replace_char(s, 'a', "<>"), s.replace('a', "<>"), "{s:?}");
        assert_eq!(pad_end(s, 6), format!("{s:<6}"), "{s:?}");
        assert_eq!(
            split_once(s, '/'),
            s.split_once('/').map(|(a, b)| (a.to_string(), b.to_string()))
        );
        assert_eq!(strip_prefix(s, "a"), s.strip_prefix("a").map(|t| t.to_string()));
        assert_eq!(strip_suffix(s, " "), s.strip_suffix(" ").map(|t| t.to_string()));
        for t in TEXTS {
            assert_eq!(text_less(s, t), s < t, "{s:?} {t:?}");
        }
    }
}

#[test]
fn characters_are_told_apart_as_the_standard_library_does() {
    for n in 0..0x3100u32 {
        if let Some(c) = char::from_u32(n) {
            assert_eq!(is_whitespace(c), c.is_whitespace(), "{n:x}");
            assert_eq!(is_control(c), c.is_control(), "{n:x}");
            assert_eq!(to_ascii_lower(c), c.to_ascii_lowercase(), "{n:x}");
        }
    }
}

#[test]
fn numbers_are_written_in_decimal() {
    for n in [0u64, 9, 10, 1234567890, u64::MAX] {
        assert_eq!(decimal(n), n.to_string());
    }
    for n in [0i64, -1, 42, i64::MIN, i64::MAX] {
        assert_eq!(signed(n), n.to_string());
    }
    assert_eq!(plural(1, "row", "rows"), "1 row");
    assert_eq!(plural(0, "row", "rows"), "0 rows");
}

#[test]
fn joining_undoes_splitting() {
    for s in TEXTS {
        assert_eq!(join(&split(s, '/'), "/"), s);
    }
}

#[test]
fn a_digest_is_printed_in_lowercase_hexadecimal() {
    assert_eq!(
        sha_hex(b""),
        "e3b0c44298fc1c149afbf4c8996fb92427ae41e4649b934ca495991b7852b855"
    );
}

#[test]
fn a_string_literal_is_escaped() {
    assert_eq!(json_string("a\"b\\c\n"), "\"a\\\"b\\\\c\\n\"");
    let v = Json::Object(vec![("k".to_string(), Json::Bool(true))]);
    assert!(v.equals(&Json::Object(vec![("k".to_string(), Json::Bool(true))])));
    assert!(!v.equals(&Json::Object(vec![("k".to_string(), Json::Bool(false))])));
    assert!(v.get("k").is_some() && v.get("x").is_none());
}

#[test]
fn a_label_keeps_to_its_grammar() {
    assert!(valid_label("my-docs"));
    assert!(valid_label(""));
    assert!(!valid_label("My"));
    assert!(!valid_label(&"a".repeat(65)));
    assert!(valid_label(&"a".repeat(64)));
    assert_eq!(sanitize_label("My Docs"), "my-docs");
    assert_eq!(label_of_lowered("a__b.c", "x"), "a-b-c");
    assert_eq!(label_of_lowered("***", "fallback"), "fallback");
    assert_ne!(sanitize_label("Ж"), sanitize_label("З"), "a name without a letter keeps its own");
}

fn chars(s: &str) -> Vec<char> {
    s.chars().collect()
}

#[test]
fn a_string_ends_at_its_own_quote() {
    assert_eq!(scan_string(&chars("\"a\\\"b\" x"), 1), Some(5));
    assert_eq!(scan_string(&chars("\"open"), 1), None);
}

#[test]
fn a_value_ends_where_its_brackets_close() {
    let s = chars("{\"a\": [1, {\"b\": \"}]\"}], \"c\": 2} tail");
    assert_eq!(json_value_extent(&s, 0), Some(s.len() - 5));
    assert_eq!(top_level_value_brace(&chars("{\"a\": {\"k\": 1}}"), &chars("a")), Some(6));
    assert_eq!(top_level_value_brace(&chars("{\"b\": {\"a\": {}}}"), &chars("a")), None);
}

#[test]
fn the_elements_of_an_array_are_found() {
    let s = chars("[1, {\"a\": [2]}, \"x,y\"]");
    let spans = array_element_spans(&s, 0, s.len()).unwrap();
    let parts: Vec<String> = spans.iter().map(|(a, b)| s[*a..*b].iter().collect()).collect();
    assert_eq!(parts, vec!["1", "{\"a\": [2]}", "\"x,y\""]);
}
