use gdn_json_string_parser::add;
use gdn_json_string_parser::model::ErrorKind;
use gdn_json_string_parser::parser::{json, JsonValue};

fn cs(s: &str) -> Vec<char> {
    s.chars().collect()
}

fn rest(s: &str) -> JsonValue {
    JsonValue::Rest(cs(s))
}

#[test]
fn test_add() {
    assert_eq!(add(2, 2), 4);
}

#[test]
fn test_simple_naive() {
    let source = r"{'something': 'something' }";
    let _ = source;
}

#[test]
fn test_json_parse_one_line() {
    let input = r#"{"some": 23, "other": null, "something": "something", "double": 213.2, "other": [2343, true, false, "testing", {"other":null, "root": "tree"}], "sub": { "demo": "demo 2" } }"#;
    let (_value, _remaining) = json(input).unwrap();
}

#[test]
fn test_json_parse() {
    let input = r#"{
        "some": 23,
        "other": null,
         "something":
          "something",
          "double": 213.2,
          "other": [2343, true, false, "testing", {"other":null, "root": "tree"}],
          "sub": { "demo": "demo 2" }
        }"#;
    let (_value, _remaining) = json(input).unwrap();
}

#[test]
fn test_bigger_json() {
    let source = r#"{
  "translate": "demo,or,obj.demo",
  "demo": "string to translate",
  "or": ["string 1", "String 2"],
  "if": ["string3"],
  "obj": {
    "demo": "one more",
    "count": 3,
    "enabled": true,
    "ratio": 0.25,
    "nothing": null,
    "nested": { "deep": [ { "leaf": "value" }, [1, 2, 3], "tail" ] }
  },
  "numbers": [0, 1, 42., .5, 6e10, 7.25e-3, 1_000],
  "text": "line one\nline two\ttabbed \u0041 and \uD83D\uDE00"
}"#;
    let (_value, _remaining) = json(source).unwrap();
}

#[test]
fn test_plain_ascii_string_decodes_to_itself() {
    let (v, rest_off) = json("\"hello world\"").unwrap();
    assert_eq!(rest_off, 13);
    match v {
        JsonValue::Str(n) => {
            assert_eq!(n.value, cs("hello world"));
            assert_eq!(n.pos, 0);
            assert_eq!(n.end, 13);
            assert_eq!(n.line, 1);
            assert_eq!(n.col, 1);
        },
        _ => panic!("expected a string node"),
    }
}

#[test]
fn test_unicode_escape_decodes() {
    let (v, _) = json("\"\\u0041\"").unwrap();
    match v {
        JsonValue::Str(n) => assert_eq!(n.value, vec!['A']),
        _ => panic!("expected a string node"),
    }
}

#[test]
fn test_surrogate_pair_decodes_to_one_scalar() {
    let (v, _) = json("\"\\uD83D\\uDE00\"").unwrap();
    match v {
        JsonValue::Str(n) => {
            assert_eq!(n.value.len(), 1);
            assert_eq!(n.value[0], '\u{1F600}');
        },
        _ => panic!("expected a string node"),
    }
}

#[test]
fn test_lone_high_surrogate_fails() {
    let e = json("\"\\uD800\"").unwrap_err();
    assert_eq!(e.kind, ErrorKind::InvalidSurrogatePair);
    assert_eq!(e.off, 1);
}

#[test]
fn test_lone_low_surrogate_fails() {
    let e = json("\"\\uDC00\"").unwrap_err();
    assert_eq!(e.kind, ErrorKind::InvalidSurrogatePair);
}

#[test]
fn test_simple_escapes() {
    let (v, _) = json("\"a\\n\\t\\\\\\\"\\/\\b\\f\\r\"").unwrap();
    match v {
        JsonValue::Str(n) => {
            assert_eq!(n.value, vec!['a', '\n', '\t', '\\', '"', '/', '\u{8}', '\u{C}', '\r']);
        },
        _ => panic!("expected a string node"),
    }
}

#[test]
fn test_invalid_escape_fails() {
    let e = json("\"a\\x\"").unwrap_err();
    assert_eq!(e.kind, ErrorKind::InvalidEscape);
    assert_eq!(e.off, 3);
}

#[test]
fn test_numeric_grammar_accepts() {
    for text in ["42", "42.", "42.42", ".42", "42e10", "42.42e-10"] {
        let (v, rest_off) = json(text).unwrap();
        assert_eq!(v, rest(text), "scalar text for {}", text);
        assert_eq!(rest_off, text.len());
    }
}

#[test]
fn test_double_dot_number_fails() {
    let e = json("42..1").unwrap_err();
    assert_eq!(e.kind, ErrorKind::MalformedNumber);
    assert_eq!(e.off, 3);
}

#[test]
fn test_underscore_grouping() {
    let (v, rest_off) = json("1_000").unwrap();
    assert_eq!(v, rest("1_000"));
    assert_eq!(rest_off, 5);
    // A trailing separator is not part of the digit group.
    let (v, rest_off) = json("10_").unwrap();
    assert_eq!(v, rest("10"));
    assert_eq!(rest_off, 2);
}

#[test]
fn test_keywords() {
    assert_eq!(json("true").unwrap().0, rest("true"));
    assert_eq!(json("false").unwrap().0, rest("false"));
    assert_eq!(json("null").unwrap().0, rest("null"));
}

#[test]
fn test_empty_object_and_array() {
    let (v, _) = json("{}").unwrap();
    assert_eq!(v, JsonValue::Object(vec![]));
    let (v, _) = json("[]").unwrap();
    assert_eq!(v, JsonValue::Array(vec![]));
}

#[test]
fn test_duplicate_key_last_write_wins() {
    let (v, _) = json("{\"a\":1,\"a\":2}").unwrap();
    assert_eq!(v, JsonValue::Object(vec![(cs("a"), rest("2"))]));
}

#[test]
fn test_whitespace_insensitive_value() {
    let compact = json("[1,[2,true],null]").unwrap().0;
    let spaced = json(" [ 1 ,\t[ 2 ,\n true ] , null ]\n").unwrap().0;
    assert_eq!(compact, spaced);
}

#[test]
fn test_whitespace_around_object_delimiters() {
    let (v, _) = json("\n{ \"k\" :\ttrue , \"m\" : false }\n").unwrap();
    match v {
        JsonValue::Object(entries) => {
            assert_eq!(entries.len(), 2);
            assert_eq!(entries[0].0, cs("k"));
            assert_eq!(entries[0].1, rest("true"));
            assert_eq!(entries[1].0, cs("m"));
            assert_eq!(entries[1].1, rest("false"));
        },
        _ => panic!("expected an object"),
    }
}

#[test]
fn test_trailing_comma_rejected() {
    assert!(json("[1,]").is_err());
    assert!(json("{\"a\":1,}").is_err());
}

#[test]
fn test_unterminated_string_reports_end_of_input() {
    let e = json("\"abc").unwrap_err();
    assert_eq!(e.kind, ErrorKind::UnterminatedLiteral);
    assert_eq!(e.off, 4);
}

#[test]
fn test_unterminated_array_reports_end_of_input() {
    let e = json("[1, 2").unwrap_err();
    assert_eq!(e.kind, ErrorKind::UnterminatedLiteral);
    assert_eq!(e.off, 5);
}

#[test]
fn test_no_match_on_garbage() {
    let e = json("@").unwrap_err();
    assert_eq!(e.kind, ErrorKind::NoMatch);
    assert_eq!(e.off, 0);
}

#[test]
fn test_string_column_is_recorded() {
    let (v, _) = json("  \"x\"").unwrap();
    match v {
        JsonValue::Str(n) => {
            assert_eq!(n.pos, 2);
            assert_eq!(n.line, 1);
            assert_eq!(n.col, 3);
        },
        _ => panic!("expected a string node"),
    }
}

#[test]
fn test_string_line_and_column_after_newline() {
    let (v, _) = json("{\n \"a\": \"b\"\n}").unwrap();
    match v {
        JsonValue::Object(entries) => {
            assert_eq!(entries.len(), 1);
            assert_eq!(entries[0].0, cs("a"));
            match &entries[0].1 {
                JsonValue::Str(n) => {
                    assert_eq!(n.pos, 8);
                    assert_eq!(n.end, 11);
                    assert_eq!(n.line, 2);
                    assert_eq!(n.col, 7);
                },
                _ => panic!("expected a string value"),
            }
        },
        _ => panic!("expected an object"),
    }
}

#[test]
fn test_leftover_text_is_returned() {
    let (v, rest_off) = json("42 tail").unwrap();
    assert_eq!(v, rest("42"));
    // Trailing whitespace is consumed; the leftover starts at the remainder.
    assert_eq!(rest_off, 3);
}

#[test]
fn test_nested_spans_survive() {
    let input = "[\"a\", [\"bc\"]]";
    let (v, _) = json(input).unwrap();
    match v {
        JsonValue::Array(elems) => {
            match &elems[0] {
                JsonValue::Str(n) => {
                    assert_eq!(n.pos, 1);
                    assert_eq!(n.end, 4);
                    assert_eq!(n.col, 2);
                },
                _ => panic!("expected a string element"),
            }
            match &elems[1] {
                JsonValue::Array(inner) => match &inner[0] {
                    JsonValue::Str(n) => {
                        assert_eq!(n.pos, 7);
                        assert_eq!(n.end, 11);
                        assert_eq!(n.col, 8);
                        assert_eq!(n.value, cs("bc"));
                    },
                    _ => panic!("expected a string element"),
                },
                _ => panic!("expected a nested array"),
            }
        },
        _ => panic!("expected an array"),
    }
}
