use prepare_json::{
    parse_json_string, parse_stringified_json_string, prepare_json_array, prepare_json_string,
    prepare_stringified_json_array, prepare_stringified_json_string, JsonContext,
};

#[test]
fn bare_keys_are_quoted() {
    assert_eq!(prepare_json_string("{foo: 1}"), r#"{"foo": 1}"#);
}

#[test]
fn semicolons_separate_array_elements() {
    assert_eq!(
        prepare_json_string(r#"[{"a":1};{"b":2}]"#),
        r#"[{"a": 1}, {"b": 2}]"#
    );
}

#[test]
fn trailing_comma_is_dropped() {
    assert_eq!(prepare_json_string(r#"{"a":1,}"#), r#"{"a": 1}"#);
}

#[test]
fn nested_object_is_kept() {
    assert_eq!(
        prepare_json_string(r#"{"label":"x","tags":{"k":"v"}}"#),
        r#"{"label": "x", "tags": {"k": "v"}}"#
    );
}

#[test]
fn stringified_mode_quotes_numbers_and_keeps_strings() {
    assert_eq!(prepare_stringified_json_string(r#"{"a":19}"#), r#"{"a": "19"}"#);
    assert_eq!(prepare_stringified_json_string(r#"{"a":"x"}"#), r#"{"a": "x"}"#);
}

#[test]
fn empty_array_is_kept() {
    assert_eq!(
        prepare_json_string(r#"{"tag":"x","groups":[]}"#),
        r#"{"tag": "x", "groups": []}"#
    );
}

#[test]
fn single_object_becomes_one_element_array() {
    assert_eq!(prepare_json_array(r#"{"a":1}"#), r#"[{"a": 1}]"#);
    assert_eq!(prepare_stringified_json_array(r#"{"a":1}"#), r#"[{"a": "1"}]"#);
}

#[test]
fn canonical_text_is_left_as_it_is() {
    let canonical = r#"{"a": 1, "b": [true, "x"], "c": {}}"#;
    assert_eq!(prepare_json_string(canonical), canonical);
    let strings = r#"{"a": "1", "b": ["true", "x"], "c": {}}"#;
    assert_eq!(prepare_stringified_json_string(strings), strings);
    let array = r#"[1, {"k": [2.5e3]}]"#;
    assert_eq!(prepare_json_array(array), array);
}

#[test]
fn normalizing_twice_is_normalizing_once() {
    let input = "{a: x, b: [1;TRUE], c: none}";
    let once = prepare_json_string(input);
    assert_eq!(once, r#"{"a": "x", "b": [1, TRUE], "c": None}"#);
    assert_eq!(prepare_json_string(&once), once);
    let once = prepare_stringified_json_string(input);
    assert_eq!(once, r#"{"a": "x", "b": ["1", "TRUE"], "c": "none"}"#);
    assert_eq!(prepare_stringified_json_string(&once), once);
}

#[test]
fn strict_json_keeps_keys_and_types() {
    let strict = r#"{"a":1,"b":[false,2.5e3],"c":{"d":"e"}}"#;
    assert_eq!(
        prepare_json_string(strict),
        r#"{"a": 1, "b": [false, 2.5e3], "c": {"d": "e"}}"#
    );
    assert_eq!(
        prepare_stringified_json_string(strict),
        r#"{"a": "1", "b": ["false", "2.5e3"], "c": {"d": "e"}}"#
    );
}

#[test]
fn null_is_rendered_as_a_string_in_both_modes() {
    assert_eq!(prepare_json_string("[true, null]"), r#"[true, "null"]"#);
    assert_eq!(prepare_stringified_json_string("[true, null]"), r#"["true", "null"]"#);
}

#[test]
fn empty_inputs() {
    assert_eq!(prepare_json_string(""), "");
    assert_eq!(prepare_json_string(" ;, \n"), "");
    assert_eq!(prepare_json_array(""), "[]");
    assert_eq!(prepare_json_string("{}"), "{}");
    assert_eq!(prepare_json_string("[]"), "[]");
    assert_eq!(prepare_stringified_json_string("{}"), "{}");
}

#[test]
fn none_word_becomes_none_literal() {
    assert_eq!(prepare_json_string("{a: none}"), r#"{"a": None}"#);
    assert_eq!(prepare_json_string("{a: NONE}"), r#"{"a": None}"#);
    assert_eq!(prepare_stringified_json_string("{a: none}"), r#"{"a": "none"}"#);
}

#[test]
fn booleans_are_matched_in_any_case_and_kept_verbatim() {
    assert_eq!(prepare_json_string("{a: TRUE, b: False}"), r#"{"a": TRUE, "b": False}"#);
}

#[test]
fn numbers_stay_bare() {
    assert_eq!(
        prepare_json_string("[1, -2.5, 1e10, +3, .5, 5., inf, NaN, 7E-2]"),
        "[1, -2.5, 1e10, +3, .5, 5., inf, NaN, 7E-2]"
    );
}

#[test]
fn malformed_numbers_become_strings() {
    assert_eq!(
        prepare_json_string("[1.2.3, e5, 1e, -, 1e+]"),
        r#"["1.2.3", "e5", "1e", "-", "1e+"]"#
    );
}

#[test]
fn element_without_colon_is_dropped() {
    assert_eq!(prepare_json_string("{a: 1, stray}"), r#"{"a": 1}"#);
    assert_eq!(prepare_json_string("{stray}"), "{}");
}

#[test]
fn separators_inside_quotes_are_kept() {
    assert_eq!(prepare_json_string(r#"{"k": "a,b;c"}"#), r#"{"k": "a,b;c"}"#);
    assert_eq!(prepare_json_string(r#"{"a:b": 1}"#), r#"{"a:b": 1}"#);
    assert_eq!(prepare_json_string(r#"["x]", "{y"]"#), r#"["x]", "{y"]"#);
}

#[test]
fn escaped_quotes_do_not_end_a_string() {
    assert_eq!(
        prepare_json_string(r#"{"k": "say \"hi\", ok"}"#),
        r#"{"k": "say \"hi\", ok"}"#
    );
}

#[test]
fn empty_values() {
    assert_eq!(prepare_stringified_json_string(r#"{"a": ""}"#), r#"{"a": ""}"#);
    assert_eq!(prepare_json_string(r#"{"a": }"#), "{}");
    assert_eq!(prepare_json_string(r#"{"a": ,"b": 1}"#), r#"{"a": , "b": 1}"#);
    assert_eq!(
        prepare_stringified_json_string(r#"{"a": ,"b": 1}"#),
        r#"{"a": , "b": "1"}"#
    );
}

#[test]
fn stray_punctuation_around_the_input_is_trimmed() {
    assert_eq!(prepare_json_string(";,{a:1};\n"), r#"{"a": 1}"#);
    assert_eq!(prepare_json_array(":[1,2],"), "[1, 2]");
}

#[test]
fn nested_arrays_and_objects() {
    assert_eq!(prepare_json_string("[[1,2],[3]]"), "[[1, 2], [3]]");
    assert_eq!(
        prepare_json_string("{a: [ {b: 1}, {c: [2, 3]} ]}"),
        r#"{"a": [{"b": 1}, {"c": [2, 3]}]}"#
    );
}

#[test]
fn semicolons_do_not_separate_object_members() {
    assert_eq!(prepare_json_string("{a: 1; b: 2}"), r#"{"a": "1; b: 2"}"#);
}

#[test]
fn keys_are_trimmed_before_quoting() {
    assert_eq!(prepare_json_string(r#"{ "a" : 1 ,  b	: 2 }"#), r#"{"a": 1, "b": 2}"#);
}

#[test]
fn bare_scalar_entry_points() {
    assert_eq!(prepare_json_string("5"), "5");
    assert_eq!(prepare_json_string("abc"), r#""abc""#);
    assert_eq!(prepare_stringified_json_string("5"), r#""5""#);
    assert_eq!(prepare_json_array("5"), "[5]");
    assert_eq!(prepare_stringified_json_array("5"), r#"["5"]"#);
}

#[test]
fn core_on_array_content() {
    assert_eq!(parse_json_string("1;2", JsonContext::Array), "1, 2");
    assert_eq!(parse_stringified_json_string("1;x", JsonContext::Array), r#""1", "x""#);
}

#[test]
fn core_on_object_content() {
    assert_eq!(parse_json_string("a: 1, b: {c: d}", JsonContext::Object), r#""a": 1, "b": {"c": "d"}"#);
}

#[test]
fn core_on_scalar_values() {
    assert_eq!(parse_json_string(r#""a""#, JsonContext::Value), r#""a""#);
    assert_eq!(parse_json_string(r#""a"#, JsonContext::Value), r#""a""#);
    assert_eq!(parse_stringified_json_string("", JsonContext::Value), "");
}
