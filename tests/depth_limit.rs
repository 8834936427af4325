use prepare_json::{prepare_json_string, prepare_with_depth_limit, Mode, PrepareError};

#[test]
fn input_within_the_limit_is_repaired() {
    let input = "{a: [1, {b: 2}]}";
    assert_eq!(
        prepare_with_depth_limit(input, false, Mode::Typed, 3),
        Ok(r#"{"a": [1, {"b": 2}]}"#.to_string())
    );
    assert_eq!(
        prepare_with_depth_limit(input, false, Mode::Typed, 3),
        Ok(prepare_json_string(input))
    );
}

#[test]
fn input_beyond_the_limit_is_refused() {
    assert_eq!(
        prepare_with_depth_limit("{a: [1, {b: 2}]}", false, Mode::Typed, 2),
        Err(PrepareError::TooDeep)
    );
}

#[test]
fn scalars_have_no_depth() {
    assert_eq!(
        prepare_with_depth_limit("5", false, Mode::Stringified, 0),
        Ok(r#""5""#.to_string())
    );
    assert_eq!(
        prepare_with_depth_limit("[]", false, Mode::Typed, 0),
        Err(PrepareError::TooDeep)
    );
    assert_eq!(
        prepare_with_depth_limit("[]", false, Mode::Typed, 1),
        Ok("[]".to_string())
    );
}

#[test]
fn array_wrapping_counts_as_a_level() {
    assert_eq!(
        prepare_with_depth_limit("{a:1}", true, Mode::Typed, 1),
        Err(PrepareError::TooDeep)
    );
    assert_eq!(
        prepare_with_depth_limit("{a:1}", true, Mode::Stringified, 2),
        Ok(r#"[{"a": "1"}]"#.to_string())
    );
}

#[test]
fn very_deep_input_is_refused_without_exhausting_the_stack() {
    let n = 100_000;
    let input = format!("{}{}", "[".repeat(n), "]".repeat(n));
    assert_eq!(
        prepare_with_depth_limit(&input, false, Mode::Typed, 64),
        Err(PrepareError::TooDeep)
    );
}
