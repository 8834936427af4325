use prepare_json::{parse_stringified_json_string, JsonContext};

#[test]
fn array_w_multiple_objects_and_semicolon_separator_stringified() {
        let original_str = r#"[
            {"Foo1":19, "Foo2":"BAR2"};
            {"Foo3":true, "Foo4":"BAR4"}
        ]"#;

        let value_context = JsonContext::Value;
        let prepared_str = parse_stringified_json_string(original_str, value_context);

        let expected_str = r#"[{"Foo1": "19", "Foo2": "BAR2"}, {"Foo3": "true", "Foo4": "BAR4"}]"#
            .to_string();

        assert_eq!(prepared_str, expected_str);
}

#[test]
fn array_w_multiple_objects_stringified() {
        let original_str = r#"[
            {"Foo1":"BAR1", "Foo2":"BAR2", "Foo3":"BAR3"},
            {"Foo4":"BAR4", "Foo5":"BAR5", "Foo6":"BAR6"};
            {"Foo7":"BAR7", "Foo8":"BAR8", "Foo9":"BAR9"}
        ]"#;

        let value_context = JsonContext::Value;
        let prepared_str = parse_stringified_json_string(original_str, value_context);

        let expected_str = r#"[{"Foo1": "BAR1", "Foo2": "BAR2", "Foo3": "BAR3"}, {"Foo4": "BAR4", "Foo5": "BAR5", "Foo6": "BAR6"}, {"Foo7": "BAR7", "Foo8": "BAR8", "Foo9": "BAR9"}]"#
        .to_string();

        assert_eq!(prepared_str, expected_str);
}

#[test]
fn parse_stringified_json_string_test() {
        let original_str = r#"{
            [{unit_id: 5, ec_id: 0,"label": "SOMETHING","uid": "00000000-0000-0000-0000-000000000001", "customtags": {"tag1": ""}, "groups": ["input:max_adr:205"] }],
        }"#;

        let value_context = JsonContext::Value;

        let prepared_str = parse_stringified_json_string(original_str, value_context);

        let expected_str = r#"{[{"unit_id": "5", "ec_id": "0", "label": "SOMETHING", "uid": "00000000-0000-0000-0000-000000000001", "customtags": {"tag1": ""}, "groups": ["input:max_adr:205"]}]}"#.to_string();

        assert_eq!(prepared_str, expected_str);
}
