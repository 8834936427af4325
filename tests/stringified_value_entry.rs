use prepare_json::prepare_stringified_json_string;

#[test]
fn stringified_json_string_comma_inside_value() {
        let original_str = r#"{"Description": "Battery pack interfaces 1, NB011-NB012 (UPS 1)", }"#;

        let prepared_str = prepare_stringified_json_string(original_str);

        let expected_str =
            r#"{"Description": "Battery pack interfaces 1, NB011-NB012 (UPS 1)"}"#.to_string();

        assert_eq!(prepared_str, expected_str);
}

#[test]
fn stringified_json_string_array_with_multiple_objects_stringified() {
        let original_str = r#"[
            {"Foo1":19, "Foo2":"BAR2", "Foo3":"BAR3"},
            {"Foo4":10, "Foo5":11, "Foo6":"BAR6"},
            {"Foo7":"BAR7", "Foo8":15, "Foo9":"BAR9"}
        ]"#;

        let prepared_str = prepare_stringified_json_string(original_str);

        let expected_str = r#"[{"Foo1": "19", "Foo2": "BAR2", "Foo3": "BAR3"}, {"Foo4": "10", "Foo5": "11", "Foo6": "BAR6"}, {"Foo7": "BAR7", "Foo8": "15", "Foo9": "BAR9"}]"#;

        assert_eq!(prepared_str, expected_str);
}

#[test]
fn stringified_json_string_prepare_stringified_json_string_w_empty_groups_stringified() {
        let original_str = r#"
            [
                {"tag":"lol", "groups":[]}
            ]
        "#;
        let prepared_str = prepare_stringified_json_string(original_str);

        let expected_str = r#"[{"tag": "lol", "groups": []}]"#;

        assert_eq!(prepared_str, expected_str);
}

#[test]
fn stringified_json_string_prepare_stringified_json_string_w_inner_json_stringified() {
        let original_str = r#"
            [
                {"label":"lol", "customtags": {"k1": 17}}
            ]
        "#;
        let prepared_str = prepare_stringified_json_string(original_str);

        let expected_str = r#"[{"label": "lol", "customtags": {"k1": "17"}}]"#;

        assert_eq!(prepared_str, expected_str);
}

#[test]
fn stringified_json_string_entirely_without_quotes_stringified() {
        let original_str = "{
            property1: 17,
            property2: iskrem
        }";

        let prepared_str = prepare_stringified_json_string(original_str);

        let expected_str = r#"{"property1": "17", "property2": "iskrem"}"#;

        assert_eq!(prepared_str, expected_str);
}

#[test]
fn stringified_json_string_arbitrary_test_stringified() {
        let original_str = r#"{
            [{"unit_id": 5,"ec_id": 0,"label": "SOMETHING","uid": "00000000-0000-0000-0000-000000000001", "customtags": {"tag1": ""}, "groups": ["input:max_adr:205"] }]
        }"#;

        let prepared_str = prepare_stringified_json_string(original_str);

        let expected_str = r#"{[{"unit_id": "5", "ec_id": "0", "label": "SOMETHING", "uid": "00000000-0000-0000-0000-000000000001", "customtags": {"tag1": ""}, "groups": ["input:max_adr:205"]}]}"#.to_string();

        assert_eq!(prepared_str, expected_str);
}
