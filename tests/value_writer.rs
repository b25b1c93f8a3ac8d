use json_struct::{
    escape_path_element, escape_str_value, print_value, writer_for, CmdColor, ConsoleWriter, Value,
};

fn s(text: &str) -> String {
    text.to_string()
}

fn from_json(v: serde_json::Value) -> Value {
    match v {
        serde_json::Value::Null => Value::Null,
        serde_json::Value::Bool(b) => Value::Bool(b),
        serde_json::Value::Number(n) => Value::Number(n.to_string()),
        serde_json::Value::String(t) => Value::String(t),
        serde_json::Value::Array(a) => Value::Array(a.into_iter().map(from_json).collect()),
        serde_json::Value::Object(o) => {
            Value::Object(o.into_iter().map(|(k, v)| (k, from_json(v))).collect())
        }
    }
}

fn render(path: &str, value: &Value, colored: bool) -> String {
    let mut writer = ConsoleWriter::new(colored);
    print_value(path, value, &mut writer).unwrap();
    String::from_utf8(writer.into_output()).unwrap()
}

#[test]
fn test_print_object() {
    let value = Value::Object(vec![
        (s("foo"), Value::String(s("bar"))),
        (s("baz"), Value::Null),
    ]);

    assert_eq!(render(".", &value, false), ".foo => \"bar\"\n.baz => null\n");
}

#[test]
fn test_print_array() {
    let value = Value::Array(vec![
        Value::String(s("foo")),
        Value::Number(s("0")),
        Value::Bool(true),
    ]);

    assert_eq!(
        render(".", &value, false),
        ".[0] => \"foo\"\n.[1] => 0\n.[2] => true\n"
    );
}

#[test]
fn test_print_str() {
    assert_eq!(render("foo", &Value::String(s("bar")), false), "foo => \"bar\"\n");
}

#[test]
fn test_print_number() {
    assert_eq!(render("foo", &Value::Number(s("69")), false), "foo => 69\n");
}

#[test]
fn test_print_bool() {
    assert_eq!(render("foo", &Value::Bool(true), false), "foo => true\n");
}

#[test]
fn test_print_null() {
    assert_eq!(render("foo", &Value::Null, false), "foo => null\n");
}

#[test]
fn test_print_complex() {
    let data = r#"
        {
            "first name": "John",
            "last name": "Doe",
            "age": 43,
            "address": {
                "street": "10 Downing Street",
                "city": "London"
            },
            "phones": [
                "+44 1234567",
                "+44 2345678"
            ]
        }"#;

    let value = from_json(serde_json::from_str(data).unwrap());
    let out = render(".", &value, false);

    let mut lines: Vec<&str> = out.lines().collect();
    lines.sort();
    assert_eq!(
        lines,
        vec![
            ".\"first name\" => \"John\"",
            ".\"last name\" => \"Doe\"",
            ".address.city => \"London\"",
            ".address.street => \"10 Downing Street\"",
            ".age => 43",
            ".phones[0] => \"+44 1234567\"",
            ".phones[1] => \"+44 2345678\"",
        ]
    );
}

#[test]
fn test_empty_dicts_and_arrays_are_printed() {
    let data = r#"
        {
            "address": {},
            "phones": []
        }"#;

    let value = from_json(serde_json::from_str(data).unwrap());
    let out = render(".", &value, false);

    let mut lines: Vec<&str> = out.lines().collect();
    lines.sort();
    assert_eq!(lines, vec![".address => {}", ".phones => []"]);
}

#[test]
fn test_nothing_to_escape() {
    assert_eq!(escape_path_element("foo".to_string()), "foo");
    assert_eq!(
        escape_path_element("key_with_underscores".to_string()),
        "key_with_underscores"
    );
}

#[test]
fn test_wrap_strings_with_non_alnum_chars_in_double_quotes() {
    assert_eq!(
        escape_path_element("Mathieu Lemay [0]".to_string()),
        "\"Mathieu Lemay [0]\""
    );
    assert_eq!(
        escape_path_element("key-with-dashes".to_string()),
        "\"key-with-dashes\""
    );
}

#[test]
fn test_escape_double_quotes() {
    assert_eq!(
        escape_path_element("Mathieu \"Uncle Matt\" Lemay".to_string()),
        r#""Mathieu \"Uncle Matt\" Lemay""#
    );
}

#[test]
fn empty_key_is_quoted() {
    assert_eq!(escape_path_element(String::new()), "\"\"");
    let value = Value::Object(vec![(String::new(), Value::Null)]);
    assert_eq!(render(".", &value, false), ".\"\" => null\n");
}

#[test]
fn non_ascii_key_is_quoted() {
    assert_eq!(escape_path_element(s("clé")), "\"clé\"");
    assert_eq!(escape_path_element(s("A1_z9")), "A1_z9");
}

#[test]
fn string_values_escape_newlines_only() {
    assert_eq!(escape_str_value("a\nb"), "\"a\\nb\"");
    assert_eq!(escape_str_value("say \"hi\"\\"), "\"say \"hi\"\\\"");
    assert_eq!(escape_str_value(""), "\"\"");
    assert_eq!(escape_str_value("\n\n"), "\"\\n\\n\"");
}

#[test]
fn string_leaf_with_newline_stays_on_one_line() {
    let out = render("x", &Value::String(s("one\ntwo")), false);
    assert_eq!(out, "x => \"one\\ntwo\"\n");
    assert_eq!(out.lines().count(), 1);
}

#[test]
fn scenario_single_member_object() {
    let value = from_json(serde_json::from_str(r#"{"foo": "bar"}"#).unwrap());
    assert_eq!(render(".", &value, false), ".foo => \"bar\"\n");
}

#[test]
fn scenario_empty_members_in_order() {
    let value = Value::Object(vec![
        (s("address"), Value::Object(vec![])),
        (s("phones"), Value::Array(vec![])),
    ]);
    assert_eq!(render(".", &value, false), ".address => {}\n.phones => []\n");
}

#[test]
fn scenario_array_in_index_order() {
    let value = from_json(serde_json::from_str(r#"["foo", 0, true]"#).unwrap());
    assert_eq!(
        render(".", &value, false),
        ".[0] => \"foo\"\n.[1] => 0\n.[2] => true\n"
    );
}

#[test]
fn scenario_key_with_space() {
    let value = from_json(serde_json::from_str(r#"{"a b": 1}"#).unwrap());
    assert_eq!(render(".", &value, false), ".\"a b\" => 1\n");
}

#[test]
fn scenario_null_at_named_root() {
    assert_eq!(render("foo", &Value::Null, false), "foo => null\n");
}

#[test]
fn root_empty_containers() {
    assert_eq!(render(".", &Value::Object(vec![]), false), ". => {}\n");
    assert_eq!(render(".", &Value::Array(vec![]), false), ". => []\n");
}

#[test]
fn nested_paths_join_with_dots_and_brackets() {
    let value = Value::Object(vec![(
        s("a"),
        Value::Array(vec![
            Value::Object(vec![(s("b-c"), Value::Number(s("1.5")))]),
            Value::Array(vec![Value::Array(vec![])]),
        ]),
    )]);
    assert_eq!(
        render(".", &value, false),
        ".a[0].\"b-c\" => 1.5\n.a[1][0] => []\n"
    );
}

#[test]
fn member_of_non_root_path_gets_a_dot() {
    let value = Value::Object(vec![(s("x"), Value::Bool(false))]);
    assert_eq!(render("top", &value, false), "top.x => false\n");
}

#[test]
fn indices_past_nine_are_written_in_full() {
    let items: Vec<Value> = (0..12).map(|_| Value::Null).collect();
    let out = render(".", &Value::Array(items), false);
    let lines: Vec<&str> = out.lines().collect();
    assert_eq!(lines.len(), 12);
    assert_eq!(lines[10], ".[10] => null");
    assert_eq!(lines[11], ".[11] => null");
}

#[test]
fn object_line_count_is_sum_of_members() {
    let value = Value::Object(vec![
        (s("a"), Value::Array(vec![Value::Null, Value::Null])),
        (s("b"), Value::Object(vec![(s("c"), Value::Null)])),
        (s("d"), Value::Object(vec![])),
    ]);
    let out = render(".", &value, false);
    assert_eq!(out.lines().count(), 2 + 1 + 1);
    assert!(out.lines().all(|l| !l.starts_with(". =>")));
}

#[test]
fn never_writes_no_escape_sequences() {
    let value = Value::Object(vec![
        (s("a"), Value::String(s("x"))),
        (s("b"), Value::Null),
        (s("c"), Value::Array(vec![])),
    ]);
    let mut writer = writer_for(CmdColor::Never, true);
    print_value(".", &value, &mut writer).unwrap();
    let out = String::from_utf8(writer.into_output()).unwrap();
    assert!(!out.contains('\u{1b}'));
    assert_eq!(out, ".a => \"x\"\n.b => null\n.c => []\n");
}

#[test]
fn always_writes_escape_sequences_off_a_terminal() {
    let mut writer = writer_for(CmdColor::Always, false);
    print_value(".", &Value::Number(s("7")), &mut writer).unwrap();
    let out = String::from_utf8(writer.into_output()).unwrap();
    assert_eq!(out, "\u{1b}[0m\u{1b}[34m.\u{1b}[0m => 7\n");
}

#[test]
fn auto_follows_the_terminal() {
    let value = Value::Bool(true);
    let mut on_tty = writer_for(CmdColor::Auto, true);
    let mut always = writer_for(CmdColor::Always, false);
    print_value(".", &value, &mut on_tty).unwrap();
    print_value(".", &value, &mut always).unwrap();
    assert_eq!(on_tty.into_output(), always.into_output());

    let mut off_tty = writer_for(CmdColor::Auto, false);
    let mut never = writer_for(CmdColor::Never, true);
    print_value(".", &value, &mut off_tty).unwrap();
    print_value(".", &value, &mut never).unwrap();
    assert_eq!(off_tty.into_output(), never.into_output());
}

#[test]
fn colored_object_lines() {
    let value = Value::Object(vec![(s("k"), Value::Object(vec![]))]);
    assert_eq!(
        render(".", &value, true),
        "\u{1b}[0m\u{1b}[34m.k\u{1b}[0m => \u{1b}[0m\u{1b}[1m{}\n\u{1b}[0m"
    );
}

#[test]
fn backslash_keys_do_not_collide() {
    let value = Value::Object(vec![
        (s("a\\"), Value::Object(vec![(s("b"), Value::Null)])),
        (s("a\".b"), Value::Null),
    ]);
    assert_eq!(
        render(".", &value, false),
        ".\"a\\\".b => null\n.\"a\\\".b\" => null\n"
    );
}
