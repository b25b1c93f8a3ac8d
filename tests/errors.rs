use json_struct::{same_text, Error, ErrorKind};

#[test]
fn json_error_converts_to_its_kind() {
    let e = serde_json::from_str::<serde_json::Value>("{").unwrap_err();
    let err = Error::from(e);
    assert!(matches!(err.kind(), ErrorKind::JsonDeserialize));
}

#[test]
fn yaml_error_converts_to_its_kind() {
    let e = serde_yaml::from_str::<serde_json::Value>("a: [").unwrap_err();
    let err = Error::from(e);
    assert!(matches!(err.kind(), ErrorKind::YamlDeserialize));
}

#[test]
fn toml_error_converts_to_its_kind() {
    let e = toml::from_str::<serde_json::Value>("a = ").unwrap_err();
    let err = Error::from(e);
    assert!(matches!(err.kind(), ErrorKind::TomlDeserialize));
}

#[test]
fn utf8_error_converts_to_its_kind() {
    let bytes = vec![0xffu8, 0xfe];
    let e = std::str::from_utf8(&bytes).unwrap_err();
    let err = Error::from(e);
    assert!(matches!(err.kind(), ErrorKind::Utf8Error));
}

#[test]
fn io_error_keeps_its_io_kind() {
    let e = std::io::Error::new(std::io::ErrorKind::BrokenPipe, "closed");
    let err = Error::from(e);
    assert!(matches!(
        err.kind(),
        ErrorKind::Io(std::io::ErrorKind::BrokenPipe)
    ));
}

#[test]
fn same_text_compares_characters() {
    assert!(same_text("json", "json"));
    assert!(!same_text("json", "jsonx"));
    assert!(!same_text("json", "JSON"));
    assert!(same_text("", ""));
    assert!(same_text("é", "é"));
}
