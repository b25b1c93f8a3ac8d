use json_struct::{
    data_type_for_extension, detect_data_type, get_extension_from_filename, use_color, CmdColor,
    CmdDataType, InputDataType,
};

#[test]
fn test_empty_string_returns_none() {
    assert_eq!(get_extension_from_filename(""), None);
}

#[test]
fn test_file_with_no_extension_returns_none() {
    assert_eq!(get_extension_from_filename("Dockerfile"), None);
}

#[test]
fn test_file_with_single_extension_returns_the_extension() {
    assert_eq!(get_extension_from_filename("file.json"), Some("json"));
}

#[test]
fn test_file_with_multiple_extensions_returns_the_first_extension() {
    assert_eq!(get_extension_from_filename("file.tar.gz"), Some("gz"));
}

#[test]
fn test_file_with_full_path_returns_the_extension() {
    assert_eq!(
        get_extension_from_filename("/some/file/with/full/path.json"),
        Some("json")
    );
}

#[test]
fn test_forcing_json_returns_json_type() {
    assert_eq!(
        detect_data_type("file.yaml", CmdDataType::Json),
        InputDataType::Json
    );
}

#[test]
fn test_forcing_yaml_returns_yaml_type() {
    assert_eq!(
        detect_data_type("file.json", CmdDataType::Yaml),
        InputDataType::Yaml
    );
}

#[test]
fn test_forcing_toml_returns_toml_type() {
    assert_eq!(
        detect_data_type("file.json", CmdDataType::Toml),
        InputDataType::Toml
    );
}

#[test]
fn test_file_with_json_extension_returns_json_type() {
    assert_eq!(
        detect_data_type("file.json", CmdDataType::Auto),
        InputDataType::Json
    );
}

#[test]
fn test_file_with_yaml_extension_returns_yaml_type() {
    assert_eq!(
        detect_data_type("file.yaml", CmdDataType::Auto),
        InputDataType::Yaml
    );
}

#[test]
fn test_file_with_yml_extension_returns_yaml_type() {
    assert_eq!(
        detect_data_type("file.yml", CmdDataType::Auto),
        InputDataType::Yaml
    );
}

#[test]
fn test_file_with_toml_extension_returns_toml_type() {
    assert_eq!(
        detect_data_type("file.toml", CmdDataType::Auto),
        InputDataType::Toml
    );
}

#[test]
fn test_file_with_any_unknown_extension_returns_json_type() {
    assert_eq!(
        detect_data_type("file.foo", CmdDataType::Auto),
        InputDataType::Json
    );
}

#[test]
fn test_file_with_no_extension_returns_json_type() {
    assert_eq!(
        detect_data_type("-", CmdDataType::Auto),
        InputDataType::Json
    );
}

#[test]
fn hidden_file_has_no_extension() {
    assert_eq!(get_extension_from_filename(".bashrc"), None);
    assert_eq!(detect_data_type(".toml", CmdDataType::Auto), InputDataType::Json);
}

#[test]
fn extension_is_taken_from_the_file_name_only() {
    assert_eq!(get_extension_from_filename("dir.yaml/file"), None);
    assert_eq!(detect_data_type("dir.yaml/file", CmdDataType::Auto), InputDataType::Json);
}

#[test]
fn extension_match_is_exact() {
    assert_eq!(data_type_for_extension(Some("YAML")), InputDataType::Json);
    assert_eq!(data_type_for_extension(Some("tom")), InputDataType::Json);
    assert_eq!(data_type_for_extension(Some("")), InputDataType::Json);
    assert_eq!(data_type_for_extension(Some("yml")), InputDataType::Yaml);
    assert_eq!(data_type_for_extension(Some("toml")), InputDataType::Toml);
    assert_eq!(data_type_for_extension(None), InputDataType::Json);
}

#[test]
fn color_modes_decide_coloring() {
    assert!(!use_color(CmdColor::Never, true));
    assert!(!use_color(CmdColor::Never, false));
    assert!(use_color(CmdColor::Always, true));
    assert!(use_color(CmdColor::Always, false));
    assert!(use_color(CmdColor::Auto, true));
    assert!(!use_color(CmdColor::Auto, false));
}
