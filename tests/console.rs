use json_struct::ConsoleWriter;

const FORMAT_RESET: &str = "\u{1b}[0m";
const FORMAT_BOLD: &str = "\u{1b}[1m";
const COLOR_BLACK: &str = "\u{1b}[30m";
const COLOR_GREEN: &str = "\u{1b}[32m";
const COLOR_BLUE: &str = "\u{1b}[34m";

fn text_of(writer: ConsoleWriter) -> String {
    String::from_utf8(writer.into_output()).unwrap()
}

#[test]
fn test_write_string_with_color() {
    let mut writer = ConsoleWriter::new(true);

    writer.write_string(".", "Some String").unwrap();

    let actual = text_of(writer);
    let expected = format!(
        "{}{}.{} => {}{}\"Some String\"\n{}",
        FORMAT_RESET, COLOR_BLUE, FORMAT_RESET, FORMAT_RESET, COLOR_GREEN, FORMAT_RESET
    );
    assert_eq!(expected, actual);
}

#[test]
fn test_write_string_no_color() {
    let mut writer = ConsoleWriter::new(false);

    writer.write_string(".", "Some String").unwrap();

    assert_eq!(". => \"Some String\"\n", text_of(writer));
}

#[test]
fn test_write_number_with_color() {
    let mut writer = ConsoleWriter::new(true);

    writer.write_number(".", "420").unwrap();

    let actual = text_of(writer);
    let expected = format!("{}{}.{} => 420\n", FORMAT_RESET, COLOR_BLUE, FORMAT_RESET);
    assert_eq!(expected, actual);
}

#[test]
fn test_write_number_no_color() {
    let mut writer = ConsoleWriter::new(false);

    writer.write_number(".", "420").unwrap();

    assert_eq!(". => 420\n", text_of(writer));
}

#[test]
fn test_write_bool_with_color() {
    let mut writer = ConsoleWriter::new(true);

    writer.write_bool(".", true).unwrap();

    let actual = text_of(writer);
    let expected = format!("{}{}.{} => true\n", FORMAT_RESET, COLOR_BLUE, FORMAT_RESET);
    assert_eq!(expected, actual);
}

#[test]
fn test_write_bool_no_color() {
    let mut writer = ConsoleWriter::new(false);

    writer.write_bool(".", true).unwrap();

    assert_eq!(". => true\n", text_of(writer));
}

#[test]
fn test_write_null_with_color() {
    let mut writer = ConsoleWriter::new(true);

    writer.write_null(".").unwrap();

    let actual = text_of(writer);
    let expected = format!(
        "{}{}.{} => {}{}{}null\n{}",
        FORMAT_RESET, COLOR_BLUE, FORMAT_RESET, FORMAT_RESET, FORMAT_BOLD, COLOR_BLACK, FORMAT_RESET
    );
    assert_eq!(expected, actual);
}

#[test]
fn test_write_null_no_color() {
    let mut writer = ConsoleWriter::new(false);

    writer.write_null(".").unwrap();

    assert_eq!(". => null\n", text_of(writer));
}

#[test]
fn test_write_raw_with_color() {
    let mut writer = ConsoleWriter::new(true);

    writer.write_raw(".", "Some String").unwrap();

    let actual = text_of(writer);
    let expected = format!(
        "{}{}.{} => {}{}Some String\n{}",
        FORMAT_RESET, COLOR_BLUE, FORMAT_RESET, FORMAT_RESET, FORMAT_BOLD, FORMAT_RESET
    );
    assert_eq!(expected, actual);
}

#[test]
fn test_write_raw_no_color() {
    let mut writer = ConsoleWriter::new(false);

    writer.write_raw(".", "Some String").unwrap();

    assert_eq!(". => Some String\n", text_of(writer));
}

#[test]
fn write_bool_false_and_non_ascii_text() {
    let mut writer = ConsoleWriter::new(false);

    writer.write_bool(".é", false).unwrap();
    writer.write_string(".k", "naïve ☃").unwrap();

    assert_eq!(".é => false\n.k => \"naïve ☃\"\n", text_of(writer));
}

#[test]
fn writer_reports_its_coloring() {
    assert!(ConsoleWriter::new(true).colored());
    assert!(!ConsoleWriter::new(false).colored());
    assert!(ConsoleWriter::new(false).output().is_empty());
}
