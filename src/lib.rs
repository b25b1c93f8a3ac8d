//! Flattens a nested document value into `path => value` lines, one per
//! scalar or empty container, each path saying where the leaf stands.
pub mod console;
pub mod error;
pub mod laws;
pub mod options;
pub mod path_laws;
pub mod text;
pub mod value;
pub mod value_writer;

pub use console::{ConsoleWriter, Hue, Style};
pub use error::{Error, ErrorImpl, ErrorKind, ErrorSource, Result};
pub use options::{
    data_type_for_extension, detect_data_type, get_extension_from_filename, use_color, CmdColor,
    CmdDataType, InputDataType,
};
pub use text::same_text;
pub use value::Value;
pub use value_writer::{escape_path_element, escape_str_value, get_writer, print_value, writer_for};
