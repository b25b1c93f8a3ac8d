//! How the input is read and how the output looks.
use vstd::prelude::*;

use crate::text::same_text;

verus! {

/// The format that the input is parsed as.
#[derive(Clone, Copy, Debug, PartialEq, Eq, Structural)]
pub enum InputDataType {
    Json,
    Yaml,
    Toml,
}

/// The format that was asked for, or `Auto` to go by the file's extension.
#[derive(Clone, Copy, Debug, PartialEq, Eq, Structural)]
pub enum CmdDataType {
    Auto,
    Json,
    Yaml,
    Toml,
}

/// Whether lines are colored: always, never, or when the output is a terminal.
#[derive(Clone, Copy, Debug, PartialEq, Eq, Structural)]
pub enum CmdColor {
    Auto,
    Always,
    Never,
}

/// The extension of a file path: what follows the last `.` of its file name.
pub uninterp spec fn path_extension(path: Seq<char>) -> Option<Seq<char>>;

/// Relies on `Path::extension`, read back as text with `OsStr::to_str`: the
/// extension of the path's file name, none for a path without a `.`.
#[verifier::external_body]
pub fn get_extension_from_filename(filename: &str) -> (r: Option<&str>)
    ensures
        match r {
            Some(e) => path_extension(filename@) == Some(e@),
            None => path_extension(filename@) is None,
        },
        !filename@.contains('.') ==> r is None,
{
    match std::path::Path::new(filename).extension() {
        Some(e) => e.to_str(),
        None => None,
    }
}

/// The format that a file extension names; JSON for any other or none.
pub open spec fn type_for_extension(ext: Option<Seq<char>>) -> InputDataType {
    match ext {
        Some(e) => {
            if e == seq!['y', 'a', 'm', 'l'] || e == seq!['y', 'm', 'l'] {
                InputDataType::Yaml
            } else if e == seq!['t', 'o', 'm', 'l'] {
                InputDataType::Toml
            } else {
                InputDataType::Json
            }
        },
        None => InputDataType::Json,
    }
}

/// The format that a file extension names; JSON for any other or none.
pub fn data_type_for_extension(ext: Option<&str>) -> (r: InputDataType)
    ensures
        r == type_for_extension(
            match ext {
                Some(e) => Some(e@),
                None => None,
            },
        ),
{
    proof {
        reveal_strlit("json");
        reveal_strlit("yaml");
        reveal_strlit("yml");
        reveal_strlit("toml");
        assert("yaml"@ =~= seq!['y', 'a', 'm', 'l']);
        assert("yml"@ =~= seq!['y', 'm', 'l']);
        assert("toml"@ =~= seq!['t', 'o', 'm', 'l']);
    }
    match ext {
        Some(e) => {
            if same_text(e, "json") {
                InputDataType::Json
            } else if same_text(e, "yaml") || same_text(e, "yml") {
                InputDataType::Yaml
            } else if same_text(e, "toml") {
                InputDataType::Toml
            } else {
                InputDataType::Json
            }
        },
        None => InputDataType::Json,
    }
}

/// The format to parse: the one asked for, else the one that the file's
/// extension names.
pub open spec fn spec_detect_data_type(filename: Seq<char>, data_type: CmdDataType) -> InputDataType {
    match data_type {
        CmdDataType::Json => InputDataType::Json,
        CmdDataType::Yaml => InputDataType::Yaml,
        CmdDataType::Toml => InputDataType::Toml,
        CmdDataType::Auto => type_for_extension(path_extension(filename)),
    }
}

/// The format to parse: the one asked for, else the one that the file's
/// extension names, JSON when it names none.
pub fn detect_data_type(filename: &str, data_type: CmdDataType) -> (r: InputDataType)
    ensures
        r == spec_detect_data_type(filename@, data_type),
{
    match data_type {
        CmdDataType::Json => InputDataType::Json,
        CmdDataType::Yaml => InputDataType::Yaml,
        CmdDataType::Toml => InputDataType::Toml,
        CmdDataType::Auto => data_type_for_extension(get_extension_from_filename(filename)),
    }
}

/// Whether lines are colored under `color` when the output is, or is not, a
/// terminal.
pub open spec fn color_enabled(color: CmdColor, is_terminal: bool) -> bool {
    match color {
        CmdColor::Always => true,
        CmdColor::Never => false,
        CmdColor::Auto => is_terminal,
    }
}

/// Whether lines are colored under `color` when the output is, or is not, a
/// terminal.
pub fn use_color(color: CmdColor, is_terminal: bool) -> (r: bool)
    ensures
        r == color_enabled(color, is_terminal),
{
    match color {
        CmdColor::Always => true,
        CmdColor::Never => false,
        CmdColor::Auto => is_terminal,
    }
}

} // verus!
