//! The library's error type.
use serde_json::Error as JsonError;
use serde_yaml::Error as YamlError;
use toml::de::Error as TomlError;
use vstd::prelude::*;

verus! {

#[verifier::external_type_specification]
#[verifier::external_body]
pub struct ExIoError(std::io::Error);

#[verifier::external_type_specification]
#[verifier::external_body]
pub struct ExIoErrorKind(std::io::ErrorKind);

#[verifier::external_type_specification]
#[verifier::external_body]
pub struct ExUtf8Error(std::str::Utf8Error);

#[verifier::external_type_specification]
#[verifier::external_body]
pub struct ExJsonError(JsonError);

#[verifier::external_type_specification]
#[verifier::external_body]
pub struct ExYamlError(YamlError);

#[verifier::external_type_specification]
#[verifier::external_body]
pub struct ExTomlError(TomlError);

pub assume_specification[ std::io::Error::kind ](e: &std::io::Error) -> std::io::ErrorKind;

/// What went wrong.
#[derive(Debug)]
pub enum ErrorKind {
    Utf8Error,
    Io(std::io::ErrorKind),
    JsonDeserialize,
    YamlDeserialize,
    TomlDeserialize,
}

/// The underlying error, kept for its message.
#[derive(Debug)]
pub enum ErrorSource {
    Utf8(std::str::Utf8Error),
    Io(std::io::Error),
    Json(JsonError),
    Yaml(YamlError),
    Toml(TomlError),
}

#[derive(Debug)]
pub struct ErrorImpl {
    pub kind: ErrorKind,
    pub error: ErrorSource,
}

#[derive(Debug)]
pub struct Error(pub Box<ErrorImpl>);

pub type Result<T> = std::result::Result<T, Error>;

impl Error {
    pub open spec fn spec_kind(&self) -> &ErrorKind {
        &self.0.kind
    }

    pub fn kind(&self) -> (r: &ErrorKind)
        ensures
            r == self.spec_kind(),
    {
        &self.0.kind
    }
}

impl From<std::str::Utf8Error> for Error {
    fn from(e: std::str::Utf8Error) -> Self {
        Error(Box::new(ErrorImpl { kind: ErrorKind::Utf8Error, error: ErrorSource::Utf8(e) }))
    }
}

impl vstd::std_specs::convert::FromSpecImpl<std::str::Utf8Error> for Error {
    open spec fn obeys_from_spec() -> bool {
        true
    }

    open spec fn from_spec(e: std::str::Utf8Error) -> Self {
        Error(Box::new(ErrorImpl { kind: ErrorKind::Utf8Error, error: ErrorSource::Utf8(e) }))
    }
}

impl From<std::io::Error> for Error {
    fn from(e: std::io::Error) -> (r: Self)
        ensures
            r.0.kind is Io,
            r.0.error == ErrorSource::Io(e),
    {
        let kind = e.kind();
        Error(Box::new(ErrorImpl { kind: ErrorKind::Io(kind), error: ErrorSource::Io(e) }))
    }
}

impl vstd::std_specs::convert::FromSpecImpl<std::io::Error> for Error {
    /// The I/O kind inside the result is read from the error by a call without
    /// a contract, so the whole value is not fixed here; `from` itself states
    /// that the kind is `Io` and that the error is kept.
    open spec fn obeys_from_spec() -> bool {
        false
    }

    open spec fn from_spec(e: std::io::Error) -> Self {
        Error(Box::new(ErrorImpl { kind: ErrorKind::Io(arbitrary()), error: ErrorSource::Io(e) }))
    }
}

impl From<JsonError> for Error {
    fn from(e: JsonError) -> Self {
        Error(Box::new(ErrorImpl { kind: ErrorKind::JsonDeserialize, error: ErrorSource::Json(e) }))
    }
}

impl vstd::std_specs::convert::FromSpecImpl<JsonError> for Error {
    open spec fn obeys_from_spec() -> bool {
        true
    }

    open spec fn from_spec(e: JsonError) -> Self {
        Error(Box::new(ErrorImpl { kind: ErrorKind::JsonDeserialize, error: ErrorSource::Json(e) }))
    }
}

impl From<YamlError> for Error {
    fn from(e: YamlError) -> Self {
        Error(Box::new(ErrorImpl { kind: ErrorKind::YamlDeserialize, error: ErrorSource::Yaml(e) }))
    }
}

impl vstd::std_specs::convert::FromSpecImpl<YamlError> for Error {
    open spec fn obeys_from_spec() -> bool {
        true
    }

    open spec fn from_spec(e: YamlError) -> Self {
        Error(Box::new(ErrorImpl { kind: ErrorKind::YamlDeserialize, error: ErrorSource::Yaml(e) }))
    }
}

impl From<TomlError> for Error {
    fn from(e: TomlError) -> Self {
        Error(Box::new(ErrorImpl { kind: ErrorKind::TomlDeserialize, error: ErrorSource::Toml(e) }))
    }
}

impl vstd::std_specs::convert::FromSpecImpl<TomlError> for Error {
    open spec fn obeys_from_spec() -> bool {
        true
    }

    open spec fn from_spec(e: TomlError) -> Self {
        Error(Box::new(ErrorImpl { kind: ErrorKind::TomlDeserialize, error: ErrorSource::Toml(e) }))
    }
}

} // verus!
