//! The errors that reading a session can end in.

use vstd::prelude::*;

verus! {

broadcast use vstd::string::group_string_axioms;

/// Declares `serde_json::Error`, carried opaquely by [`SessionError::Json`].
#[verifier::external_type_specification]
#[verifier::external_body]
pub struct ExJsonError(serde_json::Error);

/// Declares `serde_yaml::Error`, carried opaquely by [`SessionError::Yaml`].
#[verifier::external_type_specification]
#[verifier::external_body]
pub struct ExYamlError(serde_yaml::Error);

/// Declares `std::str::Utf8Error`, carried opaquely by [`SessionError::Utf8`].
#[verifier::external_type_specification]
#[verifier::external_body]
pub struct ExUtf8Error(std::str::Utf8Error);

/// Declares `std::io::Error`, carried opaquely by [`SessionError::Io`].
#[verifier::external_type_specification]
#[verifier::external_body]
pub struct ExIoError(std::io::Error);

/// Why reading a session failed.
#[derive(Debug)]
pub enum SessionError {
    /// The input bundle holds nothing.
    EmptyInput,
    /// The agent recognised none of its session formats.
    Detection { agent: String },
    /// The agent cannot read this kind of input.
    UnsupportedInput { agent: String, details: String },
    /// The session does not have the structure the agent expects.
    InvalidStructure { agent: String, details: String },
    /// JSON could not be parsed.
    Json(serde_json::Error),
    /// YAML could not be parsed.
    Yaml(serde_yaml::Error),
    /// Bytes were not UTF-8.
    Utf8(std::str::Utf8Error),
    /// Reading or writing failed.
    Io(std::io::Error),
    /// Any other failure, described.
    Message(String),
}

impl From<serde_json::Error> for SessionError {
    fn from(e: serde_json::Error) -> (r: SessionError) {
        SessionError::Json(e)
    }
}

impl vstd::std_specs::convert::FromSpecImpl<serde_json::Error> for SessionError {
    open spec fn obeys_from_spec() -> bool {
        true
    }

    open spec fn from_spec(e: serde_json::Error) -> SessionError {
        SessionError::Json(e)
    }
}

impl From<serde_yaml::Error> for SessionError {
    fn from(e: serde_yaml::Error) -> (r: SessionError) {
        SessionError::Yaml(e)
    }
}

impl vstd::std_specs::convert::FromSpecImpl<serde_yaml::Error> for SessionError {
    open spec fn obeys_from_spec() -> bool {
        true
    }

    open spec fn from_spec(e: serde_yaml::Error) -> SessionError {
        SessionError::Yaml(e)
    }
}

impl From<std::str::Utf8Error> for SessionError {
    fn from(e: std::str::Utf8Error) -> (r: SessionError) {
        SessionError::Utf8(e)
    }
}

impl vstd::std_specs::convert::FromSpecImpl<std::str::Utf8Error> for SessionError {
    open spec fn obeys_from_spec() -> bool {
        true
    }

    open spec fn from_spec(e: std::str::Utf8Error) -> SessionError {
        SessionError::Utf8(e)
    }
}

impl From<std::io::Error> for SessionError {
    fn from(e: std::io::Error) -> (r: SessionError) {
        SessionError::Io(e)
    }
}

impl vstd::std_specs::convert::FromSpecImpl<std::io::Error> for SessionError {
    open spec fn obeys_from_spec() -> bool {
        true
    }

    open spec fn from_spec(e: std::io::Error) -> SessionError {
        SessionError::Io(e)
    }
}

/// `text` with `part` appended.
fn appended(text: String, part: &str) -> (r: String)
    ensures
        r@ == text@ + part@,
{
    let mut r = text;
    r.append(part);
    r
}

impl SessionError {
    /// The message that describes the error. For the errors of JSON, YAML,
    /// UTF-8 decoding and I/O, a fixed prefix is followed by the text that
    /// `to_string` gives of the underlying error.
    pub fn message(&self) -> (m: String)
        ensures
            match self {
                SessionError::EmptyInput => m@ == "input bundle is empty"@,
                SessionError::Detection { agent } => m@ == "agent `"@ + agent@
                    + "` could not detect a supported session schema"@,
                SessionError::UnsupportedInput { agent, details } => m@ == "agent `"@ + agent@
                    + "` does not support this input: "@ + details@,
                SessionError::InvalidStructure { agent, details } => m@ == "invalid session structure for `"@
                    + agent@ + "`: "@ + details@,
                SessionError::Json(e) => exists|d: String|
                    #[trigger] vstd::string::to_string_from_display_ensures::<serde_json::Error>(e, d) && m@
                        == "json parse failed: "@ + d@,
                SessionError::Yaml(e) => exists|d: String|
                    #[trigger] vstd::string::to_string_from_display_ensures::<serde_yaml::Error>(e, d) && m@
                        == "yaml parse failed: "@ + d@,
                SessionError::Utf8(e) => exists|d: String|
                    #[trigger] vstd::string::to_string_from_display_ensures::<std::str::Utf8Error>(e, d) && m@
                        == "utf-8 decode failed: "@ + d@,
                SessionError::Io(e) => exists|d: String|
                    #[trigger] vstd::string::to_string_from_display_ensures::<std::io::Error>(e, d) && m@
                        == "i/o failed: "@ + d@,
                SessionError::Message(text) => m@ == text@,
            },
    {
        match self {
            SessionError::EmptyInput => String::from_str("input bundle is empty"),
            SessionError::Detection { agent } => {
                let m = appended(String::from_str("agent `"), agent.as_str());
                appended(m, "` could not detect a supported session schema")
            },
            SessionError::UnsupportedInput { agent, details } => {
                let m = appended(String::from_str("agent `"), agent.as_str());
                let m = appended(m, "` does not support this input: ");
                appended(m, details.as_str())
            },
            SessionError::InvalidStructure { agent, details } => {
                let m = appended(String::from_str("invalid session structure for `"), agent.as_str());
                let m = appended(m, "`: ");
                appended(m, details.as_str())
            },
            SessionError::Json(e) => {
                let description = e.to_string();
                appended(String::from_str("json parse failed: "), description.as_str())
            },
            SessionError::Yaml(e) => {
                let description = e.to_string();
                appended(String::from_str("yaml parse failed: "), description.as_str())
            },
            SessionError::Utf8(e) => {
                let description = e.to_string();
                appended(String::from_str("utf-8 decode failed: "), description.as_str())
            },
            SessionError::Io(e) => {
                let description = e.to_string();
                appended(String::from_str("i/o failed: "), description.as_str())
            },
            SessionError::Message(text) => text.clone(),
        }
    }
}

} // verus!
