//! Sources that agent providers discover: the files and inline data of a
//! session, and the role each candidate file plays.

use vstd::prelude::*;
use crate::text::{chars_of, trim, trim_bounds};

verus! {

broadcast use vstd::string::group_string_axioms;

/// The role of a candidate file that a provider finds.
#[derive(Debug, Clone, Copy, PartialEq, Eq)]
pub enum CandidateRole {
    /// A session of the agent itself.
    Primary,
    /// A session of a subagent that a primary session started.
    Subagent,
}

impl CandidateRole {
    /// Whether candidates of this role belong in the session history: only
    /// primary sessions do.
    pub fn is_history(self) -> (b: bool)
        ensures
            b == (self is Primary),
    {
        match self {
            CandidateRole::Primary => true,
            CandidateRole::Subagent => false,
        }
    }
}

/// One entry of a session source: a file, with an optional name, kind,
/// media type and inline content.
#[derive(Debug, Clone, PartialEq, Eq)]
pub struct AgentProviderSourceEntry {
    pub path: String,
    pub name: Option<String>,
    pub kind: Option<String>,
    pub media_type: Option<String>,
    pub inline_data: Option<Vec<u8>>,
}

impl AgentProviderSourceEntry {
    /// An entry for the file at `path`, with nothing else.
    pub fn new(path: String) -> (entry: Self)
        ensures
            entry.path == path,
            entry.name is None,
            entry.kind is None,
            entry.media_type is None,
            entry.inline_data is None,
    {
        AgentProviderSourceEntry { path, name: None, kind: None, media_type: None, inline_data: None }
    }

    /// The path of the entry's file.
    pub fn path(&self) -> (p: &str)
        ensures
            p@ == self.path@,
    {
        self.path.as_str()
    }

    /// The entry with the name `name`.
    pub fn named(self, name: String) -> (entry: Self)
        ensures
            entry == (Self { name: Some(name), ..self }),
    {
        AgentProviderSourceEntry { name: Some(name), ..self }
    }

    /// The entry with the kind `kind`.
    pub fn with_kind(self, kind: String) -> (entry: Self)
        ensures
            entry == (Self { kind: Some(kind), ..self }),
    {
        AgentProviderSourceEntry { kind: Some(kind), ..self }
    }

    /// The entry with the media type `media_type`.
    pub fn with_media_type(self, media_type: String) -> (entry: Self)
        ensures
            entry == (Self { media_type: Some(media_type), ..self }),
    {
        AgentProviderSourceEntry { media_type: Some(media_type), ..self }
    }

    /// The entry with the inline content `data`.
    pub fn with_inline_data(self, data: Vec<u8>) -> (entry: Self)
        ensures
            entry == (Self { inline_data: Some(data), ..self }),
    {
        AgentProviderSourceEntry { inline_data: Some(data), ..self }
    }
}

/// Whether a user message of a transcript shows any text: it does unless it
/// is blank.
pub fn is_transcript_user_text_visible(text: &str) -> (visible: bool)
    ensures
        visible == (trim(text@).len() > 0),
{
    let chars = chars_of(text);
    let (a, b) = trim_bounds(&chars, 0, chars.len());
    assert(chars@.subrange(0, chars@.len() as int) =~= chars@);
    a < b
}

} // verus!
