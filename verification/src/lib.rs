//! Verified core of a library that reads coding-agent session transcripts:
//! shell-command extraction, session summaries, selections over events and
//! the interpretation of tool inputs.

pub mod text;
pub mod agent;
pub mod bash;
pub mod bash_laws;
pub mod selection;
pub mod session;
pub mod summary_laws;
pub mod projection;
pub mod quoting;
pub mod error;
