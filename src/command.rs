//! Errors that the synthesis commands report to the front end.
use vstd::prelude::*;
use crate::chars::push_char;
use crate::render::{decimal, push_decimal};

verus! {

pub const ERROR_VOICE_NOT_FOUND: &'static str = "VOICE_NOT_FOUND";

pub const ERROR_PROCESS_FAILED: &'static str = "PROCESS_FAILED";

pub const ERROR_IO: &'static str = "IO_ERROR";

pub const ERROR_INTERNAL: &'static str = "INTERNAL_ERROR";

/// A failure while preparing or running the synthesis backend. Paths and
/// operating-system errors are held as the text they display as.
#[derive(Debug, Clone, PartialEq, Eq)]
pub enum CommandFailure {
    VoiceNotFound(String),
    UnknownVoice(String),
    SpawnFailure(String),
    PiperFailure { status: i32, stderr: String },
    Other(String),
}

/// An error as the front end receives it: a stable code, a message, and
/// optional details.
#[derive(Debug, Clone, PartialEq, Eq)]
pub struct CommandError {
    pub code: String,
    pub message: String,
    pub details: Option<String>,
}

pub open spec fn opt_view(o: Option<String>) -> Option<Seq<char>> {
    match o {
        Some(s) => Some(s@),
        None => None,
    }
}

/// The decimal form of a signed integer.
pub open spec fn signed_decimal(n: int) -> Seq<char> {
    if n < 0 {
        seq!['-'] + decimal((-n) as nat)
    } else {
        decimal(n as nat)
    }
}

/// The code, message and details that a failure is reported with.
pub open spec fn failure_report(f: CommandFailure) -> (Seq<char>, Seq<char>, Option<Seq<char>>) {
    match f {
        CommandFailure::VoiceNotFound(path) => (
            ERROR_VOICE_NOT_FOUND@,
            "Voice model not found: "@ + path@,
            None,
        ),
        CommandFailure::UnknownVoice(id) => (
            ERROR_VOICE_NOT_FOUND@,
            "Voice '"@ + id@ + "' is not available"@,
            None,
        ),
        CommandFailure::SpawnFailure(err) => (ERROR_IO@, "Failed to launch Piper"@, Some(err@)),
        CommandFailure::PiperFailure { status, stderr } => (
            ERROR_PROCESS_FAILED@,
            "Piper exited with status "@ + signed_decimal(status as int),
            if stderr@.len() == 0 { None } else { Some(stderr@) },
        ),
        CommandFailure::Other(message) => (ERROR_INTERNAL@, message@, None),
    }
}

impl CommandError {
    pub fn new(code: &str, message: String, details: Option<String>) -> (r: Self)
        ensures
            r.code@ == code@,
            r.message == message,
            r.details == details,
    {
        CommandError { code: String::from_str(code), message, details }
    }

    /// The error that reports `value`.
    pub fn from_failure(value: CommandFailure) -> (r: Self)
        ensures
            (r.code@, r.message@, opt_view(r.details)) == failure_report(value),
    {
        match value {
            CommandFailure::VoiceNotFound(path) => {
                let mut m = String::from_str("Voice model not found: ");
                m.append(path.as_str());
                CommandError::new(ERROR_VOICE_NOT_FOUND, m, None)
            },
            CommandFailure::UnknownVoice(id) => {
                let mut m = String::from_str("Voice '");
                m.append(id.as_str());
                m.append("' is not available");
                CommandError::new(ERROR_VOICE_NOT_FOUND, m, None)
            },
            CommandFailure::SpawnFailure(err) => {
                CommandError::new(ERROR_IO, String::from_str("Failed to launch Piper"), Some(err))
            },
            CommandFailure::PiperFailure { status, stderr } => {
                let mut m = String::from_str("Piper exited with status ");
                if status < 0 {
                    push_char(&mut m, '-');
                    let magnitude = (0i64 - status as i64) as u32;
                    push_decimal(&mut m, magnitude);
                } else {
                    push_decimal(&mut m, status as u32);
                }
                let details = if stderr.as_str().is_empty() {
                    None
                } else {
                    Some(stderr)
                };
                CommandError::new(ERROR_PROCESS_FAILED, m, details)
            },
            CommandFailure::Other(message) => CommandError::new(ERROR_INTERNAL, message, None),
        }
    }
}

} // verus!
