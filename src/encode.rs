//! Exporting synthesised audio: which way a requested format is produced.
use vstd::prelude::*;
use crate::dictionary::{lower_of, lowercase};

verus! {

/// A request to export an audio file in some format.
#[derive(Debug, Clone, PartialEq, Eq)]
pub struct EncodeArgs {
    pub source_path: String,
    pub target_path: Option<String>,
    pub format: String,
}

/// The outcome of an export: the path written, or an error code and
/// message.
#[derive(Debug, Clone, PartialEq, Eq)]
pub enum EncodeResponse {
    Success { path: String },
    Error { code: String, message: String },
}

/// The format used when a request names none.
pub fn default_format() -> (r: String)
    ensures
        r@ == "mp3"@,
{
    String::from_str("mp3")
}

/// The format as the exporter reads it: lowercased.
pub fn normalized_format(format: &str) -> (r: String)
    ensures
        r@ == lower_of(format@),
{
    lowercase(format)
}

/// Whether a (lowercased) format is produced by ffmpeg; every other format
/// is a copy of the source.
pub fn needs_ffmpeg(format: &str) -> (r: bool)
    ensures
        r == (format@ == "mp3"@),
{
    proof {
        reveal_strlit("mp3");
    }
    let cs = crate::chars::chars_of(format);
    let r = crate::chars::range_eq_lit(&cs, 0, cs.len(), "mp3");
    assert(cs@.subrange(0, cs@.len() as int) =~= cs@);
    r
}

} // verus!
