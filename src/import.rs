//! Documents that the outside importers (PDF, EPUB) hand back: their
//! sections, checked for content.
use vstd::prelude::*;
use std::path::PathBuf;
use crate::command::{opt_view, CommandError};

verus! {

pub const ERROR_SCRIPT_FAILED: &'static str = "SCRIPT_FAILED";

pub const ERROR_INVALID_JSON: &'static str = "INVALID_JSON";

pub const ERROR_INVALID_RESPONSE: &'static str = "INVALID_RESPONSE";

/// A request to import a PDF document.
#[derive(Debug)]
pub struct ImportPdfRequest {
    pub path: PathBuf,
}

/// A request to import an EPUB document.
#[derive(Debug)]
pub struct ImportEpubRequest {
    pub path: PathBuf,
}

/// A section as an importer reports it; its content may be missing.
#[derive(Debug, Clone, PartialEq, Eq)]
pub struct RawSection {
    pub id: Option<String>,
    pub heading: Option<String>,
    pub content: Option<String>,
}

/// A section of an imported document.
#[derive(Debug, Clone, PartialEq, Eq)]
pub struct DocumentSection {
    pub id: Option<String>,
    pub heading: Option<String>,
    pub content: String,
}

/// The sections of an imported document; every raw section must carry
/// its content, else the importer's answer is invalid.
pub fn sections_from(raw: Vec<RawSection>) -> (r: Result<Vec<DocumentSection>, CommandError>)
    ensures
        match r {
            Ok(v) => v@.len() == raw@.len() && forall|i: int|
                0 <= i < raw@.len() ==> {
                    &&& (#[trigger] raw@[i]).content == Some(v@[i].content)
                    &&& raw@[i].id == v@[i].id
                    &&& raw@[i].heading == v@[i].heading
                },
            Err(e) => (exists|i: int| 0 <= i < raw@.len() && (#[trigger] raw@[i]).content is None)
                && e.code@ == ERROR_INVALID_RESPONSE@
                && e.message@ == "Section is missing the content field"@
                && opt_view(e.details) == None::<Seq<char>>,
        },
{
    let ghost original = raw@;
    let mut rest = raw;
    let mut reversed: Vec<DocumentSection> = Vec::new();
    // sections are taken from the back, then put back in order
    while rest.len() > 0
        invariant
            rest@.len() + reversed@.len() == original.len(),
            rest@ == original.subrange(0, rest@.len() as int),
            original == raw@,
            forall|k: int|
                0 <= k < reversed@.len() ==> {
                    let j = original.len() - 1 - k;
                    &&& original[j].content == Some((#[trigger] reversed@[k]).content)
                    &&& original[j].id == reversed@[k].id
                    &&& original[j].heading == reversed@[k].heading
                },
        decreases rest@.len(),
    {
        let section = rest.pop().unwrap();
        let ghost at = rest@.len() as int;
        assert(section == original[at]);
        match section.content {
            Some(content) => {
                reversed.push(DocumentSection { id: section.id, heading: section.heading, content });
            },
            None => {
                assert(original[at].content is None);
                let e = CommandError::new(
                    ERROR_INVALID_RESPONSE,
                    String::from_str("Section is missing the content field"),
                    None,
                );
                assert(original[at] == raw@[at]);
                return Err(e);
            },
        }
        assert(rest@ =~= original.subrange(0, rest@.len() as int));
    }
    let mut sections: Vec<DocumentSection> = Vec::new();
    let n = reversed.len();
    while reversed.len() > 0
        invariant
            reversed@.len() + sections@.len() == n,
            n == original.len(),
            forall|k: int|
                0 <= k < reversed@.len() ==> {
                    let j = original.len() - 1 - k;
                    &&& original[j].content == Some((#[trigger] reversed@[k]).content)
                    &&& original[j].id == reversed@[k].id
                    &&& original[j].heading == reversed@[k].heading
                },
            forall|i: int|
                0 <= i < sections@.len() ==> {
                    &&& (#[trigger] original[i]).content == Some(sections@[i].content)
                    &&& original[i].id == sections@[i].id
                    &&& original[i].heading == sections@[i].heading
                },
        decreases reversed@.len(),
    {
        let s = reversed.pop().unwrap();
        sections.push(s);
    }
    Ok(sections)
}

} // verus!
