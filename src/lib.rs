//! A reader's text pipeline: paragraph markup turned into speech-synthesis
//! markup (parsing, sentence pauses, escaped rendering), with the text
//! import, pronunciation dictionary, lexicon and voice catalogue around it.
pub mod backend;
pub mod chars;
pub mod command;
pub mod dictionary;
pub mod directive;
pub mod encode;
pub mod import;
pub mod lexicon;
pub mod markup;
pub mod paragraphs;
pub mod render;
pub mod segment;
pub mod sentence;
pub mod ssml;
pub mod voices;

pub use backend::split_command;
pub use command::{CommandError, CommandFailure};
pub use dictionary::{DictionaryEntry, PhoneticDictionary};
pub use markup::parse_markup;
pub use paragraphs::{extract_paragraphs, import_text, ImportTextRequest};
pub use render::{escape_text, render_segments};
pub use segment::{EmphasisLevel, Pause, PauseKind, Segment, SsmlError};
pub use sentence::{insert_sentence_breaks, split_text_with_breaks};
pub use ssml::{render_paragraph, render_queue, segment_paragraph};
