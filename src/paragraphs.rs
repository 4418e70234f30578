//! Splits imported plain text into paragraphs.
use vstd::prelude::*;
use crate::chars::{chars_of, is_white_space, is_whitespace, string_of};

verus! {

/// Where a left-to-right reading of the text stands: the paragraphs
/// finished, the one being read, whether the current line has shown any
/// text yet, and whether whitespace has come since the last word.
pub struct ParagraphScan {
    pub done: Seq<Seq<char>>,
    pub current: Seq<char>,
    pub line_has_text: bool,
    pub gap: bool,
}

/// One character read: a line that ends without text closes the paragraph;
/// whitespace (line ends included) between words becomes one space.
pub open spec fn scan_step(st: ParagraphScan, c: char) -> ParagraphScan {
    if c == '\n' {
        if !st.line_has_text && st.current.len() > 0 {
            ParagraphScan { done: st.done.push(st.current), current: Seq::empty(), line_has_text: false, gap: true }
        } else {
            ParagraphScan { line_has_text: false, gap: true, ..st }
        }
    } else if is_white_space(c) {
        ParagraphScan { gap: true, ..st }
    } else {
        let cur = if st.gap && st.current.len() > 0 { st.current.push(' ') } else { st.current };
        ParagraphScan { current: cur.push(c), line_has_text: true, gap: false, ..st }
    }
}

/// The reading after all of `t`.
pub open spec fn scan(t: Seq<char>) -> ParagraphScan
    decreases t.len(),
{
    if t.len() == 0 {
        ParagraphScan { done: Seq::empty(), current: Seq::empty(), line_has_text: false, gap: false }
    } else {
        scan_step(scan(t.subrange(0, t.len() - 1)), t[t.len() - 1])
    }
}

/// The paragraphs of `t`: runs of lines with text, separated by blank
/// lines, each as its words joined by single spaces.
pub open spec fn paragraphs_of(t: Seq<char>) -> Seq<Seq<char>> {
    let st = scan(t);
    if st.current.len() > 0 {
        st.done.push(st.current)
    } else {
        st.done
    }
}

pub open spec fn views(v: Seq<String>) -> Seq<Seq<char>> {
    v.map_values(|s: String| s@)
}

/// Splits text into paragraphs at blank lines; each paragraph is its
/// words, joined by single spaces.
pub fn extract_paragraphs(text: &str) -> (r: Vec<String>)
    ensures
        views(r@) == paragraphs_of(text@),
{
    let t = chars_of(text);
    let mut paragraphs: Vec<String> = Vec::new();
    let mut current: Vec<char> = Vec::new();
    let mut line_has_text = false;
    let mut gap = false;
    let mut i: usize = 0;
    assert(views(paragraphs@) =~= Seq::<Seq<char>>::empty());
    assert(t@.subrange(0, 0) =~= Seq::<char>::empty());
    while i < t.len()
        invariant
            i <= t@.len(),
            t@ == text@,
            scan(t@.subrange(0, i as int)) == (ParagraphScan {
                done: views(paragraphs@),
                current: current@,
                line_has_text,
                gap,
            }),
        decreases t@.len() - i,
    {
        let c = t[i];
        let ghost before = views(paragraphs@);
        if c == '\n' {
            if !line_has_text && current.len() > 0 {
                let p = string_of(current.as_slice());
                paragraphs.push(p);
                current = Vec::new();
                assert(views(paragraphs@) =~= before.push(p@));
            }
            line_has_text = false;
            gap = true;
        } else if is_whitespace(c) {
            gap = true;
        } else {
            if gap && current.len() > 0 {
                current.push(' ');
            }
            current.push(c);
            line_has_text = true;
            gap = false;
        }
        assert(t@.subrange(0, i + 1).subrange(0, i as int) =~= t@.subrange(0, i as int));
        i = i + 1;
    }
    assert(t@.subrange(0, t@.len() as int) =~= t@);
    if current.len() > 0 {
        let ghost before = views(paragraphs@);
        let p = string_of(current.as_slice());
        paragraphs.push(p);
        assert(views(paragraphs@) =~= before.push(p@));
    }
    paragraphs
}

/// A request to import plain text.
#[derive(Debug, Clone, PartialEq, Eq)]
pub struct ImportTextRequest {
    pub text: String,
}

/// The paragraphs of the text of an import request.
pub fn import_text(request: ImportTextRequest) -> (r: Vec<String>)
    ensures
        views(r@) == paragraphs_of(request.text@),
{
    extract_paragraphs(request.text.as_str())
}

} // verus!
