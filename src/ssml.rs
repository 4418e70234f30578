//! Paragraph to speech markup: parse, infer sentence pauses, render.
use vstd::prelude::*;
use crate::markup::{markup_value, parse_markup};
use crate::render::{decimal, document, escape_seq, render_segments, render_span, render_spans};
use crate::segment::{spans_of, Segment, Span, SsmlError};
use crate::sentence::{expand_spans, insert_sentence_breaks, lemma_expand_all_shaped, well_shaped};

verus! {

/// The segments of a paragraph after both passes, or the malformed pause
/// descriptor.
pub open spec fn paragraph_segments(p: Seq<char>) -> Result<Seq<Span>, Seq<char>> {
    match markup_value(p) {
        Ok(v) => Ok(expand_spans(v)),
        Err(d) => Err(d),
    }
}

/// The speech markup of a paragraph, or the malformed pause descriptor.
pub open spec fn paragraph_markup(p: Seq<char>) -> Result<Seq<char>, Seq<char>> {
    match paragraph_segments(p) {
        Ok(v) => Ok(document(v)),
        Err(d) => Err(d),
    }
}

/// Break a paragraph into segments: its markup, with pauses inferred from
/// punctuation and emphasis split around them.
pub fn segment_paragraph(paragraph: &str) -> (r: Result<Vec<Segment>, SsmlError>)
    ensures
        match (r, paragraph_segments(paragraph@)) {
            (Ok(v), Ok(w)) => spans_of(v@) == w,
            (Err(SsmlError::InvalidPause(e)), Err(d)) => e@ == d,
            _ => false,
        },
{
    let parsed = parse_markup(paragraph)?;
    Ok(insert_sentence_breaks(parsed.as_slice()))
}

/// Convert a paragraph into speech markup.
pub fn render_paragraph(paragraph: &str) -> (r: Result<String, SsmlError>)
    ensures
        match (r, paragraph_markup(paragraph@)) {
            (Ok(s), Ok(m)) => s@ == m,
            (Err(SsmlError::InvalidPause(e)), Err(d)) => e@ == d,
            _ => false,
        },
{
    let segments = segment_paragraph(paragraph)?;
    Ok(render_segments(segments.as_slice()))
}

/// Convert a queue of paragraphs into speech markup, one document each;
/// the first malformed pause descriptor stops the conversion.
pub fn render_queue(queue: &[String]) -> (r: Result<Vec<String>, SsmlError>)
    ensures
        match r {
            Ok(v) => v@.len() == queue@.len() && forall|i: int|
                0 <= i < queue@.len() ==> paragraph_markup(#[trigger] queue@[i]@) == Ok::<
                    Seq<char>,
                    Seq<char>,
                >(v@[i]@),
            Err(SsmlError::InvalidPause(e)) => exists|i: int|
                0 <= i < queue@.len() && paragraph_markup(#[trigger] queue@[i]@) == Err::<
                    Seq<char>,
                    Seq<char>,
                >(e@) && forall|j: int| 0 <= j < i ==> paragraph_markup(#[trigger] queue@[j]@) is Ok,
        },
{
    let mut out: Vec<String> = Vec::new();
    let mut i: usize = 0;
    while i < queue.len()
        invariant
            i <= queue@.len(),
            out@.len() == i,
            forall|k: int|
                0 <= k < i ==> paragraph_markup(#[trigger] queue@[k]@) == Ok::<Seq<char>, Seq<char>>(
                    out@[k]@,
                ),
        decreases queue@.len() - i,
    {
        match render_paragraph(queue[i].as_str()) {
            Ok(s) => out.push(s),
            Err(e) => {
                assert(forall|j: int| 0 <= j < i ==> paragraph_markup(#[trigger] queue@[j]@) is Ok);
                return Err(e);
            },
        }
        i = i + 1;
    }
    Ok(out)
}

/// `s` is a pause or holds one at some depth.
pub open spec fn holds_break(s: Span) -> bool
    decreases s,
{
    match s {
        Span::Break(_) => true,
        Span::Text(_) => false,
        Span::Emphasis(_, ch) => exists|i: int| 0 <= i < ch.len() && holds_break(#[trigger] ch[i]),
    }
}

/// No emphasis element in the markup of `s`, at any depth, is empty.
pub open spec fn emphasis_never_empty(s: Span) -> bool
    decreases s,
{
    match s {
        Span::Emphasis(_, ch) => ch.len() > 0 ==> render_spans(ch).len() > 0 && forall|i: int|
            0 <= i < ch.len() ==> emphasis_never_empty(#[trigger] ch[i]),
        _ => true,
    }
}

proof fn lemma_escape_len(t: Seq<char>)
    ensures
        escape_seq(t).len() >= t.len(),
    decreases t.len(),
{
    if t.len() > 0 {
        lemma_escape_len(t.subrange(0, t.len() - 1));
    }
}

proof fn lemma_decimal_len(n: nat)
    ensures
        decimal(n).len() > 0,
    decreases n,
{
    if n >= 10 {
        lemma_decimal_len(n / 10);
    }
}

proof fn lemma_shaped_renders(s: Span)
    requires
        well_shaped(s),
    ensures
        render_span(s).len() > 0,
        emphasis_never_empty(s),
        !(s is Break) ==> !holds_break(s),
    decreases s,
{
    match s {
        Span::Text(t) => {
            lemma_escape_len(t);
        },
        Span::Break(p) => {
            lemma_decimal_len(p.duration_ms as nat);
        },
        Span::Emphasis(l, ch) => {
            assert forall|i: int| 0 <= i < ch.len() implies emphasis_never_empty(#[trigger] ch[i])
                && !holds_break(ch[i]) && render_span(ch[i]).len() > 0 by {
                lemma_shaped_renders(ch[i]);
            }
            let n = ch.len();
            assert(render_spans(ch) == render_spans(ch.subrange(0, n - 1)) + render_span(ch[n - 1]));
        },
    }
}

/// No emphasis element that rendering emits is empty: every emphasis span
/// of a paragraph's segments, at any depth, has markup inside it.
pub proof fn lemma_no_empty_emphasis(p: Seq<char>)
    requires
        paragraph_segments(p) is Ok,
    ensures
        forall|i: int|
            0 <= i < paragraph_segments(p)->Ok_0.len() ==> emphasis_never_empty(
                #[trigger] paragraph_segments(p)->Ok_0[i],
            ),
{
    let v = paragraph_segments(p)->Ok_0;
    lemma_expand_all_shaped(markup_value(p)->Ok_0);
    assert forall|i: int| 0 <= i < v.len() implies emphasis_never_empty(#[trigger] v[i]) by {
        lemma_shaped_renders(v[i]);
    }
}

/// No emphasis span of a paragraph's segments holds a pause at any depth:
/// pauses stand only between emphasis spans.
pub proof fn lemma_no_break_in_emphasis(p: Seq<char>)
    requires
        paragraph_segments(p) is Ok,
    ensures
        forall|i: int|
            0 <= i < paragraph_segments(p)->Ok_0.len() && (#[trigger] paragraph_segments(
                p,
            )->Ok_0[i]) is Emphasis ==> !holds_break(paragraph_segments(p)->Ok_0[i]),
{
    let v = paragraph_segments(p)->Ok_0;
    lemma_expand_all_shaped(markup_value(p)->Ok_0);
    assert forall|i: int| 0 <= i < v.len() && (#[trigger] v[i]) is Emphasis implies !holds_break(v[i]) by {
        lemma_shaped_renders(v[i]);
    }
}

} // verus!
