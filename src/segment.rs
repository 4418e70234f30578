//! The segment tree that paragraph markup is parsed into, and its
//! mathematical model.
use vstd::prelude::*;

verus! {

/// Represents an emphasis level supported by the speech markup.
#[derive(Debug, Clone, Copy, PartialEq, Eq, Structural)]
pub enum EmphasisLevel {
    Reduced,
    Moderate,
    Strong,
}

/// Distinguishes pauses inserted by the engine from explicit pauses in
/// the text.
#[derive(Debug, Clone, Copy, PartialEq, Eq, Structural)]
pub enum PauseKind {
    Explicit,
    Sentence,
}

/// A pause inserted either explicitly by the user or inferred from
/// punctuation while segmenting a paragraph.
#[derive(Debug, Clone, Copy, PartialEq, Eq, Structural)]
pub struct Pause {
    pub duration_ms: u32,
    pub kind: PauseKind,
}

impl Pause {
    pub fn explicit(duration_ms: u32) -> (r: Pause)
        ensures
            r == (Pause { duration_ms, kind: PauseKind::Explicit }),
    {
        Pause { duration_ms, kind: PauseKind::Explicit }
    }

    pub fn sentence(duration_ms: u32) -> (r: Pause)
        ensures
            r == (Pause { duration_ms, kind: PauseKind::Sentence }),
    {
        Pause { duration_ms, kind: PauseKind::Sentence }
    }
}

/// A segment produced during paragraph segmentation.
#[derive(Debug, PartialEq, Eq)]
pub enum Segment {
    Text(String),
    Break(Pause),
    Emphasis { level: EmphasisLevel, children: Vec<Segment> },
}

/// Errors produced while interpreting paragraph markup.
#[derive(Debug, Clone, PartialEq, Eq)]
pub enum SsmlError {
    /// A `pause` or `break` directive whose descriptor could not be read;
    /// carries the descriptor.
    InvalidPause(String),
}

impl SsmlError {
    /// The message shown for this error.
    pub fn message(&self) -> (r: String)
        ensures
            match self {
                SsmlError::InvalidPause(d) => r@ == "invalid pause directive: "@ + d@,
            },
    {
        match self {
            SsmlError::InvalidPause(d) => {
                let mut m = String::from_str("invalid pause directive: ");
                m.append(d.as_str());
                m
            },
        }
    }
}

/// The model of a segment: text as characters, children as a sequence.
pub enum Span {
    Text(Seq<char>),
    Break(Pause),
    Emphasis(EmphasisLevel, Seq<Span>),
}

/// The model of one segment.
pub open spec fn span_of(s: Segment) -> Span
    decreases s, 1nat,
{
    match s {
        Segment::Text(t) => Span::Text(t@),
        Segment::Break(p) => Span::Break(p),
        Segment::Emphasis { level, children } => Span::Emphasis(level, spans_of(children@)),
    }
}

/// The models of a sequence of segments, in order.
pub open spec fn spans_of(v: Seq<Segment>) -> Seq<Span>
    decreases v, 0nat,
{
    if v.len() == 0 {
        Seq::empty()
    } else {
        spans_of(v.subrange(0, v.len() - 1)).push(span_of(v[v.len() - 1]))
    }
}

pub proof fn lemma_spans_of_push(v: Seq<Segment>, s: Segment)
    ensures
        spans_of(v.push(s)) == spans_of(v).push(span_of(s)),
{
    assert(v.push(s).subrange(0, v.len() as int) =~= v);
}

pub proof fn lemma_spans_of_index(v: Seq<Segment>)
    ensures
        spans_of(v).len() == v.len(),
        forall|i: int| 0 <= i < v.len() ==> #[trigger] spans_of(v)[i] == span_of(v[i]),
    decreases v.len(),
{
    if v.len() > 0 {
        lemma_spans_of_index(v.subrange(0, v.len() - 1));
    }
}

pub proof fn lemma_spans_of_concat(a: Seq<Segment>, b: Seq<Segment>)
    ensures
        spans_of(a + b) == spans_of(a) + spans_of(b),
{
    lemma_spans_of_index(a);
    lemma_spans_of_index(b);
    lemma_spans_of_index(a + b);
    assert(spans_of(a + b) =~= spans_of(a) + spans_of(b));
}

} // verus!
