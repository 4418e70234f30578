//! The second pass: splits text at sentence and clause punctuation,
//! inserting inferred pauses, and re-shapes emphasis spans around them.
use vstd::prelude::*;
use crate::chars::{chars_of, is_white_space, is_whitespace, string_of_range, trim, trim_bounds};
use crate::segment::{
    lemma_spans_of_concat, lemma_spans_of_index, lemma_spans_of_push, span_of, spans_of, EmphasisLevel, Pause, PauseKind,
    Segment, Span,
};

verus! {

pub open spec fn sentence(ms: u32) -> Pause {
    Pause { duration_ms: ms, kind: PauseKind::Sentence }
}

/// Position `j` of `t` is past the end or holds whitespace.
pub open spec fn gap_at(t: Seq<char>, j: int) -> bool {
    j >= t.len() || is_white_space(t[j])
}

/// The pause that punctuation at position `i` of `t` calls for, with the
/// number of characters that the punctuation takes after the first.
pub open spec fn boundary(t: Seq<char>, i: int) -> Option<(u32, nat)>
    recommends
        0 <= i < t.len(),
{
    let c = t[i];
    if c == '.' {
        if i + 2 < t.len() && t[i + 1] == '.' && t[i + 2] == '.' {
            Some((720u32, 2nat))
        } else if gap_at(t, i + 1) {
            Some((420u32, 0nat))
        } else {
            None
        }
    } else if c == '!' || c == '?' {
        if gap_at(t, i + 1) {
            Some((520u32, 0nat))
        } else {
            None
        }
    } else if c == '…' {
        Some((720u32, 0nat))
    } else if c == ',' {
        if gap_at(t, i + 1) {
            Some((240u32, 0nat))
        } else {
            None
        }
    } else if c == ';' || c == ':' {
        if gap_at(t, i + 1) {
            Some((360u32, 0nat))
        } else {
            None
        }
    } else {
        None
    }
}

/// How many whitespace characters follow position `j` of `t` (from `j` on).
pub open spec fn white_run(t: Seq<char>, j: int) -> nat
    decreases t.len() - j,
{
    if 0 <= j < t.len() && is_white_space(t[j]) {
        1 + white_run(t, j + 1)
    } else {
        0
    }
}

/// The text segment for a piece of text: trimmed, absent when blank.
pub open spec fn text_piece(s: Seq<char>) -> Seq<Span> {
    if trim(s).len() == 0 {
        Seq::empty()
    } else {
        seq![Span::Text(trim(s))]
    }
}

/// The segments for `t` scanned from position `i`, the text since `last`
/// not yet emitted.
pub open spec fn split_from(t: Seq<char>, i: int, last: int) -> Seq<Span>
    decreases if i < t.len() { t.len() - i } else { 0 },
{
    if i >= t.len() || i < 0 {
        text_piece(t.subrange(last, t.len() as int))
    } else {
        match boundary(t, i) {
            Some((ms, k)) => {
                let end = i + 1 + k;
                let next = end + white_run(t, end);
                text_piece(t.subrange(last, end)) + seq![Span::Break(sentence(ms))] + split_from(
                    t,
                    next,
                    next,
                )
            },
            None => split_from(t, i + 1, last),
        }
    }
}

/// A text run split at its sentence and clause boundaries.
pub open spec fn split_text(t: Seq<char>) -> Seq<Span> {
    split_from(t, 0, 0)
}

/// The spans collected in `buf`, as one emphasis span, if any.
pub open spec fn close_group(l: EmphasisLevel, buf: Seq<Span>) -> Seq<Span> {
    if buf.len() == 0 {
        Seq::empty()
    } else {
        seq![Span::Emphasis(l, buf)]
    }
}

/// `xs` with each run of spans that are no pause wrapped in one emphasis
/// span at level `l`, the pauses standing between them; `buf` is the run
/// collected so far.
pub open spec fn regroup(l: EmphasisLevel, xs: Seq<Span>, buf: Seq<Span>) -> Seq<Span>
    decreases xs.len(),
{
    if xs.len() == 0 {
        close_group(l, buf)
    } else if xs[0] is Break {
        close_group(l, buf) + seq![xs[0]] + regroup(l, xs.subrange(1, xs.len() as int), Seq::empty())
    } else {
        regroup(l, xs.subrange(1, xs.len() as int), buf.push(xs[0]))
    }
}

/// One span after the sentence pass.
pub open spec fn expand_span(s: Span) -> Seq<Span>
    decreases s, 1nat,
{
    match s {
        Span::Text(t) => split_text(t),
        Span::Break(p) => seq![Span::Break(p)],
        Span::Emphasis(l, ch) => regroup(l, expand_spans(ch), Seq::empty()),
    }
}

/// A sequence of spans after the sentence pass, concatenated in order.
pub open spec fn expand_spans(v: Seq<Span>) -> Seq<Span>
    decreases v, 0nat,
{
    if v.len() == 0 {
        Seq::empty()
    } else {
        expand_spans(v.subrange(0, v.len() - 1)) + expand_span(v[v.len() - 1])
    }
}

/// Whether the character after position `next_index - 1` is whitespace or
/// there is none.
fn next_is_whitespace_or_end(text: &Vec<char>, next_index: usize) -> (r: bool)
    ensures
        r == gap_at(text@, next_index as int),
{
    if next_index >= text.len() {
        return true;
    }
    is_whitespace(text[next_index])
}

/// The pause that punctuation at `idx` calls for, with the number of
/// characters it takes.
fn sentence_boundary(text: &Vec<char>, idx: usize) -> (r: Option<(Pause, usize)>)
    requires
        idx < text@.len(),
    ensures
        match (r, boundary(text@, idx as int)) {
            (Some((p, k)), Some((ms, n))) => p == sentence(ms) && k == n + 1,
            (None, None) => true,
            _ => false,
        },
{
    let len = text.len();
    let ch = text[idx];
    if ch == '.' {
        if len - idx > 2 && text[idx + 1] == '.' && text[idx + 2] == '.' {
            Some((Pause::sentence(720), 3))
        } else if next_is_whitespace_or_end(text, idx + 1) {
            Some((Pause::sentence(420), 1))
        } else {
            None
        }
    } else if ch == '!' || ch == '?' {
        if next_is_whitespace_or_end(text, idx + 1) {
            Some((Pause::sentence(520), 1))
        } else {
            None
        }
    } else if ch == '…' {
        Some((Pause::sentence(720), 1))
    } else if ch == ',' {
        if next_is_whitespace_or_end(text, idx + 1) {
            Some((Pause::sentence(240), 1))
        } else {
            None
        }
    } else if ch == ';' || ch == ':' {
        if next_is_whitespace_or_end(text, idx + 1) {
            Some((Pause::sentence(360), 1))
        } else {
            None
        }
    } else {
        None
    }
}

/// The index of the first character at or after `from` that is no
/// whitespace.
fn skip_whitespace(text: &Vec<char>, from: usize) -> (r: usize)
    requires
        from <= text@.len(),
    ensures
        r == from + white_run(text@, from as int),
        r <= text@.len(),
    decreases text@.len() - from,
{
    if from < text.len() && is_whitespace(text[from]) {
        skip_whitespace(text, from + 1)
    } else {
        from
    }
}

/// The text segment for `text[from..to]`: trimmed, `None` when blank.
fn make_text_segment(text: &Vec<char>, from: usize, to: usize) -> (r: Option<Segment>)
    requires
        from <= to <= text@.len(),
    ensures
        match r {
            Some(s) => seq![span_of(s)] == text_piece(text@.subrange(from as int, to as int)),
            None => text_piece(text@.subrange(from as int, to as int)) == Seq::<Span>::empty(),
        },
{
    let (a, b) = trim_bounds(text, from, to);
    if a == b {
        None
    } else {
        Some(Segment::Text(string_of_range(text, a, b)))
    }
}

/// Appends `s` to `out`, keeping track of the models.
fn push_tracked(out: &mut Vec<Segment>, s: Segment)
    ensures
        spans_of(final(out)@) == spans_of(old(out)@) + seq![span_of(s)],
{
    proof {
        lemma_spans_of_push(out@, s);
    }
    out.push(s);
    assert(spans_of(old(out)@).push(span_of(s)) =~= spans_of(old(out)@) + seq![span_of(s)]);
}

/// Splits a text run at its sentence and clause boundaries.
pub fn split_text_with_breaks(text: &str) -> (r: Vec<Segment>)
    ensures
        spans_of(r@) == split_text(text@),
{
    let t = chars_of(text);
    let mut result: Vec<Segment> = Vec::new();
    let mut last: usize = 0;
    let mut i: usize = 0;
    while i < t.len()
        invariant
            last <= i <= t@.len(),
            t@ == text@,
            spans_of(result@) + split_from(t@, i as int, last as int) == split_text(t@),
        decreases t@.len() - i,
    {
        let ghost before = spans_of(result@);
        let ghost prev_last = last;
        match sentence_boundary(&t, i) {
            Some((pause, consumed)) => {
                let end = i + consumed;
                let piece = make_text_segment(&t, last, end);
                match piece {
                    Some(segment) => push_tracked(&mut result, segment),
                    None => {},
                }
                let ghost mid = spans_of(result@);
                assert(mid =~= before + text_piece(t@.subrange(prev_last as int, end as int)));
                push_tracked(&mut result, Segment::Break(pause));
                last = skip_whitespace(&t, end);
                assert(spans_of(result@) =~= before + text_piece(t@.subrange(prev_last as int, end as int)) + seq![Span::Break(pause)]);
                i = last;
            },
            None => {
                i = i + 1;
            },
        }
    }
    assert(split_from(t@, i as int, last as int) == text_piece(t@.subrange(last as int, t@.len() as int)));
    match make_text_segment(&t, last, t.len()) {
        Some(segment) => push_tracked(&mut result, segment),
        None => {},
    }
    assert(spans_of(result@) =~= split_text(t@));
    result
}

proof fn lemma_expand_spans_push(v: Seq<Span>, s: Span)
    ensures
        expand_spans(v.push(s)) == expand_spans(v) + expand_span(s),
{
    assert(v.push(s).subrange(0, v.len() as int) =~= v);
}

/// Wraps each run of segments that are no pause in one emphasis segment at
/// `level`, the pauses standing between them.
fn regroup_emphasis(level: EmphasisLevel, items: Vec<Segment>) -> (r: Vec<Segment>)
    ensures
        spans_of(r@) == regroup(level, spans_of(items@), Seq::empty()),
{
    let ghost xs = items@;
    let ghost n = xs.len();
    let mut items = items;
    let mut rev: Vec<Segment> = Vec::new();
    while items.len() > 0
        invariant
            items@ == xs.subrange(0, items@.len() as int),
            rev@.len() + items@.len() == n,
            n == xs.len(),
            forall|k: int| 0 <= k < rev@.len() ==> #[trigger] rev@[k] == xs[n - 1 - k],
        decreases items@.len(),
    {
        match items.pop() {
            Some(x) => rev.push(x),
            None => {},
        }
        assert(items@ =~= xs.subrange(0, items@.len() as int));
    }
    proof {
        lemma_spans_of_index(xs);
        assert(spans_of(xs).subrange(0, n as int) =~= spans_of(xs));
    }
    let mut result: Vec<Segment> = Vec::new();
    let mut buffer: Vec<Segment> = Vec::new();
    loop
        invariant
            rev@.len() <= n,
            n == xs.len(),
            spans_of(xs).len() == n,
            forall|k: int| 0 <= k < n ==> #[trigger] spans_of(xs)[k] == span_of(xs[k]),
            forall|k: int| 0 <= k < rev@.len() ==> #[trigger] rev@[k] == xs[n - 1 - k],
            spans_of(result@) + regroup(level, spans_of(xs).subrange(n - rev@.len(), n as int), spans_of(buffer@))
                == regroup(level, spans_of(xs), Seq::empty()),
        ensures
            spans_of(result@) + close_group(level, spans_of(buffer@)) == regroup(level, spans_of(xs), Seq::empty()),
        decreases rev@.len(),
    {
        let ghost j = n - rev@.len();
        let ghost rest = spans_of(xs).subrange(j, n as int);
        let item = match rev.pop() {
            Some(x) => x,
            None => {
                assert(rest =~= Seq::<Span>::empty());
                break;
            },
        };
        assert(item == xs[j]);
        assert(rest[0] == span_of(item));
        assert(rest.subrange(1, rest.len() as int) =~= spans_of(xs).subrange(j + 1, n as int));
        match item {
            Segment::Break(pause) => {
                let ghost res0 = spans_of(result@);
                let ghost buf0 = spans_of(buffer@);
                if buffer.len() > 0 {
                    let group = Segment::Emphasis { level, children: buffer };
                    push_tracked(&mut result, group);
                    buffer = Vec::new();
                }
                assert(spans_of(result@) =~= res0 + close_group(level, buf0));
                push_tracked(&mut result, Segment::Break(pause));
                assert(spans_of(buffer@) =~= Seq::<Span>::empty());
                assert(spans_of(result@) =~= res0 + close_group(level, buf0) + seq![rest[0]]);
            },
            other => {
                proof {
                    lemma_spans_of_push(buffer@, other);
                }
                buffer.push(other);
            },
        }
    }
    let ghost res0 = spans_of(result@);
    let ghost buf0 = spans_of(buffer@);
    if buffer.len() > 0 {
        let group = Segment::Emphasis { level, children: buffer };
        push_tracked(&mut result, group);
    }
    assert(spans_of(result@) =~= res0 + close_group(level, buf0));
    result
}

/// One segment after the sentence pass.
fn expand_segment(segment: &Segment) -> (r: Vec<Segment>)
    ensures
        spans_of(r@) == expand_span(span_of(*segment)),
    decreases segment, 1nat,
{
    match segment {
        Segment::Text(text) => split_text_with_breaks(text.as_str()),
        Segment::Break(pause) => {
            let mut v: Vec<Segment> = Vec::new();
            push_tracked(&mut v, Segment::Break(*pause));
            v
        },
        Segment::Emphasis { level, children } => {
            assert(decreases_to!(segment => children@));
            let expanded = insert_sentence_breaks(children.as_slice());
            regroup_emphasis(*level, expanded)
        },
    }
}

/// The sentence pass over a sequence of segments.
pub fn insert_sentence_breaks(segments: &[Segment]) -> (r: Vec<Segment>)
    ensures
        spans_of(r@) == expand_spans(spans_of(segments@)),
    decreases segments@, 0nat,
{
    let mut output: Vec<Segment> = Vec::new();
    let mut i: usize = 0;
    while i < segments.len()
        invariant
            i <= segments@.len(),
            spans_of(output@) == expand_spans(spans_of(segments@.subrange(0, i as int))),
        decreases segments@.len() - i,
    {
        assert(decreases_to!(segments@ => segments@[i as int]));
        let mut part = expand_segment(&segments[i]);
        let ghost out0 = output@;
        let ghost part0 = part@;
        output.append(&mut part);
        proof {
            lemma_spans_of_concat(out0, part0);
            let pre = segments@.subrange(0, i as int);
            assert(segments@.subrange(0, i + 1) =~= pre.push(segments@[i as int]));
            lemma_spans_of_push(pre, segments@[i as int]);
            lemma_expand_spans_push(spans_of(pre), span_of(segments@[i as int]));
        }
        i = i + 1;
    }
    assert(segments@.subrange(0, segments@.len() as int) =~= segments@);
    output
}

/// A span as the sentence pass leaves it: text is not empty; emphasis has
/// at least one child, none of them a pause, each well shaped in turn.
pub open spec fn well_shaped(s: Span) -> bool
    decreases s,
{
    match s {
        Span::Text(t) => t.len() > 0,
        Span::Break(_) => true,
        Span::Emphasis(_, ch) => ch.len() > 0 && forall|i: int|
            0 <= i < ch.len() ==> !(#[trigger] ch[i] is Break) && well_shaped(ch[i]),
    }
}

/// Every span of `v` is well shaped.
pub open spec fn all_shaped(v: Seq<Span>) -> bool {
    forall|i: int| 0 <= i < v.len() ==> well_shaped(#[trigger] v[i])
}

proof fn lemma_all_shaped_concat(a: Seq<Span>, b: Seq<Span>)
    requires
        all_shaped(a),
        all_shaped(b),
    ensures
        all_shaped(a + b),
{
    assert forall|i: int| 0 <= i < (a + b).len() implies well_shaped(#[trigger] (a + b)[i]) by {
        if i < a.len() {
            assert((a + b)[i] == a[i]);
        } else {
            assert((a + b)[i] == b[i - a.len()]);
        }
    }
}

proof fn lemma_split_shaped(t: Seq<char>, i: int, last: int)
    requires
        0 <= last <= t.len(),
        last <= i || i >= t.len(),
    ensures
        all_shaped(split_from(t, i, last)),
    decreases if i < t.len() { t.len() - i } else { 0 },
{
    if i >= t.len() || i < 0 {
    } else {
        match boundary(t, i) {
            Some((ms, k)) => {
                let end = i + 1 + k;
                let next = end + white_run(t, end);
                lemma_white_run_bound(t, end);
                lemma_split_shaped(t, next, next);
                let a = text_piece(t.subrange(last, end));
                let b: Seq<Span> = seq![Span::Break(sentence(ms))];
                assert(all_shaped(a));
                assert(all_shaped(b));
                lemma_all_shaped_concat(a, b);
                lemma_all_shaped_concat(a + b, split_from(t, next, next));
            },
            None => {
                lemma_split_shaped(t, i + 1, last);
            },
        }
    }
}

proof fn lemma_white_run_bound(t: Seq<char>, j: int)
    ensures
        0 <= j <= t.len() ==> j + white_run(t, j) <= t.len(),
    decreases t.len() - j,
{
    if 0 <= j < t.len() && is_white_space(t[j]) {
        lemma_white_run_bound(t, j + 1);
    }
}

proof fn lemma_regroup_shaped(l: EmphasisLevel, xs: Seq<Span>, buf: Seq<Span>)
    requires
        all_shaped(xs),
        forall|i: int| 0 <= i < buf.len() ==> !(#[trigger] buf[i] is Break) && well_shaped(buf[i]),
    ensures
        all_shaped(regroup(l, xs, buf)),
    decreases xs.len(),
{
    let g = close_group(l, buf);
    assert(all_shaped(g));
    if xs.len() == 0 {
    } else {
        let rest = xs.subrange(1, xs.len() as int);
        assert(all_shaped(rest)) by {
            assert forall|i: int| 0 <= i < rest.len() implies well_shaped(#[trigger] rest[i]) by {
                assert(rest[i] == xs[i + 1]);
            }
        }
        assert(well_shaped(xs[0]));
        if xs[0] is Break {
            lemma_regroup_shaped(l, rest, Seq::empty());
            lemma_all_shaped_concat(g, seq![xs[0]]);
            lemma_all_shaped_concat(g + seq![xs[0]], regroup(l, rest, Seq::empty()));
        } else {
            let b2 = buf.push(xs[0]);
            assert forall|i: int| 0 <= i < b2.len() implies !(#[trigger] b2[i] is Break) && well_shaped(b2[i]) by {
                if i < buf.len() {
                    assert(b2[i] == buf[i]);
                }
            }
            lemma_regroup_shaped(l, rest, b2);
        }
    }
}

/// The sentence pass leaves every span well shaped.
pub proof fn lemma_expand_shaped(s: Span)
    ensures
        all_shaped(expand_span(s)),
    decreases s, 1nat,
{
    match s {
        Span::Text(t) => {
            lemma_split_shaped(t, 0, 0);
        },
        Span::Break(p) => {
            assert(all_shaped(seq![Span::Break(p)]));
        },
        Span::Emphasis(l, ch) => {
            lemma_expand_all_shaped(ch);
            lemma_regroup_shaped(l, expand_spans(ch), Seq::empty());
        },
    }
}

/// The sentence pass leaves every span of a sequence well shaped.
pub proof fn lemma_expand_all_shaped(v: Seq<Span>)
    ensures
        all_shaped(expand_spans(v)),
    decreases v, 0nat,
{
    if v.len() > 0 {
        let v0 = v.subrange(0, v.len() - 1);
        lemma_expand_all_shaped(v0);
        lemma_expand_shaped(v[v.len() - 1]);
        lemma_all_shaped_concat(expand_spans(v0), expand_span(v[v.len() - 1]));
    }
}

} // verus!
