//! The first pass: turns paragraph markup (escapes, bracketed directives,
//! asterisk emphasis) into a segment tree.
use vstd::prelude::*;
use crate::chars::{chars_of, string_of, sub_vec, trim, trim_bounds};
use crate::directive::{directive_value, parse_directive};
use crate::segment::{
    lemma_spans_of_index, lemma_spans_of_push, span_of, spans_of, EmphasisLevel, Segment, Span,
    SsmlError,
};

verus! {

/// The parser's state: the finished root segments, the open emphasis
/// frames (innermost last) with what each has collected, and the pending
/// text.
pub struct ParseState {
    pub root: Seq<Span>,
    pub frames: Seq<(EmphasisLevel, Seq<Span>)>,
    pub buffer: Seq<char>,
}

/// A segment that is never kept: blank text, or emphasis with nothing in it.
pub open spec fn dropped(s: Span) -> bool {
    match s {
        Span::Text(t) => trim(t).len() == 0,
        Span::Emphasis(_, ch) => ch.len() == 0,
        Span::Break(_) => false,
    }
}

/// `s` added to the innermost open frame, or to the root when none is open.
pub open spec fn push_span(st: ParseState, s: Span) -> ParseState {
    if dropped(s) {
        st
    } else if st.frames.len() > 0 {
        let last = st.frames.len() - 1;
        ParseState {
            frames: st.frames.update(last, (st.frames[last].0, st.frames[last].1.push(s))),
            ..st
        }
    } else {
        ParseState { root: st.root.push(s), ..st }
    }
}

/// The pending text, if any, turned into a text segment.
pub open spec fn flush(st: ParseState) -> ParseState {
    if st.buffer.len() == 0 {
        st
    } else {
        push_span(ParseState { buffer: Seq::empty(), ..st }, Span::Text(st.buffer))
    }
}

/// An emphasis marker at level `l`: closes the innermost frame when it has
/// that level, else opens a new one.
pub open spec fn toggle(st: ParseState, l: EmphasisLevel) -> ParseState {
    if st.frames.len() > 0 && st.frames.last().0 == l {
        push_span(
            ParseState { frames: st.frames.drop_last(), ..st },
            Span::Emphasis(l, st.frames.last().1),
        )
    } else {
        ParseState { frames: st.frames.push((l, Seq::empty())), ..st }
    }
}

/// The text that opens emphasis at level `l`.
pub open spec fn marker(l: EmphasisLevel) -> Seq<char> {
    match l {
        EmphasisLevel::Moderate => seq!['*'],
        EmphasisLevel::Strong => seq!['*', '*'],
        EmphasisLevel::Reduced => Seq::empty(),
    }
}

/// Closes the frames still open at the end, innermost first: one with
/// content becomes an emphasis segment, one without gives back its marker
/// as text.
pub open spec fn close_open(st: ParseState) -> ParseState
    decreases st.frames.len(),
{
    if st.frames.len() == 0 {
        st
    } else {
        let f = st.frames.last();
        let rest = ParseState { frames: st.frames.drop_last(), ..st };
        if f.1.len() > 0 {
            close_open(push_span(rest, Span::Emphasis(f.0, f.1)))
        } else {
            close_open(ParseState { buffer: rest.buffer + marker(f.0), ..rest })
        }
    }
}

/// The root segments once the input has ended.
pub open spec fn finish(st: ParseState) -> Seq<Span> {
    flush(close_open(flush(st))).root
}

/// How many characters from position `j` of `s` come before the next `]`,
/// if there is one.
pub open spec fn close_offset(s: Seq<char>, j: int) -> Option<nat>
    decreases if j < s.len() { s.len() - j } else { 0 },
{
    if j < 0 || j >= s.len() {
        None
    } else if s[j] == ']' {
        Some(0nat)
    } else {
        match close_offset(s, j + 1) {
            Some(n) => Some(n + 1),
            None => None,
        }
    }
}

/// The root segments for `s` read from position `i` in state `st`, or the
/// malformed pause descriptor that stops the reading.
pub open spec fn parse_from(s: Seq<char>, i: int, st: ParseState) -> Result<Seq<Span>, Seq<char>>
    decreases if 0 <= i < s.len() { s.len() - i } else { 0 },
{
    if i < 0 || i >= s.len() {
        Ok(finish(st))
    } else {
        let c = s[i];
        if c == '\\' {
            if i + 1 < s.len() {
                parse_from(s, i + 2, ParseState { buffer: st.buffer.push(s[i + 1]), ..st })
            } else {
                parse_from(s, i + 1, st)
            }
        } else if c == '[' {
            let f = flush(st);
            match close_offset(s, i + 1) {
                None => parse_from(
                    s,
                    s.len() as int,
                    ParseState {
                        buffer: f.buffer + seq!['['] + s.subrange(i + 1, s.len() as int),
                        ..f
                    },
                ),
                Some(n) => {
                    let k = i + 1 + n;
                    match directive_value(s.subrange(i + 1, k)) {
                        Err(d) => Err(d),
                        Ok(Some(p)) => parse_from(s, k + 1, push_span(f, Span::Break(p))),
                        Ok(None) => parse_from(
                            s,
                            k + 1,
                            ParseState {
                                buffer: f.buffer + seq!['['] + s.subrange(i + 1, k) + seq![']'],
                                ..f
                            },
                        ),
                    }
                },
            }
        } else if c == '*' {
            let double = i + 1 < s.len() && s[i + 1] == '*';
            let l = if double { EmphasisLevel::Strong } else { EmphasisLevel::Moderate };
            parse_from(s, if double { i + 2 } else { i + 1 }, toggle(flush(st), l))
        } else {
            parse_from(s, i + 1, ParseState { buffer: st.buffer.push(c), ..st })
        }
    }
}

/// The segment tree of a paragraph, or the malformed pause descriptor.
pub open spec fn markup_value(s: Seq<char>) -> Result<Seq<Span>, Seq<char>> {
    parse_from(s, 0, ParseState { root: Seq::empty(), frames: Seq::empty(), buffer: Seq::empty() })
}

/// An open emphasis span and the segments it has collected.
struct Frame {
    level: EmphasisLevel,
    segments: Vec<Segment>,
}

spec fn frames_model(fs: Seq<Frame>) -> Seq<(EmphasisLevel, Seq<Span>)> {
    Seq::new(fs.len(), |i: int| (fs[i].level, spans_of(fs[i].segments@)))
}

spec fn state_of(root: Seq<Segment>, frames: Seq<Frame>, buffer: Seq<char>) -> ParseState {
    ParseState { root: spans_of(root), frames: frames_model(frames), buffer }
}

impl Frame {
    fn opening_marker(&self) -> (r: &'static str)
        ensures
            r@ == marker(self.level),
    {
        proof {
            reveal_strlit("*");
            reveal_strlit("**");
            reveal_strlit("");
        }
        match self.level {
            EmphasisLevel::Moderate => "*",
            EmphasisLevel::Strong => "**",
            EmphasisLevel::Reduced => "",
        }
    }
}

/// Whether `segment` is never kept.
fn is_empty(segment: &Segment) -> (r: bool)
    ensures
        r == dropped(span_of(*segment)),
{
    match segment {
        Segment::Text(text) => {
            let cs = chars_of(text.as_str());
            let (a, b) = trim_bounds(&cs, 0, cs.len());
            assert(cs@.subrange(0, cs@.len() as int) =~= cs@);
            a == b
        },
        Segment::Break(_) => false,
        Segment::Emphasis { children, .. } => {
            proof {
                lemma_spans_of_index(children@);
            }
            children.len() == 0
        },
    }
}

/// Adds `segment` to the innermost open frame, or to the root.
fn push_segment(segment: Segment, frames: &mut Vec<Frame>, root: &mut Vec<Segment>)
    ensures
        forall|b: Seq<char>|
            #[trigger] state_of(final(root)@, final(frames)@, b) == push_span(
                state_of(old(root)@, old(frames)@, b),
                span_of(segment),
            ),
{
    if is_empty(&segment) {
        return;
    }
    let ghost s = span_of(segment);
    let n = frames.len();
    if n > 0 {
        let mut frame = match frames.pop() {
            Some(f) => f,
            None => return,
        };
        proof {
            lemma_spans_of_push(frame.segments@, segment);
        }
        frame.segments.push(segment);
        frames.push(frame);
        assert(frames_model(frames@) =~= frames_model(old(frames)@).update(
            n - 1,
            (frames_model(old(frames)@)[n - 1].0, frames_model(old(frames)@)[n - 1].1.push(s)),
        ));
    } else {
        proof {
            lemma_spans_of_push(root@, segment);
        }
        root.push(segment);
    }
}

/// Turns the pending text, if any, into a text segment.
fn flush_buffer(buffer: &mut Vec<char>, frames: &mut Vec<Frame>, root: &mut Vec<Segment>)
    ensures
        state_of(final(root)@, final(frames)@, final(buffer)@) == flush(
            state_of(old(root)@, old(frames)@, old(buffer)@),
        ),
{
    if buffer.len() > 0 {
        let text = string_of(buffer.as_slice());
        buffer.clear();
        push_segment(Segment::Text(text), frames, root);
        assert(state_of(root@, frames@, buffer@) == push_span(
            state_of(old(root)@, old(frames)@, buffer@),
            span_of(Segment::Text(text)),
        ));
        assert(buffer@ =~= Seq::<char>::empty());
    }
}

/// Closes the innermost frame when it has `level`, else opens one.
fn toggle_emphasis(level: EmphasisLevel, frames: &mut Vec<Frame>, root: &mut Vec<Segment>)
    ensures
        forall|b: Seq<char>|
            #[trigger] state_of(final(root)@, final(frames)@, b) == toggle(
                state_of(old(root)@, old(frames)@, b),
                level,
            ),
{
    let n = frames.len();
    if n > 0 && frames[n - 1].level == level {
        let frame = match frames.pop() {
            Some(f) => f,
            None => return,
        };
        assert(frames_model(frames@) =~= frames_model(old(frames)@).drop_last());
        push_segment(Segment::Emphasis { level, children: frame.segments }, frames, root);
    } else {
        frames.push(Frame { level, segments: Vec::new() });
        assert(spans_of(Seq::<Segment>::empty()) =~= Seq::<Span>::empty());
        assert(frames_model(frames@) =~= frames_model(old(frames)@).push((level, Seq::<Span>::empty())));
    }
}

proof fn lemma_close_offset(s: Seq<char>, j0: int, j: int)
    requires
        0 <= j0 <= j <= s.len(),
        forall|k: int| j0 <= k < j ==> s[k] != ']',
        j == s.len() || s[j] == ']',
    ensures
        close_offset(s, j0) == (if j < s.len() { Some((j - j0) as nat) } else { None::<nat> }),
    decreases j - j0,
{
    if j0 < j {
        lemma_close_offset(s, j0 + 1, j);
    }
}

/// Parses paragraph markup into a segment tree.
pub fn parse_markup(input: &str) -> (r: Result<Vec<Segment>, SsmlError>)
    ensures
        match (r, markup_value(input@)) {
            (Ok(v), Ok(w)) => spans_of(v@) == w,
            (Err(SsmlError::InvalidPause(e)), Err(d)) => e@ == d,
            _ => false,
        },
{
    let s = chars_of(input);
    let len = s.len();
    let mut root: Vec<Segment> = Vec::new();
    let mut frames: Vec<Frame> = Vec::new();
    let mut buffer: Vec<char> = Vec::new();
    let ghost goal = markup_value(s@);
    assert(frames_model(frames@) =~= Seq::<(EmphasisLevel, Seq<Span>)>::empty());
    assert(state_of(root@, frames@, buffer@) == ParseState {
        root: Seq::empty(),
        frames: Seq::empty(),
        buffer: Seq::empty(),
    });
    let mut i: usize = 0;
    while i < len
        invariant
            len == s@.len(),
            s@ == input@,
            i <= len,
            goal == markup_value(s@),
            parse_from(s@, i as int, state_of(root@, frames@, buffer@)) == goal,
        decreases len - i,
    {
        let ch = s[i];
        let ghost st0 = state_of(root@, frames@, buffer@);
        let ghost i0 = i as int;
        if ch == '\\' {
            if i + 1 < len {
                buffer.push(s[i + 1]);
                i = i + 2;
            } else {
                i = i + 1;
            }
            assert(parse_from(s@, i0, st0) == parse_from(s@, i as int, state_of(root@, frames@, buffer@)));
        } else if ch == '[' {
            flush_buffer(&mut buffer, &mut frames, &mut root);
            let mut j: usize = i + 1;
            while j < len && s[j] != ']'
                invariant
                    i + 1 <= j <= len,
                    len == s@.len(),
                    forall|k: int| i + 1 <= k < j ==> s@[k] != ']',
                decreases len - j,
            {
                j = j + 1;
            }
            proof {
                lemma_close_offset(s@, i + 1, j as int);
            }
            if j == len {
                buffer.push('[');
                let mut k: usize = i + 1;
                let ghost b0 = buffer@;
                while k < len
                    invariant
                        i + 1 <= k <= len,
                        len == s@.len(),
                        buffer@ == b0 + s@.subrange(i + 1, k as int),
                    decreases len - k,
                {
                    buffer.push(s[k]);
                    assert(buffer@ =~= b0 + s@.subrange(i + 1, k + 1));
                    k = k + 1;
                }
                i = len;
                assert(buffer@ =~= flush(st0).buffer + seq!['['] + s@.subrange(i0 + 1, len as int));
                assert(parse_from(s@, i0, st0) == parse_from(s@, i as int, state_of(root@, frames@, buffer@)));
            } else {
                let body = sub_vec(&s, i + 1, j);
                match parse_directive(&body) {
                    Err(e) => {
                        return Err(e);
                    },
                    Ok(Some(segment)) => {
                        push_segment(segment, &mut frames, &mut root);
                    },
                    Ok(None) => {
                        let ghost b0 = buffer@;
                        buffer.push('[');
                        let mut k: usize = 0;
                        while k < body.len()
                            invariant
                                k <= body@.len(),
                                buffer@ == b0 + seq!['['] + body@.subrange(0, k as int),
                            decreases body@.len() - k,
                        {
                            buffer.push(body[k]);
                            assert(buffer@ =~= b0 + seq!['['] + body@.subrange(0, k + 1));
                            k = k + 1;
                        }
                        buffer.push(']');
                        assert(body@.subrange(0, body@.len() as int) =~= body@);
                        assert(buffer@ =~= b0 + seq!['['] + body@ + seq![']']);
                    },
                }
                i = j + 1;
                assert(body@ == s@.subrange(i0 + 1, j as int));
                assert(parse_from(s@, i0, st0) == parse_from(s@, i as int, state_of(root@, frames@, buffer@)));
            }
        } else if ch == '*' {
            let double = i + 1 < len && s[i + 1] == '*';
            if double {
                i = i + 2;
            } else {
                i = i + 1;
            }
            flush_buffer(&mut buffer, &mut frames, &mut root);
            let level = if double { EmphasisLevel::Strong } else { EmphasisLevel::Moderate };
            toggle_emphasis(level, &mut frames, &mut root);
            assert(parse_from(s@, i0, st0) == parse_from(s@, i as int, state_of(root@, frames@, buffer@)));
        } else {
            buffer.push(ch);
            i = i + 1;
            assert(parse_from(s@, i0, st0) == parse_from(s@, i as int, state_of(root@, frames@, buffer@)));
        }
    }
    flush_buffer(&mut buffer, &mut frames, &mut root);
    let ghost closed = close_open(state_of(root@, frames@, buffer@));
    while frames.len() > 0
        invariant
            close_open(state_of(root@, frames@, buffer@)) == closed,
        ensures
            close_open(state_of(root@, frames@, buffer@)) == closed,
            frames@.len() == 0,
        decreases frames@.len(),
    {
        let ghost before = frames@;
        let frame = match frames.pop() {
            Some(f) => f,
            None => break,
        };
        assert(frames_model(frames@) =~= frames_model(before).drop_last());
        if frame.segments.len() > 0 {
            proof {
                lemma_spans_of_index(frame.segments@);
            }
            push_segment(Segment::Emphasis { level: frame.level, children: frame.segments }, &mut frames, &mut root);
        } else {
            proof {
                lemma_spans_of_index(frame.segments@);
            }
            let m = frame.opening_marker();
            let mut k: usize = 0;
            let n = m.unicode_len();
            let ghost b0 = buffer@;
            while k < n
                invariant
                    k <= n,
                    n == m@.len(),
                    buffer@ == b0 + m@.subrange(0, k as int),
                decreases n - k,
            {
                buffer.push(m.get_char(k));
                assert(buffer@ =~= b0 + m@.subrange(0, k + 1));
                k = k + 1;
            }
            assert(m@.subrange(0, n as int) =~= m@);
        }
    }
    flush_buffer(&mut buffer, &mut frames, &mut root);
    Ok(root)
}

/// A span that parsing keeps: text that is not blank, a pause, or emphasis
/// with at least one child, each kept in turn.
pub open spec fn kept(s: Span) -> bool
    decreases s,
{
    match s {
        Span::Text(t) => trim(t).len() > 0,
        Span::Break(_) => true,
        Span::Emphasis(_, ch) => ch.len() > 0 && forall|i: int| 0 <= i < ch.len() ==> kept(#[trigger] ch[i]),
    }
}

pub open spec fn all_kept(v: Seq<Span>) -> bool {
    forall|i: int| 0 <= i < v.len() ==> kept(#[trigger] v[i])
}

/// Everything the parser has collected so far is kept.
pub open spec fn state_kept(st: ParseState) -> bool {
    &&& all_kept(st.root)
    &&& forall|f: int| 0 <= f < st.frames.len() ==> all_kept(#[trigger] st.frames[f].1)
}

/// A span whose children, if any, are all kept.
pub open spec fn children_kept(s: Span) -> bool {
    match s {
        Span::Emphasis(_, ch) => all_kept(ch),
        _ => true,
    }
}

proof fn lemma_push_kept(st: ParseState, s: Span)
    requires
        state_kept(st),
        children_kept(s),
    ensures
        state_kept(push_span(st, s)),
        push_span(st, s).frames.len() == st.frames.len(),
        push_span(st, s).buffer == st.buffer,
{
    if !dropped(s) {
        assert(kept(s));
        let r = push_span(st, s);
        if st.frames.len() > 0 {
            let last = st.frames.len() - 1;
            assert forall|f: int| 0 <= f < r.frames.len() implies all_kept(#[trigger] r.frames[f].1) by {
                if f == last {
                    let ch = st.frames[last].1.push(s);
                    assert forall|i: int| 0 <= i < ch.len() implies kept(#[trigger] ch[i]) by {
                        if i < st.frames[last].1.len() {
                            assert(all_kept(st.frames[last].1));
                        }
                    }
                } else {
                    assert(r.frames[f] == st.frames[f]);
                }
            }
        } else {
            assert forall|i: int| 0 <= i < r.root.len() implies kept(#[trigger] r.root[i]) by {
                if i < st.root.len() {
                    assert(r.root[i] == st.root[i]);
                }
            }
        }
    }
}

proof fn lemma_flush_kept(st: ParseState)
    requires
        state_kept(st),
    ensures
        state_kept(flush(st)),
        flush(st).frames.len() == st.frames.len(),
        flush(st).buffer.len() == 0,
{
    if st.buffer.len() > 0 {
        lemma_push_kept(ParseState { buffer: Seq::empty(), ..st }, Span::Text(st.buffer));
    }
}

proof fn lemma_toggle_kept(st: ParseState, l: EmphasisLevel)
    requires
        state_kept(st),
    ensures
        state_kept(toggle(st, l)),
{
    if st.frames.len() > 0 && st.frames.last().0 == l {
        let rest = ParseState { frames: st.frames.drop_last(), ..st };
        assert(state_kept(rest)) by {
            assert forall|f: int| 0 <= f < rest.frames.len() implies all_kept(#[trigger] rest.frames[f].1) by {
                assert(rest.frames[f] == st.frames[f]);
            }
        }
        assert(all_kept(st.frames[st.frames.len() - 1].1));
        lemma_push_kept(rest, Span::Emphasis(l, st.frames.last().1));
    } else {
        let r = toggle(st, l);
        assert forall|f: int| 0 <= f < r.frames.len() implies all_kept(#[trigger] r.frames[f].1) by {
            if f < st.frames.len() {
                assert(r.frames[f] == st.frames[f]);
            }
        }
    }
}

proof fn lemma_close_open_kept(st: ParseState)
    requires
        state_kept(st),
    ensures
        state_kept(close_open(st)),
        close_open(st).frames.len() == 0,
    decreases st.frames.len(),
{
    if st.frames.len() > 0 {
        let f = st.frames.last();
        let rest = ParseState { frames: st.frames.drop_last(), ..st };
        assert(state_kept(rest)) by {
            assert forall|k: int| 0 <= k < rest.frames.len() implies all_kept(#[trigger] rest.frames[k].1) by {
                assert(rest.frames[k] == st.frames[k]);
            }
        }
        assert(all_kept(st.frames[st.frames.len() - 1].1));
        if f.1.len() > 0 {
            lemma_push_kept(rest, Span::Emphasis(f.0, f.1));
            lemma_close_open_kept(push_span(rest, Span::Emphasis(f.0, f.1)));
        } else {
            lemma_close_open_kept(ParseState { buffer: rest.buffer + marker(f.0), ..rest });
        }
    }
}

proof fn lemma_parse_from_kept(s: Seq<char>, i: int, st: ParseState)
    requires
        state_kept(st),
    ensures
        parse_from(s, i, st) matches Ok(v) ==> all_kept(v),
    decreases if 0 <= i < s.len() { s.len() - i } else { 0 },
{
    if i < 0 || i >= s.len() {
        lemma_flush_kept(st);
        lemma_close_open_kept(flush(st));
        lemma_flush_kept(close_open(flush(st)));
    } else {
        let c = s[i];
        if c == '\\' {
            if i + 1 < s.len() {
                lemma_parse_from_kept(s, i + 2, ParseState { buffer: st.buffer.push(s[i + 1]), ..st });
            } else {
                lemma_parse_from_kept(s, i + 1, st);
            }
        } else if c == '[' {
            lemma_flush_kept(st);
            let f = flush(st);
            match close_offset(s, i + 1) {
                None => {
                    lemma_parse_from_kept(
                        s,
                        s.len() as int,
                        ParseState { buffer: f.buffer + seq!['['] + s.subrange(i + 1, s.len() as int), ..f },
                    );
                },
                Some(n) => {
                    let k = i + 1 + n;
                    match directive_value(s.subrange(i + 1, k)) {
                        Err(d) => {},
                        Ok(Some(p)) => {
                            lemma_push_kept(f, Span::Break(p));
                            lemma_parse_from_kept(s, k + 1, push_span(f, Span::Break(p)));
                        },
                        Ok(None) => {
                            lemma_parse_from_kept(
                                s,
                                k + 1,
                                ParseState { buffer: f.buffer + seq!['['] + s.subrange(i + 1, k) + seq![']'], ..f },
                            );
                        },
                    }
                },
            }
        } else if c == '*' {
            let double = i + 1 < s.len() && s[i + 1] == '*';
            let l = if double { EmphasisLevel::Strong } else { EmphasisLevel::Moderate };
            lemma_flush_kept(st);
            lemma_toggle_kept(flush(st), l);
            lemma_parse_from_kept(s, if double { i + 2 } else { i + 1 }, toggle(flush(st), l));
        } else {
            lemma_parse_from_kept(s, i + 1, ParseState { buffer: st.buffer.push(c), ..st });
        }
    }
}

/// Parsing keeps no blank text and no empty emphasis, at any depth.
pub proof fn lemma_parsed_segments_kept(p: Seq<char>)
    ensures
        markup_value(p) matches Ok(v) ==> all_kept(v),
{
    lemma_parse_from_kept(
        p,
        0,
        ParseState { root: Seq::empty(), frames: Seq::empty(), buffer: Seq::empty() },
    );
}

} // verus!
