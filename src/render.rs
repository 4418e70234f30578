//! Serialises a segment tree to escaped, nested speech markup.
use vstd::prelude::*;
use crate::chars::push_char;
use crate::segment::{EmphasisLevel, Segment, Span, span_of, spans_of, lemma_spans_of_index, lemma_spans_of_push};

verus! {

/// The escaped form of one character.
pub open spec fn escape_char(c: char) -> Seq<char> {
    if c == '&' {
        amp()
    } else if c == '<' {
        lt()
    } else if c == '>' {
        gt()
    } else if c == '"' {
        quot()
    } else if c == '\'' {
        apos()
    } else {
        seq![c]
    }
}

pub open spec fn amp() -> Seq<char> {
    seq!['&', 'a', 'm', 'p', ';']
}

pub open spec fn lt() -> Seq<char> {
    seq!['&', 'l', 't', ';']
}

pub open spec fn gt() -> Seq<char> {
    seq!['&', 'g', 't', ';']
}

pub open spec fn quot() -> Seq<char> {
    seq!['&', 'q', 'u', 'o', 't', ';']
}

pub open spec fn apos() -> Seq<char> {
    seq!['&', 'a', 'p', 'o', 's', ';']
}

/// `s` begins with `p`.
pub open spec fn begins_with(s: Seq<char>, p: Seq<char>) -> bool {
    p.len() <= s.len() && s.subrange(0, p.len() as int) == p
}

/// Text read back from its escaped form: each named entity replaced by its
/// character.
pub open spec fn unescape(s: Seq<char>) -> Seq<char>
    decreases s.len(),
{
    if s.len() == 0 {
        Seq::empty()
    } else if begins_with(s, amp()) {
        seq!['&'] + unescape(s.subrange(5, s.len() as int))
    } else if begins_with(s, lt()) {
        seq!['<'] + unescape(s.subrange(4, s.len() as int))
    } else if begins_with(s, gt()) {
        seq!['>'] + unescape(s.subrange(4, s.len() as int))
    } else if begins_with(s, quot()) {
        seq!['"'] + unescape(s.subrange(6, s.len() as int))
    } else if begins_with(s, apos()) {
        seq!['\''] + unescape(s.subrange(6, s.len() as int))
    } else {
        seq![s[0]] + unescape(s.subrange(1, s.len() as int))
    }
}

/// A reserved character: one that escaping replaces.
pub open spec fn is_reserved(c: char) -> bool {
    c == '&' || c == '<' || c == '>' || c == '"' || c == '\''
}

proof fn lemma_escape_concat(a: Seq<char>, b: Seq<char>)
    ensures
        escape_seq(a + b) == escape_seq(a) + escape_seq(b),
    decreases b.len(),
{
    if b.len() == 0 {
        assert(a + b =~= a);
    } else {
        let b0 = b.subrange(0, b.len() - 1);
        assert((a + b).subrange(0, (a + b).len() - 1) =~= a + b0);
        lemma_escape_concat(a, b0);
    }
}

proof fn lemma_unescape_char(c: char, rest: Seq<char>)
    ensures
        unescape(escape_char(c) + rest) == seq![c] + unescape(rest),
{
    let s = escape_char(c) + rest;
    if c == '&' {
        assert(s.subrange(0, 5) =~= amp());
        assert(s.subrange(5, s.len() as int) =~= rest);
    } else if c == '<' {
        assert(s[1] != amp()[1]);
        assert(s.subrange(0, 4) =~= lt());
        assert(s.subrange(4, s.len() as int) =~= rest);
    } else if c == '>' {
        assert(s[1] != amp()[1]);
        assert(s[1] != lt()[1]);
        assert(s.subrange(0, 4) =~= gt());
        assert(s.subrange(4, s.len() as int) =~= rest);
    } else if c == '"' {
        assert(s[1] != amp()[1]);
        assert(s[1] != lt()[1]);
        assert(s[1] != gt()[1]);
        assert(s.subrange(0, 6) =~= quot());
        assert(s.subrange(6, s.len() as int) =~= rest);
    } else if c == '\'' {
        assert(s[1] != lt()[1]);
        assert(s[1] != gt()[1]);
        assert(s[1] != quot()[1]);
        assert(s[2] != amp()[2]);
        assert(s.subrange(0, 6) =~= apos());
        assert(s.subrange(6, s.len() as int) =~= rest);
    } else {
        assert(s[0] == c);
        assert(s[0] != amp()[0]);
        assert(s[0] != lt()[0]);
        assert(s[0] != gt()[0]);
        assert(s[0] != quot()[0]);
        assert(s[0] != apos()[0]);
        assert(s.subrange(1, s.len() as int) =~= rest);
    }
}

/// Escaping loses nothing: unescaping the escaped text gives the text back,
/// so two different texts never escape to the same markup.
pub proof fn lemma_escape_round_trip(t: Seq<char>)
    ensures
        unescape(escape_seq(t)) == t,
    decreases t.len(),
{
    if t.len() > 0 {
        let rest = t.subrange(1, t.len() as int);
        assert(t =~= seq![t[0]] + rest);
        lemma_escape_concat(seq![t[0]], rest);
        assert(seq![t[0]].subrange(0, 0) =~= Seq::<char>::empty());
        assert(escape_seq(Seq::<char>::empty()) == Seq::<char>::empty());
        assert(escape_seq(seq![t[0]]) =~= escape_seq(Seq::<char>::empty()) + escape_char(t[0]));
        lemma_unescape_char(t[0], escape_seq(rest));
        lemma_escape_round_trip(rest);
    }
}

/// Escaping is injective.
pub proof fn lemma_escape_injective(a: Seq<char>, b: Seq<char>)
    requires
        escape_seq(a) == escape_seq(b),
    ensures
        a == b,
{
    lemma_escape_round_trip(a);
    lemma_escape_round_trip(b);
}

/// Escaped text holds no `<`, `>`, `"` or `'`, and every `&` in it starts
/// one of the five named entities.
pub proof fn lemma_escape_leaves_no_markup(t: Seq<char>)
    ensures
        forall|i: int|
            0 <= i < escape_seq(t).len() ==> {
                let c = #[trigger] escape_seq(t)[i];
                &&& c != '<' && c != '>' && c != '"' && c != '\''
                &&& c == '&' ==> {
                    let r = escape_seq(t).subrange(i, escape_seq(t).len() as int);
                    begins_with(r, amp()) || begins_with(r, lt()) || begins_with(r, gt())
                        || begins_with(r, quot()) || begins_with(r, apos())
                }
            },
    decreases t.len(),
{
    if t.len() > 0 {
        let t0 = t.subrange(0, t.len() - 1);
        lemma_escape_leaves_no_markup(t0);
        let e0 = escape_seq(t0);
        let e = escape_seq(t);
        let x = escape_char(t[t.len() - 1]);
        assert(e == e0 + x);
        assert forall|i: int| 0 <= i < e.len() implies {
            let c = #[trigger] e[i];
            &&& c != '<' && c != '>' && c != '"' && c != '\''
            &&& c == '&' ==> {
                let r = e.subrange(i, e.len() as int);
                begins_with(r, amp()) || begins_with(r, lt()) || begins_with(r, gt())
                    || begins_with(r, quot()) || begins_with(r, apos())
            }
        } by {
            if i < e0.len() {
                assert(e[i] == e0[i]);
                let r0 = e0.subrange(i, e0.len() as int);
                let r = e.subrange(i, e.len() as int);
                assert(r =~= r0 + x);
                if e[i] == '&' {
                    if begins_with(r0, amp()) {
                        assert(r.subrange(0, 5) =~= r0.subrange(0, 5));
                    } else if begins_with(r0, lt()) {
                        assert(r.subrange(0, 4) =~= r0.subrange(0, 4));
                    } else if begins_with(r0, gt()) {
                        assert(r.subrange(0, 4) =~= r0.subrange(0, 4));
                    } else if begins_with(r0, quot()) {
                        assert(r.subrange(0, 6) =~= r0.subrange(0, 6));
                    } else {
                        assert(r.subrange(0, 6) =~= r0.subrange(0, 6));
                    }
                }
            } else {
                let k = i - e0.len();
                assert(e[i] == x[k]);
                let r = e.subrange(i, e.len() as int);
                assert(r =~= x.subrange(k, x.len() as int));
                if x[k] == '&' {
                    assert(k == 0);
                    assert(r =~= x);
                    assert(x.subrange(0, x.len() as int) =~= x);
                }
            }
        }
    }
}

/// `t` with the five reserved characters replaced by their named entities.
pub open spec fn escape_seq(t: Seq<char>) -> Seq<char>
    decreases t.len(),
{
    if t.len() == 0 {
        Seq::empty()
    } else {
        escape_seq(t.subrange(0, t.len() - 1)) + escape_char(t[t.len() - 1])
    }
}

/// The decimal digits of `n`, most significant first.
pub open spec fn decimal(n: nat) -> Seq<char>
    decreases n,
{
    if n < 10 {
        seq![(n + '0' as nat) as char]
    } else {
        decimal(n / 10).push(((n % 10) + '0' as nat) as char)
    }
}

/// The tag name of an emphasis level.
pub open spec fn level_name(l: EmphasisLevel) -> Seq<char> {
    match l {
        EmphasisLevel::Reduced => "reduced"@,
        EmphasisLevel::Moderate => "moderate"@,
        EmphasisLevel::Strong => "strong"@,
    }
}

/// The markup of one span.
pub open spec fn render_span(s: Span) -> Seq<char>
    decreases s, 1nat,
{
    match s {
        Span::Text(t) => escape_seq(t),
        Span::Break(p) => "<break time=\""@ + decimal(p.duration_ms as nat) + "ms\"/>"@,
        Span::Emphasis(l, ch) => if ch.len() == 0 {
            Seq::empty()
        } else {
            "<emphasis level=\""@ + level_name(l) + "\">"@ + render_spans(ch) + "</emphasis>"@
        },
    }
}

/// The markup of a sequence of spans, concatenated in order.
pub open spec fn render_spans(v: Seq<Span>) -> Seq<char>
    decreases v, 0nat,
{
    if v.len() == 0 {
        Seq::empty()
    } else {
        render_spans(v.subrange(0, v.len() - 1)) + render_span(v[v.len() - 1])
    }
}

/// A whole document: the rendered spans inside the root and paragraph
/// elements.
pub open spec fn document(v: Seq<Span>) -> Seq<char> {
    "<speak xml:lang=\"es-ES\"><p>"@ + render_spans(v) + "</p></speak>"@
}

impl EmphasisLevel {
    /// The level's lowercase name, as the markup spells it.
    pub fn as_str(self) -> (r: &'static str)
        ensures
            r@ == level_name(self),
    {
        match self {
            EmphasisLevel::Reduced => "reduced",
            EmphasisLevel::Moderate => "moderate",
            EmphasisLevel::Strong => "strong",
        }
    }
}

/// Escapes the five reserved XML characters of `text`.
pub fn escape_text(text: &str) -> (r: String)
    ensures
        r@ == escape_seq(text@),
{
    proof {
        reveal_strlit("&amp;");
        reveal_strlit("&lt;");
        reveal_strlit("&gt;");
        reveal_strlit("&quot;");
        reveal_strlit("&apos;");
        assert("&amp;"@ =~= amp());
        assert("&lt;"@ =~= lt());
        assert("&gt;"@ =~= gt());
        assert("&quot;"@ =~= quot());
        assert("&apos;"@ =~= apos());
    }
    let cs = crate::chars::chars_of(text);
    let mut escaped = String::new();
    let mut i: usize = 0;
    while i < cs.len()
        invariant
            i <= cs@.len(),
            cs@ == text@,
            escaped@ == escape_seq(cs@.subrange(0, i as int)),
            "&amp;"@ == amp(),
            "&lt;"@ == lt(),
            "&gt;"@ == gt(),
            "&quot;"@ == quot(),
            "&apos;"@ == apos(),
        decreases cs@.len() - i,
    {
        let ch = cs[i];
        if ch == '&' {
            escaped.append("&amp;");
        } else if ch == '<' {
            escaped.append("&lt;");
        } else if ch == '>' {
            escaped.append("&gt;");
        } else if ch == '"' {
            escaped.append("&quot;");
        } else if ch == '\'' {
            escaped.append("&apos;");
        } else {
            push_char(&mut escaped, ch);
        }
        assert(cs@.subrange(0, i + 1).subrange(0, i as int) =~= cs@.subrange(0, i as int));
        i = i + 1;
    }
    assert(cs@.subrange(0, cs@.len() as int) =~= cs@);
    escaped
}

/// Appends the decimal digits of `n` to `out`.
pub(crate) fn push_decimal(out: &mut String, n: u32)
    ensures
        final(out)@ == old(out)@ + decimal(n as nat),
    decreases n,
{
    if n >= 10 {
        push_decimal(out, n / 10);
    }
    let d = (n % 10) as u8;
    push_char(out, (48u8 + d) as char);
    proof {
        assert(((n % 10) as nat + '0' as nat) as char == ((48u8 + d) as u8) as char);
    }
}

/// Appends the markup of `segments` to `out`.
fn render_into(segments: &[Segment], out: &mut String)
    ensures
        final(out)@ == old(out)@ + render_spans(spans_of(segments@)),
    decreases segments@,
{
    let mut i: usize = 0;
    while i < segments.len()
        invariant
            i <= segments@.len(),
            out@ == old(out)@ + render_spans(spans_of(segments@.subrange(0, i as int))),
        decreases segments@.len() - i,
    {
        let ghost before = out@;
        match &segments[i] {
            Segment::Text(text) => {
                let escaped = escape_text(text.as_str());
                out.append(escaped.as_str());
            },
            Segment::Break(pause) => {
                out.append("<break time=\"");
                push_decimal(out, pause.duration_ms);
                out.append("ms\"/>");
            },
            Segment::Emphasis { level, children } => {
                proof {
                    lemma_spans_of_index(children@);
                }
                if children.len() > 0 {
                    out.append("<emphasis level=\"");
                    out.append(level.as_str());
                    out.append("\">");
                    assert(decreases_to!(segments@ => children@)) by {
                        assert(decreases_to!(segments@ => segments@[i as int]));
                    }
                    render_into(children.as_slice(), out);
                    out.append("</emphasis>");
                }
            },
        }
        assert(out@ =~= before + render_span(span_of(segments@[i as int])));
        proof {
            let pre = segments@.subrange(0, i as int);
            assert(segments@.subrange(0, i + 1) =~= pre.push(segments@[i as int]));
            lemma_spans_of_push(pre, segments@[i as int]);
            let sp = spans_of(pre).push(span_of(segments@[i as int]));
            assert(sp.subrange(0, sp.len() - 1) =~= spans_of(pre));
            assert(out@ =~= old(out)@ + render_spans(sp));
        }
        i = i + 1;
    }
    assert(segments@.subrange(0, segments@.len() as int) =~= segments@);
}

/// Serialises `segments` to a speech-markup document.
pub fn render_segments(segments: &[Segment]) -> (r: String)
    ensures
        r@ == document(spans_of(segments@)),
{
    let mut content = String::from_str("<speak xml:lang=\"es-ES\"><p>");
    render_into(segments, &mut content);
    content.append("</p></speak>");
    content
}

} // verus!
