use reader::{
    escape_text, parse_markup, render_paragraph, render_queue, render_segments, segment_paragraph,
    split_text_with_breaks, EmphasisLevel, Pause, PauseKind, Segment, SsmlError,
};

fn text(s: &str) -> Segment {
    Segment::Text(s.to_string())
}

fn pause(ms: u32, kind: PauseKind) -> Segment {
    Segment::Break(Pause { duration_ms: ms, kind })
}

fn only_break(paragraph: &str) -> Pause {
    let segments = segment_paragraph(paragraph).unwrap();
    let breaks: Vec<Pause> = segments
        .iter()
        .filter_map(|s| match s {
            Segment::Break(p) => Some(*p),
            _ => None,
        })
        .collect();
    assert_eq!(breaks.len(), 1, "{segments:?}");
    breaks[0]
}

#[test]
fn converts_basic_paragraph_to_ssml() {
    let ssml = render_paragraph("Hola mundo. ¿Cómo estás?").unwrap();
    assert!(ssml.contains("<speak"));
    assert!(ssml.contains("Hola mundo."));
    assert!(ssml.contains("¿Cómo estás?"));
    assert!(ssml.contains("<break"));
}

#[test]
fn segments_nested_emphasis() {
    let segments = segment_paragraph("**Muy *importante* aviso.**").unwrap();
    assert!(matches!(
        segments[0],
        Segment::Emphasis {
            level: EmphasisLevel::Strong,
            ..
        }
    ));
    let rendered = render_segments(&segments);
    assert!(rendered.contains("<emphasis level=\"strong\">"));
    assert!(rendered.contains("<emphasis level=\"moderate\">importante"));
}

#[test]
fn parses_explicit_pause_directive() {
    let segments = segment_paragraph("Respira [pause:long] ahora.").unwrap();
    assert!(segments.iter().any(|segment| matches!(
        segment,
        Segment::Break(Pause {
            duration_ms: 680,
            ..
        })
    )));
    let ssml = render_segments(&segments);
    assert!(ssml.contains("<break time=\"680ms\"/>"));
}

#[test]
fn rejects_invalid_pause() {
    let error = segment_paragraph("Esto [pause:foo] falla").unwrap_err();
    assert_eq!(error, SsmlError::InvalidPause("foo".into()))
}

#[test]
fn gracefully_handles_unmatched_markers() {
    let segments = segment_paragraph("*Hola mundo").unwrap();
    assert!(render_segments(&segments).contains("Hola mundo"));
}

#[test]
fn basic_paragraph_renders_exactly() {
    let ssml = render_paragraph("Hola mundo. ¿Cómo estás?").unwrap();
    assert_eq!(
        ssml,
        "<speak xml:lang=\"es-ES\"><p>Hola mundo.<break time=\"420ms\"/>¿Cómo estás?<break time=\"520ms\"/></p></speak>"
    );
}

#[test]
fn first_sentence_is_followed_by_sentence_pause() {
    let segments = segment_paragraph("Hola mundo. ¿Cómo estás?").unwrap();
    assert_eq!(
        segments,
        vec![
            text("Hola mundo."),
            pause(420, PauseKind::Sentence),
            text("¿Cómo estás?"),
            pause(520, PauseKind::Sentence),
        ]
    );
}

#[test]
fn nested_emphasis_wraps_exactly_the_inner_word() {
    let segments = segment_paragraph("**Muy *importante* aviso.**").unwrap();
    assert_eq!(
        segments,
        vec![
            Segment::Emphasis {
                level: EmphasisLevel::Strong,
                children: vec![
                    text("Muy"),
                    Segment::Emphasis {
                        level: EmphasisLevel::Moderate,
                        children: vec![text("importante")],
                    },
                    text("aviso."),
                ],
            },
            pause(420, PauseKind::Sentence),
        ]
    );
    assert_eq!(
        render_segments(&segments),
        "<speak xml:lang=\"es-ES\"><p><emphasis level=\"strong\">Muy<emphasis level=\"moderate\">importante</emphasis>aviso.</emphasis><break time=\"420ms\"/></p></speak>"
    );
}

#[test]
fn explicit_pause_keeps_its_kind() {
    let segments = segment_paragraph("Respira [pause:long] ahora.").unwrap();
    assert_eq!(
        segments,
        vec![
            text("Respira"),
            pause(680, PauseKind::Explicit),
            text("ahora."),
            pause(420, PauseKind::Sentence),
        ]
    );
}

#[test]
fn unterminated_emphasis_with_content_becomes_emphasis() {
    let segments = segment_paragraph("*Hola mundo").unwrap();
    assert_eq!(
        segments,
        vec![Segment::Emphasis {
            level: EmphasisLevel::Moderate,
            children: vec![text("Hola mundo")],
        }]
    );
    assert_eq!(
        render_paragraph("*Hola mundo").unwrap(),
        "<speak xml:lang=\"es-ES\"><p><emphasis level=\"moderate\">Hola mundo</emphasis></p></speak>"
    );
}

#[test]
fn unterminated_empty_emphasis_keeps_its_marker() {
    let segments = parse_markup("Hola **").unwrap();
    assert_eq!(segments, vec![text("Hola "), text("**")]);
    let segments = parse_markup("*").unwrap();
    assert_eq!(segments, vec![text("*")]);
}

#[test]
fn closed_empty_emphasis_is_dropped() {
    assert_eq!(parse_markup("a ** ** b").unwrap(), vec![text("a "), text(" b")]);
}

#[test]
fn pause_descriptors() {
    let explicit = |ms| Pause { duration_ms: ms, kind: PauseKind::Explicit };
    assert_eq!(only_break("[pause]"), explicit(420));
    assert_eq!(only_break("[pause:]"), explicit(420));
    assert_eq!(only_break("[break:short]"), explicit(220));
    assert_eq!(only_break("[pause: corta ]"), explicit(220));
    assert_eq!(only_break("[pause:medium]"), explicit(420));
    assert_eq!(only_break("[pause:media]"), explicit(420));
    assert_eq!(only_break("[break:larga]"), explicit(680));
    assert_eq!(only_break("[pause:250ms]"), explicit(250));
    assert_eq!(only_break("[pause:+7 ms]"), explicit(7));
    assert_eq!(only_break("[pause 2s]"), explicit(2000));
    assert_eq!(only_break("[pause:1.5s]"), explicit(1500));
    assert_eq!(only_break("[pause:.25s]"), explicit(250));
    assert_eq!(only_break("[pause:0.0005s]"), explicit(1));
    assert_eq!(only_break("[pause:0.0004s]"), explicit(0));
    assert_eq!(only_break("[pause:99999999s]"), explicit(u32::MAX));
    assert_eq!(only_break("[pause:4294967295ms]"), explicit(u32::MAX));
}

#[test]
fn malformed_pause_descriptors() {
    let err = |s: &str| segment_paragraph(s).unwrap_err();
    assert_eq!(err("[pause:4294967296ms]"), SsmlError::InvalidPause("4294967296ms".into()));
    assert_eq!(err("[pause:ms]"), SsmlError::InvalidPause("ms".into()));
    assert_eq!(err("[pause:s]"), SsmlError::InvalidPause("s".into()));
    assert_eq!(err("[pause:1.2.3s]"), SsmlError::InvalidPause("1.2.3s".into()));
    assert_eq!(err("[pause:-1ms]"), SsmlError::InvalidPause("-1ms".into()));
    assert_eq!(err("[paused]"), SsmlError::InvalidPause("d".into()));
    assert_eq!(err("[break:???]"), SsmlError::InvalidPause("???".into()));
    assert_eq!(
        err("Esto [pause:foo] falla").message(),
        "invalid pause directive: foo"
    );
}

#[test]
fn unknown_and_unterminated_brackets_stay_literal() {
    assert_eq!(parse_markup("ver [nota] aqui").unwrap(), vec![text("ver "), text("[nota] aqui")]);
    assert_eq!(parse_markup("ver [] aqui").unwrap(), vec![text("ver "), text("[] aqui")]);
    assert_eq!(render_paragraph("ver [nota] aqui").unwrap(), "<speak xml:lang=\"es-ES\"><p>ver[nota] aqui</p></speak>");
    assert_eq!(parse_markup("abre [pause sin cerrar").unwrap(), vec![text("abre "), text("[pause sin cerrar")]);
}

#[test]
fn escapes_are_literal() {
    assert_eq!(parse_markup("\\*no\\* \\[pause\\]").unwrap(), vec![text("*no* [pause]")]);
    assert_eq!(parse_markup("fin\\").unwrap(), vec![text("fin")]);
}

#[test]
fn punctuation_pauses() {
    assert_eq!(
        split_text_with_breaks("Espera... ya"),
        vec![text("Espera..."), pause(720, PauseKind::Sentence), text("ya")]
    );
    assert_eq!(
        split_text_with_breaks("Bueno…sí"),
        vec![text("Bueno…"), pause(720, PauseKind::Sentence), text("sí")]
    );
    assert_eq!(
        split_text_with_breaks("uno, dos; tres: cuatro! cinco"),
        vec![
            text("uno,"),
            pause(240, PauseKind::Sentence),
            text("dos;"),
            pause(360, PauseKind::Sentence),
            text("tres:"),
            pause(360, PauseKind::Sentence),
            text("cuatro!"),
            pause(520, PauseKind::Sentence),
            text("cinco"),
        ]
    );
    assert_eq!(split_text_with_breaks("pi es 3.14,5"), vec![text("pi es 3.14,5")]);
    assert_eq!(
        split_text_with_breaks("Fin...."),
        vec![
            text("Fin..."),
            pause(720, PauseKind::Sentence),
            text("."),
            pause(420, PauseKind::Sentence),
        ]
    );
    assert_eq!(split_text_with_breaks("   "), vec![]);
    assert_eq!(split_text_with_breaks(""), vec![]);
}

#[test]
fn emphasis_is_split_around_pauses() {
    assert_eq!(
        segment_paragraph("*Uno. Dos*").unwrap(),
        vec![
            Segment::Emphasis {
                level: EmphasisLevel::Moderate,
                children: vec![text("Uno.")],
            },
            pause(420, PauseKind::Sentence),
            Segment::Emphasis {
                level: EmphasisLevel::Moderate,
                children: vec![text("Dos")],
            },
        ]
    );
    assert_eq!(
        segment_paragraph("*[pause]*").unwrap(),
        vec![pause(420, PauseKind::Explicit)]
    );
    assert_eq!(segment_paragraph("*   *").unwrap(), vec![]);
}

#[test]
fn rendering_escapes_reserved_characters() {
    assert_eq!(escape_text("a<b>&\"c\"'d'"), "a&lt;b&gt;&amp;&quot;c&quot;&apos;d&apos;");
    assert_eq!(
        render_paragraph("x & y < z").unwrap(),
        "<speak xml:lang=\"es-ES\"><p>x &amp; y &lt; z</p></speak>"
    );
}

#[test]
fn escaping_distinguishes_reserved_characters() {
    let inputs = ["&", "<", ">", "\"", "'", "&amp;", "&lt;"];
    let escaped: Vec<String> = inputs.iter().map(|s| escape_text(s)).collect();
    for i in 0..escaped.len() {
        for j in 0..escaped.len() {
            assert_eq!(i == j, escaped[i] == escaped[j]);
        }
        assert!(!escaped[i].contains('<') && !escaped[i].contains('>'));
    }
}

#[test]
fn reduced_and_empty_emphasis_render() {
    let segments = vec![
        Segment::Emphasis {
            level: EmphasisLevel::Reduced,
            children: vec![text("suave")],
        },
        Segment::Emphasis {
            level: EmphasisLevel::Strong,
            children: vec![],
        },
        pause(15, PauseKind::Explicit),
    ];
    assert_eq!(
        render_segments(&segments),
        "<speak xml:lang=\"es-ES\"><p><emphasis level=\"reduced\">suave</emphasis><break time=\"15ms\"/></p></speak>"
    );
    assert_eq!(EmphasisLevel::Reduced.as_str(), "reduced");
}

#[test]
fn rendering_twice_is_identical() {
    let input = "**Muy *importante* aviso.** Respira [pause:2s] ahora, ¿sí?";
    assert_eq!(render_paragraph(input).unwrap(), render_paragraph(input).unwrap());
}

#[test]
fn no_break_inside_emphasis_and_no_empty_emphasis() {
    fn check(segments: &[Segment], inside: bool) {
        for s in segments {
            match s {
                Segment::Break(_) => assert!(!inside),
                Segment::Text(t) => assert!(!t.trim().is_empty()),
                Segment::Emphasis { children, .. } => {
                    assert!(!children.is_empty());
                    check(children, true);
                }
            }
        }
    }
    let segments = segment_paragraph("**Uno, *dos. tres* cuatro.** cinco [pause] *seis*").unwrap();
    check(&segments, false);
    let ssml = render_paragraph("**Uno, *dos. tres* cuatro.** cinco").unwrap();
    assert!(!ssml.contains("\"></emphasis>"));
}

#[test]
fn queue_renders_each_paragraph_or_fails() {
    let queue = vec!["Uno.".to_string(), "Dos".to_string()];
    let out = render_queue(&queue).unwrap();
    assert_eq!(out.len(), 2);
    assert_eq!(out[1], "<speak xml:lang=\"es-ES\"><p>Dos</p></speak>");
    let bad = vec!["Uno.".to_string(), "[pause:x]".to_string(), "[pause:y]".to_string()];
    assert_eq!(render_queue(&bad).unwrap_err(), SsmlError::InvalidPause("x".into()));
}

#[test]
fn empty_and_blank_paragraphs_render_an_empty_document() {
    let empty = "<speak xml:lang=\"es-ES\"><p></p></speak>";
    assert_eq!(render_paragraph("").unwrap(), empty);
    assert_eq!(render_paragraph("   \t ").unwrap(), empty);
    assert_eq!(render_paragraph("\\").unwrap(), empty);
    assert_eq!(segment_paragraph("").unwrap(), vec![]);
}

#[test]
fn strong_and_moderate_markers_toggle_by_level() {
    assert_eq!(
        parse_markup("**a*b*c**").unwrap(),
        vec![Segment::Emphasis {
            level: EmphasisLevel::Strong,
            children: vec![
                text("a"),
                Segment::Emphasis { level: EmphasisLevel::Moderate, children: vec![text("b")] },
                text("c"),
            ],
        }]
    );
    assert_eq!(
        parse_markup("*a **b").unwrap(),
        vec![Segment::Emphasis {
            level: EmphasisLevel::Moderate,
            children: vec![
                text("a "),
                Segment::Emphasis { level: EmphasisLevel::Strong, children: vec![text("b")] },
            ],
        }]
    );
}
