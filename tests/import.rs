use reader::import::{sections_from, DocumentSection, RawSection};

#[test]
fn sections_keep_order_and_fields() {
    let raw = vec![
        RawSection { id: Some("1".into()), heading: Some("Uno".into()), content: Some("Hola".into()) },
        RawSection { id: None, heading: None, content: Some("Mundo".into()) },
    ];
    assert_eq!(
        sections_from(raw).unwrap(),
        vec![
            DocumentSection { id: Some("1".into()), heading: Some("Uno".into()), content: "Hola".into() },
            DocumentSection { id: None, heading: None, content: "Mundo".into() },
        ]
    );
    assert!(sections_from(vec![]).unwrap().is_empty());
}

#[test]
fn missing_content_is_invalid_response() {
    let err = sections_from(vec![RawSection { id: None, heading: None, content: None }]).unwrap_err();
    assert_eq!(err.code, "INVALID_RESPONSE");
    let raw = vec![
        RawSection { id: None, heading: None, content: Some("a".into()) },
        RawSection { id: None, heading: Some("b".into()), content: None },
    ];
    let err = sections_from(raw).unwrap_err();
    assert_eq!(err.code, "INVALID_RESPONSE");
    assert_eq!(err.message, "Section is missing the content field");
    assert_eq!(err.details, None);
}
