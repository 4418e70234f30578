use reader::extract_paragraphs;

#[test]
fn splits_paragraphs_on_blank_lines() {
    let text = "Linea uno\nLinea dos\n\nLinea tres";
    let paragraphs = extract_paragraphs(text);
    assert_eq!(paragraphs, vec!["Linea uno Linea dos", "Linea tres"]);
}

#[test]
fn trims_extra_whitespace() {
    let text = "  Hola   mundo  \n\n \t Otro parrafo \n";
    let paragraphs = extract_paragraphs(text);
    assert_eq!(paragraphs, vec!["Hola mundo", "Otro parrafo"]);
}

#[test]
fn ignores_multiple_blank_lines() {
    let text = "Uno\n\n\nDos";
    let paragraphs = extract_paragraphs(text);
    assert_eq!(paragraphs, vec!["Uno", "Dos"]);
}

#[test]
fn empty_and_blank_text_has_no_paragraphs() {
    assert!(extract_paragraphs("").is_empty());
    assert!(extract_paragraphs(" \n\t\n  ").is_empty());
}

#[test]
fn windows_line_endings_and_leading_blank_lines() {
    assert_eq!(
        extract_paragraphs("\r\n\r\nUno\r\ndos\r\n \r\ntres"),
        vec!["Uno dos", "tres"]
    );
}

#[test]
fn import_request_yields_paragraphs() {
    let request = reader::ImportTextRequest { text: "Uno\n\nDos  tres".to_string() };
    assert_eq!(reader::import_text(request), vec!["Uno", "Dos tres"]);
}
