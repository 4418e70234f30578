use reader::{DictionaryEntry, PhoneticDictionary};
use std::path::PathBuf;

#[test]
fn transform_text_replaces_tokens() {
    let mut dictionary = PhoneticDictionary::new(PathBuf::from("memory"));
    dictionary.insert("gif", "JH IH1 F");
    dictionary.insert("Na", "N EY1");
    let text = "Play that GIF, Na!";
    let transformed = dictionary.transform_text(text);
    assert_eq!(transformed, "Play that JH IH1 F, N EY1!");
}

#[test]
fn empty_dictionary_leaves_text_alone() {
    let dictionary = PhoneticDictionary::new(PathBuf::from("memory"));
    assert!(dictionary.is_empty());
    assert_eq!(dictionary.transform_text("Hola, GIF!"), "Hola, GIF!");
    assert_eq!(dictionary.path(), &PathBuf::from("memory"));
}

#[test]
fn tokens_include_apostrophes_and_hyphens() {
    let mut dictionary = PhoneticDictionary::new(PathBuf::from("memory"));
    dictionary.insert("e-mail", "I MEIL");
    dictionary.insert("o'clock", "O KLOK");
    assert_eq!(
        dictionary.transform_text("my e-mail at 5 o'clock, e-mails"),
        "my I MEIL at 5 O KLOK, e-mails"
    );
}

#[test]
fn lookups_ignore_case_and_surrounding_whitespace() {
    let mut dictionary = PhoneticDictionary::new(PathBuf::from("memory"));
    assert_eq!(dictionary.insert(" SQL ", "S Q L"), None);
    assert_eq!(dictionary.get_phonemes("sql"), Some("S Q L"));
    assert_eq!(dictionary.get_phonemes("  Sql"), Some("S Q L"));
    assert_eq!(dictionary.get("SQL").unwrap().word, " SQL ");
    assert_eq!(dictionary.get_phonemes("sequel"), None);
}

#[test]
fn insert_replaces_and_returns_previous_entry() {
    let mut dictionary = PhoneticDictionary::new(PathBuf::from("memory"));
    dictionary.insert("gif", "G IH F");
    let previous = dictionary.insert("GIF", "JH IH1 F");
    assert_eq!(
        previous,
        Some(DictionaryEntry { word: "gif".into(), phonemes: "G IH F".into() })
    );
    assert_eq!(dictionary.entries().len(), 1);
    assert_eq!(dictionary.get_phonemes("gif"), Some("JH IH1 F"));
}

#[test]
fn upsert_and_remove() {
    let mut dictionary = PhoneticDictionary::new(PathBuf::from("memory"));
    let entry = DictionaryEntry { word: "Hola".into(), phonemes: "O LA".into() };
    assert_eq!(dictionary.upsert_entry(entry.clone()), None);
    dictionary.insert("mundo", "MUN DO");
    assert_eq!(dictionary.remove("HOLA"), Some(entry));
    assert_eq!(dictionary.remove("hola"), None);
    assert_eq!(dictionary.get_phonemes("mundo"), Some("MUN DO"));
    assert!(!dictionary.is_empty());
    dictionary.remove("mundo");
    assert!(dictionary.is_empty());
}

#[test]
fn later_entries_win_when_loading() {
    let dictionary = PhoneticDictionary::from_entries(
        PathBuf::from("lexicon.json"),
        vec![
            DictionaryEntry { word: "gif".into(), phonemes: "G IH F".into() },
            DictionaryEntry { word: "SQL".into(), phonemes: "S Q L".into() },
            DictionaryEntry { word: "GIF".into(), phonemes: "JH IH1 F".into() },
        ],
    );
    assert_eq!(dictionary.entries().len(), 2);
    assert_eq!(dictionary.get_phonemes("gif"), Some("JH IH1 F"));
    assert_eq!(dictionary.get_phonemes("sql"), Some("S Q L"));
}

#[test]
fn entries_are_saved_in_lowercase_word_order() {
    let dictionary = PhoneticDictionary::from_entries(
        PathBuf::from("lexicon.json"),
        vec![
            DictionaryEntry { word: "sql".into(), phonemes: "S Q L".into() },
            DictionaryEntry { word: "Zeta".into(), phonemes: "Z".into() },
            DictionaryEntry { word: "GIF".into(), phonemes: "JH IH1 F".into() },
            DictionaryEntry { word: "alfa".into(), phonemes: "A".into() },
        ],
    );
    let words: Vec<String> = dictionary.sorted_entries().into_iter().map(|e| e.word).collect();
    assert_eq!(words, vec!["alfa", "GIF", "sql", "Zeta"]);
}
