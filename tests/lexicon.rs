use reader::lexicon::{replace_literal, Lexicon, LexiconEntry, LexiconError, UpsertPayload};

fn entry(text: &str, phonemes: &str, case_sensitive: bool) -> LexiconEntry {
    LexiconEntry { text: text.into(), phonemes: phonemes.into(), case_sensitive }
}

#[test]
fn replaces_case_insensitive() {
    let lexicon = Lexicon { entries: vec![entry("Hola", "O LA", false)] };
    assert_eq!(lexicon.apply_replacements("hola mundo"), "O LA mundo");
}

#[test]
fn case_sensitive_entries_replace_exact_text() {
    let lexicon = Lexicon { entries: vec![entry("Hola", "O LA", true), entry("mundo", "MUN DO", false)] };
    assert_eq!(lexicon.apply_replacements("hola Hola MUNDO"), "hola O LA MUN DO");
    assert_eq!(Lexicon::default().apply_replacements("sin cambios"), "sin cambios");
}

#[test]
fn case_blind_entries_are_literal_patterns() {
    let lexicon = Lexicon { entries: vec![entry("a.b", "X", false)] };
    assert_eq!(lexicon.apply_replacements("aXb A.B"), "aXb X");
}

#[test]
fn literal_replacement() {
    assert_eq!(replace_literal("aaa", "aa", "b"), "ba");
    assert_eq!(replace_literal("abc", "", "-"), "-a-b-c-");
    assert_eq!(replace_literal("", "", "-"), "-");
    assert_eq!(replace_literal("abc", "x", "y"), "abc");
}

#[test]
fn upsert_adds_updates_and_rejects_duplicates() {
    let mut lexicon = Lexicon::default();
    let payload = |t: &str, p: &str, c: bool| UpsertPayload { text: t.into(), phonemes: p.into(), case_sensitive: c };
    assert_eq!(lexicon.upsert(payload("gif", "G IH F", false)), Ok(()));
    assert_eq!(lexicon.upsert(payload("sql", "S Q L", false)), Ok(()));
    assert_eq!(lexicon.upsert(payload("gif", "JH IH F", true)), Ok(()));
    assert_eq!(lexicon.entries, vec![entry("gif", "JH IH F", true), entry("sql", "S Q L", false)]);
    assert_eq!(
        lexicon.upsert(payload("gif", "JH IH F", false)),
        Err(LexiconError::Duplicate("gif".into()))
    );
    assert_eq!(lexicon.entries.len(), 2);
}

#[test]
fn delete_removes_every_entry_with_the_text() {
    let mut lexicon = Lexicon {
        entries: vec![entry("a", "1", true), entry("b", "2", true), entry("a", "3", false)],
    };
    lexicon.delete("a");
    assert_eq!(lexicon.entries, vec![entry("b", "2", true)]);
    lexicon.delete("zzz");
    assert_eq!(lexicon.entries.len(), 1);
}
