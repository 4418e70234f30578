use reader::voices::{
    build_label, format_language_label, is_voice_metadata, is_voice_model, register_voice,
    sort_voices, title_case, voice_basename, voice_id_from_basename, AudioMetadata,
    LanguageMetadata, ReaderMetadata, VoiceMetadata, VoicePreference,
};

fn carlfm_metadata() -> VoiceMetadata {
    VoiceMetadata {
        language: Some(LanguageMetadata {
            code: Some("es_ES".into()),
            name_native: Some("Español".into()),
            name_english: None,
        }),
        dataset: Some("carlfm".into()),
        audio: Some(AudioMetadata { quality: Some("x_low".into()) }),
        reader: None,
    }
}

#[test]
fn discovers_voice_from_metadata_file_name() {
    let file_name = "es_ES-carlfm-x_low.onnx.json";
    assert!(is_voice_metadata(file_name));
    let basename = voice_basename(file_name).unwrap();
    assert_eq!(basename, "es_ES-carlfm-x_low");
    let mut voices = Vec::new();
    register_voice(&mut voices, basename, Some(carlfm_metadata()));
    assert_eq!(voices.len(), 1);
    assert_eq!(voices[0].id, "es-ES-carlfm-x-low");
    assert!(voices[0].label.contains("es-ES"));
    assert!(voices[0].label.contains("Español") || voices[0].label.contains("CARLFM"));
    assert_eq!(voices[0].label, "es-ES - Español - Carlfm - X Low");
}

#[test]
fn file_names_are_classified() {
    assert!(is_voice_metadata("a.onnx.json"));
    assert!(!is_voice_metadata("a.onnx.JSON"));
    assert!(!is_voice_metadata("a.json"));
    assert!(is_voice_model("voz.onnx"));
    assert!(is_voice_model("voz.ONNX"));
    assert!(!is_voice_model(".onnx"));
    assert!(!is_voice_model("onnx"));
    assert!(!is_voice_model("voz.onnx.json"));
    assert_eq!(voice_basename("voz.onnx"), Some("voz".to_string()));
    assert_eq!(voice_basename("voz.wav"), None);
    assert_eq!(voice_id_from_basename("es_MX_ald"), "es-MX-ald");
}

#[test]
fn duplicate_ids_are_registered_once() {
    let mut voices = Vec::new();
    register_voice(&mut voices, "es_ES-a".into(), None);
    register_voice(&mut voices, "es-ES-a".into(), Some(carlfm_metadata()));
    assert_eq!(voices.len(), 1);
    assert_eq!(voices[0].label, "Es ES A");
}

#[test]
fn labels_prefer_reader_label_then_metadata_then_name() {
    let mut m = carlfm_metadata();
    m.reader = Some(ReaderMetadata { label: Some("  Carlos  ".into()) });
    assert_eq!(build_label("x", Some(&m)), "Carlos");
    m.reader = Some(ReaderMetadata { label: Some("   ".into()) });
    assert_eq!(build_label("x", Some(&m)), "es-ES - Español - Carlfm - X Low");
    let empty = VoiceMetadata::default();
    assert_eq!(build_label("es_ES-davefx-medium", Some(&empty)), "Es ES Davefx Medium");
    assert_eq!(build_label("es_ES-davefx-medium", None), "Es ES Davefx Medium");
}

#[test]
fn language_label_falls_back_to_english_name() {
    let m = VoiceMetadata {
        language: Some(LanguageMetadata {
            code: None,
            name_native: Some(" ".into()),
            name_english: Some("Spanish".into()),
        }),
        ..VoiceMetadata::default()
    };
    assert_eq!(format_language_label(&m), Some("Spanish".to_string()));
    let m = VoiceMetadata {
        language: Some(LanguageMetadata { code: Some("ca_ES".into()), name_native: None, name_english: None }),
        ..VoiceMetadata::default()
    };
    assert_eq!(format_language_label(&m), Some("ca-ES".to_string()));
    assert_eq!(format_language_label(&VoiceMetadata::default()), None);
}

#[test]
fn title_case_keeps_capitals_and_capitalises_words() {
    assert_eq!(title_case("x_low"), "X Low");
    assert_eq!(title_case("CARLFM"), "CARLFM");
    assert_eq!(title_case("--hola__MUNDO  éxito-"), "Hola MUNDO Éxito");
    assert_eq!(title_case(""), "");
}

#[test]
fn voices_are_ordered_by_label_then_id() {
    let v = |id: &str, label: &str| VoicePreference { id: id.into(), label: label.into() };
    let sorted = sort_voices(vec![v("c", "Beta"), v("b", "Alpha"), v("a", "Beta"), v("d", "Ábaco")]);
    assert_eq!(sorted, vec![v("b", "Alpha"), v("a", "Beta"), v("c", "Beta"), v("d", "Ábaco")]);
    assert!(sort_voices(vec![]).is_empty());
}
