use reader::encode::{default_format, needs_ffmpeg, normalized_format};
use reader::{CommandError, CommandFailure};

#[test]
fn failures_map_to_codes_and_messages() {
    let e = CommandError::from_failure(CommandFailure::VoiceNotFound("/v/es.onnx".into()));
    assert_eq!(e, CommandError::new("VOICE_NOT_FOUND", "Voice model not found: /v/es.onnx".into(), None));
    let e = CommandError::from_failure(CommandFailure::UnknownVoice("es-ES".into()));
    assert_eq!(e.message, "Voice 'es-ES' is not available");
    assert_eq!(e.code, "VOICE_NOT_FOUND");
    let e = CommandError::from_failure(CommandFailure::SpawnFailure("not found".into()));
    assert_eq!((e.code.as_str(), e.details.as_deref()), ("IO_ERROR", Some("not found")));
    let e = CommandError::from_failure(CommandFailure::PiperFailure { status: 2, stderr: "boom".into() });
    assert_eq!(e.message, "Piper exited with status 2");
    assert_eq!(e.details, Some("boom".to_string()));
    assert_eq!(e.code, "PROCESS_FAILED");
    let e = CommandError::from_failure(CommandFailure::PiperFailure { status: -2147483648, stderr: String::new() });
    assert_eq!(e.message, "Piper exited with status -2147483648");
    assert_eq!(e.details, None);
    let e = CommandError::from_failure(CommandFailure::Other("Failed to build SSML".into()));
    assert_eq!((e.code.as_str(), e.message.as_str()), ("INTERNAL_ERROR", "Failed to build SSML"));
}

#[test]
fn export_formats() {
    assert_eq!(default_format(), "mp3");
    assert_eq!(normalized_format("MP3"), "mp3");
    assert!(needs_ffmpeg(&normalized_format("Mp3")));
    assert!(!needs_ffmpeg("wav"));
    assert!(!needs_ffmpeg("MP3"));
}
