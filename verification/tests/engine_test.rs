//! Segment text assembly and the engine's settings.

use harken::engine::{assemble_text, join_segments, missing_audio_message, WhisperCppEngine};

fn strings(list: &[&str]) -> Vec<String> {
    list.iter().map(|s| s.to_string()).collect()
}

#[test]
fn assemble_result_strips_leading_space_from_segment_text() {
    let segments = strings(&[" Hello", " world."]);

    let (texts, text) = assemble_text(&segments);

    assert_eq!(text, "Hello world.");
    assert_eq!(texts[0], "Hello");
    assert_eq!(texts[1], "world.");
}

#[test]
fn assemble_trims_unicode_white_space_on_both_ends() {
    let segments = strings(&["\u{3000}Olá\u{A0}", "\tmundo \n"]);

    let (texts, text) = assemble_text(&segments);

    assert_eq!(texts, strings(&["Olá", "mundo"]));
    assert_eq!(text, "Olá mundo");
}

#[test]
fn join_segments_uses_single_spaces() {
    assert_eq!(join_segments(&strings(&[])), "");
    assert_eq!(join_segments(&strings(&["a"])), "a");
    assert_eq!(join_segments(&strings(&["a", "b", "c"])), "a b c");
}

#[test]
fn engine_settings() {
    let e = WhisperCppEngine::new("small".to_string(), "cpu".to_string(), None);
    assert_eq!(e.model(), "small");
    assert!(!e.use_gpu());
    assert_eq!(e.language_param(), "auto");
    assert_eq!(e.reported_language(Some("en".to_string())), "en");
    assert_eq!(e.reported_language(None), "unknown");

    let forced = WhisperCppEngine::new("m.bin".to_string(), "cuda".to_string(), Some("pt".to_string()));
    assert!(forced.use_gpu());
    assert_eq!(forced.language_param(), "pt");
    assert_eq!(forced.reported_language(Some("en".to_string())), "pt");
}

#[test]
fn missing_audio_message_names_the_path() {
    assert_eq!(missing_audio_message("/x/nope.opus"), "Audio file not found: /x/nope.opus");
}

#[test]
fn blank_segments_add_no_space() {
    let (texts, text) = assemble_text(&strings(&[" a", "  ", " b"]));

    assert_eq!(texts, strings(&["a", "", "b"]));
    assert_eq!(text, "a b");

    let (_, none) = assemble_text(&strings(&[" ", ""]));
    assert_eq!(none, "");
}
