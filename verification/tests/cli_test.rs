//! Command-line defaults and the meaning of `--lang`.

use harken::cli::{
    language_option, BatchArgs, DEFAULT_DEVICE, DEFAULT_FORMAT, DEFAULT_LANG, DEFAULT_MODEL,
    DEFAULT_OUT,
};
use harken::writers::OutputFormat;

#[test]
fn parser_defaults() {
    let batch = BatchArgs::with_defaults(vec!["a.wav".to_string()]);

    assert_eq!(batch.inputs, vec!["a.wav"]);
    assert_eq!(batch.out, "./transcripts");
    assert_eq!(batch.model, "small");
    assert_eq!(batch.lang, "pt");
    assert_eq!(batch.format, OutputFormat::Txt);
    assert_eq!(batch.device, "cpu");
    assert!(!batch.force);
}

#[test]
fn lang_auto_maps_to_none() {
    assert_eq!(language_option("auto"), None);
}

#[test]
fn default_lang_pt_passed_through() {
    let batch = BatchArgs::with_defaults(vec!["a.wav".to_string()]);

    assert_eq!(language_option(&batch.lang), Some("pt".to_string()));
}

#[test]
fn language_option_keeps_other_values_verbatim() {
    assert_eq!(language_option("AUTO"), Some("AUTO".to_string()));
    assert_eq!(language_option(""), Some(String::new()));
}

#[test]
fn output_format_extensions() {
    assert_eq!(OutputFormat::Txt.extension(), "txt");
    assert_eq!(OutputFormat::Json.extension(), "json");
    assert_eq!(OutputFormat::Srt.extension(), "srt");
    assert_eq!(OutputFormat::Md.extension(), "md");
}

#[test]
fn defaults_the_command_line_uses() {
    assert_eq!(DEFAULT_OUT, "./transcripts");
    assert_eq!(DEFAULT_MODEL, "small");
    assert_eq!(DEFAULT_LANG, "pt");
    assert_eq!(DEFAULT_DEVICE, "cpu");
    assert_eq!(DEFAULT_FORMAT, OutputFormat::Txt);
}
