//! Byte-exact output documents: txt, srt and md.

use harken::writers::{hms_millis, md_document, srt_document, txt_document, Cue};

fn cue(start_ms: i64, end_ms: i64, text: &str) -> Cue {
    Cue { start_ms, end_ms, text: text.to_string() }
}

fn sample_cues() -> Vec<Cue> {
    vec![cue(0, 1500, "Hello"), cue(1500, 3750, "world.")]
}

#[test]
fn write_txt_is_plain_text_with_trailing_newline() {
    assert_eq!(txt_document("Hello world."), "Hello world.\n");
}

#[test]
fn write_srt_uses_standard_numbering_and_timestamps() {
    let expected = "1\n\
                    00:00:00,000 --> 00:00:01,500\n\
                    Hello\n\
                    \n\
                    2\n\
                    00:00:01,500 --> 00:00:03,750\n\
                    world.\n\
                    \n";
    assert_eq!(srt_document(&sample_cues()), expected);
}

#[test]
fn write_srt_formats_hour_and_millisecond_boundaries() {
    // 3661.234 s and 3662.0 s, rounded to the millisecond.
    let cues = vec![cue(3_661_234, 3_662_000, "late segment")];

    assert_eq!(
        srt_document(&cues),
        "1\n01:01:01,234 --> 01:01:02,000\nlate segment\n\n"
    );
}

#[test]
fn write_md_titles_by_stem_and_prefixes_each_segment_with_a_timestamp() {
    let expected = "# note\n\
                    \n\
                    [00:00:00] Hello\n\
                    [00:00:01] world.\n";
    assert_eq!(md_document("/tmp/x/note.opus", &sample_cues()), expected);
}

#[test]
fn write_md_formats_hour_boundaries_and_truncates_to_the_second() {
    let cues = vec![cue(3_661_987, 3_662_000, "late segment")];

    assert_eq!(
        md_document("/tmp/x/long.opus", &cues),
        "# long\n\n[01:01:01] late segment\n"
    );
}

#[test]
fn write_md_with_no_segments_is_just_the_title() {
    assert_eq!(md_document("/tmp/x/silent.opus", &[]), "# silent\n\n");
}

#[test]
fn hms_millis_splits_and_recombines() {
    assert_eq!(hms_millis(3_661_234), (1, 1, 1, 234));
    assert_eq!(hms_millis(0), (0, 0, 0, 0));
    assert_eq!(hms_millis(359_999_999), (99, 59, 59, 999));
    assert_eq!(hms_millis(-1_500), (0, 0, -1, -500));
    let (h, m, s, ms) = hms_millis(123_456_789);
    assert_eq!(h * 3_600_000 + m * 60_000 + s * 1000 + ms, 123_456_789);
}

#[test]
fn srt_pads_hours_beyond_two_digits() {
    let cues = vec![cue(360_000_000, 360_000_001, "x")];
    assert_eq!(srt_document(&cues), "1\n100:00:00,000 --> 100:00:00,001\nx\n\n");
}

#[test]
fn txt_of_an_assembled_transcript_ends_with_one_newline() {
    let (_, text) = harken::engine::assemble_text(&["a ".to_string(), " \n".to_string()]);
    let doc = txt_document(&text);
    assert!(doc.ends_with('\n'));
    assert!(!doc.ends_with("\n\n"));
}
