//! Chat-export parsing, selection, merging and the run's planning steps.

use harken::cli::WhatsappArgs;
use harken::date::Date;
use harken::whatsapp::{
    audio_dir, build_merged_chat, decode_chat_text, default_out_dir, extract_attachment,
    extracted_path, find_attachment_member, find_chat_entry, fmt_opt, is_audio_attachment,
    output_dir, parse_chat, parse_date_bounds, plan_extractions, select_audio_messages,
    selection_transcripts, Extraction, Message,
};
use harken::writers::OutputFormat;

const U200E: &str = "\u{200E}";

fn d(year: i32, month: u32, day: u32) -> Date {
    Date::from_ymd_opt(year, month, day).unwrap()
}

fn names(list: &[&str]) -> Vec<String> {
    list.iter().map(|s| s.to_string()).collect()
}

fn transcripts(list: &[(&str, &str)]) -> Vec<(String, String)> {
    list.iter().map(|(k, v)| (k.to_string(), v.to_string())).collect()
}

// --- find_chat_entry -------------------------------------------------------

#[test]
fn test_find_chat_entry_prefers_name_ending_in_chat_txt() {
    let names = names(&[
        "WhatsApp Chat with Bob/_chat.txt",
        "WhatsApp Chat with Bob/00001.opus",
    ]);

    assert_eq!(
        find_chat_entry(&names).unwrap(),
        "WhatsApp Chat with Bob/_chat.txt"
    );
}

#[test]
fn test_find_chat_entry_falls_back_to_single_root_txt() {
    let names = names(&["notes.txt", "00001.opus"]);

    assert_eq!(find_chat_entry(&names).unwrap(), "notes.txt");
}

#[test]
fn test_find_chat_entry_errors_when_ambiguous() {
    let names = names(&["a.txt", "b.txt"]);

    assert!(find_chat_entry(&names).is_err());
}

#[test]
fn test_find_chat_entry_errors_when_none_found() {
    assert!(find_chat_entry(&names(&["00001.opus"])).is_err());
}

// --- find_attachment_member --------------------------------------------------

#[test]
fn test_find_attachment_member_exact_match() {
    let names = names(&["_chat.txt", "00001.opus"]);

    assert_eq!(
        find_attachment_member(&names, "00001.opus"),
        Some("00001.opus".to_string())
    );
}

#[test]
fn test_find_attachment_member_nested_path() {
    let names = names(&["export/_chat.txt", "export/00001.opus"]);

    assert_eq!(
        find_attachment_member(&names, "00001.opus"),
        Some("export/00001.opus".to_string())
    );
}

#[test]
fn test_find_attachment_member_missing_returns_none() {
    let names = names(&["_chat.txt"]);

    assert_eq!(find_attachment_member(&names, "00001.opus"), None);
}

// --- extract_attachment ------------------------------------------------------

#[test]
fn test_extract_attachment_anexado() {
    assert_eq!(
        extract_attachment("\u{200E}<anexado: 00001-AUDIO.opus>"),
        Some("00001-AUDIO.opus")
    );
}

#[test]
fn test_extract_attachment_attached() {
    assert_eq!(
        extract_attachment("<attached: 00001-AUDIO.opus>"),
        Some("00001-AUDIO.opus")
    );
}

#[test]
fn test_extract_attachment_none_when_absent() {
    assert_eq!(extract_attachment("fica no aguardo ai"), None);
}

// --- is_audio_attachment ------------------------------------------------------

#[test]
fn test_is_audio_attachment_true_for_opus() {
    assert!(is_audio_attachment("00001-AUDIO.opus"));
}

#[test]
fn test_is_audio_attachment_false_for_image() {
    assert!(!is_audio_attachment("00004-IMG.jpg"));
}

// --- parse_chat ---------------------------------------------------------------

#[test]
fn test_parse_chat_single_message() {
    let text = format!("{U200E}[10/07/2026, 09:00:00] Alice: fica no aguardo ai");

    let messages = parse_chat(&text);

    assert_eq!(
        messages,
        vec![Message {
            date: d(2026, 7, 10),
            time: "09:00:00".to_string(),
            sender: "Alice".to_string(),
            body: "fica no aguardo ai".to_string(),
            line_index: 0,
        }]
    );
}

#[test]
fn test_parse_chat_strips_invisible_marks_around_attachment() {
    let text = format!("{U200E}[13/07/2026, 21:04:39] Bob: {U200E}<anexado: 00001935-AUDIO.opus>");

    let messages = parse_chat(&text);

    assert_eq!(messages.len(), 1);
    assert_eq!(messages[0].body, "<anexado: 00001935-AUDIO.opus>");
    assert_eq!(
        extract_attachment(&messages[0].body),
        Some("00001935-AUDIO.opus")
    );
}

#[test]
fn test_parse_chat_joins_continuation_lines() {
    let text = "[11/07/2026, 10:00:00] Bob: primeira parte\nsegunda parte (continuacao)";

    let messages = parse_chat(text);

    assert_eq!(messages.len(), 1);
    assert_eq!(
        messages[0].body,
        "primeira parte\nsegunda parte (continuacao)"
    );
}

#[test]
fn test_parse_chat_leading_system_line_is_ignored() {
    let text = "Messages and calls are end-to-end encrypted.\n[10/07/2026, 09:00:00] Alice: oi";

    let messages = parse_chat(text);

    assert_eq!(messages.len(), 1);
    assert_eq!(messages[0].line_index, 1);
}

#[test]
fn test_parse_chat_android_single_message() {
    let text = "10/07/2026, 21:04 - Bob: fica no aguardo ai";

    let messages = parse_chat(text);

    assert_eq!(
        messages,
        vec![Message {
            date: d(2026, 7, 10),
            time: "21:04".to_string(),
            sender: "Bob".to_string(),
            body: "fica no aguardo ai".to_string(),
            line_index: 0,
        }]
    );
}

#[test]
fn test_parse_chat_android_without_comma_after_date() {
    let text = "10/07/2026 21:04 - Bob: oi";

    let messages = parse_chat(text);

    assert_eq!(messages.len(), 1);
    assert_eq!(messages[0].date, d(2026, 7, 10));
    assert_eq!(messages[0].sender, "Bob");
}

#[test]
fn test_parse_chat_android_two_digit_year() {
    let text = "10/07/26, 21:04 - Bob: oi";

    let messages = parse_chat(text);

    assert_eq!(messages.len(), 1);
    assert_eq!(messages[0].date, d(2026, 7, 10));
}

#[test]
fn test_parse_chat_android_12h_time_with_narrow_nbsp() {
    let narrow_nbsp = "\u{202F}";
    let text = format!("13/07/26, 9:05{narrow_nbsp}PM - Bob: hi");

    let messages = parse_chat(&text);

    assert_eq!(messages.len(), 1);
    assert_eq!(messages[0].date, d(2026, 7, 13));
    assert_eq!(messages[0].time, format!("9:05{narrow_nbsp}PM"));
}

#[test]
fn test_parse_chat_android_day_first_when_first_component_exceeds_12() {
    let text = "10/07/2026, 21:04 - Bob: oi\n13/07/2026, 21:05 - Bob: tudo certo";

    let messages = parse_chat(text);

    let dates: Vec<Date> = messages.iter().map(|m| m.date).collect();
    assert_eq!(dates, vec![d(2026, 7, 10), d(2026, 7, 13)]);
}

#[test]
fn test_parse_chat_android_month_first_when_second_component_exceeds_12() {
    let text = "7/10/26, 9:04 PM - Bob: hi\n7/13/26, 9:05 PM - Bob: all good";

    let messages = parse_chat(text);

    let dates: Vec<Date> = messages.iter().map(|m| m.date).collect();
    assert_eq!(dates, vec![d(2026, 7, 10), d(2026, 7, 13)]);
}

#[test]
fn test_parse_chat_android_ambiguous_dates_default_day_first() {
    let text = "05/07/2026, 21:04 - Bob: oi";

    let messages = parse_chat(text);

    assert_eq!(messages[0].date, d(2026, 7, 5));
}

#[test]
fn test_parse_chat_android_joins_continuation_lines() {
    let text = "11/07/2026, 10:00 - Bob: primeira parte\nsegunda parte (continuacao)";

    let messages = parse_chat(text);

    assert_eq!(messages.len(), 1);
    assert_eq!(
        messages[0].body,
        "primeira parte\nsegunda parte (continuacao)"
    );
}

#[test]
fn test_parse_chat_android_leading_system_line_is_ignored() {
    let text = "10/07/2026, 21:00 - Messages and calls are end-to-end encrypted. \
                Tap to learn more.\n\
                10/07/2026, 21:04 - Bob: oi";

    let messages = parse_chat(text);

    assert_eq!(messages.len(), 1);
    assert_eq!(messages[0].sender, "Bob");
    assert_eq!(messages[0].line_index, 1);
}

#[test]
fn test_parse_chat_does_not_mix_formats() {
    let text = "10/07/2026, 21:04 - Bob: olha esse formato:\n\
                [10/07/2026, 09:00:00] Alice: nao sou uma mensagem";

    let messages = parse_chat(text);

    assert_eq!(messages.len(), 1);
    assert_eq!(messages[0].sender, "Bob");
    assert_eq!(messages[0].line_index, 0);
    assert!(messages[0].body.contains("nao sou uma mensagem"));
}

#[test]
fn parse_chat_invalid_calendar_date_is_a_continuation() {
    let text = "[10/07/2026, 09:00:00] Alice: oi\n[31/02/2026, 09:01:00] Bob: nope";

    let messages = parse_chat(text);

    assert_eq!(messages.len(), 1);
    assert_eq!(messages[0].body, "oi\n[31/02/2026, 09:01:00] Bob: nope");
}

#[test]
fn parse_chat_invalid_date_does_not_flip_day_order() {
    let text = "3/4/26, 9:04 - Bob: a\n99/99/26, 9:05 - Bob: b\n5/6/26, 9:06 - Bob: c";

    let messages = parse_chat(text);

    assert_eq!(messages.len(), 2);
    assert_eq!(messages[0].date, d(2026, 4, 3));
    assert_eq!(messages[0].body, "a\n99/99/26, 9:05 - Bob: b");
    assert_eq!(messages[1].date, d(2026, 6, 5));
}

#[test]
fn parse_chat_crlf_lines_and_empty_text() {
    assert!(parse_chat("").is_empty());
    let messages = parse_chat("[10/07/2026, 09:00:00] Alice: oi\r\n");
    assert_eq!(messages.len(), 1);
    assert_eq!(messages[0].body, "oi");
}

// --- extract_attachment: Android format ------------------------------------------

#[test]
fn test_extract_attachment_android_file_attached() {
    assert_eq!(
        extract_attachment("PTT-20260710-WA0001.opus (file attached)"),
        Some("PTT-20260710-WA0001.opus")
    );
}

#[test]
fn test_extract_attachment_android_arquivo_anexado() {
    assert_eq!(
        extract_attachment("PTT-20260710-WA0001.opus (arquivo anexado)"),
        Some("PTT-20260710-WA0001.opus")
    );
}

#[test]
fn test_extract_attachment_android_media_omitted_returns_none() {
    assert_eq!(extract_attachment("<Media omitted>"), None);
}

#[test]
fn extract_attachment_round_trips_a_marker() {
    let name = "voice note 01.opus";
    let body = format!("<attached: {name}> later text");
    assert_eq!(extract_attachment(&body), Some(name));
}

// --- select_audio_messages -----------------------------------------------------

fn msg(day: u32, filename: Option<&str>) -> Message {
    let body = match filename {
        Some(f) => format!("<anexado: {f}>"),
        None => "texto qualquer".to_string(),
    };
    Message {
        date: d(2026, 7, day),
        time: "09:00:00".to_string(),
        sender: "Bob".to_string(),
        body,
        line_index: day as usize,
    }
}

#[test]
fn test_select_audio_messages_filters_non_attachment() {
    let messages = vec![msg(10, None)];

    assert!(select_audio_messages(&messages, None, None).is_empty());
}

#[test]
fn test_select_audio_messages_filters_non_audio_attachment() {
    let messages = vec![msg(10, Some("photo.jpg"))];

    assert!(select_audio_messages(&messages, None, None).is_empty());
}

#[test]
fn test_select_audio_messages_inclusive_date_bounds() {
    let messages = vec![
        msg(9, Some("a.opus")),
        msg(10, Some("b.opus")),
        msg(12, Some("c.opus")),
        msg(13, Some("d.opus")),
    ];

    let selected = select_audio_messages(&messages, Some(d(2026, 7, 10)), Some(d(2026, 7, 12)));

    let bodies: Vec<&str> = selected.iter().map(|m| m.body.as_str()).collect();
    assert_eq!(bodies, vec!["<anexado: b.opus>", "<anexado: c.opus>"]);
}

#[test]
fn test_select_audio_messages_no_bounds_selects_all_audio() {
    let messages = vec![msg(9, Some("a.opus")), msg(20, Some("b.opus"))];

    let selected = select_audio_messages(&messages, None, None);

    assert_eq!(selected.len(), 2);
}

// --- default_out_dir -----------------------------------------------------------

#[test]
fn test_default_out_dir_from_zip_stem() {
    assert_eq!(
        default_out_dir("chat_export.zip"),
        "./chat_export-transcripts".to_string()
    );
}

#[test]
fn output_dirs_follow_out_or_the_zip_stem() {
    assert_eq!(output_dir(&None, "/x/chat.zip"), "./chat-transcripts");
    assert_eq!(output_dir(&Some("/tmp/out".to_string()), "/x/chat.zip"), "/tmp/out");
    assert_eq!(audio_dir("/tmp/out"), "/tmp/out/audio");
    assert_eq!(audio_dir("/tmp/out/"), "/tmp/out/audio");
}

// --- build_merged_chat ----------------------------------------------------------

#[test]
fn test_build_merged_chat_inserts_transcript_after_attachment_line_only() {
    let raw_text = "[10/07/2026, 09:00:00] Alice: oi\n\
                    [10/07/2026, 09:05:00] Bob: <anexado: a.opus>\n\
                    [20/07/2026, 09:00:00] Bob: <anexado: b.opus>\n";
    let messages = parse_chat(raw_text);
    let audio_dir = "/tmp/out/audio";
    let transcripts = vec![(extracted_path(audio_dir, "a.opus"), "oi tudo bem".to_string())];

    let merged = build_merged_chat(raw_text, &messages, &transcripts, audio_dir);

    let lines: Vec<&str> = merged.lines().collect();
    assert_eq!(lines[0], "[10/07/2026, 09:00:00] Alice: oi");
    assert_eq!(lines[1], "[10/07/2026, 09:05:00] Bob: <anexado: a.opus>");
    assert_eq!(lines[2], "    >> [transcript] oi tudo bem");
    assert_eq!(lines[3], "[20/07/2026, 09:00:00] Bob: <anexado: b.opus>");
    assert_eq!(lines.len(), 4);
}

#[test]
fn test_build_merged_chat_normalizes_attachment_path_component() {
    let raw_text = "[10/07/2026, 09:05:00] Bob: <anexado: media/a.opus>\n";
    let messages = parse_chat(raw_text);
    let audio_dir = "/tmp/out/audio";
    let transcripts = vec![(extracted_path(audio_dir, "a.opus"), "oi tudo bem".to_string())];

    let merged = build_merged_chat(raw_text, &messages, &transcripts, audio_dir);

    let lines: Vec<&str> = merged.lines().collect();
    assert_eq!(
        lines[0],
        "[10/07/2026, 09:05:00] Bob: <anexado: media/a.opus>"
    );
    assert_eq!(lines[1], "    >> [transcript] oi tudo bem");
}

#[test]
fn test_build_merged_chat_preserves_continuation_lines_untouched() {
    let raw_text = "[11/07/2026, 10:00:00] Bob: primeira parte\n\
                    segunda parte (continuacao)\n";
    let messages = parse_chat(raw_text);

    let merged = build_merged_chat(raw_text, &messages, &Vec::new(), "/tmp/out/audio");

    assert_eq!(merged, raw_text);
}

#[test]
fn build_merged_chat_last_transcript_for_a_path_wins() {
    let raw_text = "[10/07/2026, 09:05:00] Bob: <anexado: a.opus>";
    let messages = parse_chat(raw_text);
    let t = transcripts(&[("/o/audio/a.opus", "first"), ("/o/audio/a.opus", "second")]);

    let merged = build_merged_chat(raw_text, &messages, &t, "/o/audio");

    assert_eq!(
        merged,
        "[10/07/2026, 09:05:00] Bob: <anexado: a.opus>\n    >> [transcript] second\n"
    );
}

#[test]
fn extracted_path_keeps_only_the_file_name() {
    assert_eq!(extracted_path("/o/audio", "media/sub/a.opus"), "/o/audio/a.opus");
    assert_eq!(extracted_path("/o/audio", "a.opus"), "/o/audio/a.opus");
}

// --- selection, extraction, dates, decoding --------------------------------------

#[test]
fn selection_transcripts_drops_entries_outside_this_run() {
    let selected = vec![msg(10, Some("a.opus"))];
    let entries = transcripts(&[
        ("/o/audio/a.opus", "kept"),
        ("/o/audio/z.opus", "stale"),
    ]);

    let kept = selection_transcripts(&entries, &selected, "/o/audio");

    assert_eq!(kept, transcripts(&[("/o/audio/a.opus", "kept")]));
}

#[test]
fn plan_extractions_reports_missing_members() {
    let names = names(&["export/_chat.txt", "export/a.opus"]);
    let selected = vec![msg(10, Some("a.opus")), msg(11, Some("gone.opus"))];

    let plan = plan_extractions(&names, &selected, "/o/audio");

    assert_eq!(plan.len(), 2);
    match &plan[0] {
        Extraction::Extract { member, dest } => {
            assert_eq!(member, "export/a.opus");
            assert_eq!(dest, "/o/audio/a.opus");
        }
        other => panic!("unexpected {other:?}"),
    }
    match &plan[1] {
        Extraction::Missing { filename } => assert_eq!(filename, "gone.opus"),
        other => panic!("unexpected {other:?}"),
    }
}

#[test]
fn parse_date_bounds_accepts_iso_and_reports_both_values() {
    let ok = parse_date_bounds(&Some("2026-07-01".to_string()), &None).unwrap();
    assert_eq!(ok, (Some(d(2026, 7, 1)), None));

    let err = parse_date_bounds(&Some("2026-02-31".to_string()), &Some("x".to_string())).unwrap_err();
    assert_eq!(err, "invalid date (expected YYYY-MM-DD): '2026-02-31' / 'x'");

    let err = parse_date_bounds(&None, &Some("31/07/2026".to_string())).unwrap_err();
    assert_eq!(err, "invalid date (expected YYYY-MM-DD): None / '31/07/2026'");
}

#[test]
fn fmt_opt_shows_none_or_the_value() {
    assert_eq!(fmt_opt(&None), "None");
    assert_eq!(fmt_opt(&Some("2026-07-01".to_string())), "'2026-07-01'");
}

#[test]
fn decode_chat_text_strips_a_bom_and_replaces_bad_bytes() {
    assert_eq!(decode_chat_text(b"\xef\xbb\xbfoi"), "oi");
    assert_eq!(decode_chat_text(b"oi\xff"), "oi\u{FFFD}");
    assert_eq!(decode_chat_text(b"\xef\xbb"), "\u{FFFD}");
}

// --- arguments -----------------------------------------------------------------

#[test]
fn test_parser_defaults() {
    let args = WhatsappArgs::with_defaults("export.zip".to_string());

    assert_eq!(args.export_zip, "export.zip");
    assert_eq!(args.out, None);
    assert_eq!(args.date_from, None);
    assert_eq!(args.date_to, None);
    assert!(!args.merge);
    assert_eq!(args.model, "small");
    assert_eq!(args.lang, "pt");
    assert_eq!(args.device, "cpu");
    assert!(!args.force);
    assert_eq!(args.format, OutputFormat::Txt);
}

// --- character classes and markers ----------------------------------------------

#[test]
fn non_ascii_digits_in_a_header_make_it_a_continuation() {
    let text = "[10/07/2026, 09:00:00] Alice: oi\n[\u{0661}\u{0660}/07/2026, 09:01:00] Bob: x";

    let messages = parse_chat(text);

    assert_eq!(messages.len(), 1);
    assert!(messages[0].body.ends_with("Bob: x"));
}

#[test]
fn android_time_accepts_unicode_space_before_meridiem() {
    let text = "13/07/26, 9:05\u{00A0}PM - Bob: hi";

    let messages = parse_chat(text);

    assert_eq!(messages.len(), 1);
    assert_eq!(messages[0].time, "9:05\u{00A0}PM");
}

#[test]
fn android_marker_round_trip_keeps_the_name() {
    assert_eq!(
        extract_attachment("voice.note.opus (file attached) and more"),
        Some("voice.note.opus")
    );
    assert_eq!(extract_attachment("nota.\u{F3}pus (arquivo anexado)"), Some("nota.\u{F3}pus"));
    assert_eq!(extract_attachment("no dot (file attached)"), None);
}

#[test]
fn merge_with_this_runs_selection_ignores_stale_entries() {
    let raw_text = "[10/07/2026, 09:05:00] Bob: <anexado: a.opus>\n\
                    [20/07/2026, 09:00:00] Bob: <anexado: b.opus>\n";
    let messages = parse_chat(raw_text);
    let selected = select_audio_messages(&messages, None, Some(d(2026, 7, 15)));
    let entries = transcripts(&[
        ("/o/audio/b.opus", "from an earlier, wider run"),
        ("/o/audio/a.opus", "this run"),
    ]);

    let kept = selection_transcripts(&entries, &selected, "/o/audio");
    let merged = build_merged_chat(raw_text, &messages, &kept, "/o/audio");

    assert_eq!(
        merged,
        "[10/07/2026, 09:05:00] Bob: <anexado: a.opus>\n    >> [transcript] this run\n\
         [20/07/2026, 09:00:00] Bob: <anexado: b.opus>\n"
    );
}
