//! File collection, output naming and the bookkeeping of a batch run.

use harken::batch::{
    is_audio, is_audio_extension, missing_input_exit_code, next_output_path, should_transcribe, BatchRun, BatchStats,
    FileOutcome, StemCounts,
};
use harken::collect::{collect_audio_files, collect_files, is_glob_pattern, Candidate, InputScan};
use harken::writers::OutputFormat;

fn found(paths: &[&str], explicit: bool) -> InputScan {
    InputScan::Found(
        paths
            .iter()
            .map(|p| Candidate { path: p.to_string(), explicit })
            .collect(),
    )
}

fn strings(list: &[&str]) -> Vec<String> {
    list.iter().map(|s| s.to_string()).collect()
}

// --- collect_audio_files -----------------------------------------------

#[test]
fn collect_recurses_into_directory() {
    // A walk of /t found sub/a.mp3, b.wav and note.txt.
    let scans = vec![found(&["/t/sub/a.mp3", "/t/b.wav", "/t/note.txt"], false)];

    let result = collect_audio_files(&scans).unwrap();

    assert_eq!(result, strings(&["/t/b.wav", "/t/sub/a.mp3"]));
}

#[test]
fn collect_expands_glob_and_filters_extensions() {
    assert!(is_glob_pattern("/t/*"));
    let scans = vec![found(&["/t/y.opus", "/t/x.opus", "/t/z.txt"], false)];

    let result = collect_audio_files(&scans).unwrap();

    assert_eq!(result, strings(&["/t/x.opus", "/t/y.opus"]));
}

#[test]
fn collect_includes_explicit_non_audio_file() {
    let scans = vec![found(&["/t/weird.xyz"], true)];

    let result = collect_audio_files(&scans).unwrap();

    assert_eq!(result, strings(&["/t/weird.xyz"]));
}

#[test]
fn collect_dedups_file_reachable_two_ways() {
    let scans = vec![found(&["/t/a.mp3"], false), found(&["/t/a.mp3"], true)];

    let result = collect_audio_files(&scans).unwrap();

    assert_eq!(result, strings(&["/t/a.mp3"]));
}

#[test]
fn collect_missing_path_is_err_with_raw_path() {
    let raw = "/t/nope.mp3".to_string();
    let scans = vec![found(&["/t/a.mp3"], true), InputScan::Missing(raw.clone())];

    let err = collect_audio_files(&scans).unwrap_err();

    assert_eq!(err, raw);
    assert!(err.contains("nope.mp3"));
}

#[test]
fn collect_orders_by_components_and_merges_equal_paths() {
    let files = vec![
        Candidate { path: "a/b.mp3".to_string(), explicit: false },
        Candidate { path: "a.b/c.mp3".to_string(), explicit: false },
        Candidate { path: "./a//b.mp3".to_string(), explicit: false },
        Candidate { path: "a/B.MP3".to_string(), explicit: false },
    ];

    let result = collect_files(&files);

    // "a" sorts before "a.b" component-wise; "./a//b.mp3" is "a/b.mp3"
    // with a current-directory component in front, a different path.
    assert_eq!(result, strings(&["./a//b.mp3", "a/B.MP3", "a/b.mp3", "a.b/c.mp3"]));

    let dup = vec![
        Candidate { path: "a//b.mp3".to_string(), explicit: false },
        Candidate { path: "a/b.mp3".to_string(), explicit: true },
    ];
    assert_eq!(collect_files(&dup), strings(&["a//b.mp3"]));
}

#[test]
fn glob_pattern_characters() {
    assert!(is_glob_pattern("a?.opus"));
    assert!(is_glob_pattern("[ab].opus"));
    assert!(!is_glob_pattern("plain/path.opus"));
}

#[test]
fn is_audio_ignores_case_and_needs_an_extension() {
    assert!(is_audio("x/VOICE.OPUS"));
    assert!(is_audio("a.m4a"));
    assert!(!is_audio("a.txt"));
    assert!(!is_audio("opus"));
    assert!(!is_audio(".opus"));
}

// --- output naming -------------------------------------------------------

#[test]
fn next_output_path_numbers_repeated_stems() {
    let mut seen = StemCounts::new();

    let first = next_output_path("a/x.opus", "/out", OutputFormat::Txt, &mut seen);
    let second = next_output_path("b/x.opus", "/out", OutputFormat::Txt, &mut seen);
    let other = next_output_path("b/y.mp3", "/out", OutputFormat::Srt, &mut seen);
    let third = next_output_path("c/x.wav", "/out/", OutputFormat::Md, &mut seen);

    assert_eq!(first, "/out/x.txt");
    assert_eq!(second, "/out/x-2.txt");
    assert_eq!(other, "/out/y.srt");
    assert_eq!(third, "/out/x-3.md");
    assert_eq!(seen.count(&vec!['x']), 3);
}

// --- batch bookkeeping ----------------------------------------------------

#[test]
fn batch_run_tallies_outcomes_and_exit_code() {
    let mut run = BatchRun::new(3);
    assert_eq!(run.output_path("a/x.opus", "/o", OutputFormat::Json), "/o/x.json");
    run.record(FileOutcome::Skipped);
    assert_eq!(run.output_path("b/x.opus", "/o", OutputFormat::Json), "/o/x-2.json");
    run.record(FileOutcome::Done);
    assert_eq!(run.stats().exit_code(), 0);
    run.record(FileOutcome::Failed);

    let stats = run.stats();
    assert_eq!(stats, BatchStats { total: 3, done: 1, skipped: 1, failed: 1 });
    assert_eq!(stats.exit_code(), 1);
}

#[test]
fn batch_stats_record_counts_each_kind() {
    let mut stats = BatchStats::new(2);
    stats.record(FileOutcome::Done);
    stats.record(FileOutcome::Skipped);
    assert_eq!(stats, BatchStats { total: 2, done: 1, skipped: 1, failed: 0 });
    assert_eq!(stats.exit_code(), 0);
}

#[test]
fn collecting_a_collected_list_again_gives_it_back() {
    let files = vec![
        Candidate { path: "b/z.wav".to_string(), explicit: false },
        Candidate { path: "a/x.mp3".to_string(), explicit: false },
        Candidate { path: "a/x.mp3".to_string(), explicit: true },
        Candidate { path: "notes.txt".to_string(), explicit: false },
    ];
    let first = collect_files(&files);
    let again: Vec<Candidate> = first
        .iter()
        .map(|p| Candidate { path: p.clone(), explicit: true })
        .collect();

    assert_eq!(first, strings(&["a/x.mp3", "b/z.wav"]));
    assert_eq!(collect_files(&again), first);
}

#[test]
fn skip_decision_and_missing_input_code() {
    assert!(should_transcribe(false, false));
    assert!(!should_transcribe(true, false));
    assert!(should_transcribe(true, true));
    assert_eq!(missing_input_exit_code(), 2);
}

#[test]
fn audio_extensions_are_matched_as_given() {
    assert!(is_audio_extension("flac"));
    assert!(!is_audio_extension("FLAC"));
    assert!(!is_audio_extension("txt"));
}

#[test]
fn next_output_path_never_repeats_a_path_in_a_run() {
    let mut seen = StemCounts::new();

    let paths: Vec<String> = ["a/note.wav", "b/note.wav", "c/note-2.wav", "a", "a", "a-2"]
        .iter()
        .map(|s| next_output_path(s, "out", OutputFormat::Txt, &mut seen))
        .collect();

    assert_eq!(
        paths,
        strings(&[
            "out/note.txt",
            "out/note-2.txt",
            "out/note-2-2.txt",
            "out/a.txt",
            "out/a-2.txt",
            "out/a-2-2.txt",
        ])
    );
}
