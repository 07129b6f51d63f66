//! Reading transcripts back from a run's manifest.

use harken::manifest::{manifest_entry, manifest_texts, ManifestFields};

fn pairs(list: &[(&str, &str)]) -> Vec<(String, String)> {
    list.iter().map(|(a, b)| (a.to_string(), b.to_string())).collect()
}

#[test]
fn manifest_texts_reads_source_and_text_in_order() {
    let content = "{\"source\": \"/o/audio/a.opus\", \"output\": \"/o/a.txt\", \"language\": \"pt\", \"duration\": 1.5, \"text\": \"oi\"}\n\
                   \n   \n\
                   not json\n\
                   {\"source\": \"/o/audio/b.opus\"}\n\
                   {\"source\": 3, \"text\": \"x\"}\n\
                   [1, 2]\n\
                   {\"text\": \"tudo\", \"source\": \"/o/audio/a.opus\"}\r\n";

    assert_eq!(
        manifest_texts(content),
        pairs(&[("/o/audio/a.opus", "oi"), ("/o/audio/a.opus", "tudo")])
    );
}

#[test]
fn manifest_texts_of_nothing_is_empty() {
    assert!(manifest_texts("").is_empty());
}

#[test]
fn manifest_entry_needs_both_strings() {
    let both = ManifestFields { source: Some("s".to_string()), text: Some("t".to_string()) };
    assert_eq!(manifest_entry(Some(both)), Some(("s".to_string(), "t".to_string())));
    let half = ManifestFields { source: Some("s".to_string()), text: None };
    assert_eq!(manifest_entry(Some(half)), None);
    assert_eq!(manifest_entry(None), None);
}
