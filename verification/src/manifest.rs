//! Reading back a run's manifest: one JSON object per line, of which the
//! string members `"source"` and `"text"` are the transcript of a file.

use vstd::prelude::*;

use crate::engine::{trim, trim_chars};
use crate::text::{chars_of, lines_of, split_lines, string_from_chars, views_of};
use crate::whatsapp::pair_views;

verus! {

/// The string members `"source"` and `"text"` of a manifest line.
pub struct ManifestFields {
    pub source: Option<String>,
    pub text: Option<String>,
}

pub open spec fn opt_view(o: Option<String>) -> Option<Seq<char>> {
    match o {
        Some(s) => Some(s@),
        None => None,
    }
}

pub open spec fn fields_view(r: Option<ManifestFields>) -> Option<(Option<Seq<char>>, Option<Seq<char>>)> {
    match r {
        Some(f) => Some((opt_view(f.source), opt_view(f.text))),
        None => None,
    }
}

/// What `serde_json` reads from `line`: `None` when it is not JSON, else the
/// members `"source"` and `"text"` where they are strings.
pub uninterp spec fn json_source_text(line: Seq<char>) -> Option<(Option<Seq<char>>, Option<Seq<char>>)>;

/// Trusted: `serde_json::from_str::<serde_json::Value>` on the line; a
/// parse error gives `None`, a value gives its `"source"` and `"text"`
/// members when they are JSON strings (`Value::get` gives nothing on a
/// non-object). The result depends on the line alone.
#[verifier::external_body]
fn parse_manifest_line(line: &str) -> (r: Option<ManifestFields>)
    ensures
        fields_view(r) == json_source_text(line@),
{
    match serde_json::from_str::<serde_json::Value>(line) {
        Ok(v) => Some(ManifestFields {
            source: match v.get("source") {
                Some(serde_json::Value::String(s)) => Some(s.clone()),
                _ => None,
            },
            text: match v.get("text") {
                Some(serde_json::Value::String(s)) => Some(s.clone()),
                _ => None,
            },
        }),
        Err(_) => None,
    }
}

/// The (source, text) pair that the members read from a line give: both
/// must be strings.
pub open spec fn fields_entry(f: Option<(Option<Seq<char>>, Option<Seq<char>>)>) -> Option<
    (Seq<char>, Seq<char>),
> {
    match f {
        Some((Some(source), Some(text))) => Some((source, text)),
        _ => None,
    }
}

/// The (source, text) pair a manifest line contributes: none for a blank
/// line, a line that is not JSON, or one missing either string member.
pub open spec fn line_entry(line: Seq<char>) -> Option<(Seq<char>, Seq<char>)> {
    if trim(line).len() == 0 {
        None
    } else {
        fields_entry(json_source_text(line))
    }
}

pub open spec fn pair_view(p: Option<(String, String)>) -> Option<(Seq<char>, Seq<char>)> {
    match p {
        Some((a, b)) => Some((a@, b@)),
        None => None,
    }
}

/// The entry of a line from the members read from it.
pub fn manifest_entry(fields: Option<ManifestFields>) -> (r: Option<(String, String)>)
    ensures
        pair_view(r) == fields_entry(fields_view(fields)),
{
    match fields {
        Some(ManifestFields { source: Some(source), text: Some(text) }) => Some((source, text)),
        _ => None,
    }
}

/// The pairs of the lines, in order.
pub open spec fn manifest_entries(lines: Seq<Seq<char>>) -> Seq<(Seq<char>, Seq<char>)>
    decreases lines.len(),
{
    if lines.len() == 0 {
        Seq::empty()
    } else {
        let prev = manifest_entries(lines.drop_last());
        match line_entry(lines.last()) {
            Some(e) => prev.push(e),
            None => prev,
        }
    }
}

/// The (source, text) pairs of a manifest's content, in file order; a later
/// pair for the same source is the one that counts.
pub fn manifest_texts(content: &str) -> (r: Vec<(String, String)>)
    ensures
        pair_views(r@) == manifest_entries(lines_of(content@)),
{
    let lines = split_lines(&chars_of(content));
    let ghost ls = views_of(lines@);
    let mut out: Vec<(String, String)> = Vec::new();
    let mut i: usize = 0;
    while i < lines.len()
        invariant
            i <= lines.len(),
            ls == views_of(lines@),
            ls == lines_of(content@),
            pair_views(out@) == manifest_entries(ls.take(i as int)),
        decreases lines.len() - i,
    {
        proof {
            assert(ls.take(i + 1).drop_last() =~= ls.take(i as int));
            assert(ls.take(i + 1).last() == lines@[i as int]@);
        }
        let t = trim_chars(&lines[i]);
        if t.len() != 0 {
            let line = string_from_chars(lines[i].as_slice());
            match manifest_entry(parse_manifest_line(line.as_str())) {
                Some((source, text)) => {
                    let ghost prev = out@;
                    let ghost e = (source@, text@);
                    out.push((source, text));
                    proof {
                        assert(pair_views(out@) =~= pair_views(prev).push(e));
                    }
                },
                None => {},
            }
        }
        i = i + 1;
    }
    proof {
        assert(ls.take(lines.len() as int) =~= ls);
    }
    out
}

} // verus!
