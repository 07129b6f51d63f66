//! Segment text clean-up and the settings of the whisper.cpp engine.

use vstd::prelude::*;

use crate::text::{chars_of, string_from_chars, unicode_white_space};

verus! {

/// `char::is_whitespace`, which std documents as the Unicode `White_Space`
/// property, the set stated by `unicode_white_space`.
#[verifier::external_body]
fn std_is_whitespace(c: char) -> (r: bool)
    ensures
        r == unicode_white_space(c),
{
    c.is_whitespace()
}

/// `char::is_whitespace`: ASCII tab, line feed, vertical tab, form feed,
/// carriage return and space, or a non-ASCII `White_Space` character.
pub open spec fn is_white(c: char) -> bool {
    if (c as u32) < 128 {
        c == ' ' || c == '\t' || c == '\n' || c == '\x0B' || c == '\x0C' || c == '\r'
    } else {
        unicode_white_space(c)
    }
}

fn white(c: char) -> (r: bool)
    ensures
        r == is_white(c),
{
    if (c as u32) < 128 {
        c == ' ' || c == '\t' || c == '\n' || c == '\x0B' || c == '\x0C' || c == '\r'
    } else {
        std_is_whitespace(c)
    }
}

/// `s` without leading white space.
pub open spec fn trim_start(s: Seq<char>) -> Seq<char>
    decreases s.len(),
{
    if s.len() > 0 && is_white(s[0]) {
        trim_start(s.drop_first())
    } else {
        s
    }
}

/// `s` without trailing white space.
pub open spec fn trim_end(s: Seq<char>) -> Seq<char>
    decreases s.len(),
{
    if s.len() > 0 && is_white(s.last()) {
        trim_end(s.drop_last())
    } else {
        s
    }
}

/// `str::trim`.
pub open spec fn trim(s: Seq<char>) -> Seq<char> {
    trim_end(trim_start(s))
}

proof fn lemma_trim_start_suffix(s: Seq<char>, a: int)
    requires
        0 <= a <= s.len(),
        forall|k: int| 0 <= k < a ==> is_white(#[trigger] s[k]),
    ensures
        trim_start(s) == trim_start(s.skip(a)),
    decreases a,
{
    if a > 0 {
        assert(s.drop_first().skip(a - 1) =~= s.skip(a));
        lemma_trim_start_suffix(s.drop_first(), a - 1);
    } else {
        assert(s.skip(0) =~= s);
    }
}

proof fn lemma_trim_end_prefix(s: Seq<char>, b: int)
    requires
        0 <= b <= s.len(),
        forall|k: int| b <= k < s.len() ==> is_white(#[trigger] s[k]),
    ensures
        trim_end(s) == trim_end(s.take(b)),
    decreases s.len() - b,
{
    if b < s.len() {
        assert(s.drop_last().take(b) =~= s.take(b));
        lemma_trim_end_prefix(s.drop_last(), b);
    } else {
        assert(s.take(b) =~= s);
    }
}

/// `str::trim`.
pub fn trim_chars(s: &Vec<char>) -> (r: Vec<char>)
    ensures
        r@ == trim(s@),
{
    let n = s.len();
    let mut a: usize = 0;
    while a < n && white(s[a])
        invariant
            a <= n == s.len(),
            forall|k: int| 0 <= k < a ==> is_white(#[trigger] s@[k]),
        decreases n - a,
    {
        a = a + 1;
    }
    proof {
        lemma_trim_start_suffix(s@, a as int);
    }
    let t = crate::text::sub_chars(s, a, n);
    let m = t.len();
    let mut b: usize = m;
    while b > 0 && white(t[b - 1])
        invariant
            b <= m == t.len(),
            forall|k: int| b <= k < m ==> is_white(#[trigger] t@[k]),
        decreases b,
    {
        b = b - 1;
    }
    proof {
        if a < n {
            assert(trim_start(s@.skip(a as int)) == s@.skip(a as int));
        } else {
            assert(s@.skip(a as int).len() == 0);
        }
        assert(t@ =~= s@.skip(a as int));
        lemma_trim_end_prefix(t@, b as int);
        if b > 0 {
            assert(trim_end(t@.take(b as int)) == t@.take(b as int));
        } else {
            assert(t@.take(0).len() == 0);
        }
    }
    let r = crate::text::sub_chars(&t, 0, b);
    proof {
        assert(r@ =~= t@.take(b as int));
    }
    r
}

/// Law: a trimmed text neither starts nor ends with white space.
pub proof fn lemma_trim_has_no_outer_space(s: Seq<char>)
    ensures
        trim(s).len() > 0 ==> !is_white(trim(s)[0]) && !is_white(trim(s).last()),
{
    lemma_trim_start_no_lead(s);
    lemma_trim_end_keeps_lead(trim_start(s));
}

proof fn lemma_trim_start_no_lead(s: Seq<char>)
    ensures
        trim_start(s).len() > 0 ==> !is_white(trim_start(s)[0]),
    decreases s.len(),
{
    if s.len() > 0 && is_white(s[0]) {
        lemma_trim_start_no_lead(s.drop_first());
    }
}

proof fn lemma_trim_end_keeps_lead(s: Seq<char>)
    ensures
        trim_end(s).len() > 0 ==> trim_end(s)[0] == s[0] && !is_white(trim_end(s).last()),
    decreases s.len(),
{
    if s.len() > 0 && is_white(s.last()) {
        lemma_trim_end_keeps_lead(s.drop_last());
    }
}

/// `texts` joined with single spaces.
pub open spec fn join_with_spaces(texts: Seq<Seq<char>>) -> Seq<char>
    decreases texts.len(),
{
    if texts.len() == 0 {
        Seq::empty()
    } else if texts.len() == 1 {
        texts[0]
    } else {
        join_with_spaces(texts.drop_last()) + seq![' '] + texts.last()
    }
}

pub open spec fn string_views(v: Seq<String>) -> Seq<Seq<char>> {
    v.map_values(|s: String| s@)
}

/// Join per-segment texts (already trimmed) into the full-transcript text.
pub fn join_segments(texts: &[String]) -> (r: String)
    ensures
        r@ == join_with_spaces(string_views(texts@)),
{
    let ghost tv = string_views(texts@);
    let mut out: Vec<char> = Vec::new();
    let mut i: usize = 0;
    while i < texts.len()
        invariant
            i <= texts.len(),
            tv == string_views(texts@),
            out@ == join_with_spaces(tv.take(i as int)),
        decreases texts.len() - i,
    {
        proof {
            assert(tv.take(i + 1).drop_last() =~= tv.take(i as int));
            assert(tv.take(i + 1).last() == texts@[i as int]@);
        }
        if i > 0 {
            out.push(' ');
        }
        let mut t = chars_of(texts[i].as_str());
        out.append(&mut t);
        proof {
            if i == 0 {
                assert(out@ =~= tv.take(1)[0]);
            } else {
                assert(out@ =~= join_with_spaces(tv.take(i as int)) + seq![' '] + texts@[i as int]@);
            }
        }
        i = i + 1;
    }
    proof {
        assert(tv.take(texts.len() as int) =~= tv);
    }
    string_from_chars(&out)
}

/// Each text trimmed.
pub open spec fn trimmed_texts(raw: Seq<Seq<char>>) -> Seq<Seq<char>> {
    raw.map_values(|t: Seq<char>| trim(t))
}

/// The texts that are not empty, in order.
pub open spec fn non_empty_texts(ts: Seq<Seq<char>>) -> Seq<Seq<char>>
    decreases ts.len(),
{
    if ts.len() == 0 {
        Seq::empty()
    } else if ts.last().len() == 0 {
        non_empty_texts(ts.drop_last())
    } else {
        non_empty_texts(ts.drop_last()).push(ts.last())
    }
}

/// The transcript of raw segment texts: each trimmed, the empty ones left
/// out, the rest joined with single spaces.
pub open spec fn transcript_text(raw: Seq<Seq<char>>) -> Seq<char> {
    join_with_spaces(non_empty_texts(trimmed_texts(raw)))
}

/// Whisper segment texts carry a leading space from the tokenizer: each is
/// trimmed, and the transcript is the trimmed texts that are not empty,
/// joined with single spaces.
pub fn assemble_text(raw: &[String]) -> (r: (Vec<String>, String))
    ensures
        string_views(r.0@) == trimmed_texts(string_views(raw@)),
        r.1@ == transcript_text(string_views(raw@)),
{
    let ghost rv = string_views(raw@);
    let mut out: Vec<String> = Vec::new();
    let mut kept: Vec<String> = Vec::new();
    let mut i: usize = 0;
    while i < raw.len()
        invariant
            i <= raw.len(),
            rv == string_views(raw@),
            string_views(out@) == trimmed_texts(rv.take(i as int)),
            string_views(kept@) == non_empty_texts(string_views(out@)),
        decreases raw.len() - i,
    {
        let tc = trim_chars(&chars_of(raw[i].as_str()));
        let nonempty = tc.len() > 0;
        let t = string_from_chars(&tc);
        let ghost before = string_views(out@);
        let ghost before_kept = string_views(kept@);
        out.push(t);
        proof {
            assert(rv[i as int] == raw@[i as int]@);
            assert(string_views(out@) =~= before.push(t@));
            assert(string_views(out@).drop_last() =~= before);
            assert(trimmed_texts(rv.take(i + 1)) =~= trimmed_texts(rv.take(i as int)).push(trim(rv[i as int])));
        }
        if nonempty {
            let t2 = string_from_chars(&tc);
            kept.push(t2);
            proof {
                assert(string_views(kept@) =~= before_kept.push(t2@));
            }
        }
        i = i + 1;
    }
    proof {
        assert(rv.take(raw.len() as int) =~= rv);
    }
    let text = join_segments(kept.as_slice());
    (out, text)
}

proof fn lemma_non_empty_trimmed(raw: Seq<Seq<char>>)
    ensures
        forall|k: int|
            0 <= k < non_empty_texts(trimmed_texts(raw)).len() ==> {
                let x = #[trigger] non_empty_texts(trimmed_texts(raw))[k];
                x.len() > 0 && !is_white(x[0]) && !is_white(x.last()) && exists|j: int|
                    0 <= j < raw.len() && x == trim(raw[j])
            },
    decreases raw.len(),
{
    if raw.len() > 0 {
        let p = raw.drop_last();
        lemma_non_empty_trimmed(p);
        assert(trimmed_texts(raw).drop_last() =~= trimmed_texts(p));
        lemma_trim_has_no_outer_space(raw.last());
        let ts = trimmed_texts(raw);
        assert(ts.last() == trim(raw[raw.len() - 1]));
        assert forall|k: int|
            0 <= k < non_empty_texts(ts).len() implies {
                let x = #[trigger] non_empty_texts(ts)[k];
                x.len() > 0 && !is_white(x[0]) && !is_white(x.last()) && exists|j: int|
                    0 <= j < raw.len() && x == trim(raw[j])
            } by {
            let prev = non_empty_texts(trimmed_texts(p));
            if k < prev.len() {
                let x = prev[k];
                let j = choose|j: int| 0 <= j < p.len() && x == trim(p[j]);
                assert(raw[j] == p[j]);
            } else {
                assert(non_empty_texts(ts)[k] == trim(raw[raw.len() - 1]));
            }
        }
    }
}

proof fn lemma_join_spacing(ts: Seq<Seq<char>>)
    requires
        forall|k: int|
            0 <= k < ts.len() ==> (#[trigger] ts[k]).len() > 0 && !is_white(ts[k][0]) && !is_white(ts[k].last()),
    ensures
        join_with_spaces(ts).len() > 0 ==> !is_white(join_with_spaces(ts)[0]) && !is_white(
            join_with_spaces(ts).last(),
        ),
        (forall|k: int, i: int|
            0 <= k < ts.len() && 0 <= i < ts[k].len() - 1 ==> !(is_white(#[trigger] ts[k][i]) && is_white(
                ts[k][i + 1],
            ))) ==> forall|i: int|
            0 <= i < join_with_spaces(ts).len() - 1 ==> !(is_white(#[trigger] join_with_spaces(ts)[i])
                && is_white(join_with_spaces(ts)[i + 1])),
    decreases ts.len(),
{
    if ts.len() == 1 {
        assert(ts[0] == join_with_spaces(ts));
    } else if ts.len() >= 2 {
        let p = ts.drop_last();
        lemma_join_spacing(p);
        let a = join_with_spaces(p);
        let l = ts.last();
        let j = join_with_spaces(ts);
        assert(j == a + seq![' '] + l);
        assert(ts[ts.len() - 1] == l);
        if p.len() == 1 {
            assert(a == p[0]);
        }
        assert(a.len() > 0) by {
            if p.len() == 1 {
                assert(p[0].len() > 0);
            }
        }
        assert(j[0] == a[0]);
        assert(j.last() == l.last());
        if forall|k: int, i: int|
            0 <= k < ts.len() && 0 <= i < ts[k].len() - 1 ==> !(is_white(#[trigger] ts[k][i]) && is_white(
                ts[k][i + 1],
            )) {
            assert forall|k: int, i: int|
                0 <= k < p.len() && 0 <= i < p[k].len() - 1 implies !(is_white(#[trigger] p[k][i])
                && is_white(p[k][i + 1])) by {
                assert(p[k] == ts[k]);
            }
            assert forall|i: int| 0 <= i < j.len() - 1 implies !(is_white(#[trigger] j[i]) && is_white(
                j[i + 1],
            )) by {
                if i < a.len() - 1 {
                    assert(j[i] == a[i] && j[i + 1] == a[i + 1]);
                } else if i == a.len() - 1 {
                    assert(j[i] == a.last());
                } else if i == a.len() {
                    assert(j[i + 1] == l[0]);
                } else {
                    let q = i - a.len() - 1;
                    assert(j[i] == l[q] && j[i + 1] == l[q + 1]);
                    assert(ts[ts.len() - 1] == l);
                }
            }
        }
    }
}

/// Law: the transcript never starts or ends with white space, and where no
/// trimmed segment text holds two white characters in a row, neither does
/// the transcript: empty segments add no space.
pub proof fn lemma_transcript_spacing(raw: Seq<Seq<char>>)
    ensures
        transcript_text(raw).len() > 0 ==> !is_white(transcript_text(raw)[0]) && !is_white(
            transcript_text(raw).last(),
        ),
        (forall|j: int, i: int|
            0 <= j < raw.len() && 0 <= i < trim(raw[j]).len() - 1 ==> !(is_white(#[trigger] trim(raw[j])[i])
                && is_white(trim(raw[j])[i + 1]))) ==> forall|i: int|
            0 <= i < transcript_text(raw).len() - 1 ==> !(is_white(#[trigger] transcript_text(raw)[i])
                && is_white(transcript_text(raw)[i + 1])),
{
    let ts = non_empty_texts(trimmed_texts(raw));
    lemma_non_empty_trimmed(raw);
    assert forall|k: int| 0 <= k < ts.len() implies (#[trigger] ts[k]).len() > 0 && !is_white(ts[k][0])
        && !is_white(ts[k].last()) by {}
    lemma_join_spacing(ts);
    if forall|j: int, i: int|
        0 <= j < raw.len() && 0 <= i < trim(raw[j]).len() - 1 ==> !(is_white(#[trigger] trim(raw[j])[i])
            && is_white(trim(raw[j])[i + 1])) {
        assert forall|k: int, i: int|
            0 <= k < ts.len() && 0 <= i < ts[k].len() - 1 implies !(is_white(#[trigger] ts[k][i]) && is_white(
                ts[k][i + 1],
            )) by {
            let x = ts[k];
            let j = choose|j: int| 0 <= j < raw.len() && x == trim(raw[j]);
            assert(trim(raw[j])[i] == x[i]);
        }
    }
}

/// The settings of the whisper.cpp engine: model, device and forced
/// language (`None` to detect it).
pub struct WhisperCppEngine {
    model: String,
    device: String,
    language: Option<String>,
}

impl WhisperCppEngine {
    /// The settings of a run: `--model`, `--device` and the forced language.
    pub fn new(model: String, device: String, language: Option<String>) -> (r: Self)
        ensures
            r.model_spec() == model@,
            r.device_spec() == device@,
            r.language_spec() == crate::whatsapp::opt_string(language),
    {
        WhisperCppEngine { model, device, language }
    }

    pub closed spec fn model_spec(&self) -> Seq<char> {
        self.model@
    }

    pub closed spec fn device_spec(&self) -> Seq<char> {
        self.device@
    }

    pub closed spec fn language_spec(&self) -> Option<Seq<char>> {
        crate::whatsapp::opt_string(self.language)
    }

    /// The `--model` value.
    pub fn model(&self) -> (r: &str)
        ensures
            r@ == self.model_spec(),
    {
        self.model.as_str()
    }

    /// The GPU is used for any device but `cpu`.
    pub fn use_gpu(&self) -> (r: bool)
        ensures
            r == (self.device_spec() != "cpu"@),
    {
        !crate::text::same_chars(&chars_of(self.device.as_str()), &chars_of("cpu"))
    }

    /// The language handed to whisper.cpp: the forced one, or `auto`.
    pub fn language_param(&self) -> (r: String)
        ensures
            r@ == match self.language_spec() {
                Some(l) => l,
                None => "auto"@,
            },
    {
        match &self.language {
            Some(l) => l.clone(),
            None => "auto".to_string(),
        }
    }

    /// The language reported in a result: the forced one; else the one
    /// whisper.cpp detected, or `unknown` when it names none.
    pub fn reported_language(&self, detected: Option<String>) -> (r: String)
        ensures
            r@ == match self.language_spec() {
                Some(l) => l,
                None => match crate::whatsapp::opt_string(detected) {
                    Some(d) => d,
                    None => "unknown"@,
                },
            },
    {
        match &self.language {
            Some(l) => l.clone(),
            None => match detected {
                Some(d) => d,
                None => "unknown".to_string(),
            },
        }
    }
}

/// The error for an audio file that does not exist; no decoding or model
/// work happens before it.
pub fn missing_audio_message(path: &str) -> (r: String)
    ensures
        r@ == "Audio file not found: "@ + path@,
{
    let mut v = chars_of("Audio file not found: ");
    let mut p = chars_of(path);
    v.append(&mut p);
    string_from_chars(&v)
}

} // verus!
