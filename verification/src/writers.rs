//! Output documents for a transcription: plain text, SubRip subtitles and a
//! readable Markdown transcript. (JSON and the manifest are serialized by
//! the program around the library.)

use vstd::prelude::*;

use crate::engine::{is_white, lemma_transcript_spacing, transcript_text};
use crate::path::{file_stem, file_stem_of};
use crate::text::{chars_of, decimal, decimal_chars, string_from_chars};

verus! {

/// Output format of a transcript.
#[derive(Debug, Clone, Copy, PartialEq, Eq, Structural)]
pub enum OutputFormat {
    Txt,
    Json,
    Srt,
    Md,
}

pub open spec fn format_extension(f: OutputFormat) -> Seq<char> {
    match f {
        OutputFormat::Txt => "txt"@,
        OutputFormat::Json => "json"@,
        OutputFormat::Srt => "srt"@,
        OutputFormat::Md => "md"@,
    }
}

impl OutputFormat {
    /// The file extension of the format.
    pub fn extension(self) -> (r: &'static str)
        ensures
            r@ == format_extension(self),
    {
        match self {
            OutputFormat::Txt => "txt",
            OutputFormat::Json => "json",
            OutputFormat::Srt => "srt",
            OutputFormat::Md => "md",
        }
    }
}

/// A transcript segment as the documents use it: start and end rounded to
/// whole milliseconds, and its text.
pub struct Cue {
    pub start_ms: i64,
    pub end_ms: i64,
    pub text: String,
}

/// A cue as plain values.
pub struct CueView {
    pub start_ms: int,
    pub end_ms: int,
    pub text: Seq<char>,
}

impl View for Cue {
    type V = CueView;

    open spec fn view(&self) -> CueView {
        CueView { start_ms: self.start_ms as int, end_ms: self.end_ms as int, text: self.text@ }
    }
}

pub open spec fn cue_views(v: Seq<Cue>) -> Seq<CueView> {
    v.map_values(|c: Cue| c@)
}

/// The txt document: the text and one line feed.
pub open spec fn txt_document_spec(text: Seq<char>) -> Seq<char> {
    text + seq!['\n']
}

/// Law: the txt output of an assembled transcript ends with exactly one
/// line feed, whatever the raw segment texts were: the character before
/// the final `\n`, if there is one, is not a line feed.
pub proof fn lemma_txt_ends_with_one_newline(raw: Seq<Seq<char>>)
    ensures
        ({
            let d = txt_document_spec(transcript_text(raw));
            d.last() == '\n' && (d.len() >= 2 ==> d[d.len() - 2] != '\n')
        }),
{
    let text = transcript_text(raw);
    lemma_transcript_spacing(raw);
    assert(is_white('\n'));
    let d = txt_document_spec(text);
    if d.len() >= 2 {
        assert(d[d.len() - 2] == text.last());
    }
}

/// The txt output: the transcript and one line feed.
pub fn txt_document(text: &str) -> (r: String)
    ensures
        r@ == txt_document_spec(text@),
{
    let mut v = chars_of(text);
    v.push('\n');
    string_from_chars(&v)
}

/// Integer division rounding toward zero, as Rust's `/` on integers.
pub open spec fn trunc_div(a: int, b: int) -> int {
    if a >= 0 {
        a / b
    } else {
        -((-a) / b)
    }
}

/// The remainder that goes with `trunc_div`, as Rust's `%`.
pub open spec fn trunc_rem(a: int, b: int) -> int {
    a - b * trunc_div(a, b)
}

/// A millisecond count split into hours, minutes, seconds and
/// milliseconds.
pub open spec fn hms_millis_spec(total: int) -> (int, int, int, int) {
    let h = trunc_div(total, 3_600_000);
    let r1 = trunc_rem(total, 3_600_000);
    let m = trunc_div(r1, 60_000);
    let r2 = trunc_rem(r1, 60_000);
    (h, m, trunc_div(r2, 1000), trunc_rem(r2, 1000))
}

fn trunc_divrem(a: i128, b: i128) -> (r: (i128, i128))
    requires
        b > 0,
        -0x1_0000_0000_0000_0000_0000 < a < 0x1_0000_0000_0000_0000_0000,
    ensures
        r.0 == trunc_div(a as int, b as int),
        r.1 == trunc_rem(a as int, b as int),
{
    if a >= 0 {
        proof {
            vstd::arithmetic::div_mod::lemma_fundamental_div_mod(a as int, b as int);
        }
        (a / b, a % b)
    } else {
        let q = (-a) / b;
        let r = (-a) % b;
        proof {
            vstd::arithmetic::div_mod::lemma_fundamental_div_mod(-a as int, b as int);
            assert((b as int) * (-(q as int)) == -((b as int) * (q as int))) by (nonlinear_arith);
        }
        (-q, -r)
    }
}

proof fn lemma_trunc_bounds(a: int, b: int)
    requires
        b > 0,
    ensures
        (a >= 0 ==> 0 <= trunc_rem(a, b) < b && trunc_div(a, b) >= 0),
        (a < 0 ==> -b < trunc_rem(a, b) <= 0 && trunc_div(a, b) <= 0),
        trunc_div(a, b) * b + trunc_rem(a, b) == a,
        -a <= trunc_div(a, b) <= a || a <= trunc_div(a, b) <= -a,
{
    let x = if a >= 0 {
        a
    } else {
        -a
    };
    vstd::arithmetic::div_mod::lemma_fundamental_div_mod(x, b);
    vstd::arithmetic::div_mod::lemma_mod_bound(x, b);
    let q = x / b;
    let r = x % b;
    assert(0 <= q <= x) by (nonlinear_arith)
        requires
            x >= 0,
            b > 0,
            x == b * q + r,
            0 <= r < b,
    ;
    assert(trunc_div(a, b) * b == b * trunc_div(a, b)) by (nonlinear_arith);
    if a < 0 {
        assert((-q) * b == -(b * q)) by (nonlinear_arith);
    }
}

/// Split a millisecond count into hours, minutes, seconds and milliseconds.
pub fn hms_millis(total_ms: i64) -> (r: (i64, i64, i64, i64))
    ensures
        (r.0 as int, r.1 as int, r.2 as int, r.3 as int) == hms_millis_spec(total_ms as int),
{
    let t = total_ms as i128;
    proof {
        lemma_trunc_bounds(t as int, 3_600_000);
    }
    let (h, r1) = trunc_divrem(t, 3_600_000);
    proof {
        lemma_trunc_bounds(r1 as int, 60_000);
    }
    let (m, r2) = trunc_divrem(r1, 60_000);
    proof {
        lemma_trunc_bounds(r2 as int, 1000);
    }
    let (s, ms) = trunc_divrem(r2, 1000);
    (h as i64, m as i64, s as i64, ms as i64)
}

/// Law: the four parts put back together give the count, minutes and
/// seconds stay below 60 and milliseconds below 1000 in size, and all parts
/// share the sign of the count.
pub proof fn lemma_hms_millis_parts(total: int)
    ensures
        ({
            let (h, m, s, ms) = hms_millis_spec(total);
            &&& h * 3_600_000 + m * 60_000 + s * 1000 + ms == total
            &&& total >= 0 ==> 0 <= h && 0 <= m < 60 && 0 <= s < 60 && 0 <= ms < 1000
            &&& total < 0 ==> h <= 0 && -60 < m <= 0 && -60 < s <= 0 && -1000 < ms <= 0
        }),
{
    let r1 = trunc_rem(total, 3_600_000);
    let r2 = trunc_rem(r1, 60_000);
    lemma_trunc_bounds(total, 3_600_000);
    lemma_trunc_bounds(r1, 60_000);
    lemma_trunc_bounds(r2, 1000);
    if total >= 0 {
        assert(trunc_div(r1, 60_000) < 60) by (nonlinear_arith)
            requires
                0 <= r1 < 3_600_000,
                trunc_div(r1, 60_000) * 60_000 + trunc_rem(r1, 60_000) == r1,
                0 <= trunc_rem(r1, 60_000),
        ;
        assert(trunc_div(r2, 1000) < 60) by (nonlinear_arith)
            requires
                0 <= r2 < 60_000,
                trunc_div(r2, 1000) * 1000 + trunc_rem(r2, 1000) == r2,
                0 <= trunc_rem(r2, 1000),
        ;
    } else {
        assert(trunc_div(r1, 60_000) > -60) by (nonlinear_arith)
            requires
                -3_600_000 < r1 <= 0,
                trunc_div(r1, 60_000) * 60_000 + trunc_rem(r1, 60_000) == r1,
                trunc_rem(r1, 60_000) <= 0,
        ;
        assert(trunc_div(r2, 1000) > -60) by (nonlinear_arith)
            requires
                -60_000 < r2 <= 0,
                trunc_div(r2, 1000) * 1000 + trunc_rem(r2, 1000) == r2,
                trunc_rem(r2, 1000) <= 0,
        ;
    }
}

/// `k` zeros.
pub open spec fn zeros(k: int) -> Seq<char>
    decreases k,
{
    if k <= 0 {
        Seq::empty()
    } else {
        zeros(k - 1).push('0')
    }
}

/// `format!("{:0w$}", n)`: the decimal numeral of `n`, zero-padded after any
/// sign to at least `w` characters.
pub open spec fn padded(n: int, w: int) -> Seq<char> {
    if n >= 0 {
        zeros(w - decimal(n as nat).len()) + decimal(n as nat)
    } else {
        seq!['-'] + zeros(w - 1 - decimal((-n) as nat).len()) + decimal((-n) as nat)
    }
}

fn zeros_exec(k: usize) -> (r: Vec<char>)
    ensures
        r@ == zeros(k as int),
{
    let mut v: Vec<char> = Vec::new();
    let mut i: usize = 0;
    while i < k
        invariant
            i <= k,
            v@ == zeros(i as int),
        decreases k - i,
    {
        v.push('0');
        i = i + 1;
    }
    v
}

fn padded_exec(n: i64, w: usize) -> (r: Vec<char>)
    requires
        w <= 3,
    ensures
        r@ == padded(n as int, w as int),
{
    if n >= 0 {
        let mut d = decimal_chars(n as u128);
        let mut v = if d.len() < w {
            zeros_exec(w - d.len())
        } else {
            proof {
                assert(zeros(w - d@.len()) =~= Seq::<char>::empty());
            }
            Vec::new()
        };
        v.append(&mut d);
        v
    } else {
        let m: u64 = if n == i64::MIN {
            0x8000_0000_0000_0000u64
        } else {
            (-n) as u64
        };
        let mut d = decimal_chars(m as u128);
        let mut v = vec!['-'];
        let mut z = if d.len() < w && d.len() + 1 < w {
            zeros_exec(w - 1 - d.len())
        } else {
            proof {
                assert(zeros(w - 1 - d@.len()) =~= Seq::<char>::empty());
            }
            Vec::new()
        };
        v.append(&mut z);
        v.append(&mut d);
        proof {
            assert(v@ =~= padded(n as int, w as int));
        }
        v
    }
}

/// `HH:MM:SS,mmm`.
pub open spec fn srt_timestamp_spec(t: int) -> Seq<char> {
    let (h, m, s, ms) = hms_millis_spec(t);
    padded(h, 2) + seq![':'] + padded(m, 2) + seq![':'] + padded(s, 2) + seq![','] + padded(ms, 3)
}

/// `HH:MM:SS`, milliseconds dropped.
pub open spec fn md_timestamp_spec(t: int) -> Seq<char> {
    let (h, m, s, ms) = hms_millis_spec(t);
    padded(h, 2) + seq![':'] + padded(m, 2) + seq![':'] + padded(s, 2)
}

/// `HH:MM:SS,mmm`.
pub fn srt_timestamp(total_ms: i64) -> (r: Vec<char>)
    ensures
        r@ == srt_timestamp_spec(total_ms as int),
{
    let (h, m, s, ms) = hms_millis(total_ms);
    let mut v = padded_exec(h, 2);
    v.push(':');
    let mut b = padded_exec(m, 2);
    v.append(&mut b);
    v.push(':');
    let mut c = padded_exec(s, 2);
    v.append(&mut c);
    v.push(',');
    let mut d = padded_exec(ms, 3);
    v.append(&mut d);
    proof {
        assert(v@ =~= srt_timestamp_spec(total_ms as int));
    }
    v
}

/// `HH:MM:SS`.
pub fn md_timestamp(total_ms: i64) -> (r: Vec<char>)
    ensures
        r@ == md_timestamp_spec(total_ms as int),
{
    let (h, m, s, _ms) = hms_millis(total_ms);
    let mut v = padded_exec(h, 2);
    v.push(':');
    let mut b = padded_exec(m, 2);
    v.append(&mut b);
    v.push(':');
    let mut c = padded_exec(s, 2);
    v.append(&mut c);
    proof {
        assert(v@ =~= md_timestamp_spec(total_ms as int));
    }
    v
}

/// The SubRip cue numbered `i`.
pub open spec fn srt_cue(i: nat, c: CueView) -> Seq<char> {
    decimal(i) + seq!['\n'] + srt_timestamp_spec(c.start_ms) + " --> "@ + srt_timestamp_spec(
        c.end_ms,
    ) + seq!['\n'] + c.text + seq!['\n', '\n']
}

/// The srt document: the cues numbered from 1, each followed by an empty
/// line.
pub open spec fn srt_document_spec(cues: Seq<CueView>) -> Seq<char>
    decreases cues.len(),
{
    if cues.len() == 0 {
        Seq::empty()
    } else {
        srt_document_spec(cues.drop_last()) + srt_cue(cues.len(), cues.last())
    }
}

fn srt_cue_exec(i: u64, c: &Cue) -> (r: Vec<char>)
    ensures
        r@ == srt_cue(i as nat, c@),
{
    let mut out = decimal_chars(i as u128);
    out.push('\n');
    let mut a = srt_timestamp(c.start_ms);
    out.append(&mut a);
    let mut arrow = chars_of(" --> ");
    out.append(&mut arrow);
    let mut b = srt_timestamp(c.end_ms);
    out.append(&mut b);
    out.push('\n');
    let mut t = chars_of(c.text.as_str());
    out.append(&mut t);
    out.push('\n');
    out.push('\n');
    proof {
        assert(out@ =~= srt_cue(i as nat, c@));
    }
    out
}

/// The SubRip document: numbered cues with their time ranges and text.
pub fn srt_document(cues: &[Cue]) -> (r: String)
    ensures
        r@ == srt_document_spec(cue_views(cues@)),
{
    let ghost cv = cue_views(cues@);
    let mut out: Vec<char> = Vec::new();
    let mut i: usize = 0;
    while i < cues.len()
        invariant
            i <= cues.len(),
            cv == cue_views(cues@),
            out@ == srt_document_spec(cv.take(i as int)),
        decreases cues.len() - i,
    {
        proof {
            assert(cv.take(i + 1).drop_last() =~= cv.take(i as int));
            assert(cv.take(i + 1).last() == cues@[i as int]@);
        }
        let ghost before = out@;
        let mut cue = srt_cue_exec((i + 1) as u64, &cues[i]);
        out.append(&mut cue);
        proof {
            assert(out@ == srt_document_spec(cv.take(i + 1)));
        }
        i = i + 1;
    }
    proof {
        assert(cv.take(cues.len() as int) =~= cv);
    }
    string_from_chars(&out)
}

/// The title of the md document: the source's file stem.
pub open spec fn md_title(source: Seq<char>) -> Seq<char> {
    match file_stem(source) {
        Some(s) => s,
        None => Seq::empty(),
    }
}

pub open spec fn md_lines(cues: Seq<CueView>) -> Seq<char>
    decreases cues.len(),
{
    if cues.len() == 0 {
        Seq::empty()
    } else {
        md_lines(cues.drop_last()) + seq!['['] + md_timestamp_spec(cues.last().start_ms) + seq![
            ']',
            ' ',
        ] + cues.last().text + seq!['\n']
    }
}

/// The md document: `# title`, an empty line, then one `[HH:MM:SS] text`
/// line per segment.
pub open spec fn md_document_spec(source: Seq<char>, cues: Seq<CueView>) -> Seq<char> {
    seq!['#', ' '] + md_title(source) + seq!['\n', '\n'] + md_lines(cues)
}

fn md_line_exec(c: &Cue) -> (r: Vec<char>)
    ensures
        r@ == seq!['['] + md_timestamp_spec(c@.start_ms) + seq![']', ' '] + c@.text + seq!['\n'],
{
    let mut out: Vec<char> = vec!['['];
    let mut ts = md_timestamp(c.start_ms);
    out.append(&mut ts);
    out.push(']');
    out.push(' ');
    let mut t = chars_of(c.text.as_str());
    out.append(&mut t);
    out.push('\n');
    proof {
        assert(out@ =~= seq!['['] + md_timestamp_spec(c@.start_ms) + seq![']', ' '] + c@.text + seq!['\n']);
    }
    out
}

/// The Markdown transcript: the source stem as title, then one
/// `[HH:MM:SS] text` line per cue.
pub fn md_document(source: &str, cues: &[Cue]) -> (r: String)
    ensures
        r@ == md_document_spec(source@, cue_views(cues@)),
{
    let ghost cv = cue_views(cues@);
    let mut out: Vec<char> = vec!['#', ' '];
    let mut title = match file_stem_of(&chars_of(source)) {
        Some(s) => s,
        None => Vec::new(),
    };
    out.append(&mut title);
    out.push('\n');
    out.push('\n');
    let ghost head = out@;
    let mut i: usize = 0;
    proof {
        assert(out@ =~= head + md_lines(cv.take(0)));
    }
    while i < cues.len()
        invariant
            i <= cues.len(),
            cv == cue_views(cues@),
            out@ == head + md_lines(cv.take(i as int)),
        decreases cues.len() - i,
    {
        proof {
            assert(cv.take(i + 1).drop_last() =~= cv.take(i as int));
            assert(cv.take(i + 1).last() == cues@[i as int]@);
        }
        let mut line = md_line_exec(&cues[i]);
        out.append(&mut line);
        proof {
            assert(out@ =~= head + md_lines(cv.take(i + 1)));
        }
        i = i + 1;
    }
    proof {
        assert(cv.take(cues.len() as int) =~= cv);
        assert(out@ =~= md_document_spec(source@, cv));
    }
    string_from_chars(&out)
}

} // verus!
