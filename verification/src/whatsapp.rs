//! WhatsApp chat exports: chat parsing (format detection, date order, header
//! dates), selection of audio messages, the zip members of an export, the
//! steps of a run and the merged chat transcript.

use vstd::prelude::*;

use crate::attachment::attachment_of;
pub use crate::attachment::extract_attachment;
use crate::batch::{is_audio, is_audio_path};
use crate::date::{
    calendar_date, date_before, day_number, lemma_date_before_is_chronological, Date,
};
use crate::header::{
    android_date_shape, android_date_split, android_header, android_header_with, fields_at,
    ios_date_shape, ios_header, match_android_header, match_ios_header, spans_ok, HeaderFields,
    HeaderSpans,
};
use crate::path::{file_name, file_name_of, file_stem, file_stem_of, join, join_path};
use crate::text::{
    ascii_number, chars_of, contains_char, ends_with, find_char, has_suffix, is_digit, lines_of,
    one_of, same_chars, small_number, split_lines, string_from_chars, strip_invisible,
    sub_chars, to_lower, to_lowercase, views_of, without_marks,
};

verus! {

/// `d` splits at `/` into exactly three parts, the slashes being at `i` and
/// `j`.
pub open spec fn two_slashes(d: Seq<char>, i: int, j: int) -> bool {
    &&& 0 <= i < j < d.len()
    &&& d[i] == '/'
    &&& d[j] == '/'
    &&& forall|k: int| 0 <= k < d.len() && k != i && k != j ==> d[k] != '/'
}

/// The three numbers of a `a/b/c` date, each read by `str::parse`.
pub open spec fn date_components(d: Seq<char>) -> Option<(int, int, int)> {
    if exists|i: int, j: int| two_slashes(d, i, j) {
        let (i, j) = choose|i: int, j: int| two_slashes(d, i, j);
        match (
            ascii_number(d.subrange(0, i)),
            ascii_number(d.subrange(i + 1, j)),
            ascii_number(d.subrange(j + 1, d.len() as int)),
        ) {
            (Some(a), Some(b), Some(c)) => Some((a, b, c)),
            _ => None,
        }
    } else {
        None
    }
}

/// The date of a message header: a year below 100 is in the 2000s, and the
/// first two numbers are day and month, or month and day. `None` when that
/// is not a real date.
pub open spec fn chat_date(d: Seq<char>, day_first: bool) -> Option<(int, int, int)> {
    match date_components(d) {
        Some((a, b, y0)) => {
            let y = if y0 < 100 {
                y0 + 2000
            } else {
                y0
            };
            let day = if day_first {
                a
            } else {
                b
            };
            let month = if day_first {
                b
            } else {
                a
            };
            if calendar_date(y, month, day) {
                Some((y, month, day))
            } else {
                None
            }
        },
        None => None,
    }
}

proof fn lemma_two_slashes_unique(d: Seq<char>, i: int, j: int, i2: int, j2: int)
    requires
        two_slashes(d, i, j),
        two_slashes(d, i2, j2),
    ensures
        i == i2 && j == j2,
{
    if i != i2 && i != j2 {
        assert(d[i] != '/');
    }
    if j != i2 && j != j2 {
        assert(d[j] != '/');
    }
    if i2 != i && i2 != j {
        assert(d[i2] != '/');
    }
}

/// The three numbers of a header date.
fn date_components_exec(d: &Vec<char>) -> (r: Option<(u32, u32, u32)>)
    requires
        ios_date_shape(d@) || android_date_shape(d@),
    ensures
        match r {
            Some((a, b, c)) => date_components(d@) == Some((a as int, b as int, c as int)),
            None => date_components(d@) is None,
        },
        r matches Some((a, b, c)) ==> a <= 9999 && b <= 9999 && c <= 9999,
{
    let n = d.len();
    let ghost (wi, wj) = if ios_date_shape(d@) {
        (2int, 5int)
    } else {
        choose|i: int, j: int| android_date_split(d@, i, j)
    };
    proof {
        assert forall|k: int| 0 <= k < d@.len() && k != wi && k != wj implies d@[k] != '/' by {
            assert(is_digit(d@[k]));
        }
        assert(two_slashes(d@, wi, wj));
    }
    let i = find_char(d, '/', 0);
    let j = find_char(d, '/', i + 1);
    proof {
        if i < wi {
            assert(d@[i as int] == '/');
        } else if i > wi {
            assert(d@[wi] == '/');
        }
        if j < wj {
            assert(d@[j as int] == '/');
        } else if j > wj {
            assert(d@[wj] == '/');
        }
        assert forall|i2: int, j2: int| two_slashes(d@, i2, j2) implies i2 == i && j2 == j by {
            lemma_two_slashes_unique(d@, wi, wj, i2, j2);
        }
    }
    let a = small_number(d, 0, i);
    let b = small_number(d, i + 1, j);
    let c = small_number(d, j + 1, n);
    match (a, b, c) {
        (Some(a), Some(b), Some(c)) => Some((a, b, c)),
        _ => None,
    }
}

/// `chat_date`, for a header date.
fn parse_date(d: &Vec<char>, day_first: bool) -> (r: Option<Date>)
    requires
        ios_date_shape(d@) || android_date_shape(d@),
    ensures
        match r {
            Some(date) => chat_date(d@, day_first) == Some(date.ymd()),
            None => chat_date(d@, day_first) is None,
        },
{
    match date_components_exec(d) {
        Some((a, b, y0)) => {
            let y = if y0 < 100 {
                y0 + 2000
            } else {
                y0
            };
            let (day, month) = if day_first {
                (a, b)
            } else {
                (b, a)
            };
            Date::from_ymd_opt(y as i32, month, day)
        },
        None => None,
    }
}


/// The two chat-export formats.
#[derive(Debug, Clone, Copy, PartialEq, Eq, Structural)]
pub enum ChatFormat {
    Ios,
    Android,
}

pub open spec fn format_header(f: ChatFormat, l: Seq<char>, h: HeaderFields) -> bool {
    match f {
        ChatFormat::Ios => ios_header(l, h),
        ChatFormat::Android => android_header(l, h),
    }
}

/// The captured fields of `l` as a header of format `f`, if it is one.
pub open spec fn header_of(f: ChatFormat, l: Seq<char>) -> Option<HeaderFields> {
    if exists|h: HeaderFields| format_header(f, l, h) {
        Some(choose|h: HeaderFields| format_header(f, l, h))
    } else {
        None
    }
}

/// The format whose header pattern `l` matches, iOS tried first.
pub open spec fn line_format(l: Seq<char>) -> Option<ChatFormat> {
    if header_of(ChatFormat::Ios, l) is Some {
        Some(ChatFormat::Ios)
    } else if header_of(ChatFormat::Android, l) is Some {
        Some(ChatFormat::Android)
    } else {
        None
    }
}

/// The format of a chat: that of its first line matching either header
/// pattern.
pub open spec fn detect_format(lines: Seq<Seq<char>>) -> Option<ChatFormat>
    decreases lines.len(),
{
    if lines.len() == 0 {
        None
    } else {
        match line_format(lines[0]) {
            Some(f) => Some(f),
            None => detect_format(lines.drop_first()),
        }
    }
}

/// A header date that can be a real date in at least one of the two orders;
/// only those take part in deciding the order.
pub open spec fn order_evidence(d: Seq<char>) -> bool {
    &&& date_components(d) is Some
    &&& (chat_date(d, true) is Some || chat_date(d, false) is Some)
}

/// An Android header whose date proves day-first order (first number above
/// 12).
pub open spec fn proves_day_first(l: Seq<char>) -> bool {
    header_of(ChatFormat::Android, l) matches Some(h) && order_evidence(h.date) && date_components(
        h.date,
    )->Some_0.0 > 12
}

/// An Android header whose date proves month-first order (second number
/// above 12).
pub open spec fn proves_month_first(l: Seq<char>) -> bool {
    header_of(ChatFormat::Android, l) matches Some(h) && order_evidence(h.date) && date_components(
        h.date,
    )->Some_0.1 > 12
}

/// Day-first unless the chat is Android, no date proves day-first, and some
/// date proves month-first.
pub open spec fn day_first_of(f: ChatFormat, lines: Seq<Seq<char>>) -> bool {
    ||| f == ChatFormat::Ios
    ||| exists|i: int| 0 <= i < lines.len() && proves_day_first(#[trigger] lines[i])
    ||| !exists|i: int| 0 <= i < lines.len() && proves_month_first(#[trigger] lines[i])
}

/// The three numbers of the date of `l`, read as an Android header.
pub open spec fn android_date_numbers(l: Seq<char>) -> Option<(int, int, int)> {
    match header_of(ChatFormat::Android, l) {
        Some(h) => date_components(h.date),
        None => None,
    }
}

/// No Android header date among `lines` has a first number above 12.
pub open spec fn no_day_first_evidence(lines: Seq<Seq<char>>) -> bool {
    forall|j: int|
        0 <= j < lines.len() ==> (#[trigger] android_date_numbers(lines[j]) matches Some((a, b, c)) ==> a <= 12)
}

/// Law: an Android chat with a header date whose first number is above 12,
/// and which is a real date read day-first, is read day-first.
pub proof fn lemma_day_first_evidence(lines: Seq<Seq<char>>, i: int)
    requires
        0 <= i < lines.len(),
        header_of(ChatFormat::Android, lines[i]) matches Some(h) && (date_components(h.date) matches Some(
            (a, b, c),
        ) && a > 12 && chat_date(h.date, true) is Some),
    ensures
        day_first_of(ChatFormat::Android, lines),
{
    assert(proves_day_first(lines[i]));
}

/// Law: an Android chat with a header date whose second number is above
/// 12, and which is a real date read month-first, is read month-first when
/// no header date has a first number above 12.
pub proof fn lemma_month_first_evidence(lines: Seq<Seq<char>>, i: int)
    requires
        0 <= i < lines.len(),
        header_of(ChatFormat::Android, lines[i]) matches Some(h) && (date_components(h.date) matches Some(
            (a, b, c),
        ) && b > 12 && chat_date(h.date, false) is Some),
        no_day_first_evidence(lines),
    ensures
        !day_first_of(ChatFormat::Android, lines),
{
    assert(proves_month_first(lines[i]));
    assert forall|j: int| 0 <= j < lines.len() implies !proves_day_first(#[trigger] lines[j]) by {
        assert(android_date_numbers(lines[j]) matches Some((a, b, c)) ==> a <= 12);
    }
}

/// Law: an Android chat in which no header date has a number above 12 is
/// read day-first.
pub proof fn lemma_ambiguous_is_day_first(lines: Seq<Seq<char>>)
    requires
        forall|j: int|
            0 <= j < lines.len() ==> (#[trigger] android_date_numbers(lines[j]) matches Some((a, b, c))
                ==> a <= 12 && b <= 12),
    ensures
        day_first_of(ChatFormat::Android, lines),
{
    assert forall|j: int| 0 <= j < lines.len() implies !proves_month_first(#[trigger] lines[j]) by {
        assert(android_date_numbers(lines[j]) matches Some((a, b, c)) ==> a <= 12 && b <= 12);
    }
}

/// Law: lines added before or after an Android chat read month-first, none
/// of them a header with a first number above 12, leave it month-first.
pub proof fn lemma_month_first_persists(lines: Seq<Seq<char>>, more: Seq<Seq<char>>)
    requires
        !day_first_of(ChatFormat::Android, lines),
        no_day_first_evidence(more),
    ensures
        !day_first_of(ChatFormat::Android, lines + more),
        !day_first_of(ChatFormat::Android, more + lines),
{
    let i = choose|i: int| 0 <= i < lines.len() && proves_month_first(#[trigger] lines[i]);
    let after = lines + more;
    let before = more + lines;
    assert(after[i] == lines[i]);
    assert(proves_month_first(after[i]));
    assert(before[more.len() + i] == lines[i]);
    assert(proves_month_first(before[more.len() + i]));
    assert forall|j: int| 0 <= j < after.len() implies !proves_day_first(#[trigger] after[j]) by {
        if j < lines.len() {
            assert(after[j] == lines[j]);
        } else {
            assert(after[j] == more[j - lines.len()]);
            assert(android_date_numbers(more[j - lines.len()]) matches Some((a, b, c)) ==> a <= 12);
        }
    }
    assert forall|j: int| 0 <= j < before.len() implies !proves_day_first(#[trigger] before[j]) by {
        if j < more.len() {
            assert(before[j] == more[j]);
            assert(android_date_numbers(more[j]) matches Some((a, b, c)) ==> a <= 12);
        } else {
            assert(before[j] == lines[j - more.len()]);
        }
    }
}

/// A message as plain values: date as year, month and day.
pub struct MessageView {
    pub date: (int, int, int),
    pub time: Seq<char>,
    pub sender: Seq<char>,
    pub body: Seq<char>,
    pub line_index: int,
}

/// One chat message: its header fields, the body with any continuation
/// lines, and the index of its header line.
#[derive(Debug, Clone, PartialEq)]
pub struct Message {
    pub date: Date,
    pub time: String,
    pub sender: String,
    pub body: String,
    pub line_index: usize,
}

impl View for Message {
    type V = MessageView;

    open spec fn view(&self) -> MessageView {
        MessageView {
            date: self.date.ymd(),
            time: self.time@,
            sender: self.sender@,
            body: self.body@,
            line_index: self.line_index as int,
        }
    }
}

pub open spec fn message_views(v: Seq<Message>) -> Seq<MessageView> {
    v.map_values(|m: Message| m@)
}

/// The message that header line `i` opens, if it is a header with a real
/// date.
pub open spec fn header_message(f: ChatFormat, day_first: bool, l: Seq<char>, i: int) -> Option<
    MessageView,
> {
    match header_of(f, l) {
        Some(h) => match chat_date(h.date, day_first) {
            Some(d) => Some(
                MessageView { date: d, time: h.time, sender: h.sender, body: h.body, line_index: i },
            ),
            None => None,
        },
        None => None,
    }
}

/// A continuation line folded into a message body.
pub open spec fn continued(m: MessageView, raw: Seq<char>) -> MessageView {
    MessageView { body: m.body + seq!['\n'] + raw, ..m }
}

/// The messages of the first `n` lines: a header line opens a message, any
/// other line continues the last one (as it was written, marks included),
/// and lines before the first header are dropped.
pub open spec fn messages_upto(
    clean: Seq<Seq<char>>,
    raw: Seq<Seq<char>>,
    f: ChatFormat,
    day_first: bool,
    n: int,
) -> Seq<MessageView>
    decreases n,
{
    if n <= 0 {
        Seq::empty()
    } else {
        let prev = messages_upto(clean, raw, f, day_first, n - 1);
        match header_message(f, day_first, clean[n - 1], n - 1) {
            Some(m) => prev.push(m),
            None => if prev.len() == 0 {
                prev
            } else {
                prev.update(prev.len() - 1, continued(prev.last(), raw[n - 1]))
            },
        }
    }
}

/// The messages of a chat export.
pub open spec fn chat_messages(text: Seq<char>) -> Seq<MessageView> {
    let raw = lines_of(text);
    let clean = raw.map_values(|l: Seq<char>| without_marks(l));
    match detect_format(clean) {
        Some(f) => messages_upto(clean, raw, f, day_first_of(f, clean), raw.len() as int),
        None => Seq::empty(),
    }
}

fn header_exec(f: ChatFormat, l: &Vec<char>) -> (r: Option<HeaderSpans>)
    ensures
        match r {
            Some(sp) => spans_ok(l@, sp) && header_of(f, l@) == Some(fields_at(l@, sp)),
            None => header_of(f, l@) is None,
        },
{
    let r = match f {
        ChatFormat::Ios => match_ios_header(l),
        ChatFormat::Android => match_android_header(l),
    };
    proof {
        match r {
            Some(sp) => {
                assert(format_header(f, l@, fields_at(l@, sp)));
            },
            None => {},
        }
    }
    r
}

fn detect_format_exec(clean: &Vec<Vec<char>>) -> (r: Option<ChatFormat>)
    ensures
        r == detect_format(views_of(clean@)),
{
    let ghost all = views_of(clean@);
    let mut i: usize = 0;
    proof {
        assert(all.skip(0) =~= all);
    }
    while i < clean.len()
        invariant
            i <= clean.len(),
            all == views_of(clean@),
            detect_format(all) == detect_format(all.skip(i as int)),
        decreases clean.len() - i,
    {
        proof {
            assert(all.skip(i as int)[0] == clean@[i as int]@);
            assert(all.skip(i as int).drop_first() =~= all.skip(i + 1));
        }
        if header_exec(ChatFormat::Ios, &clean[i]).is_some() {
            return Some(ChatFormat::Ios);
        }
        if header_exec(ChatFormat::Android, &clean[i]).is_some() {
            return Some(ChatFormat::Android);
        }
        i = i + 1;
    }
    proof {
        assert(all.skip(i as int).len() == 0);
    }
    None
}

/// Day-first or month-first for an Android chat, from all its header dates.
fn infer_day_first(clean: &Vec<Vec<char>>) -> (r: bool)
    ensures
        r == day_first_of(ChatFormat::Android, views_of(clean@)),
{
    let ghost all = views_of(clean@);
    let mut any_day = false;
    let mut any_month = false;
    let mut i: usize = 0;
    while i < clean.len()
        invariant
            i <= clean.len(),
            all == views_of(clean@),
            any_day == exists|k: int| 0 <= k < i && proves_day_first(#[trigger] all[k]),
            any_month == exists|k: int| 0 <= k < i && proves_month_first(#[trigger] all[k]),
        decreases clean.len() - i,
    {
        let l = &clean[i];
        let mut day_here = false;
        let mut month_here = false;
        match header_exec(ChatFormat::Android, l) {
            Some(sp) => {
                let d = sub_chars(l, sp.date_start, sp.date_end);
                proof {
                    assert(android_header(l@, fields_at(l@, sp)));
                    let c = choose|c: bool| android_header_with(l@, fields_at(l@, sp), c);
                }
                match date_components_exec(&d) {
                    Some((a, b, _)) => {
                        let usable = parse_date(&d, true).is_some() || parse_date(
                            &d,
                            false,
                        ).is_some();
                        day_here = usable && a > 12;
                        month_here = usable && b > 12;
                    },
                    None => {},
                }
            },
            None => {},
        }
        proof {
            assert(all[i as int] == l@);
            assert(day_here == proves_day_first(all[i as int]));
            assert(month_here == proves_month_first(all[i as int]));
        }
        any_day = any_day || day_here;
        any_month = any_month || month_here;
        i = i + 1;
    }
    any_day || !any_month
}


/// Parse a chat export into its messages.
///
/// The format (iOS `[date, time] sender: body` or Android `date, time -
/// sender: body`) is that of the first line matching either header pattern,
/// and holds for the whole chat. Invisible marks are removed before
/// matching. A header line whose date is not a real date, and any other
/// line, continues the previous message, verbatim; lines before the first
/// message are dropped.
pub fn parse_chat(text: &str) -> (r: Vec<Message>)
    ensures
        message_views(r@) == chat_messages(text@),
{
    let chars = chars_of(text);
    let raw = split_lines(&chars);
    let ghost rawv = lines_of(text@);
    let ghost cleanv = rawv.map_values(|l: Seq<char>| without_marks(l));
    let mut clean: Vec<Vec<char>> = Vec::new();
    let mut i: usize = 0;
    while i < raw.len()
        invariant
            i <= raw.len(),
            views_of(raw@) == rawv,
            cleanv == rawv.map_values(|l: Seq<char>| without_marks(l)),
            views_of(clean@) == cleanv.take(i as int),
        decreases raw.len() - i,
    {
        let c = strip_invisible(&raw[i]);
        let ghost before = views_of(clean@);
        clean.push(c);
        proof {
            assert(rawv[i as int] == raw@[i as int]@);
            assert(cleanv[i as int] == without_marks(rawv[i as int]));
            assert(views_of(clean@) =~= before.push(c@));
            assert(views_of(clean@) =~= cleanv.take(i + 1));
        }
        i = i + 1;
    }
    proof {
        assert(views_of(clean@) =~= cleanv);
    }
    let f = match detect_format_exec(&clean) {
        Some(f) => f,
        None => {
            return Vec::new();
        },
    };
    let day_first = match f {
        ChatFormat::Ios => true,
        ChatFormat::Android => infer_day_first(&clean),
    };
    let mut msgs: Vec<Message> = Vec::new();
    let mut i: usize = 0;
    while i < clean.len()
        invariant
            i <= clean.len(),
            clean.len() == raw.len(),
            views_of(raw@) == rawv,
            views_of(clean@) == cleanv,
            rawv.len() == cleanv.len(),
            message_views(msgs@) == messages_upto(cleanv, rawv, f, day_first, i as int),
        decreases clean.len() - i,
    {
        let l = &clean[i];
        let n = l.len();
        let mut opened = false;
        proof {
            assert(cleanv[i as int] == l@);
            assert(rawv[i as int] == raw@[i as int]@);
        }
        match header_exec(f, l) {
            Some(sp) => {
                let d = sub_chars(l, sp.date_start, sp.date_end);
                proof {
                    if f == ChatFormat::Android {
                        assert(android_header(l@, fields_at(l@, sp)));
                        let c = choose|c: bool| android_header_with(l@, fields_at(l@, sp), c);
                    } else {
                        assert(ios_header(l@, fields_at(l@, sp)));
                    }
                }
                match parse_date(&d, day_first) {
                    Some(date) => {
                        let time = string_from_chars(&sub_chars(l, sp.time_start, sp.time_end));
                        let sender = string_from_chars(
                            &sub_chars(l, sp.sender_start, sp.sender_end),
                        );
                        let body = string_from_chars(&sub_chars(l, sp.sender_end + 2, n));
                        let m = Message { date, time, sender, body, line_index: i };
                        let ghost before = message_views(msgs@);
                        msgs.push(m);
                        opened = true;
                        proof {
                            assert(message_views(msgs@) =~= before.push(m@));
                        }
                    },
                    None => {},
                }
            },
            None => {},
        }
        if !opened && msgs.len() > 0 {
            let ghost before = message_views(msgs@);
            let mut m = msgs.pop().unwrap();
            let ghost m1 = m@;
            proof {
                assert(message_views(msgs@) =~= before.drop_last());
                assert(m1 == before.last());
            }
            let mut cont: Vec<char> = vec!['\n'];
            let mut rest = sub_chars(&raw[i], 0, raw[i].len());
            cont.append(&mut rest);
            let s = string_from_chars(&cont);
            m.body.append(s.as_str());
            let ghost m2 = m@;
            msgs.push(m);
            proof {
                assert(raw@[i as int]@.subrange(0, raw@[i as int]@.len() as int) =~= raw@[i as int]@);
                assert(cont@ =~= seq!['\n'] + rawv[i as int]);
                assert(m2.body =~= m1.body + seq!['\n'] + rawv[i as int]);
                assert(m2 == continued(before.last(), rawv[i as int]));
                assert(message_views(msgs@) =~= before.update(before.len() - 1, m2));
            }
        }
        i = i + 1;
    }
    msgs
}


/// Whether an attachment's filename is an audio file.
pub fn is_audio_attachment(filename: &str) -> (r: bool)
    ensures
        r == is_audio_path(filename@),
{
    is_audio(filename)
}

pub open spec fn opt_ymd(d: Option<Date>) -> Option<(int, int, int)> {
    match d {
        Some(d) => Some(d.ymd()),
        None => None,
    }
}

/// Within `[from, to]`, both ends included; a missing bound does not limit.
pub open spec fn in_date_range(
    d: (int, int, int),
    from: Option<(int, int, int)>,
    to: Option<(int, int, int)>,
) -> bool {
    &&& (from matches Some(a) ==> !date_before(d, a))
    &&& (to matches Some(b) ==> !date_before(b, d))
}

/// Law: for real dates, the range holds a date exactly when its day number
/// lies between those of the bounds, both ends included.
pub proof fn lemma_date_range_inclusive(
    d: (int, int, int),
    from: Option<(int, int, int)>,
    to: Option<(int, int, int)>,
)
    requires
        calendar_date(d.0, d.1, d.2),
        from matches Some(a) ==> calendar_date(a.0, a.1, a.2),
        to matches Some(b) ==> calendar_date(b.0, b.1, b.2),
    ensures
        in_date_range(d, from, to) <==> (from matches Some(a) ==> day_number(a.0, a.1, a.2) <= day_number(
            d.0,
            d.1,
            d.2,
        )) && (to matches Some(b) ==> day_number(d.0, d.1, d.2) <= day_number(b.0, b.1, b.2)),
{
    if let Some(a) = from {
        lemma_date_before_is_chronological(d, a);
    }
    if let Some(b) = to {
        lemma_date_before_is_chronological(b, d);
    }
}

/// A message carrying an audio attachment, dated within the range.
pub open spec fn is_selected(
    m: MessageView,
    from: Option<(int, int, int)>,
    to: Option<(int, int, int)>,
) -> bool {
    &&& attachment_of(m.body) matches Some(f)
    &&& is_audio_path(f)
    &&& in_date_range(m.date, from, to)
}

fn copy_message(m: &Message) -> (r: Message)
    ensures
        r@ == m@,
{
    Message {
        date: m.date,
        time: m.time.clone(),
        sender: m.sender.clone(),
        body: m.body.clone(),
        line_index: m.line_index,
    }
}

/// Return messages carrying an audio attachment, within [date_from,
/// date_to].
pub fn select_audio_messages(
    messages: &[Message],
    date_from: Option<Date>,
    date_to: Option<Date>,
) -> (r: Vec<Message>)
    ensures
        message_views(r@) == message_views(messages@).filter(
            |m: MessageView| is_selected(m, opt_ymd(date_from), opt_ymd(date_to)),
        ),
{
    let ghost from = opt_ymd(date_from);
    let ghost to = opt_ymd(date_to);
    let ghost all = message_views(messages@);
    let ghost pred = |m: MessageView| is_selected(m, from, to);
    let mut out: Vec<Message> = Vec::new();
    let mut i: usize = 0;
    proof {
        reveal(Seq::filter);
    }
    while i < messages.len()
        invariant
            i <= messages.len(),
            all == message_views(messages@),
            from == opt_ymd(date_from),
            to == opt_ymd(date_to),
            pred == (|m: MessageView| is_selected(m, from, to)),
            message_views(out@) == all.take(i as int).filter(pred),
        decreases messages.len() - i,
    {
        let m = &messages[i];
        proof {
            assert(all.take(i + 1).drop_last() =~= all.take(i as int));
            assert(all.take(i + 1).last() == m@);
        }
        let keep = match extract_attachment(m.body.as_str()) {
            Some(f) => {
                if !is_audio_attachment(f) {
                    false
                } else {
                    let after_start = match &date_from {
                        Some(a) => !m.date.is_before(a),
                        None => true,
                    };
                    let before_end = match &date_to {
                        Some(b) => !b.is_before(&m.date),
                        None => true,
                    };
                    after_start && before_end
                }
            },
            None => false,
        };
        proof {
            reveal(Seq::filter);
            assert(keep == pred(m@));
        }
        if keep {
            let ghost before = message_views(out@);
            out.push(copy_message(m));
            proof {
                assert(message_views(out@) =~= before.push(m@));
            }
        }
        i = i + 1;
    }
    proof {
        assert(all.take(messages.len() as int) =~= all);
    }
    out
}

pub open spec fn string_views(v: Seq<String>) -> Seq<Seq<char>> {
    v.map_values(|s: String| s@)
}

/// `_chat.txt`
pub open spec fn chat_txt_suffix() -> Seq<char> {
    seq!['_', 'c', 'h', 'a', 't', '.', 't', 'x', 't']
}

/// `.txt`
pub open spec fn txt_suffix() -> Seq<char> {
    seq!['.', 't', 'x', 't']
}

/// A `.txt` member (in any case) at the root of the archive.
pub open spec fn is_root_txt(n: Seq<char>) -> bool {
    has_suffix(to_lower(n), txt_suffix()) && !n.contains('/')
}

pub open spec fn first_with_suffix(names: Seq<Seq<char>>, suffix: Seq<char>, i: int) -> bool {
    &&& 0 <= i < names.len()
    &&& has_suffix(names[i], suffix)
    &&& forall|j: int| 0 <= j < i ==> !has_suffix(#[trigger] names[j], suffix)
}

/// The chat log of an export: the first member whose name ends in
/// `_chat.txt`, else the only `.txt` at the root, if there is exactly one.
pub open spec fn chat_entry(names: Seq<Seq<char>>) -> Option<Seq<char>> {
    if exists|i: int| first_with_suffix(names, chat_txt_suffix(), i) {
        Some(names[choose|i: int| first_with_suffix(names, chat_txt_suffix(), i)])
    } else if names.filter(|n: Seq<char>| is_root_txt(n)).len() == 1 {
        Some(names.filter(|n: Seq<char>| is_root_txt(n))[0])
    } else {
        None
    }
}

pub open spec fn no_chat_log_message() -> Seq<char> {
    "could not locate a chat log (*_chat.txt or a single root .txt)"@
}

fn chat_txt_suffix_exec() -> (v: Vec<char>)
    ensures
        v@ == chat_txt_suffix(),
{
    let v = vec!['_', 'c', 'h', 'a', 't', '.', 't', 'x', 't'];
    proof {
        assert(v@ =~= chat_txt_suffix());
    }
    v
}

fn txt_suffix_exec() -> (v: Vec<char>)
    ensures
        v@ == txt_suffix(),
{
    let v = vec!['.', 't', 'x', 't'];
    proof {
        assert(v@ =~= txt_suffix());
    }
    v
}

/// Locate the chat-log member inside a WhatsApp export zip's namelist.
pub fn find_chat_entry(names: &[String]) -> (r: Result<String, String>)
    ensures
        match r {
            Ok(name) => chat_entry(string_views(names@)) == Some(name@),
            Err(msg) => chat_entry(string_views(names@)) is None && msg@ == no_chat_log_message(),
        },
{
    let ghost nv = string_views(names@);
    let chat_txt = chat_txt_suffix_exec();
    let mut i: usize = 0;
    while i < names.len()
        invariant
            i <= names.len(),
            nv == string_views(names@),
            chat_txt@ == chat_txt_suffix(),
            forall|j: int| 0 <= j < i ==> !has_suffix(#[trigger] nv[j], chat_txt_suffix()),
        decreases names.len() - i,
    {
        let n = chars_of(names[i].as_str());
        if ends_with(&n, &chat_txt) {
            proof {
                assert(first_with_suffix(nv, chat_txt_suffix(), i as int));
                assert forall|k: int| first_with_suffix(nv, chat_txt_suffix(), k) implies k
                    == i by {
                    if k < i {
                    } else if k > i {
                        assert(!has_suffix(nv[i as int], chat_txt_suffix()));
                    }
                }
            }
            return Ok(names[i].clone());
        }
        i = i + 1;
    }
    proof {
        assert forall|k: int| !first_with_suffix(nv, chat_txt_suffix(), k) by {}
    }
    let ghost pred = |n: Seq<char>| is_root_txt(n);
    let txt = txt_suffix_exec();
    let mut count: usize = 0;
    let mut found: usize = 0;
    let mut i: usize = 0;
    proof {
        reveal(Seq::filter);
    }
    while i < names.len()
        invariant
            i <= names.len(),
            nv == string_views(names@),
            txt@ == txt_suffix(),
            pred == (|n: Seq<char>| is_root_txt(n)),
            count == (if nv.take(i as int).filter(pred).len() <= 2 {
                nv.take(i as int).filter(pred).len()
            } else {
                2
            }),
            count > 0 ==> found < i && nv[found as int] == nv.take(i as int).filter(pred)[0],
        decreases names.len() - i,
    {
        let ghost before = nv.take(i as int).filter(pred);
        proof {
            assert(nv.take(i + 1).drop_last() =~= nv.take(i as int));
            assert(nv.take(i + 1).last() == nv[i as int]);
        }
        let n = chars_of(names[i].as_str());
        let lower = chars_of(to_lowercase(names[i].as_str()).as_str());
        let hit = ends_with(&lower, &txt) && !contains_char(&n, '/');
        proof {
            reveal(Seq::filter);
            assert(hit == pred(nv[i as int]));
            if hit {
                assert(nv.take(i + 1).filter(pred) == before.push(nv[i as int]));
            } else {
                assert(nv.take(i + 1).filter(pred) == before);
            }
        }
        if hit {
            if count == 0 {
                found = i;
            }
            if count < 2 {
                count = count + 1;
            }
        }
        i = i + 1;
    }
    proof {
        assert(nv.take(names.len() as int) =~= nv);
    }
    if count == 1 {
        Ok(names[found].clone())
    } else {
        Err("could not locate a chat log (*_chat.txt or a single root .txt)".to_string())
    }
}


/// A zip member holding the attachment `f`: named `f`, or ending in `/f`.
pub open spec fn member_matches(n: Seq<char>, f: Seq<char>) -> bool {
    n == f || has_suffix(n, seq!['/'] + f)
}

pub open spec fn first_member(names: Seq<Seq<char>>, f: Seq<char>, i: int) -> bool {
    &&& 0 <= i < names.len()
    &&& member_matches(names[i], f)
    &&& forall|j: int| 0 <= j < i ==> !member_matches(#[trigger] names[j], f)
}

/// The first member of `names` that holds the attachment `f`.
pub open spec fn attachment_member(names: Seq<Seq<char>>, f: Seq<char>) -> Option<Seq<char>> {
    if exists|i: int| first_member(names, f, i) {
        Some(names[choose|i: int| first_member(names, f, i)])
    } else {
        None
    }
}

/// Find the zip member matching an attachment filename referenced in the
/// chat.
pub fn find_attachment_member(names: &[String], filename: &str) -> (r: Option<String>)
    ensures
        match r {
            Some(n) => attachment_member(string_views(names@), filename@) == Some(n@),
            None => attachment_member(string_views(names@), filename@) is None,
        },
{
    let ghost nv = string_views(names@);
    let f = chars_of(filename);
    let mut slash_f: Vec<char> = vec!['/'];
    let mut f2 = chars_of(filename);
    slash_f.append(&mut f2);
    let mut i: usize = 0;
    while i < names.len()
        invariant
            i <= names.len(),
            nv == string_views(names@),
            f@ == filename@,
            slash_f@ == seq!['/'] + filename@,
            forall|j: int| 0 <= j < i ==> !member_matches(#[trigger] nv[j], filename@),
        decreases names.len() - i,
    {
        let n = chars_of(names[i].as_str());
        if same_chars(&n, &f) || ends_with(&n, &slash_f) {
            proof {
                assert(first_member(nv, filename@, i as int));
                assert forall|k: int| first_member(nv, filename@, k) implies k == i by {
                    if k > i {
                        assert(member_matches(nv[i as int], filename@));
                    }
                }
            }
            return Some(names[i].clone());
        }
        i = i + 1;
    }
    None
}

/// Where an attachment is extracted to: the bare file name (path
/// components of the reference dropped) inside `audio_dir`.
pub open spec fn extracted_path_spec(audio_dir: Seq<char>, filename: Seq<char>) -> Seq<char> {
    join(
        audio_dir,
        match file_name(filename) {
            Some(n) => n,
            None => Seq::empty(),
        },
    )
}

/// The on-disk path an attachment is extracted to.
pub fn extracted_path(audio_dir: &str, filename: &str) -> (r: String)
    ensures
        r@ == extracted_path_spec(audio_dir@, filename@),
{
    let name = match file_name_of(&chars_of(filename)) {
        Some(n) => n,
        None => Vec::new(),
    };
    string_from_chars(&join_path(&chars_of(audio_dir), &name))
}

pub open spec fn pair_views(v: Seq<(String, String)>) -> Seq<(Seq<char>, Seq<char>)> {
    v.map_values(|p: (String, String)| (p.0@, p.1@))
}

/// The text of the last entry keyed `key`: later entries win.
pub open spec fn transcript_for(entries: Seq<(Seq<char>, Seq<char>)>, key: Seq<char>) -> Option<
    Seq<char>,
>
    decreases entries.len(),
{
    if entries.len() == 0 {
        None
    } else if entries.last().0 == key {
        Some(entries.last().1)
    } else {
        transcript_for(entries.drop_last(), key)
    }
}

/// Law: the transcript of a key is the text of the last entry with that
/// key, and there is none exactly when no entry has the key.
pub proof fn lemma_transcript_is_last_entry(entries: Seq<(Seq<char>, Seq<char>)>, key: Seq<char>)
    ensures
        transcript_for(entries, key) matches Some(t) ==> exists|i: int|
            0 <= i < entries.len() && #[trigger] entries[i] == (key, t) && forall|j: int|
                i < j < entries.len() ==> (#[trigger] entries[j]).0 != key,
        transcript_for(entries, key) is None <==> forall|j: int|
            0 <= j < entries.len() ==> (#[trigger] entries[j]).0 != key,
    decreases entries.len(),
{
    if entries.len() > 0 {
        let p = entries.drop_last();
        lemma_transcript_is_last_entry(p, key);
        let n = entries.len() - 1;
        assert(entries[n] == entries.last());
        if entries.last().0 == key {
            assert(entries[n] == (key, entries.last().1));
        } else {
            if let Some(t) = transcript_for(p, key) {
                let i = choose|i: int|
                    0 <= i < p.len() && #[trigger] p[i] == (key, t) && forall|j: int|
                        i < j < p.len() ==> (#[trigger] p[j]).0 != key;
                assert(entries[i] == p[i]);
                assert forall|j: int| i < j < entries.len() implies (#[trigger] entries[j]).0 != key by {
                    if j < n {
                        assert(entries[j] == p[j]);
                    }
                }
            }
            assert((forall|j: int| 0 <= j < p.len() ==> (#[trigger] p[j]).0 != key) <==> (forall|j: int|
                0 <= j < entries.len() ==> (#[trigger] entries[j]).0 != key)) by {
                if forall|j: int| 0 <= j < p.len() ==> (#[trigger] p[j]).0 != key {
                    assert forall|j: int| 0 <= j < entries.len() implies (#[trigger] entries[j]).0 != key by {
                        if j < n {
                            assert(entries[j] == p[j]);
                        }
                    }
                }
                if forall|j: int| 0 <= j < entries.len() ==> (#[trigger] entries[j]).0 != key {
                    assert forall|j: int| 0 <= j < p.len() implies (#[trigger] p[j]).0 != key by {
                        assert(entries[j] == p[j]);
                    }
                }
            }
        }
    }
}

/// The transcript to insert after line `i`: that of the last message opened
/// on line `i` whose extracted attachment has a transcript.
pub open spec fn inserted_text(
    ms: Seq<MessageView>,
    entries: Seq<(Seq<char>, Seq<char>)>,
    audio_dir: Seq<char>,
    i: int,
) -> Option<Seq<char>>
    decreases ms.len(),
{
    if ms.len() == 0 {
        None
    } else {
        let m = ms.last();
        let here = if m.line_index == i {
            match attachment_of(m.body) {
                Some(f) => transcript_for(entries, extracted_path_spec(audio_dir, f)),
                None => None,
            }
        } else {
            None
        };
        match here {
            Some(t) => Some(t),
            None => inserted_text(ms.drop_last(), entries, audio_dir, i),
        }
    }
}

/// Law: each message with a transcript gets it inlined after its own line,
/// whatever the other messages are (no two messages opening on one line,
/// as `parse_chat` gives them).
pub proof fn lemma_each_transcript_inlined(
    ms: Seq<MessageView>,
    entries: Seq<(Seq<char>, Seq<char>)>,
    audio_dir: Seq<char>,
    k: int,
)
    requires
        0 <= k < ms.len(),
        forall|j: int| 0 <= j < ms.len() && j != k ==> (#[trigger] ms[j]).line_index != ms[k].line_index,
        attachment_of(ms[k].body) is Some,
    ensures
        inserted_text(ms, entries, audio_dir, ms[k].line_index) == transcript_for(
            entries,
            extracted_path_spec(audio_dir, attachment_of(ms[k].body)->Some_0),
        ),
    decreases ms.len(),
{
    let i = ms[k].line_index;
    if k == ms.len() - 1 {
        let t = transcript_for(entries, extracted_path_spec(audio_dir, attachment_of(ms[k].body)->Some_0));
        if t is None {
            lemma_no_other_on_line(ms.drop_last(), entries, audio_dir, i);
        }
    } else {
        let p = ms.drop_last();
        assert(p[k] == ms[k]);
        assert forall|j: int| 0 <= j < p.len() && j != k implies (#[trigger] p[j]).line_index != p[k].line_index by {
            assert(p[j] == ms[j]);
        }
        lemma_each_transcript_inlined(p, entries, audio_dir, k);
        assert(ms.last() == ms[ms.len() - 1]);
    }
}

proof fn lemma_no_other_on_line(
    ms: Seq<MessageView>,
    entries: Seq<(Seq<char>, Seq<char>)>,
    audio_dir: Seq<char>,
    i: int,
)
    requires
        forall|j: int| 0 <= j < ms.len() ==> (#[trigger] ms[j]).line_index != i,
    ensures
        inserted_text(ms, entries, audio_dir, i) is None,
    decreases ms.len(),
{
    if ms.len() > 0 {
        let p = ms.drop_last();
        assert forall|j: int| 0 <= j < p.len() implies (#[trigger] p[j]).line_index != i by {
            assert(p[j] == ms[j]);
        }
        lemma_no_other_on_line(p, entries, audio_dir, i);
        assert(ms.last() == ms[ms.len() - 1]);
    }
}

/// Law: a transcript is inlined after a line only where a message opens on
/// that line and its attachment's extracted path has that transcript.
pub proof fn lemma_inlined_only_for_messages(
    ms: Seq<MessageView>,
    entries: Seq<(Seq<char>, Seq<char>)>,
    audio_dir: Seq<char>,
    i: int,
)
    ensures
        inserted_text(ms, entries, audio_dir, i) matches Some(t) ==> exists|k: int|
            0 <= k < ms.len() && (#[trigger] ms[k]).line_index == i && (attachment_of(ms[k].body) matches Some(f)
                && transcript_for(entries, extracted_path_spec(audio_dir, f)) == Some(t)),
    decreases ms.len(),
{
    if ms.len() > 0 {
        let p = ms.drop_last();
        lemma_inlined_only_for_messages(p, entries, audio_dir, i);
        if let Some(t) = inserted_text(ms, entries, audio_dir, i) {
            let m = ms.last();
            assert(ms[ms.len() - 1] == m);
            if inserted_text(p, entries, audio_dir, i) == Some(t) && !(m.line_index == i
                && attachment_of(m.body) is Some && transcript_for(
                entries,
                extracted_path_spec(audio_dir, attachment_of(m.body)->Some_0),
            ) is Some) {
                let k = choose|k: int|
                    0 <= k < p.len() && (#[trigger] p[k]).line_index == i && (attachment_of(p[k].body) matches Some(f)
                        && transcript_for(entries, extracted_path_spec(audio_dir, f)) == Some(t));
                assert(ms[k] == p[k]);
            }
        }
    }
}

/// `    >> [transcript] `
pub open spec fn transcript_prefix() -> Seq<char> {
    seq![' ', ' ', ' ', ' ', '>', '>', ' ', '[', 't', 'r', 'a', 'n', 's', 'c', 'r', 'i', 'p', 't', ']', ' ']
}

/// The lines of the merged chat that come from the first `n` chat lines:
/// each line, then its transcript line if it has one.
pub open spec fn merged_lines(
    lines: Seq<Seq<char>>,
    ms: Seq<MessageView>,
    entries: Seq<(Seq<char>, Seq<char>)>,
    audio_dir: Seq<char>,
    n: int,
) -> Seq<Seq<char>>
    decreases n,
{
    if n <= 0 {
        Seq::empty()
    } else {
        let base = merged_lines(lines, ms, entries, audio_dir, n - 1).push(lines[n - 1]);
        match inserted_text(ms, entries, audio_dir, n - 1) {
            Some(t) => base.push(transcript_prefix() + t),
            None => base,
        }
    }
}

/// `ls` joined with line feeds.
pub open spec fn join_lines(ls: Seq<Seq<char>>) -> Seq<char>
    decreases ls.len(),
{
    if ls.len() == 0 {
        Seq::empty()
    } else if ls.len() == 1 {
        ls[0]
    } else {
        join_lines(ls.drop_last()) + seq!['\n'] + ls.last()
    }
}

/// The merged chat: every line of the chat as it was, each transcript line
/// right after its attachment line, and a final line feed.
pub open spec fn merged_chat(
    raw: Seq<char>,
    ms: Seq<MessageView>,
    entries: Seq<(Seq<char>, Seq<char>)>,
    audio_dir: Seq<char>,
) -> Seq<char> {
    let lines = lines_of(raw);
    join_lines(merged_lines(lines, ms, entries, audio_dir, lines.len() as int)) + seq!['\n']
}

pub open spec fn opt_chars(o: Option<Vec<char>>) -> Option<Seq<char>> {
    match o {
        Some(v) => Some(v@),
        None => None,
    }
}

fn lookup_transcript(entries: &[(String, String)], key: &Vec<char>) -> (r: Option<Vec<char>>)
    ensures
        opt_chars(r) == transcript_for(pair_views(entries@), key@),
{
    let ghost ev = pair_views(entries@);
    let mut k = entries.len();
    proof {
        assert(ev.take(k as int) =~= ev);
    }
    while k > 0
        invariant
            k <= entries.len(),
            ev == pair_views(entries@),
            transcript_for(ev, key@) == transcript_for(ev.take(k as int), key@),
        decreases k,
    {
        proof {
            assert(ev.take(k as int).drop_last() =~= ev.take(k - 1));
            assert(ev.take(k as int).last() == (entries@[k - 1].0@, entries@[k - 1].1@));
        }
        let e = &entries[k - 1];
        if same_chars(&chars_of(e.0.as_str()), key) {
            return Some(chars_of(e.1.as_str()));
        }
        k = k - 1;
    }
    None
}

fn transcript_prefix_exec() -> (v: Vec<char>)
    ensures
        v@ == transcript_prefix(),
{
    let v = vec![
        ' ',
        ' ',
        ' ',
        ' ',
        '>',
        '>',
        ' ',
        '[',
        't',
        'r',
        'a',
        'n',
        's',
        'c',
        'r',
        'i',
        'p',
        't',
        ']',
        ' ',
    ];
    proof {
        assert(v@ =~= transcript_prefix());
    }
    v
}

fn push_line(out: &mut Vec<char>, started: bool, line: &Vec<char>, ghost_lines: Ghost<Seq<Seq<char>>>)
    requires
        old(out)@ == join_lines(ghost_lines@),
        started == (ghost_lines@.len() > 0),
    ensures
        final(out)@ == join_lines(ghost_lines@.push(line@)),
{
    let ghost ls = ghost_lines@;
    proof {
        assert(ls.push(line@).drop_last() =~= ls);
    }
    if started {
        out.push('\n');
    }
    let mut l = sub_chars(line, 0, line.len());
    out.append(&mut l);
    proof {
        assert(line@.subrange(0, line@.len() as int) =~= line@);
        if !started {
            assert(final(out)@ =~= line@);
        } else {
            assert(final(out)@ =~= join_lines(ls) + seq!['\n'] + line@);
        }
    }
}

/// Rebuild the chat text, inserting a transcript line after each
/// attachment line whose extracted audio has an entry in `transcripts`
/// (keyed by the extracted file's path; a later entry wins). Everything
/// else is untouched.
pub fn build_merged_chat(
    raw_text: &str,
    messages: &[Message],
    transcripts: &[(String, String)],
    audio_dir: &str,
) -> (r: String)
    ensures
        r@ == merged_chat(raw_text@, message_views(messages@), pair_views(transcripts@), audio_dir@),
{
    let ghost ms = message_views(messages@);
    let ghost ev = pair_views(transcripts@);
    let lines = split_lines(&chars_of(raw_text));
    let ghost lv = lines_of(raw_text@);
    let nlines = lines.len();
    let mut inserts: Vec<Option<Vec<char>>> = Vec::new();
    let mut i: usize = 0;
    while i < nlines
        invariant
            i <= nlines,
            inserts@.len() == i,
            forall|j: int| 0 <= j < i ==> inserts@[j] is None,
        decreases nlines - i,
    {
        inserts.push(None);
        i = i + 1;
    }
    let mut k: usize = 0;
    while k < messages.len()
        invariant
            k <= messages.len(),
            ms == message_views(messages@),
            ev == pair_views(transcripts@),
            inserts@.len() == nlines,
            forall|j: int|
                0 <= j < nlines ==> opt_chars(#[trigger] inserts@[j]) == inserted_text(
                    ms.take(k as int),
                    ev,
                    audio_dir@,
                    j,
                ),
        decreases messages.len() - k,
    {
        let m = &messages[k];
        proof {
            assert(ms.take(k + 1).drop_last() =~= ms.take(k as int));
            assert(ms.take(k + 1).last() == m@);
        }
        let idx = m.line_index;
        let mut found: Option<Vec<char>> = None;
        if idx < nlines {
            match extract_attachment(m.body.as_str()) {
                Some(f) => {
                    let key = chars_of(extracted_path(audio_dir, f).as_str());
                    found = lookup_transcript(transcripts, &key);
                },
                None => {},
            }
        }
        proof {
            assert(idx < nlines ==> opt_chars(found) == (match attachment_of(m@.body) {
                Some(f) => transcript_for(ev, extracted_path_spec(audio_dir@, f)),
                None => None,
            }));
        }
        match found {
            Some(t) => {
                inserts.set(idx, Some(t));
            },
            None => {},
        }
        k = k + 1;
    }
    proof {
        assert(ms.take(messages.len() as int) =~= ms);
    }
    let prefix = transcript_prefix_exec();
    let mut out: Vec<char> = Vec::new();
    let mut started = false;
    let mut i: usize = 0;
    while i < nlines
        invariant
            i <= nlines,
            nlines == lines.len(),
            views_of(lines@) == lv,
            prefix@ == transcript_prefix(),
            inserts@.len() == nlines,
            forall|j: int|
                0 <= j < nlines ==> opt_chars(#[trigger] inserts@[j]) == inserted_text(
                    ms,
                    ev,
                    audio_dir@,
                    j,
                ),
            started == (merged_lines(lv, ms, ev, audio_dir@, i as int).len() > 0),
            out@ == join_lines(merged_lines(lv, ms, ev, audio_dir@, i as int)),
        decreases nlines - i,
    {
        let ghost before = merged_lines(lv, ms, ev, audio_dir@, i as int);
        proof {
            assert(lv[i as int] == lines@[i as int]@);
            assert(opt_chars(inserts@[i as int]) == inserted_text(ms, ev, audio_dir@, i as int));
        }
        push_line(&mut out, started, &lines[i], Ghost(before));
        started = true;
        match &inserts[i] {
            Some(t) => {
                let mut tl = sub_chars(&prefix, 0, prefix.len());
                let mut tt = sub_chars(t, 0, t.len());
                tl.append(&mut tt);
                proof {
                    assert(prefix@.subrange(0, prefix@.len() as int) =~= prefix@);
                    assert(t@.subrange(0, t@.len() as int) =~= t@);
                }
                push_line(&mut out, started, &tl, Ghost(before.push(lv[i as int])));
            },
            None => {},
        }
        i = i + 1;
    }
    out.push('\n');
    string_from_chars(&out)
}


/// `./<stem>-transcripts`, the stem being that of the export's file name.
pub open spec fn default_out_dir_spec(export_zip: Seq<char>) -> Seq<char> {
    "./"@ + (match file_stem(export_zip) {
        Some(s) => s,
        None => Seq::empty(),
    }) + "-transcripts"@
}

/// The output directory used when `--out` is not given.
pub fn default_out_dir(export_zip: &str) -> (r: String)
    ensures
        r@ == default_out_dir_spec(export_zip@),
{
    let mut out = chars_of("./");
    let mut stem = match file_stem_of(&chars_of(export_zip)) {
        Some(s) => s,
        None => Vec::new(),
    };
    out.append(&mut stem);
    let mut tail = chars_of("-transcripts");
    out.append(&mut tail);
    string_from_chars(&out)
}

/// An optional argument as the error messages quote it.
pub open spec fn fmt_opt_spec(value: Option<Seq<char>>) -> Seq<char> {
    match value {
        Some(v) => "'"@ + v + "'"@,
        None => "None"@,
    }
}

pub open spec fn opt_string(o: Option<String>) -> Option<Seq<char>> {
    match o {
        Some(s) => Some(s@),
        None => None,
    }
}

/// An optional value as the error message shows it: `None` or `'value'`.
pub fn fmt_opt(value: &Option<String>) -> (r: String)
    ensures
        r@ == fmt_opt_spec(opt_string(*value)),
{
    match value {
        Some(v) => {
            let mut out = chars_of("'");
            let mut body = chars_of(v.as_str());
            out.append(&mut body);
            let mut close = chars_of("'");
            out.append(&mut close);
            string_from_chars(&out)
        },
        None => "None".to_string(),
    }
}

pub open spec fn invalid_date_message(from: Option<Seq<char>>, to: Option<Seq<char>>) -> Seq<
    char,
> {
    "invalid date (expected YYYY-MM-DD): "@ + fmt_opt_spec(from) + " / "@ + fmt_opt_spec(to)
}

/// A `--from`/`--to` value is acceptable when absent or a date chrono reads.
pub open spec fn bound_ok(v: Option<Seq<char>>) -> bool {
    match v {
        Some(s) => chrono_ymd_parse_ok(s),
        None => true,
    }
}

pub open spec fn chrono_ymd_parse_ok(s: Seq<char>) -> bool {
    crate::date::chrono_ymd_parse(s) is Some
}

pub open spec fn bound_date(v: Option<Seq<char>>, d: Option<Date>) -> bool {
    match v {
        Some(s) => crate::date::chrono_ymd_parse(s) matches Some((y, m, dd)) && d matches Some(
            date,
        ) && date.ymd() == (y as int, m as int, dd as int),
        None => d is None,
    }
}

fn parse_bound(v: &Option<String>) -> (r: Result<Option<Date>, ()>)
    ensures
        r is Ok <==> bound_ok(opt_string(*v)),
        r matches Ok(d) ==> bound_date(opt_string(*v), d),
{
    match v {
        Some(s) => match Date::parse_iso(s.as_str()) {
            Some(d) => Ok(Some(d)),
            None => Err(()),
        },
        None => Ok(None),
    }
}

/// The `--from`/`--to` dates, or the message reporting that one of them is
/// not a `YYYY-MM-DD` date.
pub fn parse_date_bounds(date_from: &Option<String>, date_to: &Option<String>) -> (r: Result<
    (Option<Date>, Option<Date>),
    String,
>)
    ensures
        r is Ok <==> bound_ok(opt_string(*date_from)) && bound_ok(opt_string(*date_to)),
        r matches Ok((f, t)) ==> bound_date(opt_string(*date_from), f) && bound_date(
            opt_string(*date_to),
            t,
        ),
        r matches Err(msg) ==> msg@ == invalid_date_message(
            opt_string(*date_from),
            opt_string(*date_to),
        ),
{
    let f = parse_bound(date_from);
    let t = parse_bound(date_to);
    match (f, t) {
        (Ok(f), Ok(t)) => Ok((f, t)),
        _ => {
            let mut out = chars_of("invalid date (expected YYYY-MM-DD): ");
            let mut a = chars_of(fmt_opt(date_from).as_str());
            out.append(&mut a);
            let mut sep = chars_of(" / ");
            out.append(&mut sep);
            let mut b = chars_of(fmt_opt(date_to).as_str());
            out.append(&mut b);
            Err(string_from_chars(&out))
        },
    }
}

/// `--out`, or the default next to the export's name.
pub fn output_dir(out: &Option<String>, export_zip: &str) -> (r: String)
    ensures
        r@ == match opt_string(*out) {
            Some(o) => o,
            None => default_out_dir_spec(export_zip@),
        },
{
    match out {
        Some(o) => o.clone(),
        None => default_out_dir(export_zip),
    }
}

/// `<out>/audio`, where attachments are extracted.
pub fn audio_dir(out_dir: &str) -> (r: String)
    ensures
        r@ == join(out_dir@, "audio"@),
{
    string_from_chars(&join_path(&chars_of(out_dir), &chars_of("audio")))
}

/// Text decoded with `String::from_utf8_lossy`.
pub uninterp spec fn utf8_lossy(bytes: Seq<u8>) -> Seq<char>;

/// `String::from_utf8_lossy`: UTF-8 decoding with each invalid sequence
/// replaced by U+FFFD; the contract only names the result.
#[verifier::external_body]
fn decode_utf8_lossy(bytes: &[u8]) -> (r: String)
    ensures
        r@ == utf8_lossy(bytes@),
{
    String::from_utf8_lossy(bytes).into_owned()
}

/// The bytes of the UTF-8 byte-order mark.
pub open spec fn bom() -> Seq<u8> {
    seq![0xEFu8, 0xBBu8, 0xBFu8]
}

/// The chat text of an export's chat member, decoded as `utf-8-sig`: a
/// leading byte-order mark is dropped, the rest decoded lossily.
pub open spec fn chat_text_spec(bytes: Seq<u8>) -> Seq<char> {
    if bytes.len() >= 3 && bytes.subrange(0, 3) == bom() {
        utf8_lossy(bytes.subrange(3, bytes.len() as int))
    } else {
        utf8_lossy(bytes)
    }
}

/// The text of the chat member, decoded as `utf-8-sig`.
pub fn decode_chat_text(bytes: &[u8]) -> (r: String)
    ensures
        r@ == chat_text_spec(bytes@),
{
    let n = bytes.len();
    if n >= 3 && bytes[0] == 0xEFu8 && bytes[1] == 0xBBu8 && bytes[2] == 0xBFu8 {
        let mut rest: Vec<u8> = Vec::new();
        let mut k: usize = 3;
        while k < n
            invariant
                3 <= k <= n,
                n == bytes@.len(),
                rest@ == bytes@.subrange(3, k as int),
            decreases n - k,
        {
            rest.push(bytes[k]);
            proof {
                assert(rest@ =~= bytes@.subrange(3, k + 1));
            }
            k = k + 1;
        }
        proof {
            assert(bytes@.subrange(0, 3) =~= bom());
        }
        decode_utf8_lossy(rest.as_slice())
    } else {
        proof {
            if n >= 3 {
                let b = bytes@.subrange(0, 3);
                if b == bom() {
                    assert(b[0] == bytes@[0] && b[1] == bytes@[1] && b[2] == bytes@[2]);
                }
            }
        }
        decode_utf8_lossy(bytes)
    }
}

/// What to do with one selected message's attachment.
#[derive(Debug)]
pub enum Extraction {
    /// Copy zip member `member` to `dest`.
    Extract { member: String, dest: String },
    /// The chat refers to `filename`, which the zip does not hold.
    Missing { filename: String },
}

pub open spec fn extraction_ok(
    e: Extraction,
    m: MessageView,
    names: Seq<Seq<char>>,
    audio_dir: Seq<char>,
) -> bool {
    attachment_of(m.body) matches Some(f) && match e {
        Extraction::Extract { member, dest } => attachment_member(names, f) == Some(member@)
            && dest@ == extracted_path_spec(audio_dir, f),
        Extraction::Missing { filename } => attachment_member(names, f) is None && filename@ == f,
    }
}

/// For each selected message, the zip member to extract and where to, or
/// the attachment that is missing from the zip.
pub fn plan_extractions(names: &[String], selected: &[Message], audio_dir: &str) -> (r: Vec<
    Extraction,
>)
    requires
        forall|i: int| 0 <= i < selected@.len() ==> attachment_of(#[trigger] selected@[i]@.body) is Some,
    ensures
        r@.len() == selected@.len(),
        forall|i: int|
            0 <= i < selected@.len() ==> extraction_ok(
                #[trigger] r@[i],
                selected@[i]@,
                string_views(names@),
                audio_dir@,
            ),
{
    let mut out: Vec<Extraction> = Vec::new();
    let mut i: usize = 0;
    while i < selected.len()
        invariant
            i <= selected.len(),
            out@.len() == i,
            forall|j: int| 0 <= j < selected@.len() ==> attachment_of(#[trigger] selected@[j]@.body) is Some,
            forall|j: int|
                0 <= j < i ==> extraction_ok(
                    #[trigger] out@[j],
                    selected@[j]@,
                    string_views(names@),
                    audio_dir@,
                ),
        decreases selected.len() - i,
    {
        let m = &selected[i];
        proof {
            assert(attachment_of(selected@[i as int]@.body) is Some);
        }
        let f = match extract_attachment(m.body.as_str()) {
            Some(f) => f,
            None => {
                return out;
            },
        };
        let e = match find_attachment_member(names, f) {
            Some(member) => Extraction::Extract { member, dest: extracted_path(audio_dir, f) },
            None => Extraction::Missing { filename: f.to_string() },
        };
        out.push(e);
        i = i + 1;
    }
    out
}

/// The extracted paths of the selected messages' attachments.
pub open spec fn selected_paths(sel: Seq<MessageView>, audio_dir: Seq<char>) -> Set<Seq<char>> {
    Set::new(|p: Seq<char>| path_among(sel, audio_dir, sel.len() as int, p))
}

pub open spec fn path_among(sel: Seq<MessageView>, audio_dir: Seq<char>, n: int, p: Seq<char>) -> bool {
    exists|j: int|
        0 <= j < n && (attachment_of(#[trigger] sel[j].body) matches Some(f) && p
            == extracted_path_spec(audio_dir, f))
}

proof fn lemma_path_among_step(sel: Seq<MessageView>, audio_dir: Seq<char>, i: int)
    requires
        0 <= i < sel.len(),
    ensures
        forall|p: Seq<char>|
            path_among(sel, audio_dir, i + 1, p) <==> (path_among(sel, audio_dir, i, p) || (
            attachment_of(sel[i].body) matches Some(f) && p == extracted_path_spec(audio_dir, f))),
{
    assert forall|p: Seq<char>|
        path_among(sel, audio_dir, i + 1, p) implies (path_among(sel, audio_dir, i, p) || (
        attachment_of(sel[i].body) matches Some(f) && p == extracted_path_spec(audio_dir, f))) by {
        let j = choose|j: int|
            0 <= j < i + 1 && (attachment_of(#[trigger] sel[j].body) matches Some(f) && p
                == extracted_path_spec(audio_dir, f));
        if j < i {
            assert(path_among(sel, audio_dir, i, p));
        }
    }
}

/// The manifest entries that belong to this run's selection, in order.
pub fn selection_transcripts(
    entries: &[(String, String)],
    selected: &[Message],
    audio_dir: &str,
) -> (r: Vec<(String, String)>)
    ensures
        pair_views(r@) == pair_views(entries@).filter(
            |e: (Seq<char>, Seq<char>)|
                selected_paths(message_views(selected@), audio_dir@).contains(e.0),
        ),
{
    let ghost sel = message_views(selected@);
    let ghost ev = pair_views(entries@);
    let ghost pred = |e: (Seq<char>, Seq<char>)| selected_paths(sel, audio_dir@).contains(e.0);
    let mut paths: Vec<Vec<char>> = Vec::new();
    let mut i: usize = 0;
    while i < selected.len()
        invariant
            i <= selected.len(),
            sel == message_views(selected@),
            forall|p: Seq<char>|
                views_of(paths@).contains(p) <==> path_among(sel, audio_dir@, i as int, p),
        decreases selected.len() - i,
    {
        let ghost before = views_of(paths@);
        proof {
            assert(sel[i as int] == selected@[i as int]@);
        }
        match extract_attachment(selected[i].body.as_str()) {
            Some(f) => {
                let p = chars_of(extracted_path(audio_dir, f).as_str());
                paths.push(p);
                proof {
                    assert(views_of(paths@) =~= before.push(p@));
                    lemma_path_among_step(sel, audio_dir@, i as int);
                    assert forall|q: Seq<char>|
                        views_of(paths@).contains(q) <==> path_among(
                            sel,
                            audio_dir@,
                            i + 1,
                            q,
                        ) by {
                        if views_of(paths@).contains(q) && q != p@ {
                            let k = choose|k: int| 0 <= k < views_of(paths@).len() && views_of(paths@)[k] == q;
                            assert(before[k] == q);
                            assert(before.contains(q));
                        }
                        if path_among(sel, audio_dir@, i as int, q) {
                            assert(before.contains(q));
                            let k = choose|k: int| 0 <= k < before.len() && before[k] == q;
                            assert(views_of(paths@)[k] == q);
                        }
                        if q == p@ {
                            assert(views_of(paths@)[before.len() as int] == p@);
                        }
                    }
                }
            },
            None => {
                proof {
                    lemma_path_among_step(sel, audio_dir@, i as int);
                }
            },
        }
        i = i + 1;
    }
    let mut out: Vec<(String, String)> = Vec::new();
    let mut k: usize = 0;
    proof {
        reveal(Seq::filter);
    }
    while k < entries.len()
        invariant
            k <= entries.len(),
            ev == pair_views(entries@),
            sel == message_views(selected@),
            pred == (|e: (Seq<char>, Seq<char>)| selected_paths(sel, audio_dir@).contains(e.0)),
            forall|p: Seq<char>|
                views_of(paths@).contains(p) <==> path_among(sel, audio_dir@, sel.len() as int, p),
            pair_views(out@) == ev.take(k as int).filter(pred),
        decreases entries.len() - k,
    {
        proof {
            reveal(Seq::filter);
            assert(ev.take(k + 1).drop_last() =~= ev.take(k as int));
            assert(ev.take(k + 1).last() == (entries@[k as int].0@, entries@[k as int].1@));
        }
        let key = chars_of(entries[k].0.as_str());
        if one_of(&key, &paths) {
            let ghost before = pair_views(out@);
            out.push((entries[k].0.clone(), entries[k].1.clone()));
            proof {
                assert(pair_views(out@) =~= before.push(ev[k as int]));
            }
        }
        k = k + 1;
    }
    proof {
        assert(ev.take(entries.len() as int) =~= ev);
    }
    out
}


proof fn lemma_filtered_lookup(
    entries: Seq<(Seq<char>, Seq<char>)>,
    keep: Set<Seq<char>>,
    key: Seq<char>,
)
    ensures
        transcript_for(entries.filter(|e: (Seq<char>, Seq<char>)| keep.contains(e.0)), key) is Some
            ==> keep.contains(key),
    decreases entries.len(),
{
    reveal(Seq::filter);
    let pred = |e: (Seq<char>, Seq<char>)| keep.contains(e.0);
    if entries.len() > 0 {
        lemma_filtered_lookup(entries.drop_last(), keep, key);
        let f = entries.filter(pred);
        if pred(entries.last()) {
            assert(f == entries.drop_last().filter(pred).push(entries.last()));
            assert(f.drop_last() =~= entries.drop_last().filter(pred));
        }
    }
}

/// Law: when the transcripts come from `selection_transcripts`, the merged
/// chat inlines a transcript only after a line that opens a message whose
/// extracted attachment belongs to this run's selection, however many
/// other runs the manifest remembers.
pub proof fn lemma_merge_only_inlines_selected(
    ms: Seq<MessageView>,
    entries: Seq<(Seq<char>, Seq<char>)>,
    sel: Seq<MessageView>,
    audio_dir: Seq<char>,
    i: int,
)
    ensures
        inserted_text(
            ms,
            entries.filter(
                |e: (Seq<char>, Seq<char>)| selected_paths(sel, audio_dir).contains(e.0),
            ),
            audio_dir,
            i,
        ) is Some ==> exists|k: int|
            0 <= k < ms.len() && ms[k].line_index == i && (attachment_of(#[trigger] ms[k].body) matches Some(f)
                && selected_paths(sel, audio_dir).contains(extracted_path_spec(audio_dir, f))),
    decreases ms.len(),
{
    let kept = entries.filter(
        |e: (Seq<char>, Seq<char>)| selected_paths(sel, audio_dir).contains(e.0),
    );
    if ms.len() > 0 {
        lemma_merge_only_inlines_selected(ms.drop_last(), entries, sel, audio_dir, i);
        let m = ms.last();
        if inserted_text(ms, kept, audio_dir, i) is Some {
            if m.line_index == i && attachment_of(m.body) is Some && transcript_for(
                kept,
                extracted_path_spec(audio_dir, attachment_of(m.body)->Some_0),
            ) is Some {
                lemma_filtered_lookup(
                    entries,
                    selected_paths(sel, audio_dir),
                    extracted_path_spec(audio_dir, attachment_of(m.body)->Some_0),
                );
                assert(ms[ms.len() - 1] == m);
            } else {
                let k = choose|k: int|
                    0 <= k < ms.drop_last().len() && ms.drop_last()[k].line_index == i && (
                    attachment_of(#[trigger] ms.drop_last()[k].body) matches Some(f)
                        && selected_paths(sel, audio_dir).contains(
                        extracted_path_spec(audio_dir, f),
                    ));
                assert(ms[k] == ms.drop_last()[k]);
            }
        }
    }
}


proof fn lemma_merged_lines_plain(
    lines: Seq<Seq<char>>,
    ms: Seq<MessageView>,
    audio_dir: Seq<char>,
    n: int,
)
    requires
        0 <= n <= lines.len(),
    ensures
        merged_lines(lines, ms, Seq::empty(), audio_dir, n) == lines.take(n),
    decreases n,
{
    if n > 0 {
        lemma_merged_lines_plain(lines, ms, audio_dir, n - 1);
        lemma_no_entries_no_insert(ms, audio_dir, n - 1);
        assert(lines.take(n - 1).push(lines[n - 1]) =~= lines.take(n));
    }
}

proof fn lemma_no_entries_no_insert(ms: Seq<MessageView>, audio_dir: Seq<char>, i: int)
    ensures
        inserted_text(ms, Seq::empty(), audio_dir, i) is None,
    decreases ms.len(),
{
    if ms.len() > 0 {
        lemma_no_entries_no_insert(ms.drop_last(), audio_dir, i);
    }
}

/// Law: without transcripts the merged chat is the chat itself, line for
/// line, with a final line feed.
pub proof fn lemma_merge_without_transcripts_is_identity(
    raw: Seq<char>,
    ms: Seq<MessageView>,
    audio_dir: Seq<char>,
)
    ensures
        merged_chat(raw, ms, Seq::empty(), audio_dir) == join_lines(lines_of(raw)) + seq!['\n'],
{
    let lines = lines_of(raw);
    lemma_merged_lines_plain(lines, ms, audio_dir, lines.len() as int);
    assert(lines.take(lines.len() as int) =~= lines);
}

proof fn lemma_messages_upto_headers(
    clean: Seq<Seq<char>>,
    raw: Seq<Seq<char>>,
    f: ChatFormat,
    day_first: bool,
    n: int,
)
    requires
        0 <= n <= clean.len(),
    ensures
        ({
            let ms = messages_upto(clean, raw, f, day_first, n);
            &&& forall|k: int| 0 <= k < ms.len() ==> 0 <= #[trigger] ms[k].line_index < n
            &&& forall|k: int|
                0 <= k < ms.len() ==> header_message(
                    f,
                    day_first,
                    clean[#[trigger] ms[k].line_index],
                    ms[k].line_index,
                ) is Some
            &&& forall|j: int, k: int|
                0 <= j < k < ms.len() ==> #[trigger] ms[j].line_index < #[trigger] ms[k].line_index
        }),
    decreases n,
{
    if n > 0 {
        lemma_messages_upto_headers(clean, raw, f, day_first, n - 1);
    }
}

/// Law: the messages of a chat open on distinct header lines of the
/// chat's one format, in order, each with a real date.
pub proof fn lemma_chat_messages_open_on_headers(text: Seq<char>)
    ensures
        ({
            let raw = lines_of(text);
            let clean = raw.map_values(|l: Seq<char>| without_marks(l));
            let ms = chat_messages(text);
            &&& forall|k: int| 0 <= k < ms.len() ==> 0 <= #[trigger] ms[k].line_index < raw.len()
            &&& forall|j: int, k: int|
                0 <= j < k < ms.len() ==> #[trigger] ms[j].line_index < #[trigger] ms[k].line_index
            &&& forall|k: int|
                0 <= k < ms.len() ==> (detect_format(clean) matches Some(f) && header_message(
                    f,
                    day_first_of(f, clean),
                    clean[#[trigger] ms[k].line_index],
                    ms[k].line_index,
                ) is Some)
        }),
{
    let raw = lines_of(text);
    let clean = raw.map_values(|l: Seq<char>| without_marks(l));
    match detect_format(clean) {
        Some(f) => {
            lemma_messages_upto_headers(clean, raw, f, day_first_of(f, clean), raw.len() as int);
        },
        None => {},
    }
}

} // verus!
