//! The message-header grammar of the two chat-export formats: iOS
//! `[dd/mm/yyyy, hh:mm:ss] sender: body` and Android
//! `d/m/yy[,] h:mm[ AM] - sender: body`, matched character by character.

use vstd::prelude::*;

use crate::text::{digit, digit_run_end, find_char, is_digit, is_space, space};

verus! {

/// The four captured fields of a message header line.
pub struct HeaderFields {
    pub date: Seq<char>,
    pub time: Seq<char>,
    pub sender: Seq<char>,
    pub body: Seq<char>,
}

/// A sender: one or more characters, none of them `:`.
pub open spec fn sender_shape(s: Seq<char>) -> bool {
    s.len() > 0 && forall|k: int| 0 <= k < s.len() ==> s[k] != ':'
}

/// A body: the rest of the line, with no line feed.
pub open spec fn body_shape(b: Seq<char>) -> bool {
    forall|k: int| 0 <= k < b.len() ==> b[k] != '\n'
}

/// `\d{2}/\d{2}/\d{4}`.
pub open spec fn ios_date_shape(d: Seq<char>) -> bool {
    &&& d.len() == 10
    &&& d[2] == '/'
    &&& d[5] == '/'
    &&& forall|k: int| 0 <= k < 10 && k != 2 && k != 5 ==> is_digit(#[trigger] d[k])
}

/// `\d{2}:\d{2}:\d{2}`.
pub open spec fn ios_time_shape(t: Seq<char>) -> bool {
    &&& t.len() == 8
    &&& t[2] == ':'
    &&& t[5] == ':'
    &&& forall|k: int| 0 <= k < 8 && k != 2 && k != 5 ==> is_digit(#[trigger] t[k])
}

/// An iOS header line (invisible marks already removed):
/// `[date, time] sender: body`.
pub open spec fn ios_header(l: Seq<char>, h: HeaderFields) -> bool {
    &&& l == seq!['['] + h.date + seq![',', ' '] + h.time + seq![']', ' '] + h.sender + seq![':', ' ']
        + h.body
    &&& ios_date_shape(h.date)
    &&& ios_time_shape(h.time)
    &&& sender_shape(h.sender)
    &&& body_shape(h.body)
}

/// Where the captured fields of a header lie in its line; the body runs
/// from `sender_end + 2` to the end of the line.
#[derive(Clone, Copy)]
pub struct HeaderSpans {
    pub date_start: usize,
    pub date_end: usize,
    pub time_start: usize,
    pub time_end: usize,
    pub sender_start: usize,
    pub sender_end: usize,
}

pub open spec fn spans_ok(l: Seq<char>, sp: HeaderSpans) -> bool {
    &&& sp.date_start <= sp.date_end <= sp.time_start <= sp.time_end <= sp.sender_start
        <= sp.sender_end
    &&& sp.sender_end + 2 <= l.len()
}

pub open spec fn fields_at(l: Seq<char>, sp: HeaderSpans) -> HeaderFields {
    HeaderFields {
        date: l.subrange(sp.date_start as int, sp.date_end as int),
        time: l.subrange(sp.time_start as int, sp.time_end as int),
        sender: l.subrange(sp.sender_start as int, sp.sender_end as int),
        body: l.subrange(sp.sender_end + 2, l.len() as int),
    }
}

/// From `start`: a sender ending at `se`, then `: ` and a body.
pub open spec fn sender_body_at(l: Seq<char>, start: int, se: int) -> bool {
    &&& 0 <= start < se
    &&& se + 2 <= l.len()
    &&& sender_shape(l.subrange(start, se))
    &&& l[se] == ':'
    &&& l[se + 1] == ' '
    &&& body_shape(l.subrange(se + 2, l.len() as int))
}

fn match_sender_body(l: &Vec<char>, start: usize) -> (r: Option<usize>)
    requires
        start <= l.len(),
    ensures
        r matches Some(se) ==> sender_body_at(l@, start as int, se as int),
        forall|se: int| sender_body_at(l@, start as int, se) ==> r == Some(se as usize),
{
    let n = l.len();
    let k = find_char(l, ':', start);
    if k == start || k >= n || k + 1 >= n || l[k + 1] != ' ' {
        proof {
            assert forall|se: int| !sender_body_at(l@, start as int, se) by {
                if sender_body_at(l@, start as int, se) {
                    if k < se {
                        assert(l@.subrange(start as int, se)[k - start] == l@[k as int]);
                    } else if k > se {
                        assert(l@[se] == ':');
                    }
                }
            }
        }
        return None;
    }
    let nl = find_char(l, '\n', k + 2);
    if nl < n {
        proof {
            assert forall|se: int| !sender_body_at(l@, start as int, se) by {
                if sender_body_at(l@, start as int, se) {
                    if k < se {
                        assert(l@.subrange(start as int, se)[k - start] == l@[k as int]);
                    } else if k > se {
                        assert(l@[se] == ':');
                    } else {
                        assert(l@.subrange(se + 2, l@.len() as int)[nl - se - 2] == l@[nl as int]);
                    }
                }
            }
        }
        return None;
    }
    proof {
        assert(sender_shape(l@.subrange(start as int, k as int)));
        assert(body_shape(l@.subrange(k + 2, n as int)));
        assert forall|se: int| sender_body_at(l@, start as int, se) implies se == k by {
            if k < se {
                assert(l@.subrange(start as int, se)[k - start] == l@[k as int]);
            } else if k > se {
                assert(l@[se] == ':');
            }
        }
    }
    Some(k)
}

/// Adjacent pieces of a sequence concatenate to the piece they span.
pub proof fn lemma_concat_subranges<T>(l: Seq<T>, a: int, b: int, c: int)
    requires
        0 <= a <= b <= c <= l.len(),
    ensures
        l.subrange(a, b) + l.subrange(b, c) == l.subrange(a, c),
{
    assert(l.subrange(a, b) + l.subrange(b, c) =~= l.subrange(a, c));
}

/// The fixed part of an iOS header, position by position.
pub open spec fn ios_positions(l: Seq<char>) -> bool {
    &&& l.len() >= 26
    &&& l[0] == '['
    &&& l[3] == '/'
    &&& l[6] == '/'
    &&& l[11] == ','
    &&& l[12] == ' '
    &&& l[15] == ':'
    &&& l[18] == ':'
    &&& l[21] == ']'
    &&& l[22] == ' '
    &&& forall|k: int|
        1 <= k < 21 && k != 3 && k != 6 && k != 11 && k != 12 && k != 15 && k != 18 ==> is_digit(
            #[trigger] l[k],
        )
}

pub open spec fn ios_spans(se: int) -> HeaderSpans {
    HeaderSpans {
        date_start: 1,
        date_end: 11,
        time_start: 13,
        time_end: 21,
        sender_start: 23,
        sender_end: se as usize,
    }
}

proof fn lemma_ios_layout(l: Seq<char>, h: HeaderFields)
    requires
        ios_header(l, h),
        l.len() <= usize::MAX,
    ensures
        ios_positions(l),
        sender_body_at(l, 23, 23 + h.sender.len() as int),
        h == fields_at(l, ios_spans(23 + h.sender.len() as int)),
{
    let se: int = 23 + h.sender.len() as int;
    assert(l.subrange(1, 11) =~= h.date);
    assert(l.subrange(13, 21) =~= h.time);
    assert(l.subrange(23, se) =~= h.sender);
    assert(l.subrange(se + 2, l.len() as int) =~= h.body);
    assert forall|k: int|
        1 <= k < 21 && k != 3 && k != 6 && k != 11 && k != 12 && k != 15 && k != 18 implies is_digit(
        #[trigger] l[k],
    ) by {
        if k < 11 {
            assert(l[k] == h.date[k - 1]);
        } else {
            assert(l[k] == h.time[k - 13]);
        }
    }
}

proof fn lemma_ios_build(l: Seq<char>, se: int)
    requires
        ios_positions(l),
        sender_body_at(l, 23, se),
        l.len() <= usize::MAX,
    ensures
        ios_header(l, fields_at(l, ios_spans(se))),
{
    let h = fields_at(l, ios_spans(se));
    let n = l.len() as int;
    assert(seq!['['] =~= l.subrange(0, 1));
    assert(seq![',', ' '] =~= l.subrange(11, 13));
    assert(seq![']', ' '] =~= l.subrange(21, 23));
    assert(seq![':', ' '] =~= l.subrange(se, se + 2));
    lemma_concat_subranges(l, 0, 1, 11);
    lemma_concat_subranges(l, 0, 11, 13);
    lemma_concat_subranges(l, 0, 13, 21);
    lemma_concat_subranges(l, 0, 21, 23);
    lemma_concat_subranges(l, 0, 23, se);
    lemma_concat_subranges(l, 0, se, se + 2);
    lemma_concat_subranges(l, 0, se + 2, n);
    assert(l.subrange(0, n) =~= l);
    assert forall|k: int| 0 <= k < 10 && k != 2 && k != 5 implies is_digit(#[trigger] h.date[k]) by {
        assert(h.date[k] == l[k + 1]);
    }
    assert forall|k: int| 0 <= k < 8 && k != 2 && k != 5 implies is_digit(#[trigger] h.time[k]) by {
        assert(h.time[k] == l[k + 13]);
    }
}

fn ios_positions_exec(l: &Vec<char>) -> (r: bool)
    ensures
        r == ios_positions(l@),
{
    if l.len() < 26 {
        return false;
    }
    if !(l[0] == '[' && l[3] == '/' && l[6] == '/' && l[11] == ',' && l[12] == ' ' && l[15] == ':'
        && l[18] == ':' && l[21] == ']' && l[22] == ' ') {
        return false;
    }
    let mut k: usize = 1;
    while k < 21
        invariant
            1 <= k <= 21,
            l.len() >= 26,
            forall|j: int|
                1 <= j < k && j != 3 && j != 6 && j != 11 && j != 12 && j != 15 && j != 18
                    ==> is_digit(#[trigger] l@[j]),
        decreases 21 - k,
    {
        if k != 3 && k != 6 && k != 11 && k != 12 && k != 15 && k != 18 && !digit(l[k]) {
            return false;
        }
        k = k + 1;
    }
    true
}

/// Match an iOS header; the grammar is unambiguous, so a line has at most
/// one decomposition and the result locates it.
pub fn match_ios_header(l: &Vec<char>) -> (r: Option<HeaderSpans>)
    ensures
        r matches Some(sp) ==> spans_ok(l@, sp),
        forall|h: HeaderFields|
            ios_header(l@, h) <==> (r matches Some(sp) && h == fields_at(l@, sp)),
{
    let n = l.len();
    if !ios_positions_exec(l) {
        proof {
            assert forall|h: HeaderFields| !ios_header(l@, h) by {
                if ios_header(l@, h) {
                    lemma_ios_layout(l@, h);
                }
            }
        }
        return None;
    }
    match match_sender_body(l, 23) {
        None => {
            proof {
                assert forall|h: HeaderFields| !ios_header(l@, h) by {
                    if ios_header(l@, h) {
                        lemma_ios_layout(l@, h);
                    }
                }
            }
            None
        },
        Some(se) => {
            let sp = HeaderSpans {
                date_start: 1,
                date_end: 11,
                time_start: 13,
                time_end: 21,
                sender_start: 23,
                sender_end: se,
            };
            proof {
                assert(sp == ios_spans(se as int));
                assert(l@.len() <= usize::MAX);
                lemma_ios_build(l@, se as int);
                assert forall|h: HeaderFields|
                    ios_header(l@, h) <==> h == fields_at(l@, sp) by {
                    if ios_header(l@, h) {
                        lemma_ios_layout(l@, h);
                    }
                }
            }
            Some(sp)
        },
    }
}


/// `\d{1,2}/\d{1,2}/\d{2,4}`, with the two slashes at `i` and `j`.
pub open spec fn android_date_split(d: Seq<char>, i: int, j: int) -> bool {
    &&& 1 <= i <= 2
    &&& i + 2 <= j <= i + 3
    &&& j + 3 <= d.len() <= j + 5
    &&& d[i] == '/'
    &&& d[j] == '/'
    &&& forall|k: int| 0 <= k < d.len() && k != i && k != j ==> is_digit(#[trigger] d[k])
}

/// `\d{1,2}/\d{1,2}/\d{2,4}`.
pub open spec fn android_date_shape(d: Seq<char>) -> bool {
    exists|i: int, j: int| android_date_split(d, i, j)
}

pub open spec fn is_ap(c: char) -> bool {
    c == 'A' || c == 'P' || c == 'a' || c == 'p'
}

pub open spec fn is_m(c: char) -> bool {
    c == 'M' || c == 'm'
}

/// `\.?[Mm]\.?`, the part of a meridiem after its `A` or `P`.
pub open spec fn m_tail(r: Seq<char>) -> bool {
    ||| r.len() == 1 && is_m(r[0])
    ||| r.len() == 2 && r[0] == '.' && is_m(r[1])
    ||| r.len() == 2 && is_m(r[0]) && r[1] == '.'
    ||| r.len() == 3 && r[0] == '.' && is_m(r[1]) && r[2] == '.'
}

/// `[\s\u{202F}]?[APap]\.?[Mm]\.?`, with `w` the length of the optional
/// leading space.
pub open spec fn meridiem_split(s: Seq<char>, w: int) -> bool {
    &&& 0 <= w <= 1
    &&& w < s.len()
    &&& (w == 1 ==> is_space(s[0]) || s[0] == '\u{202F}')
    &&& is_ap(s[w])
    &&& m_tail(s.skip(w + 1))
}

pub open spec fn meridiem_shape(s: Seq<char>) -> bool {
    exists|w: int| meridiem_split(s, w)
}

/// `\d{1,2}:\d{2}` and an optional meridiem, with the colon at `i`.
pub open spec fn android_time_split(t: Seq<char>, i: int) -> bool {
    &&& 1 <= i <= 2
    &&& i + 3 <= t.len()
    &&& t[i] == ':'
    &&& forall|k: int| 0 <= k < i + 3 && k != i ==> is_digit(#[trigger] t[k])
    &&& (t.len() == i + 3 || meridiem_shape(t.skip(i + 3)))
}

pub open spec fn android_time_shape(t: Seq<char>) -> bool {
    exists|i: int| android_time_split(t, i)
}

pub open spec fn opt_comma(comma: bool) -> Seq<char> {
    if comma {
        seq![',']
    } else {
        Seq::<char>::empty()
    }
}

/// An Android header line with or without the comma after the date:
/// `date[,] time - sender: body`.
pub open spec fn android_header_with(l: Seq<char>, h: HeaderFields, comma: bool) -> bool {
    &&& l == h.date + opt_comma(comma) + seq![' '] + h.time + seq![' ', '-', ' '] + h.sender
        + seq![':', ' '] + h.body
    &&& android_date_shape(h.date)
    &&& android_time_shape(h.time)
    &&& sender_shape(h.sender)
    &&& body_shape(h.body)
}

/// An Android header line (invisible marks already removed).
pub open spec fn android_header(l: Seq<char>, h: HeaderFields) -> bool {
    exists|comma: bool| android_header_with(l, h, comma)
}

/// The date at the start of `l`, ending just before a character that is not
/// a digit.
fn match_android_date(l: &Vec<char>) -> (r: Option<usize>)
    ensures
        r matches Some(d) ==> d < l@.len() && android_date_shape(l@.subrange(0, d as int)),
        forall|d: int|
            0 <= d < l@.len() && android_date_shape(l@.subrange(0, d)) && !is_digit(l@[d])
                ==> r == Some(d as usize),
{
    let n = l.len();
    let e1 = digit_run_end(l, 0);
    if !(1 <= e1 && e1 <= 2 && e1 < n && l[e1] == '/') {
        proof {
            assert forall|d: int|
                !(0 <= d < l@.len() && android_date_shape(l@.subrange(0, d)) && !is_digit(
                    l@[d],
                )) by {
                if 0 <= d < l@.len() && android_date_shape(l@.subrange(0, d)) {
                    let (i, j) = choose|i: int, j: int| android_date_split(l@.subrange(0, d), i, j);
                    let ds = l@.subrange(0, d);
                    assert(ds[i] == l@[i]);
                    if e1 < i {
                        assert(is_digit(ds[e1 as int]));
                    } else if e1 > i {
                        assert(is_digit(l@[i]));
                    }
                }
            }
        }
        return None;
    }
    let e2 = digit_run_end(l, e1 + 1);
    if !(e1 + 2 <= e2 && e2 <= e1 + 3 && e2 < n && l[e2] == '/') {
        proof {
            assert forall|d: int|
                !(0 <= d < l@.len() && android_date_shape(l@.subrange(0, d)) && !is_digit(
                    l@[d],
                )) by {
                if 0 <= d < l@.len() && android_date_shape(l@.subrange(0, d)) {
                    let (i, j) = choose|i: int, j: int| android_date_split(l@.subrange(0, d), i, j);
                    let ds = l@.subrange(0, d);
                    assert(ds[i] == l@[i]);
                    assert(ds[j] == l@[j]);
                    if e1 < i {
                        assert(is_digit(ds[e1 as int]));
                    } else if e1 > i {
                        assert(is_digit(l@[i]));
                    } else if e2 < j {
                        assert(is_digit(ds[e2 as int]));
                    } else if e2 > j {
                        assert(is_digit(l@[j]));
                    }
                }
            }
        }
        return None;
    }
    let e3 = digit_run_end(l, e2 + 1);
    if !(e2 + 3 <= e3 && e3 <= e2 + 5 && e3 < n) {
        proof {
            assert forall|d: int|
                !(0 <= d < l@.len() && android_date_shape(l@.subrange(0, d)) && !is_digit(
                    l@[d],
                )) by {
                if 0 <= d < l@.len() && android_date_shape(l@.subrange(0, d)) && !is_digit(
                    l@[d],
                ) {
                    let (i, j) = choose|i: int, j: int| android_date_split(l@.subrange(0, d), i, j);
                    let ds = l@.subrange(0, d);
                    assert(ds[i] == l@[i]);
                    assert(ds[j] == l@[j]);
                    if e1 < i {
                        assert(is_digit(ds[e1 as int]));
                    } else if e1 > i {
                        assert(is_digit(l@[i]));
                    } else if e2 < j {
                        assert(is_digit(ds[e2 as int]));
                    } else if e2 > j {
                        assert(is_digit(l@[j]));
                    } else if e3 < d {
                        assert(is_digit(ds[e3 as int]));
                    } else if e3 > d {
                        assert(is_digit(l@[d]));
                    }
                }
            }
        }
        return None;
    }
    proof {
        let ds = l@.subrange(0, e3 as int);
        assert(android_date_split(ds, e1 as int, e2 as int));
        assert forall|d: int|
            0 <= d < l@.len() && android_date_shape(l@.subrange(0, d)) && !is_digit(l@[d])
                implies d == e3 by {
            let (i, j) = choose|i: int, j: int| android_date_split(l@.subrange(0, d), i, j);
            let ds2 = l@.subrange(0, d);
            assert(ds2[i] == l@[i]);
            assert(ds2[j] == l@[j]);
            if e1 < i {
                assert(is_digit(ds2[e1 as int]));
            } else if e1 > i {
                assert(is_digit(l@[i]));
            } else if e2 < j {
                assert(is_digit(ds2[e2 as int]));
            } else if e2 > j {
                assert(is_digit(l@[j]));
            } else if e3 < d {
                assert(is_digit(ds2[e3 as int]));
            } else if e3 > d {
                assert(is_digit(l@[d]));
            }
        }
    }
    Some(e3)
}


fn ap(c: char) -> (r: bool)
    ensures
        r == is_ap(c),
{
    c == 'A' || c == 'P' || c == 'a' || c == 'p'
}

fn m_letter(c: char) -> (r: bool)
    ensures
        r == is_m(c),
{
    c == 'M' || c == 'm'
}

/// End of the meridiem starting at `q`, or `q` when there is none that a
/// ` - ` could follow.
fn meridiem_end(l: &Vec<char>, q: usize) -> (e: usize)
    requires
        q <= l.len(),
    ensures
        q <= e <= l.len(),
        e > q ==> meridiem_shape(l@.subrange(q as int, e as int)),
        e > q ==> !(q + 1 < l.len() && l@[q as int] == ' ' && l@[q + 1] == '-'),
        forall|e2: int|
            q < e2 < l.len() && l@[e2] == ' ' && meridiem_shape(l@.subrange(q as int, e2)) ==> e
                == e2,
{
    let n = l.len();
    let k;
    if q < n && q + 1 < n && (space(l[q]) || l[q] == '\u{202F}') && ap(l[q + 1]) {
        k = q + 2;
    } else if q < n && ap(l[q]) {
        k = q + 1;
    } else {
        proof {
            assert forall|e2: int|
                !(q < e2 < l.len() && l@[e2] == ' ' && meridiem_shape(
                    l@.subrange(q as int, e2),
                )) by {
                if q < e2 < l.len() && meridiem_shape(l@.subrange(q as int, e2)) {
                    let w = choose|w: int| meridiem_split(l@.subrange(q as int, e2), w);
                    let s = l@.subrange(q as int, e2);
                    assert(s[0] == l@[q as int]);
                    assert(s[w] == l@[q + w]);
                }
            }
        }
        return q;
    }
    let mut m = k;
    if m < n && l[m] == '.' {
        m = m + 1;
    }
    if !(m < n && m_letter(l[m])) {
        proof {
            assert forall|e2: int|
                !(q < e2 < l.len() && l@[e2] == ' ' && meridiem_shape(
                    l@.subrange(q as int, e2),
                )) by {
                if q < e2 < l.len() && l@[e2] == ' ' && meridiem_shape(l@.subrange(q as int, e2)) {
                    let w = choose|w: int| meridiem_split(l@.subrange(q as int, e2), w);
                    let s = l@.subrange(q as int, e2);
                    assert(s[0] == l@[q as int]);
                    assert(s[w] == l@[q + w]);
                    let r = s.skip(w + 1);
                    assert(q + w + 1 == k);
                    assert(r[0] == l@[k as int]);
                    if r.len() >= 2 {
                        assert(r[1] == l@[k + 1]);
                    }
                }
            }
        }
        return q;
    }
    m = m + 1;
    if m < n && l[m] == '.' {
        m = m + 1;
    }
    proof {
        let s = l@.subrange(q as int, m as int);
        let w: int = k - q - 1;
        assert(s[w] == l@[q + w]);
        assert(s.skip(w + 1) =~= l@.subrange(k as int, m as int));
        assert(meridiem_split(s, w));
        assert forall|e2: int|
            q < e2 < l.len() && l@[e2] == ' ' && meridiem_shape(l@.subrange(q as int, e2))
                implies m == e2 by {
            let w2 = choose|w: int| meridiem_split(l@.subrange(q as int, e2), w);
            let s2 = l@.subrange(q as int, e2);
            assert(s2[0] == l@[q as int]);
            assert(s2[w2] == l@[q + w2]);
            assert(q + w2 + 1 == k);
            let r = s2.skip(w2 + 1);
            assert(r[0] == l@[k as int]);
            if r.len() >= 2 {
                assert(r[1] == l@[k + 1]);
            }
            if r.len() >= 3 {
                assert(r[2] == l@[k + 2]);
            }
        }
    }
    m
}


/// `\d{1,2}:\d{2}` starting at `ts`; the result is where a meridiem may start.
fn match_clock(l: &Vec<char>, ts: usize) -> (r: Option<usize>)
    requires
        ts <= l.len(),
    ensures
        r matches Some(q) ==> ts + 3 < q <= l@.len() && android_time_split(
            l@.subrange(ts as int, q as int),
            q - ts - 3,
        ),
        forall|te: int, i: int|
            ts <= te <= l@.len() && android_time_split(l@.subrange(ts as int, te), i) ==> r
                == Some((ts + i + 3) as usize),
{
    let n = l.len();
    let hend = digit_run_end(l, ts);
    if !(hend > ts && hend - ts <= 2 && n - hend > 2 && l[hend] == ':' && digit(l[hend + 1])
        && digit(l[hend + 2])) {
        proof {
            assert forall|te: int, i: int|
                !(ts <= te <= l@.len() && android_time_split(l@.subrange(ts as int, te), i)) by {
                if ts <= te <= l@.len() && android_time_split(l@.subrange(ts as int, te), i) {
                    let t = l@.subrange(ts as int, te);
                    assert(t[i] == l@[ts + i]);
                    assert(is_digit(t[i + 1]));
                    assert(is_digit(t[i + 2]));
                    if hend < ts + i {
                        assert(is_digit(t[hend - ts]));
                    } else if hend > ts + i {
                        assert(is_digit(l@[ts + i]));
                    }
                }
            }
        }
        return None;
    }
    proof {
        let t = l@.subrange(ts as int, hend + 3);
        let i: int = hend - ts;
        assert(t[i] == l@[hend as int]);
        assert(t[i + 1] == l@[hend + 1]);
        assert(t[i + 2] == l@[hend + 2]);
        assert forall|k: int| 0 <= k < i + 3 && k != i implies is_digit(#[trigger] t[k]) by {
            assert(t[k] == l@[ts + k]);
        }
        assert(android_time_split(t, i));
        assert forall|te: int, i2: int|
            ts <= te <= l@.len() && android_time_split(l@.subrange(ts as int, te), i2) implies i2
            == i by {
            let t2 = l@.subrange(ts as int, te);
            assert(t2[i2] == l@[ts + i2]);
            if hend < ts + i2 {
                assert(is_digit(t2[hend - ts]));
            } else if hend > ts + i2 {
                assert(is_digit(l@[ts + i2]));
            }
        }
    }
    Some(hend + 3)
}

pub open spec fn dash_at(l: Seq<char>, te: int) -> bool {
    &&& 0 <= te
    &&& te + 3 <= l.len()
    &&& l[te] == ' '
    &&& l[te + 1] == '-'
    &&& l[te + 2] == ' '
}

proof fn lemma_time_end_unique(l: Seq<char>, ts: int, q: int, e: int, te: int, i: int)
    requires
        0 <= ts,
        ts + i + 3 == q,
        q <= l.len(),
        ts <= te <= l.len(),
        android_time_split(l.subrange(ts, te), i),
        dash_at(l, te),
        q <= e <= l.len(),
        e > q ==> !(q + 1 < l.len() && l[q] == ' ' && l[q + 1] == '-'),
        forall|e2: int| q < e2 < l.len() && l[e2] == ' ' && meridiem_shape(l.subrange(q, e2)) ==> e == e2,
    ensures
        e == te,
{
    let t = l.subrange(ts, te);
    if t.len() == i + 3 {
        assert(te == q);
    } else {
        assert(t.skip(i + 3) =~= l.subrange(q, te));
    }
}

/// The time starting at `ts`, ending just before ` - `.
fn match_android_time(l: &Vec<char>, ts: usize) -> (r: Option<usize>)
    requires
        ts <= l.len(),
    ensures
        r matches Some(te) ==> ts <= te && dash_at(l@, te as int) && android_time_shape(
            l@.subrange(ts as int, te as int),
        ),
        forall|te: int|
            ts <= te <= l@.len() && dash_at(l@, te) && android_time_shape(
                l@.subrange(ts as int, te),
            ) ==> r == Some(te as usize),
{
    let n = l.len();
    let q = match match_clock(l, ts) {
        Some(q) => q,
        None => {
            return None;
        },
    };
    let te = meridiem_end(l, q);
    if !(n - te >= 3 && l[te] == ' ' && l[te + 1] == '-' && l[te + 2] == ' ') {
        proof {
            assert forall|te2: int|
                !(ts <= te2 <= l@.len() && dash_at(l@, te2) && android_time_shape(
                    l@.subrange(ts as int, te2),
                )) by {
                if ts <= te2 <= l@.len() && dash_at(l@, te2) && android_time_shape(
                    l@.subrange(ts as int, te2),
                ) {
                    let i = choose|i: int| android_time_split(l@.subrange(ts as int, te2), i);
                    lemma_time_end_unique(l@, ts as int, q as int, te as int, te2, i);
                }
            }
        }
        return None;
    }
    proof {
        let i: int = q - ts - 3;
        let tq = l@.subrange(ts as int, q as int);
        let t = l@.subrange(ts as int, te as int);
        assert forall|k: int| 0 <= k < i + 3 implies t[k] == tq[k] by {}
        if te > q {
            assert(t.skip(i + 3) =~= l@.subrange(q as int, te as int));
        } else {
            assert(t =~= tq);
        }
        assert(android_time_split(t, i));
        assert forall|te2: int|
            ts <= te2 <= l@.len() && dash_at(l@, te2) && android_time_shape(
                l@.subrange(ts as int, te2),
            ) implies te2 == te by {
            let i2 = choose|i: int| android_time_split(l@.subrange(ts as int, te2), i);
            lemma_time_end_unique(l@, ts as int, q as int, te as int, te2, i2);
        }
    }
    Some(te)
}


pub open spec fn android_spans(d: int, ts: int, te: int, se: int) -> HeaderSpans {
    HeaderSpans {
        date_start: 0,
        date_end: d as usize,
        time_start: ts as usize,
        time_end: te as usize,
        sender_start: (te + 3) as usize,
        sender_end: se as usize,
    }
}

proof fn lemma_android_layout(l: Seq<char>, h: HeaderFields, comma: bool)
    requires
        android_header_with(l, h, comma),
        l.len() <= usize::MAX,
    ensures
        ({
            let d = h.date.len() as int;
            let c: int = if comma { 1 } else { 0 };
            let ts = d + c + 1;
            let te = ts + h.time.len();
            let se = te + 3 + h.sender.len();
            &&& d < l.len()
            &&& l.subrange(0, d) == h.date
            &&& (comma ==> l[d] == ',')
            &&& (!comma ==> l[d] == ' ')
            &&& l[d + c] == ' '
            &&& l.subrange(ts, te) == h.time
            &&& dash_at(l, te)
            &&& sender_body_at(l, te + 3, se)
            &&& h == fields_at(l, android_spans(d, ts, te, se))
        }),
{
    let d = h.date.len() as int;
    let c: int = if comma { 1 } else { 0 };
    let ts = d + c + 1;
    let te = ts + h.time.len();
    let se = te + 3 + h.sender.len();
    assert(l.subrange(0, d) =~= h.date);
    assert(l.subrange(ts, te) =~= h.time);
    assert(l.subrange(te + 3, se) =~= h.sender);
    assert(l.subrange(se + 2, l.len() as int) =~= h.body);
}

proof fn lemma_android_build(l: Seq<char>, comma: bool, d: int, ts: int, te: int, se: int)
    requires
        l.len() <= usize::MAX,
        0 <= d < l.len(),
        comma ==> l[d] == ',',
        ts == d + (if comma { 1int } else { 0int }) + 1,
        l[ts - 1] == ' ',
        android_date_shape(l.subrange(0, d)),
        ts <= te,
        android_time_shape(l.subrange(ts, te)),
        dash_at(l, te),
        sender_body_at(l, te + 3, se),
    ensures
        android_header_with(l, fields_at(l, android_spans(d, ts, te, se)), comma),
{
    let h = fields_at(l, android_spans(d, ts, te, se));
    let n = l.len() as int;
    assert(opt_comma(comma) =~= l.subrange(d, ts - 1));
    assert(seq![' '] =~= l.subrange(ts - 1, ts));
    assert(seq![' ', '-', ' '] =~= l.subrange(te, te + 3));
    assert(seq![':', ' '] =~= l.subrange(se, se + 2));
    lemma_concat_subranges(l, 0, d, ts - 1);
    lemma_concat_subranges(l, 0, ts - 1, ts);
    lemma_concat_subranges(l, 0, ts, te);
    lemma_concat_subranges(l, 0, te, te + 3);
    lemma_concat_subranges(l, 0, te + 3, se);
    lemma_concat_subranges(l, 0, se, se + 2);
    lemma_concat_subranges(l, 0, se + 2, n);
    assert(l.subrange(0, n) =~= l);
}

/// Match an Android header; the grammar is unambiguous, so a line has at
/// most one decomposition and the result locates it.
#[verifier::rlimit(60)]
pub fn match_android_header(l: &Vec<char>) -> (r: Option<HeaderSpans>)
    ensures
        r matches Some(sp) ==> spans_ok(l@, sp),
        forall|h: HeaderFields|
            android_header(l@, h) <==> (r matches Some(sp) && h == fields_at(l@, sp)),
{
    let n = l.len();
    let d = match match_android_date(l) {
        Some(d) => d,
        None => {
            proof {
                assert forall|h: HeaderFields| !android_header(l@, h) by {
                    if android_header(l@, h) {
                        let comma = choose|comma: bool| android_header_with(l@, h, comma);
                        lemma_android_layout(l@, h, comma);
                    }
                }
            }
            return None;
        },
    };
    let comma = l[d] == ',';
    let p = if comma { d + 1 } else { d };
    if !(p < n && l[p] == ' ') {
        proof {
            assert forall|h: HeaderFields| !android_header(l@, h) by {
                if android_header(l@, h) {
                    let c = choose|comma: bool| android_header_with(l@, h, comma);
                    lemma_android_layout(l@, h, c);
                }
            }
        }
        return None;
    }
    let ts = p + 1;
    let te = match match_android_time(l, ts) {
        Some(te) => te,
        None => {
            proof {
                assert forall|h: HeaderFields| !android_header(l@, h) by {
                    if android_header(l@, h) {
                        let c = choose|comma: bool| android_header_with(l@, h, comma);
                        lemma_android_layout(l@, h, c);
                    }
                }
            }
            return None;
        },
    };
    let se = match match_sender_body(l, te + 3) {
        Some(se) => se,
        None => {
            proof {
                assert forall|h: HeaderFields| !android_header(l@, h) by {
                    if android_header(l@, h) {
                        let c = choose|comma: bool| android_header_with(l@, h, comma);
                        lemma_android_layout(l@, h, c);
                    }
                }
            }
            return None;
        },
    };
    let sp = HeaderSpans {
        date_start: 0,
        date_end: d,
        time_start: ts,
        time_end: te,
        sender_start: te + 3,
        sender_end: se,
    };
    proof {
        assert(sp == android_spans(d as int, ts as int, te as int, se as int));
        lemma_android_build(l@, comma, d as int, ts as int, te as int, se as int);
        assert forall|h: HeaderFields| android_header(l@, h) <==> h == fields_at(l@, sp) by {
            if android_header(l@, h) {
                let c = choose|comma: bool| android_header_with(l@, h, comma);
                lemma_android_layout(l@, h, c);
            }
            if h == fields_at(l@, sp) {
                assert(android_header_with(l@, h, comma));
            }
        }
    }
    Some(sp)
}

} // verus!
