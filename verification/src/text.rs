//! Character-level text helpers shared by the parsers and renderers.

use vstd::prelude::*;
use vstd::std_specs::iter::IteratorSpec;

verus! {

broadcast use vstd::string::group_string_axioms;

/// The characters of `s`, in order.
pub fn chars_of(s: &str) -> (v: Vec<char>)
    ensures
        v@ == s@,
{
    let mut v: Vec<char> = Vec::new();
    let mut it = s.chars();
    loop
        invariant
            v@ + it.remaining() == s@,
            it.decrease() is Some,
        decreases it.decrease()->0,
    {
        let ghost before = it.remaining();
        match it.next() {
            Some(c) => {
                v.push(c);
                assert(v@ + it.remaining() =~= s@) by {
                    assert(before =~= seq![c] + it.remaining());
                }
            },
            None => {
                assert(v@ =~= s@);
                return v;
            },
        }
    }
}


/// A `String` holding exactly the characters of `v`.
///
/// Trusted: `String::from_iter` over the characters, which std documents as
/// concatenating them in order.
#[verifier::external_body]
pub(crate) fn string_from_chars(v: &[char]) -> (s: String)
    ensures
        s@ == v@,
{
    v.iter().collect()
}

/// Whether the `regex` crate's Unicode class `\d` contains `c`.
pub uninterp spec fn regex_class_digit(c: char) -> bool;

/// The Unicode `White_Space` property: tab to carriage return, space,
/// U+0085, U+00A0, U+1680, U+2000 to U+200A, U+2028, U+2029, U+202F, U+205F
/// and U+3000.
pub open spec fn unicode_white_space(c: char) -> bool {
    let n = c as u32;
    ||| 9 <= n <= 13
    ||| n == 0x20
    ||| n == 0x85
    ||| n == 0xA0
    ||| n == 0x1680
    ||| 0x2000 <= n <= 0x200A
    ||| n == 0x2028
    ||| n == 0x2029
    ||| n == 0x202F
    ||| n == 0x205F
    ||| n == 0x3000
}

/// Whether the `regex` crate's Unicode class `\w` contains `c`.
pub uninterp spec fn regex_class_word(c: char) -> bool;

/// `regex::Regex::is_match` of the pattern `^\d$` on the one-character
/// string `c`; the contract only names the answer.
#[verifier::external_body]
fn regex_match_digit(c: char) -> (r: bool)
    ensures
        r == regex_class_digit(c),
{
    let mut buf = [0u8; 4];
    regex::Regex::new(r"^\d$").unwrap().is_match(c.encode_utf8(&mut buf))
}

/// `regex::Regex::is_match` of the pattern `^\s$` on the one-character
/// string `c`. With Unicode on (the default), regex-syntax builds `\s` from
/// its `White_Space` table (`perl_space`), which is the set stated by
/// `unicode_white_space`.
#[verifier::external_body]
fn regex_match_space(c: char) -> (r: bool)
    ensures
        r == unicode_white_space(c),
{
    let mut buf = [0u8; 4];
    regex::Regex::new(r"^\s$").unwrap().is_match(c.encode_utf8(&mut buf))
}

/// `regex::Regex::is_match` of the pattern `^\w$` on the one-character
/// string `c`; the contract only names the answer.
#[verifier::external_body]
fn regex_match_word(c: char) -> (r: bool)
    ensures
        r == regex_class_word(c),
{
    let mut buf = [0u8; 4];
    regex::Regex::new(r"^\w$").unwrap().is_match(c.encode_utf8(&mut buf))
}

pub open spec fn is_ascii_char(c: char) -> bool {
    (c as u32) < 128
}

/// `\d` of the chat-header grammar: ASCII `0`-`9`, or a non-ASCII decimal
/// digit as the `regex` crate's Unicode tables classify it.
pub open spec fn is_digit(c: char) -> bool {
    if is_ascii_char(c) {
        '0' <= c && c <= '9'
    } else {
        regex_class_digit(c)
    }
}

/// `\s`: ASCII tab, line feed, vertical tab, form feed, carriage return and
/// space, or non-ASCII Unicode white space.
pub open spec fn is_space(c: char) -> bool {
    if is_ascii_char(c) {
        c == ' ' || c == '\t' || c == '\n' || c == '\x0B' || c == '\x0C' || c == '\r'
    } else {
        unicode_white_space(c)
    }
}

/// `\w`: ASCII letters, digits and `_`, or a non-ASCII word character per the
/// `regex` crate's Unicode tables.
pub open spec fn is_word(c: char) -> bool {
    if is_ascii_char(c) {
        ('0' <= c && c <= '9') || ('a' <= c && c <= 'z') || ('A' <= c && c <= 'Z') || c == '_'
    } else {
        regex_class_word(c)
    }
}

/// `\d` on one character.
pub fn digit(c: char) -> (r: bool)
    ensures
        r == is_digit(c),
{
    if (c as u32) < 128 {
        '0' <= c && c <= '9'
    } else {
        regex_match_digit(c)
    }
}

/// `\s` on one character.
pub fn space(c: char) -> (r: bool)
    ensures
        r == is_space(c),
{
    if (c as u32) < 128 {
        c == ' ' || c == '\t' || c == '\n' || c == '\x0B' || c == '\x0C' || c == '\r'
    } else {
        regex_match_space(c)
    }
}

/// `\w` on one character.
pub fn word(c: char) -> (r: bool)
    ensures
        r == is_word(c),
{
    if (c as u32) < 128 {
        ('0' <= c && c <= '9') || ('a' <= c && c <= 'z') || ('A' <= c && c <= 'Z') || c == '_'
    } else {
        regex_match_word(c)
    }
}

/// End of the longest run of `is_digit` characters of `s` that starts at
/// `start`.
pub fn digit_run_end(s: &Vec<char>, start: usize) -> (e: usize)
    requires
        start <= s.len(),
    ensures
        start <= e <= s.len(),
        forall|k: int| start <= k < e ==> is_digit(#[trigger] s@[k]),
        e < s.len() ==> !is_digit(s@[e as int]),
{
    let mut e = start;
    while e < s.len() && digit(s[e])
        invariant
            start <= e <= s.len(),
            forall|k: int| start <= k < e ==> is_digit(#[trigger] s@[k]),
        decreases s.len() - e,
    {
        e = e + 1;
    }
    e
}


/// The `\n`-separated fields of `s`, built from the back: a `\n` closes the
/// last field and opens an empty one.
pub open spec fn newline_fields(s: Seq<char>) -> Seq<Seq<char>>
    decreases s.len(),
{
    if s.len() == 0 {
        seq![Seq::<char>::empty()]
    } else {
        let f = newline_fields(s.drop_last());
        if s.last() == '\n' {
            f.push(Seq::<char>::empty())
        } else {
            f.update(f.len() - 1, f.last().push(s.last()))
        }
    }
}

/// One trailing carriage return removed, if there is one.
pub open spec fn strip_cr(l: Seq<char>) -> Seq<char> {
    if l.len() > 0 && l.last() == '\r' {
        l.drop_last()
    } else {
        l
    }
}

/// `str::lines`: the lines of `s`, each `\n`-terminated line without its
/// `\n` or a `\r` just before it; a final line without `\n` is kept as it
/// is, and an empty final field is not a line.
pub open spec fn lines_of(s: Seq<char>) -> Seq<Seq<char>> {
    let f = newline_fields(s);
    let closed = f.drop_last().map_values(|l: Seq<char>| strip_cr(l));
    if f.last().len() == 0 {
        closed
    } else {
        closed.push(f.last())
    }
}

/// There is always at least one field.
pub proof fn lemma_newline_fields_nonempty(s: Seq<char>)
    ensures
        newline_fields(s).len() >= 1,
    decreases s.len(),
{
    if s.len() > 0 {
        lemma_newline_fields_nonempty(s.drop_last());
    }
}

pub open spec fn views_of(v: Seq<Vec<char>>) -> Seq<Seq<char>> {
    v.map_values(|l: Vec<char>| l@)
}

fn strip_cr_exec(l: Vec<char>) -> (r: Vec<char>)
    ensures
        r@ == strip_cr(l@),
{
    let mut l = l;
    if l.len() > 0 && l[l.len() - 1] == '\r' {
        l.pop();
    }
    l
}

/// The lines of `s`, as `str::lines` splits them.
pub fn split_lines(s: &Vec<char>) -> (r: Vec<Vec<char>>)
    ensures
        views_of(r@) == lines_of(s@),
{
    let mut out: Vec<Vec<char>> = Vec::new();
    let mut cur: Vec<char> = Vec::new();
    let mut i: usize = 0;
    proof {
        assert(s@.take(0).len() == 0);
    }
    while i < s.len()
        invariant
            i <= s.len(),
            newline_fields(s@.take(i as int)).len() >= 1,
            views_of(out@) == newline_fields(s@.take(i as int)).drop_last().map_values(|l: Seq<char>| strip_cr(l)),
            cur@ == newline_fields(s@.take(i as int)).last(),
        decreases s.len() - i,
    {
        let c = s[i];
        let ghost pre = s@.take(i as int);
        let ghost f = newline_fields(pre);
        proof {
            assert(s@.take(i + 1).drop_last() =~= pre);
            assert(s@.take(i + 1).last() == c);
            lemma_newline_fields_nonempty(s@.take(i + 1));
        }
        if c == '\n' {
            let ghost old_views = views_of(out@);
            let done = strip_cr_exec(cur);
            out.push(done);
            proof {
                assert(views_of(out@) =~= old_views.push(strip_cr(f.last())));
                assert(f.map_values(|l: Seq<char>| strip_cr(l)) =~= f.drop_last().map_values(|l: Seq<char>| strip_cr(l)).push(strip_cr(f.last())));
            }
            cur = Vec::new();
            proof {
                let nf = newline_fields(s@.take(i + 1));
                assert(nf == f.push(Seq::<char>::empty()));
                assert(nf.drop_last() =~= f);
                assert(views_of(out@) =~= nf.drop_last().map_values(|l: Seq<char>| strip_cr(l)));
                assert(cur@ =~= nf.last());
            }
        } else {
            cur.push(c);
            proof {
                let nf = newline_fields(s@.take(i + 1));
                assert(nf == f.update(f.len() - 1, f.last().push(c)));
                assert(nf.drop_last() =~= f.drop_last());
                assert(cur@ =~= nf.last());
            }
        }
        i = i + 1;
    }
    proof {
        assert(s@.take(s.len() as int) =~= s@);
    }
    if cur.len() > 0 {
        out.push(cur);
        proof {
            let f = newline_fields(s@);
            assert(views_of(out@) =~= f.drop_last().map_values(|l: Seq<char>| strip_cr(l)).push(f.last()));
        }
    }
    out
}


/// Index of the first `c` in `s` at or after `from`, or `s.len()` when there
/// is none.
pub fn find_char(s: &Vec<char>, c: char, from: usize) -> (k: usize)
    requires
        from <= s.len(),
    ensures
        from <= k <= s.len(),
        forall|i: int| from <= i < k ==> #[trigger] s@[i] != c,
        k < s.len() ==> s@[k as int] == c,
{
    let mut k = from;
    while k < s.len() && s[k] != c
        invariant
            from <= k <= s.len(),
            forall|i: int| from <= i < k ==> #[trigger] s@[i] != c,
        decreases s.len() - k,
    {
        k = k + 1;
    }
    k
}


/// End of the longest run of `is_word` characters of `s` that starts at
/// `start`.
pub fn word_run_end(s: &Vec<char>, start: usize) -> (e: usize)
    requires
        start <= s.len(),
    ensures
        start <= e <= s.len(),
        forall|k: int| start <= k < e ==> is_word(#[trigger] s@[k]),
        e < s.len() ==> !is_word(s@[e as int]),
{
    let mut e = start;
    while e < s.len() && word(s[e])
        invariant
            start <= e <= s.len(),
            forall|k: int| start <= k < e ==> is_word(#[trigger] s@[k]),
        decreases s.len() - e,
    {
        e = e + 1;
    }
    e
}

/// End of the longest run of characters of `s` that are not `is_space`,
/// starting at `start`.
pub fn non_space_run_end(s: &Vec<char>, start: usize) -> (e: usize)
    requires
        start <= s.len(),
    ensures
        start <= e <= s.len(),
        forall|k: int| start <= k < e ==> !is_space(#[trigger] s@[k]),
        e < s.len() ==> is_space(s@[e as int]),
{
    let mut e = start;
    while e < s.len() && !space(s[e])
        invariant
            start <= e <= s.len(),
            forall|k: int| start <= k < e ==> !is_space(#[trigger] s@[k]),
        decreases s.len() - e,
    {
        e = e + 1;
    }
    e
}


pub open spec fn is_ascii_digit(c: char) -> bool {
    '0' <= c && c <= '9'
}

/// The value of a string of decimal digits.
pub open spec fn decimal_value(s: Seq<char>) -> int
    decreases s.len(),
{
    if s.len() == 0 {
        0
    } else {
        decimal_value(s.drop_last()) * 10 + (s.last() as int - '0' as int)
    }
}

/// What `str::parse` makes of `s` as an unsigned number written with ASCII
/// digits only: its value, or `None` when `s` is empty or holds anything
/// else.
pub open spec fn ascii_number(s: Seq<char>) -> Option<int> {
    if s.len() > 0 && forall|k: int| 0 <= k < s.len() ==> is_ascii_digit(#[trigger] s[k]) {
        Some(decimal_value(s))
    } else {
        None
    }
}

/// A numeral is never negative, and one of at most four digits is below
/// ten to the power of its length.
pub proof fn lemma_decimal_value_bound(s: Seq<char>)
    requires
        forall|k: int| 0 <= k < s.len() ==> is_ascii_digit(#[trigger] s[k]),
    ensures
        0 <= decimal_value(s),
        s.len() <= 4 ==> decimal_value(s) <= 9999,
        s.len() <= 4 ==> decimal_value(s) < (if s.len() == 0 { 1int } else if s.len() == 1 { 10int } else if s.len() == 2 { 100int } else if s.len() == 3 { 1000int } else { 10000int }),
    decreases s.len(),
{
    if s.len() > 0 {
        assert(is_ascii_digit(s[s.len() - 1]));
        lemma_decimal_value_bound(s.drop_last());
    }
}

/// The number written with ASCII digits in `s[a..b)`, for at most four
/// digits.
pub fn small_number(s: &Vec<char>, a: usize, b: usize) -> (r: Option<u32>)
    requires
        a <= b <= s.len(),
        b - a <= 4,
    ensures
        match r {
            Some(v) => ascii_number(s@.subrange(a as int, b as int)) == Some(v as int),
            None => ascii_number(s@.subrange(a as int, b as int)) is None,
        },
        r matches Some(v) ==> v <= 9999,
{
    if a == b {
        return None;
    }
    let mut v: u32 = 0;
    let mut k = a;
    while k < b
        invariant
            a <= k <= b <= s.len(),
            b - a <= 4,
            forall|i: int| a <= i < k ==> is_ascii_digit(#[trigger] s@[i]),
            v == decimal_value(s@.subrange(a as int, k as int)),
        decreases b - k,
    {
        let c = s[k];
        if !('0' <= c && c <= '9') {
            proof {
                assert(s@.subrange(a as int, b as int)[k - a] == c);
            }
            return None;
        }
        proof {
            let p = s@.subrange(a as int, k as int);
            assert(s@.subrange(a as int, k + 1).drop_last() =~= p);
            lemma_decimal_value_bound(p);
        }
        v = v * 10 + (c as u32 - '0' as u32);
        k = k + 1;
    }
    proof {
        let t = s@.subrange(a as int, b as int);
        assert forall|i: int| 0 <= i < t.len() implies is_ascii_digit(#[trigger] t[i]) by {
            assert(t[i] == s@[a + i]);
        }
        assert(t =~= s@.subrange(a as int, k as int));
        lemma_decimal_value_bound(t);
    }
    Some(v)
}


/// A copy of `v[a..b)`.
pub fn sub_chars(v: &Vec<char>, a: usize, b: usize) -> (r: Vec<char>)
    requires
        a <= b <= v.len(),
    ensures
        r@ == v@.subrange(a as int, b as int),
{
    let mut r: Vec<char> = Vec::new();
    let mut k = a;
    while k < b
        invariant
            a <= k <= b <= v.len(),
            r@ == v@.subrange(a as int, k as int),
        decreases b - k,
    {
        r.push(v[k]);
        proof {
            assert(r@ =~= v@.subrange(a as int, k + 1));
        }
        k = k + 1;
    }
    r
}

/// `l` without the invisible left-to-right and right-to-left marks
/// (U+200E, U+200F).
pub open spec fn without_marks(l: Seq<char>) -> Seq<char>
    decreases l.len(),
{
    if l.len() == 0 {
        l
    } else {
        let p = without_marks(l.drop_last());
        if l.last() == '\u{200E}' || l.last() == '\u{200F}' {
            p
        } else {
            p.push(l.last())
        }
    }
}

/// The line without its U+200E and U+200F marks.
pub fn strip_invisible(l: &Vec<char>) -> (r: Vec<char>)
    ensures
        r@ == without_marks(l@),
{
    let mut r: Vec<char> = Vec::new();
    let mut k: usize = 0;
    while k < l.len()
        invariant
            k <= l.len(),
            r@ == without_marks(l@.take(k as int)),
        decreases l.len() - k,
    {
        proof {
            assert(l@.take(k + 1).drop_last() =~= l@.take(k as int));
        }
        let c = l[k];
        if !(c == '\u{200E}' || c == '\u{200F}') {
            r.push(c);
        }
        k = k + 1;
    }
    proof {
        assert(l@.take(l@.len() as int) =~= l@);
    }
    r
}


/// `str::to_lowercase` of `s`.
pub uninterp spec fn lowercase(s: Seq<char>) -> Seq<char>;

/// `A`-`Z` to `a`-`z`; any other character as it is.
pub open spec fn ascii_lower(c: char) -> char {
    if 'A' <= c && c <= 'Z' {
        ((c as u32) + 32) as char
    } else {
        c
    }
}

/// Every character of `s` is ASCII.
pub open spec fn all_ascii(s: Seq<char>) -> bool {
    forall|i: int| 0 <= i < s.len() ==> is_ascii_char(#[trigger] s[i])
}

/// `str::to_lowercase` as far as it is stated: an all-ASCII string maps
/// each character to its ASCII lowercase; any other string to its named
/// lowercase.
pub open spec fn to_lower(s: Seq<char>) -> Seq<char> {
    if all_ascii(s) {
        s.map_values(|c: char| ascii_lower(c))
    } else {
        lowercase(s)
    }
}

/// `str::to_lowercase`, the Unicode lowercase mapping of each character.
/// On an all-ASCII string, which std documents as mapped character by
/// character, the result is stated; on any other it is named.
#[verifier::external_body]
pub(crate) fn to_lowercase(s: &str) -> (r: String)
    ensures
        r@ == to_lower(s@),
        !all_ascii(s@) ==> r@ == lowercase(s@),
{
    s.to_lowercase()
}

/// Whether `a` and `b` hold the same characters.
pub fn same_chars(a: &Vec<char>, b: &Vec<char>) -> (r: bool)
    ensures
        r == (a@ == b@),
{
    if a.len() != b.len() {
        return false;
    }
    let mut k: usize = 0;
    while k < a.len()
        invariant
            a.len() == b.len(),
            k <= a.len(),
            forall|j: int| 0 <= j < k ==> a@[j] == b@[j],
        decreases a.len() - k,
    {
        if a[k] != b[k] {
            return false;
        }
        k = k + 1;
    }
    proof {
        assert(a@ =~= b@);
    }
    true
}

pub open spec fn has_suffix(s: Seq<char>, suffix: Seq<char>) -> bool {
    suffix.len() <= s.len() && s.subrange(s.len() - suffix.len(), s.len() as int) == suffix
}

/// `str::ends_with`.
pub fn ends_with(s: &Vec<char>, suffix: &Vec<char>) -> (r: bool)
    ensures
        r == has_suffix(s@, suffix@),
{
    if suffix.len() > s.len() {
        return false;
    }
    let off = s.len() - suffix.len();
    let mut k: usize = 0;
    while k < suffix.len()
        invariant
            off + suffix.len() == s.len(),
            k <= suffix.len(),
            forall|j: int| 0 <= j < k ==> s@[off + j] == suffix@[j],
        decreases suffix.len() - k,
    {
        if s[off + k] != suffix[k] {
            proof {
                assert(s@.subrange(off as int, s@.len() as int)[k as int] == s@[off + k]);
            }
            return false;
        }
        k = k + 1;
    }
    proof {
        assert(s@.subrange(off as int, s@.len() as int) =~= suffix@);
    }
    true
}

/// `str::contains` for one character.
pub fn contains_char(s: &Vec<char>, c: char) -> (r: bool)
    ensures
        r == s@.contains(c),
{
    let k = find_char(s, c, 0);
    if k < s.len() {
        true
    } else {
        proof {
            assert forall|i: int| 0 <= i < s@.len() implies s@[i] != c by {}
        }
        false
    }
}

/// Whether `v` holds the characters of one of the entries of `list`.
pub fn one_of(v: &Vec<char>, list: &Vec<Vec<char>>) -> (r: bool)
    ensures
        r == views_of(list@).contains(v@),
{
    let mut k: usize = 0;
    while k < list.len()
        invariant
            k <= list.len(),
            forall|j: int| 0 <= j < k ==> list@[j]@ != v@,
        decreases list.len() - k,
    {
        if same_chars(v, &list[k]) {
            proof {
                assert(views_of(list@)[k as int] == v@);
            }
            return true;
        }
        k = k + 1;
    }
    proof {
        assert forall|j: int| 0 <= j < views_of(list@).len() implies views_of(list@)[j] != v@ by {
            assert(views_of(list@)[j] == list@[j]@);
        }
    }
    false
}


pub open spec fn digit_char(d: int) -> char {
    (('0' as int) + d) as char
}

/// The decimal numeral of `n`, without leading zeros.
pub open spec fn decimal(n: nat) -> Seq<char>
    decreases n,
{
    if n < 10 {
        seq![digit_char(n as int)]
    } else {
        decimal(n / 10).push(digit_char((n % 10) as int))
    }
}

/// The decimal numeral of `n`.
pub fn decimal_chars(n: u128) -> (r: Vec<char>)
    ensures
        r@ == decimal(n as nat),
    decreases n,
{
    if n < 10 {
        let c = char_of_digit(n as u64);
        let v = vec![c];
        proof {
            assert(v@ =~= decimal(n as nat));
        }
        v
    } else {
        let mut v = decimal_chars(n / 10);
        v.push(char_of_digit((n % 10) as u64));
        v
    }
}

fn char_of_digit(d: u64) -> (c: char)
    requires
        d < 10,
    ensures
        c == digit_char(d as int),
{
    if d == 0 {
        '0'
    } else if d == 1 {
        '1'
    } else if d == 2 {
        '2'
    } else if d == 3 {
        '3'
    } else if d == 4 {
        '4'
    } else if d == 5 {
        '5'
    } else if d == 6 {
        '6'
    } else if d == 7 {
        '7'
    } else if d == 8 {
        '8'
    } else {
        '9'
    }
}

} // verus!
