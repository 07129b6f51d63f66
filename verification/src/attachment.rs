//! Attachment markers in message bodies: iOS `<anexado: NAME>` /
//! `<attached: NAME>` anywhere, Android `NAME (file attached)` /
//! `NAME (arquivo anexado)` at the start.

use vstd::prelude::*;

use crate::text::{
    chars_of, find_char, is_space, is_word, non_space_run_end, space, word, word_run_end,
};

verus! {

/// `<anexado: `
pub open spec fn anexado_open() -> Seq<char> {
    seq!['<', 'a', 'n', 'e', 'x', 'a', 'd', 'o', ':', ' ']
}

/// `<attached: `
pub open spec fn attached_open() -> Seq<char> {
    seq!['<', 'a', 't', 't', 'a', 'c', 'h', 'e', 'd', ':', ' ']
}

/// An iOS attachment marker `<anexado: NAME>` or `<attached: NAME>` opening
/// at `i`, whose name runs from `cs` to the closing `>` at `e`.
pub open spec fn ios_marker_at(b: Seq<char>, i: int, cs: int, e: int) -> bool {
    &&& 0 <= i <= cs
    &&& cs < e < b.len()
    &&& (b.subrange(i, cs) == anexado_open() || b.subrange(i, cs) == attached_open())
    &&& b[e] == '>'
    &&& forall|k: int| cs <= k < e ==> b[k] != '>'
}

pub open spec fn ios_marker_starts(b: Seq<char>, i: int) -> bool {
    exists|cs: int, e: int| ios_marker_at(b, i, cs, e)
}

/// The regex `<(?:anexado|attached): ([^>]+)>` searched anywhere in `b`:
/// the name captured by the leftmost marker.
pub open spec fn ios_marker_capture(b: Seq<char>, name: Seq<char>) -> bool {
    exists|i: int, cs: int, e: int|
        #![trigger ios_marker_at(b, i, cs, e)]
        ios_marker_at(b, i, cs, e) && name == b.subrange(cs, e) && forall|j: int|
            0 <= j < i ==> !ios_marker_starts(b, j)
}

fn seq_at(b: &Vec<char>, i: usize, lit: &Vec<char>) -> (r: bool)
    ensures
        r == (i + lit@.len() <= b@.len() && b@.subrange(i as int, i + lit@.len()) == lit@),
{
    if i > b.len() || b.len() - i < lit.len() {
        return false;
    }
    let n = b.len();
    let mut k: usize = 0;
    while k < lit.len()
        invariant
            n == b@.len(),
            i + lit@.len() <= b@.len(),
            k <= lit.len(),
            forall|j: int| 0 <= j < k ==> b@[i + j] == lit@[j],
        decreases lit.len() - k,
    {
        if b[i + k] != lit[k] {
            proof {
                assert(b@.subrange(i as int, i + lit@.len())[k as int] == b@[i + k]);
            }
            return false;
        }
        k = k + 1;
    }
    proof {
        assert(b@.subrange(i as int, i + lit@.len()) =~= lit@);
    }
    true
}

fn anexado_open_exec() -> (v: Vec<char>)
    ensures
        v@ == anexado_open(),
{
    let v = vec!['<', 'a', 'n', 'e', 'x', 'a', 'd', 'o', ':', ' '];
    proof {
        assert(v@ =~= anexado_open());
    }
    v
}

fn attached_open_exec() -> (v: Vec<char>)
    ensures
        v@ == attached_open(),
{
    let v = vec!['<', 'a', 't', 't', 'a', 'c', 'h', 'e', 'd', ':', ' '];
    proof {
        assert(v@ =~= attached_open());
    }
    v
}

proof fn lemma_ios_marker_opening(b: Seq<char>, i: int, cs: int, e: int, cs2: int)
    requires
        ios_marker_at(b, i, cs, e),
        (i + 10 <= b.len() && b.subrange(i, i + 10) == anexado_open() && cs2 == i + 10) || (
        i + 11 <= b.len() && b.subrange(i, i + 11) == attached_open() && cs2 == i + 11),
    ensures
        cs == cs2,
{
    assert(anexado_open()[2] == 'n');
    assert(attached_open()[2] == 't');
    assert(anexado_open().len() == 10);
    assert(attached_open().len() == 11);
    if b.subrange(i, cs) == anexado_open() {
        assert(b[i + 2] == b.subrange(i, cs)[2]);
        if cs2 == i + 11 {
            assert(b[i + 2] == b.subrange(i, i + 11)[2]);
        }
    } else {
        assert(b[i + 2] == b.subrange(i, cs)[2]);
        if cs2 == i + 10 {
            assert(b[i + 2] == b.subrange(i, i + 10)[2]);
        }
    }
}

/// The name in the leftmost iOS attachment marker of `b`, as `(start, end)`.
fn find_ios_marker(b: &Vec<char>) -> (r: Option<(usize, usize)>)
    ensures
        forall|name: Seq<char>|
            ios_marker_capture(b@, name) <==> (r matches Some((cs, e)) && name == b@.subrange(
                cs as int,
                e as int,
            )),
        r matches Some((cs, e)) ==> cs < e <= b@.len(),
{
    let n = b.len();
    let anexado = anexado_open_exec();
    let attached = attached_open_exec();
    let mut i: usize = 0;
    while i < n
        invariant
            n == b@.len(),
            i <= n,
            anexado@ == anexado_open(),
            attached@ == attached_open(),
            forall|j: int| 0 <= j < i ==> !ios_marker_starts(b@, j),
        decreases n - i,
    {
        let cs: usize;
        if seq_at(b, i, &anexado) {
            cs = i + 10;
        } else if seq_at(b, i, &attached) {
            cs = i + 11;
        } else {
            proof {
                assert forall|cs2: int, e2: int| !ios_marker_at(b@, i as int, cs2, e2) by {
                    if ios_marker_at(b@, i as int, cs2, e2) {
                        assert(anexado_open().len() == 10);
                        assert(attached_open().len() == 11);
                    }
                }
            }
            i = i + 1;
            continue;
        }
        let e = find_char(b, '>', cs);
        if e < n && e > cs {
            proof {
                assert(ios_marker_at(b@, i as int, cs as int, e as int));
                assert forall|name: Seq<char>|
                    ios_marker_capture(b@, name) <==> name == b@.subrange(cs as int, e as int) by {
                    if ios_marker_capture(b@, name) {
                        let (i2, cs2, e2) = choose|i2: int, cs2: int, e2: int|
                            ios_marker_at(b@, i2, cs2, e2) && name == b@.subrange(cs2, e2)
                                && forall|j: int| 0 <= j < i2 ==> !ios_marker_starts(b@, j);
                        if i2 < i {
                            assert(ios_marker_starts(b@, i2));
                        } else if i2 > i {
                            assert(ios_marker_starts(b@, i as int));
                        } else {
                            lemma_ios_marker_opening(b@, i as int, cs2, e2, cs as int);
                            if e2 < e {
                                assert(b@[e2] == '>');
                            } else if e2 > e {
                                assert(b@[e as int] == '>');
                            }
                        }
                    }
                    if name == b@.subrange(cs as int, e as int) {
                        assert(ios_marker_at(b@, i as int, cs as int, e as int));
                    }
                }
            }
            return Some((cs, e));
        }
        proof {
            assert forall|cs2: int, e2: int| !ios_marker_at(b@, i as int, cs2, e2) by {
                if ios_marker_at(b@, i as int, cs2, e2) {
                    lemma_ios_marker_opening(b@, i as int, cs2, e2, cs as int);
                    if e2 < e {
                        assert(b@[e2] == '>');
                    } else if e2 > e {
                        assert(b@[e as int] == '>');
                    }
                }
            }
        }
        i = i + 1;
    }
    proof {
        assert forall|name: Seq<char>| !ios_marker_capture(b@, name) by {
            if ios_marker_capture(b@, name) {
                let (i2, cs2, e2) = choose|i2: int, cs2: int, e2: int|
                    ios_marker_at(b@, i2, cs2, e2) && name == b@.subrange(cs2, e2) && forall|j: int|
                        0 <= j < i2 ==> !ios_marker_starts(b@, j);
                assert(ios_marker_starts(b@, i2));
            }
        }
    }
    None
}


/// ` (file attached)`
pub open spec fn file_attached_close() -> Seq<char> {
    seq![' ', '(', 'f', 'i', 'l', 'e', ' ', 'a', 't', 't', 'a', 'c', 'h', 'e', 'd', ')']
}

/// ` (arquivo anexado)`
pub open spec fn arquivo_anexado_close() -> Seq<char> {
    seq![' ', '(', 'a', 'r', 'q', 'u', 'i', 'v', 'o', ' ', 'a', 'n', 'e', 'x', 'a', 'd', 'o', ')']
}

pub open spec fn android_close_at(b: Seq<char>, r: int) -> bool {
    &&& 0 <= r
    &&& (r + 16 <= b.len() && b.subrange(r, r + 16) == file_attached_close()
        || r + 18 <= b.len() && b.subrange(r, r + 18) == arquivo_anexado_close())
}

/// `\S+\.\w+` over `b[0..r)` with the dot at `s`, followed by ` (file
/// attached)` or ` (arquivo anexado)`.
pub open spec fn android_marker_split(b: Seq<char>, s: int, r: int) -> bool {
    &&& 1 <= s
    &&& s + 1 < r
    &&& forall|k: int| 0 <= k < s ==> !is_space(#[trigger] b[k])
    &&& b[s] == '.'
    &&& forall|k: int| s < k < r ==> is_word(#[trigger] b[k])
    &&& android_close_at(b, r)
}

/// The regex `^(\S+\.\w+) \((?:file attached|arquivo anexado)\)` on `b`:
/// the captured name. The regex tries the longest `\S+` first, so of all
/// the ways to split the name at a dot, the one with the last dot wins.
pub open spec fn android_marker_capture(b: Seq<char>, name: Seq<char>) -> bool {
    exists|s: int, r: int|
        #![trigger android_marker_split(b, s, r)]
        android_marker_split(b, s, r) && name == b.subrange(0, r) && forall|s2: int, r2: int|
            android_marker_split(b, s2, r2) ==> s2 <= s
}

fn file_attached_close_exec() -> (v: Vec<char>)
    ensures
        v@ == file_attached_close(),
{
    let v = vec![' ', '(', 'f', 'i', 'l', 'e', ' ', 'a', 't', 't', 'a', 'c', 'h', 'e', 'd', ')'];
    proof {
        assert(v@ =~= file_attached_close());
    }
    v
}

fn arquivo_anexado_close_exec() -> (v: Vec<char>)
    ensures
        v@ == arquivo_anexado_close(),
{
    let v = vec![
        ' ',
        '(',
        'a',
        'r',
        'q',
        'u',
        'i',
        'v',
        'o',
        ' ',
        'a',
        'n',
        'e',
        'x',
        'a',
        'd',
        'o',
        ')',
    ];
    proof {
        assert(v@ =~= arquivo_anexado_close());
    }
    v
}

proof fn lemma_close_starts_with_space(b: Seq<char>, r: int)
    requires
        android_close_at(b, r),
    ensures
        0 <= r < b.len(),
        b[r] == ' ',
        !is_word(b[r]),
{
    if r + 16 <= b.len() && b.subrange(r, r + 16) == file_attached_close() {
        assert(b[r] == b.subrange(r, r + 16)[0]);
    } else {
        assert(b[r] == b.subrange(r, r + 18)[0]);
    }
}

/// For a dot at `s`, the only possible end of the name is the end of the
/// word run after the dot.
proof fn lemma_android_split_end(b: Seq<char>, s: int, r: int, we: int)
    requires
        android_marker_split(b, s, r),
        s + 1 <= we <= b.len(),
        forall|k: int| s + 1 <= k < we ==> is_word(#[trigger] b[k]),
        we < b.len() ==> !is_word(b[we]),
    ensures
        r == we,
{
    lemma_close_starts_with_space(b, r);
    if r < we {
        assert(is_word(b[r]));
    } else if r > we {
        assert(is_word(b[we]));
    }
}

/// The end of the name in an Android attachment marker at the start of `b`.
fn find_android_marker(b: &Vec<char>) -> (r: Option<usize>)
    ensures
        forall|name: Seq<char>|
            android_marker_capture(b@, name) <==> (r matches Some(e) && name == b@.subrange(
                0,
                e as int,
            )),
        r matches Some(e) ==> e <= b@.len(),
{
    let n = b.len();
    let fa = file_attached_close_exec();
    let aa = arquivo_anexado_close_exec();
    let p = non_space_run_end(b, 0);
    let mut s = p;
    proof {
        assert forall|s2: int, r2: int| s2 >= p implies !android_marker_split(b@, s2, r2) by {
            if android_marker_split(b@, s2, r2) {
                if s2 > p {
                    assert(!is_space(b@[p as int]));
                } else {
                    lemma_close_starts_with_space(b@, r2);
                }
            }
        }
    }
    while s > 1
        invariant
            n == b@.len(),
            s <= p <= n,
            p < n ==> is_space(b@[p as int]),
            forall|k: int| 0 <= k < p ==> !is_space(#[trigger] b@[k]),
            fa@ == file_attached_close(),
            aa@ == arquivo_anexado_close(),
            forall|s2: int, r2: int| s2 >= s ==> !android_marker_split(b@, s2, r2),
        decreases s,
    {
        s = s - 1;
        if b[s] == '.' {
            let we = word_run_end(b, s + 1);
            if we > s + 1 && (seq_at(b, we, &fa) || seq_at(b, we, &aa)) {
                proof {
                    assert(android_marker_split(b@, s as int, we as int));
                    assert forall|name: Seq<char>|
                        android_marker_capture(b@, name) <==> name == b@.subrange(0, we as int) by {
                        if android_marker_capture(b@, name) {
                            let (s2, r2) = choose|s2: int, r2: int|
                                android_marker_split(b@, s2, r2) && name == b@.subrange(0, r2)
                                    && forall|s3: int, r3: int|
                                    android_marker_split(b@, s3, r3) ==> s3 <= s2;
                            assert(s2 <= s);
                            assert(s <= s2);
                            lemma_android_split_end(b@, s as int, r2, we as int);
                        }
                        if name == b@.subrange(0, we as int) {
                            assert forall|s3: int, r3: int|
                                android_marker_split(b@, s3, r3) implies s3 <= s by {}
                        }
                    }
                }
                return Some(we);
            }
            proof {
                assert forall|r2: int| !android_marker_split(b@, s as int, r2) by {
                    if android_marker_split(b@, s as int, r2) {
                        lemma_android_split_end(b@, s as int, r2, we as int);
                    }
                }
            }
        }
    }
    proof {
        assert forall|name: Seq<char>| !android_marker_capture(b@, name) by {
            if android_marker_capture(b@, name) {
                let (s2, r2) = choose|s2: int, r2: int|
                    android_marker_split(b@, s2, r2) && name == b@.subrange(0, r2) && forall|
                        s3: int,
                        r3: int,
                    | android_marker_split(b@, s3, r3) ==> s3 <= s2;
            }
        }
    }
    None
}

/// What `extract_attachment` finds in a message body: the name in the
/// leftmost iOS marker, else the name of an Android marker opening the body.
pub open spec fn attachment_of(b: Seq<char>) -> Option<Seq<char>> {
    if exists|n: Seq<char>| ios_marker_capture(b, n) {
        Some(choose|n: Seq<char>| ios_marker_capture(b, n))
    } else if exists|n: Seq<char>| android_marker_capture(b, n) {
        Some(choose|n: Seq<char>| android_marker_capture(b, n))
    } else {
        None
    }
}

/// Return the attachment filename in `body`, if any: an iOS
/// `<anexado|attached: file>` marker anywhere in it, or an Android `file
/// (file attached|arquivo anexado)` marker opening it.
pub fn extract_attachment(body: &str) -> (r: Option<&str>)
    ensures
        match r {
            Some(name) => attachment_of(body@) == Some(name@),
            None => attachment_of(body@) is None,
        },
{
    let b = chars_of(body);
    match find_ios_marker(&b) {
        Some((cs, e)) => {
            proof {
                assert(ios_marker_capture(body@, body@.subrange(cs as int, e as int)));
            }
            Some(body.substring_char(cs, e))
        },
        None => {
            proof {
                assert forall|n: Seq<char>| !ios_marker_capture(body@, n) by {}
            }
            match find_android_marker(&b) {
                Some(e) => {
                    proof {
                        assert(android_marker_capture(body@, body@.subrange(0, e as int)));
                    }
                    Some(body.substring_char(0, e))
                },
                None => {
                    proof {
                        assert forall|n: Seq<char>| !android_marker_capture(body@, n) by {}
                    }
                    None
                },
            }
        },
    }
}

proof fn lemma_ios_marker_unique(b: Seq<char>, n1: Seq<char>, n2: Seq<char>)
    requires
        ios_marker_capture(b, n1),
        ios_marker_capture(b, n2),
    ensures
        n1 == n2,
{
    let (i1, cs1, e1) = choose|i: int, cs: int, e: int|
        ios_marker_at(b, i, cs, e) && n1 == b.subrange(cs, e) && forall|j: int|
            0 <= j < i ==> !ios_marker_starts(b, j);
    let (i2, cs2, e2) = choose|i: int, cs: int, e: int|
        ios_marker_at(b, i, cs, e) && n2 == b.subrange(cs, e) && forall|j: int|
            0 <= j < i ==> !ios_marker_starts(b, j);
    if i1 < i2 {
        assert(ios_marker_starts(b, i1));
    } else if i2 < i1 {
        assert(ios_marker_starts(b, i2));
    } else {
        assert(anexado_open().len() == 10);
        assert(attached_open().len() == 11);
        if b.subrange(i1, cs1) == anexado_open() {
            lemma_ios_marker_opening(b, i1, cs2, e2, cs1);
        } else {
            lemma_ios_marker_opening(b, i1, cs2, e2, cs1);
        }
        if e1 < e2 {
            assert(b[e1] == '>');
        } else if e2 < e1 {
            assert(b[e2] == '>');
        }
    }
}

/// Law: a body that opens with an iOS marker `<anexado: NAME>` yields
/// `NAME`, for any non-empty name without `>`.
pub proof fn lemma_ios_marker_round_trip(name: Seq<char>, rest: Seq<char>)
    requires
        name.len() > 0,
        forall|k: int| 0 <= k < name.len() ==> name[k] != '>',
    ensures
        attachment_of(anexado_open() + name + seq!['>'] + rest) == Some(name),
{
    let b = anexado_open() + name + seq!['>'] + rest;
    let e: int = 10 + name.len() as int;
    assert(b.subrange(0, 10) =~= anexado_open());
    assert(b.subrange(10, e) =~= name);
    assert forall|k: int| 10 <= k < e implies b[k] != '>' by {
        assert(b[k] == name[k - 10]);
    }
    assert(ios_marker_at(b, 0, 10, e));
    assert(ios_marker_capture(b, name));
    let c = choose|n: Seq<char>| ios_marker_capture(b, n);
    lemma_ios_marker_unique(b, c, name);
}

/// Law: a body that opens with an Android marker `NAME (file attached)` or
/// `NAME (arquivo anexado)` yields `NAME`, for a name made of a non-empty run of non-space
/// characters, a dot and a non-empty word-character extension, provided the
/// body holds no `<` (an iOS marker anywhere would take precedence).
pub proof fn lemma_android_marker_round_trip(
    stem: Seq<char>,
    ext: Seq<char>,
    close: Seq<char>,
    rest: Seq<char>,
)
    requires
        close == file_attached_close() || close == arquivo_anexado_close(),
        stem.len() > 0,
        ext.len() > 0,
        forall|k: int| 0 <= k < stem.len() ==> !is_space(#[trigger] stem[k]) && stem[k] != '<',
        forall|k: int| 0 <= k < ext.len() ==> is_word(#[trigger] ext[k]),
        forall|k: int| 0 <= k < rest.len() ==> rest[k] != '<',
    ensures
        attachment_of(stem + seq!['.'] + ext + close + rest) == Some(stem + seq!['.'] + ext),
{
    let name = stem + seq!['.'] + ext;
    let b = name + close + rest;
    let s = stem.len() as int;
    let r = name.len() as int;
    assert(b =~= stem + seq!['.'] + ext + close + rest);
    let cl = close.len() as int;
    assert forall|k: int| 0 <= k < b.len() implies b[k] != '<' by {
        if k < s {
            assert(b[k] == stem[k]);
        } else if k == s {
        } else if k < r {
            assert(b[k] == ext[k - s - 1]);
            assert(is_word(ext[k - s - 1]));
        } else if k < r + cl {
            assert(b[k] == close[k - r]);
        } else {
            assert(b[k] == rest[k - r - cl]);
        }
    }
    assert forall|n: Seq<char>| !ios_marker_capture(b, n) by {
        if ios_marker_capture(b, n) {
            let (i, cs, e) = choose|i: int, cs: int, e: int|
                ios_marker_at(b, i, cs, e) && n == b.subrange(cs, e) && forall|j: int|
                    0 <= j < i ==> !ios_marker_starts(b, j);
            assert(anexado_open().len() == 10 && anexado_open()[0] == '<');
            assert(attached_open().len() == 11 && attached_open()[0] == '<');
            assert(b.subrange(i, cs).len() > 0);
            assert(b[i] == b.subrange(i, cs)[0]);
        }
    }
    assert(b.subrange(r, r + cl) =~= close);
    assert forall|k: int| 0 <= k < s implies !is_space(#[trigger] b[k]) by {
        assert(b[k] == stem[k]);
    }
    assert forall|k: int| s < k < r implies is_word(#[trigger] b[k]) by {
        assert(b[k] == ext[k - s - 1]);
    }
    assert(android_marker_split(b, s, r));
    assert forall|s2: int, r2: int| android_marker_split(b, s2, r2) implies s2 <= s by {
        if s2 > s {
            if s2 < r {
                assert(is_word(b[s2]));
            } else if s2 == r {
                assert(b[r] == ' ');
            } else {
                assert(!is_space(b[r]));
            }
        }
    }
    assert(android_marker_capture(b, name)) by {
        assert(name =~= b.subrange(0, r));
    }
    let c = choose|n: Seq<char>| android_marker_capture(b, n);
    assert(android_marker_capture(b, c));
    let (s1, r1) = choose|s1: int, r1: int|
        #![trigger android_marker_split(b, s1, r1)]
        android_marker_split(b, s1, r1) && c == b.subrange(0, r1) && forall|s2: int, r2: int|
            android_marker_split(b, s2, r2) ==> s2 <= s1;
    assert(s1 == s);
    lemma_close_starts_with_space(b, r);
    lemma_android_split_end(b, s, r1, r);
    assert(c =~= name);
}

} // verus!
