//! Unix path arithmetic on text: the file name, stem and extension of a path
//! and joining a name onto a directory, as `std::path` computes them.

use vstd::prelude::*;

verus! {

/// The `sep`-separated fields of `s`, built from the back.
pub open spec fn split_fields(s: Seq<char>, sep: char) -> Seq<Seq<char>>
    decreases s.len(),
{
    if s.len() == 0 {
        seq![Seq::<char>::empty()]
    } else {
        let f = split_fields(s.drop_last(), sep);
        if s.last() == sep {
            f.push(Seq::<char>::empty())
        } else {
            f.update(f.len() - 1, f.last().push(s.last()))
        }
    }
}

/// Splitting yields at least one field.
pub proof fn lemma_split_fields_nonempty(s: Seq<char>, sep: char)
    ensures
        split_fields(s, sep).len() >= 1,
    decreases s.len(),
{
    if s.len() > 0 {
        lemma_split_fields_nonempty(s.drop_last(), sep);
    }
}

pub open spec fn dot() -> Seq<char> {
    seq!['.']
}

pub open spec fn dot_dot() -> Seq<char> {
    seq!['.', '.']
}

/// The last field that is a component name: neither empty nor `.`.
pub open spec fn last_named(f: Seq<Seq<char>>) -> Option<Seq<char>>
    decreases f.len(),
{
    if f.len() == 0 {
        None
    } else if f.last().len() == 0 || f.last() == dot() {
        last_named(f.drop_last())
    } else {
        Some(f.last())
    }
}

/// `Path::file_name`: the last component, unless that is `..` or there is
/// none (the path is empty, `/`, or only `.` components).
pub open spec fn file_name(p: Seq<char>) -> Option<Seq<char>> {
    match last_named(split_fields(p, '/')) {
        Some(c) => if c == dot_dot() {
            None
        } else {
            Some(c)
        },
        None => None,
    }
}

/// Index of the last `.` in `n`, if any.
pub open spec fn last_dot(n: Seq<char>) -> Option<int>
    decreases n.len(),
{
    if n.len() == 0 {
        None
    } else if n.last() == '.' {
        Some(n.len() - 1)
    } else {
        last_dot(n.drop_last())
    }
}

/// `Path::extension` of a file name: after its last dot, unless the only
/// dot opens the name.
pub open spec fn name_extension(n: Seq<char>) -> Option<Seq<char>> {
    match last_dot(n) {
        Some(k) => if k == 0 {
            None
        } else {
            Some(n.subrange(k + 1, n.len() as int))
        },
        None => None,
    }
}

/// `Path::file_stem` of a file name: before its last dot, unless the only
/// dot opens the name or there is none.
pub open spec fn name_stem(n: Seq<char>) -> Seq<char> {
    match last_dot(n) {
        Some(k) => if k == 0 {
            n
        } else {
            n.subrange(0, k)
        },
        None => n,
    }
}

pub open spec fn extension(p: Seq<char>) -> Option<Seq<char>> {
    match file_name(p) {
        Some(n) => name_extension(n),
        None => None,
    }
}

pub open spec fn file_stem(p: Seq<char>) -> Option<Seq<char>> {
    match file_name(p) {
        Some(n) => Some(name_stem(n)),
        None => None,
    }
}

/// `PathBuf::push`/`Path::join`: an absolute `name` replaces `dir`;
/// otherwise a `/` goes between them unless `dir` is empty or already ends
/// with one.
pub open spec fn join(dir: Seq<char>, name: Seq<char>) -> Seq<char> {
    if name.len() > 0 && name[0] == '/' {
        name
    } else if dir.len() > 0 && dir.last() != '/' {
        dir + seq!['/'] + name
    } else {
        dir + name
    }
}

/// The fields of `s` between occurrences of `sep`.
pub fn split_on(s: &Vec<char>, sep: char) -> (r: Vec<Vec<char>>)
    ensures
        crate::text::views_of(r@) == split_fields(s@, sep),
{
    let mut out: Vec<Vec<char>> = Vec::new();
    let mut cur: Vec<char> = Vec::new();
    let mut i: usize = 0;
    while i < s.len()
        invariant
            i <= s.len(),
            split_fields(s@.take(i as int), sep).len() >= 1,
            crate::text::views_of(out@) == split_fields(s@.take(i as int), sep).drop_last(),
            cur@ == split_fields(s@.take(i as int), sep).last(),
        decreases s.len() - i,
    {
        let c = s[i];
        let ghost f = split_fields(s@.take(i as int), sep);
        proof {
            assert(s@.take(i + 1).drop_last() =~= s@.take(i as int));
            lemma_split_fields_nonempty(s@.take(i + 1), sep);
        }
        if c == sep {
            let ghost before = crate::text::views_of(out@);
            out.push(cur);
            cur = Vec::new();
            proof {
                assert(crate::text::views_of(out@) =~= before.push(f.last()));
                assert(f =~= f.drop_last().push(f.last()));
            }
        } else {
            cur.push(c);
        }
        i = i + 1;
    }
    proof {
        assert(s@.take(s.len() as int) =~= s@);
        let f = split_fields(s@, sep);
    }
    let ghost before = crate::text::views_of(out@);
    out.push(cur);
    proof {
        let f = split_fields(s@, sep);
        assert(crate::text::views_of(out@) =~= before.push(f.last()));
        assert(f =~= f.drop_last().push(f.last()));
    }
    out
}

fn is_dot(c: &Vec<char>) -> (r: bool)
    ensures
        r == (c@ == dot()),
{
    let r = c.len() == 1 && c[0] == '.';
    proof {
        if c@.len() == 1 && c@[0] == '.' {
            assert(c@ =~= dot());
        }
    }
    r
}

fn is_dot_dot(c: &Vec<char>) -> (r: bool)
    ensures
        r == (c@ == dot_dot()),
{
    let r = c.len() == 2 && c[0] == '.' && c[1] == '.';
    proof {
        if c@.len() == 2 && c@[0] == '.' && c@[1] == '.' {
            assert(c@ =~= dot_dot());
        }
    }
    r
}

/// The file name of path `p`.
pub fn file_name_of(p: &Vec<char>) -> (r: Option<Vec<char>>)
    ensures
        match r {
            Some(n) => file_name(p@) == Some(n@),
            None => file_name(p@) is None,
        },
{
    let f = split_on(p, '/');
    let ghost fv = crate::text::views_of(f@);
    let mut k = f.len();
    proof {
        assert(fv.take(k as int) =~= fv);
    }
    while k > 0
        invariant
            k <= f.len(),
            fv == crate::text::views_of(f@),
            fv == split_fields(p@, '/'),
            last_named(fv) == last_named(fv.take(k as int)),
        decreases k,
    {
        proof {
            assert(fv.take(k as int).drop_last() =~= fv.take(k - 1));
            assert(fv.take(k as int).last() == f@[k - 1]@);
        }
        if !(f[k - 1].len() == 0 || is_dot(&f[k - 1])) {
            proof {
                assert(last_named(fv.take(k as int)) == Some(f@[k - 1]@));
            }
            if is_dot_dot(&f[k - 1]) {
                return None;
            }
            let c = crate::text::sub_chars(&f[k - 1], 0, f[k - 1].len());
            proof {
                assert(f@[k - 1]@.subrange(0, f@[k - 1]@.len() as int) =~= f@[k - 1]@);
            }
            return Some(c);
        }
        k = k - 1;
    }
    proof {
        assert(fv.take(0).len() == 0);
    }
    None
}

/// The index of the last `.` of `n`.
fn last_dot_of(n: &Vec<char>) -> (r: Option<usize>)
    ensures
        match r {
            Some(k) => last_dot(n@) == Some(k as int),
            None => last_dot(n@) is None,
        },
{
    let mut k = n.len();
    proof {
        assert(n@.take(k as int) =~= n@);
    }
    while k > 0
        invariant
            k <= n.len(),
            last_dot(n@) == last_dot(n@.take(k as int)),
        decreases k,
    {
        proof {
            assert(n@.take(k as int).drop_last() =~= n@.take(k - 1));
        }
        if n[k - 1] == '.' {
            return Some(k - 1);
        }
        k = k - 1;
    }
    proof {
        assert(n@.take(0).len() == 0);
    }
    None
}

proof fn lemma_last_dot_bound(n: Seq<char>)
    ensures
        last_dot(n) matches Some(k) ==> 0 <= k < n.len() && n[k] == '.',
    decreases n.len(),
{
    if n.len() > 0 && n.last() != '.' {
        lemma_last_dot_bound(n.drop_last());
    }
}

proof fn lemma_last_dot_is_last(n: Seq<char>)
    ensures
        last_dot(n) matches Some(k) ==> 0 <= k < n.len() && n[k] == '.' && forall|j: int|
            k < j < n.len() ==> n[j] != '.',
        last_dot(n) is None ==> forall|j: int| 0 <= j < n.len() ==> n[j] != '.',
    decreases n.len(),
{
    if n.len() > 0 && n.last() != '.' {
        lemma_last_dot_is_last(n.drop_last());
        assert forall|j: int| 0 <= j < n.len() - 1 implies n[j] == n.drop_last()[j] by {}
    }
}

/// Law: a file name splits at one dot, the last: where it has an
/// extension, the stem, a dot and the extension give the name back, the
/// extension holds no dot and the stem is not empty; where it has none, the
/// stem is the whole name.
pub proof fn lemma_name_stem_extension(n: Seq<char>)
    ensures
        name_extension(n) matches Some(e) ==> name_stem(n) + seq!['.'] + e == n && !e.contains('.')
            && name_stem(n).len() > 0,
        name_extension(n) is None ==> name_stem(n) == n,
{
    lemma_last_dot_is_last(n);
    if let Some(k) = last_dot(n) {
        if k != 0 {
            let e = n.subrange(k + 1, n.len() as int);
            assert(n.subrange(0, k) + seq!['.'] + e =~= n);
            assert forall|j: int| 0 <= j < e.len() implies e[j] != '.' by {
                assert(e[j] == n[k + 1 + j]);
            }
        }
    }
}

/// Law: the stem and the extension of a path split its file name at the
/// same, last, dot.
pub proof fn lemma_file_stem_extension(p: Seq<char>)
    ensures
        extension(p) matches Some(e) ==> (file_stem(p) matches Some(s) && file_name(p) == Some(
            s + seq!['.'] + e,
        ) && !e.contains('.')),
        file_name(p) matches Some(n) ==> (extension(p) is None ==> file_stem(p) == Some(n)),
{
    if let Some(n) = file_name(p) {
        lemma_name_stem_extension(n);
    }
}

/// The extension of path `p`.
pub fn extension_of(p: &Vec<char>) -> (r: Option<Vec<char>>)
    ensures
        match r {
            Some(e) => extension(p@) == Some(e@),
            None => extension(p@) is None,
        },
{
    match file_name_of(p) {
        Some(n) => match last_dot_of(&n) {
            Some(k) => {
                proof {
                    lemma_last_dot_bound(n@);
                }
                if k == 0 {
                    None
                } else {
                    Some(crate::text::sub_chars(&n, k + 1, n.len()))
                }
            },
            None => None,
        },
        None => None,
    }
}

/// The file stem of path `p`.
pub fn file_stem_of(p: &Vec<char>) -> (r: Option<Vec<char>>)
    ensures
        match r {
            Some(s) => file_stem(p@) == Some(s@),
            None => file_stem(p@) is None,
        },
{
    match file_name_of(p) {
        Some(n) => match last_dot_of(&n) {
            Some(k) => {
                proof {
                    lemma_last_dot_bound(n@);
                }
                if k == 0 {
                    Some(n)
                } else {
                    Some(crate::text::sub_chars(&n, 0, k))
                }
            },
            None => Some(n),
        },
        None => None,
    }
}

/// `dir` joined with `name`.
pub fn join_path(dir: &Vec<char>, name: &Vec<char>) -> (r: Vec<char>)
    ensures
        r@ == join(dir@, name@),
{
    if name.len() > 0 && name[0] == '/' {
        return crate::text::sub_chars(name, 0, name.len());
    }
    let mut r = crate::text::sub_chars(dir, 0, dir.len());
    if dir.len() > 0 && dir[dir.len() - 1] != '/' {
        r.push('/');
    }
    let mut n = crate::text::sub_chars(name, 0, name.len());
    r.append(&mut n);
    proof {
        assert(dir@.subrange(0, dir@.len() as int) =~= dir@);
        assert(name@.subrange(0, name@.len() as int) =~= name@);
        assert(r@ =~= join(dir@, name@));
    }
    r
}

} // verus!
