//! The set of files a batch run transcribes: explicit paths as given,
//! audio files found in directories and globs, ordered and de-duplicated
//! as `BTreeSet<PathBuf>` orders and compares paths.

use vstd::prelude::*;

use crate::batch::{is_audio, is_audio_path};
use crate::path::{split_fields, split_on};
use crate::text::{chars_of, contains_char, views_of};

verus! {

/// A component of a Unix path, in the order `std::path::Component` has.
pub enum PathComponent {
    RootDir,
    CurDir,
    ParentDir,
    Normal(Seq<char>),
}

/// The components that name the fields `fs`: empty fields and `.` are
/// skipped, `..` is the parent.
pub open spec fn field_components(fs: Seq<Seq<char>>) -> Seq<PathComponent>
    decreases fs.len(),
{
    if fs.len() == 0 {
        Seq::empty()
    } else {
        let prev = field_components(fs.drop_last());
        let f = fs.last();
        if f.len() == 0 || f == seq!['.'] {
            prev
        } else if f == seq!['.', '.'] {
            prev.push(PathComponent::ParentDir)
        } else {
            prev.push(PathComponent::Normal(f))
        }
    }
}

/// `Path::components`: a leading `/` is the root, a leading `.` field the
/// current directory, then the named fields.
pub open spec fn components(p: Seq<char>) -> Seq<PathComponent> {
    let f = split_fields(p, '/');
    if p.len() > 0 && p[0] == '/' {
        seq![PathComponent::RootDir] + field_components(f.drop_first())
    } else if f[0] == seq!['.'] {
        seq![PathComponent::CurDir] + field_components(f.drop_first())
    } else {
        field_components(f)
    }
}

/// Lexicographic comparison of character sequences: -1, 0 or 1.
pub open spec fn chars_order(a: Seq<char>, b: Seq<char>) -> int
    decreases a.len(),
{
    if a.len() == 0 && b.len() == 0 {
        0
    } else if a.len() == 0 {
        -1
    } else if b.len() == 0 {
        1
    } else if a[0] < b[0] {
        -1
    } else if b[0] < a[0] {
        1
    } else {
        chars_order(a.drop_first(), b.drop_first())
    }
}

pub open spec fn component_rank(c: PathComponent) -> int {
    match c {
        PathComponent::RootDir => 0,
        PathComponent::CurDir => 1,
        PathComponent::ParentDir => 2,
        PathComponent::Normal(_) => 3,
    }
}

pub open spec fn component_order(a: PathComponent, b: PathComponent) -> int {
    if component_rank(a) < component_rank(b) {
        -1
    } else if component_rank(b) < component_rank(a) {
        1
    } else {
        match (a, b) {
            (PathComponent::Normal(x), PathComponent::Normal(y)) => chars_order(x, y),
            _ => 0,
        }
    }
}

/// Lexicographic comparison of component sequences: -1, 0 or 1.
pub open spec fn components_order(a: Seq<PathComponent>, b: Seq<PathComponent>) -> int
    decreases a.len(),
{
    if a.len() == 0 && b.len() == 0 {
        0
    } else if a.len() == 0 {
        -1
    } else if b.len() == 0 {
        1
    } else if component_order(a[0], b[0]) != 0 {
        component_order(a[0], b[0])
    } else {
        components_order(a.drop_first(), b.drop_first())
    }
}

/// The order of `PathBuf`: by components.
#[verifier::opaque]
pub open spec fn path_order(a: Seq<char>, b: Seq<char>) -> int {
    components_order(components(a), components(b))
}

proof fn lemma_chars_order(a: Seq<char>, b: Seq<char>, c: Seq<char>)
    ensures
        -1 <= chars_order(a, b) <= 1,
        chars_order(a, b) == -chars_order(b, a),
        chars_order(a, b) == 0 <==> a == b,
        chars_order(a, b) < 0 && chars_order(b, c) < 0 ==> chars_order(a, c) < 0,
    decreases a.len(),
{
    if a.len() > 0 && b.len() > 0 && a[0] == b[0] {
        let c2 = if c.len() > 0 {
            c.drop_first()
        } else {
            c
        };
        lemma_chars_order(a.drop_first(), b.drop_first(), c2);
        assert(a =~= seq![a[0]] + a.drop_first());
        assert(b =~= seq![b[0]] + b.drop_first());
        if a == b {
            assert(a.drop_first() == b.drop_first());
        }
    } else if a.len() > 0 && b.len() > 0 {
        assert(a != b);
    } else if a.len() == 0 && b.len() == 0 {
        assert(a =~= b);
    }
}

proof fn lemma_component_order(a: PathComponent, b: PathComponent, c: PathComponent)
    ensures
        -1 <= component_order(a, b) <= 1,
        component_order(a, b) == -component_order(b, a),
        component_order(a, b) == 0 <==> a == b,
        component_order(a, b) < 0 && component_order(b, c) < 0 ==> component_order(a, c) < 0,
{
    match (a, b, c) {
        (PathComponent::Normal(x), PathComponent::Normal(y), PathComponent::Normal(z)) => {
            lemma_chars_order(x, y, z);
        },
        (PathComponent::Normal(x), PathComponent::Normal(y), _) => {
            lemma_chars_order(x, y, y);
        },
        _ => {},
    }
}

proof fn lemma_components_order(a: Seq<PathComponent>, b: Seq<PathComponent>, c: Seq<PathComponent>)
    ensures
        -1 <= components_order(a, b) <= 1,
        components_order(a, b) == -components_order(b, a),
        components_order(a, b) == 0 <==> a == b,
        components_order(a, b) < 0 && components_order(b, c) < 0 ==> components_order(a, c) < 0,
    decreases a.len(),
{
    if a.len() > 0 && b.len() > 0 {
        if c.len() > 0 {
            lemma_component_order(a[0], b[0], c[0]);
            lemma_component_order(b[0], a[0], c[0]);
        } else {
            lemma_component_order(a[0], b[0], b[0]);
        }
        if component_order(a[0], b[0]) == 0 {
            let c2 = if c.len() > 0 {
                c.drop_first()
            } else {
                c
            };
            lemma_components_order(a.drop_first(), b.drop_first(), c2);
            assert(a =~= seq![a[0]] + a.drop_first());
            assert(b =~= seq![b[0]] + b.drop_first());
            if a == b {
                assert(a.drop_first() == b.drop_first());
            }
        } else {
            assert(a[0] != b[0]);
            assert(a != b);
            if c.len() > 0 && components_order(a, b) < 0 && components_order(b, c) < 0 {
                lemma_component_order(b[0], c[0], c[0]);
                if component_order(b[0], c[0]) == 0 {
                    assert(b[0] == c[0]);
                }
            }
        }
    } else if a.len() == 0 && b.len() == 0 {
        assert(a =~= b);
    }
}


/// A path component, as plain values: kind 0 root, 1 current directory,
/// 2 parent directory, 3 a name.
pub struct Component {
    kind: u8,
    name: Vec<char>,
}

impl View for Component {
    type V = PathComponent;

    closed spec fn view(&self) -> PathComponent {
        if self.kind == 0 {
            PathComponent::RootDir
        } else if self.kind == 1 {
            PathComponent::CurDir
        } else if self.kind == 2 {
            PathComponent::ParentDir
        } else {
            PathComponent::Normal(self.name@)
        }
    }
}

pub open spec fn component_views(v: Seq<Component>) -> Seq<PathComponent> {
    v.map_values(|c: Component| c@)
}

fn dot_field(f: &Vec<char>) -> (r: bool)
    ensures
        r == (f@ == seq!['.']),
{
    let r = f.len() == 1 && f[0] == '.';
    proof {
        if f@.len() == 1 && f@[0] == '.' {
            assert(f@ =~= seq!['.']);
        }
    }
    r
}

fn dot_dot_field(f: &Vec<char>) -> (r: bool)
    ensures
        r == (f@ == seq!['.', '.']),
{
    let r = f.len() == 2 && f[0] == '.' && f[1] == '.';
    proof {
        if f@.len() == 2 && f@[0] == '.' && f@[1] == '.' {
            assert(f@ =~= seq!['.', '.']);
        }
    }
    r
}

/// The components of `p`.
pub fn components_of(p: &Vec<char>) -> (r: Vec<Component>)
    ensures
        component_views(r@) == components(p@),
{
    let f = split_on(p, '/');
    let ghost fv = views_of(f@);
    proof {
        crate::path::lemma_split_fields_nonempty(p@, '/');
    }
    let mut out: Vec<Component> = Vec::new();
    let start: usize;
    let ghost head: Seq<PathComponent>;
    if p.len() > 0 && p[0] == '/' {
        out.push(Component { kind: 0, name: Vec::new() });
        start = 1;
        proof {
            head = seq![PathComponent::RootDir];
        }
    } else if dot_field(&f[0]) {
        out.push(Component { kind: 1, name: Vec::new() });
        start = 1;
        proof {
            head = seq![PathComponent::CurDir];
        }
    } else {
        start = 0;
        proof {
            head = Seq::empty();
        }
    }
    proof {
        assert(component_views(out@) =~= head + field_components(fv.subrange(start as int, start as int)));
    }
    let mut i = start;
    while i < f.len()
        invariant
            start <= i <= f.len(),
            start <= 1,
            fv == views_of(f@),
            component_views(out@) == head + field_components(fv.subrange(start as int, i as int)),
        decreases f.len() - i,
    {
        let ghost before = component_views(out@);
        proof {
            assert(fv.subrange(start as int, i + 1).drop_last() =~= fv.subrange(start as int, i as int));
            assert(fv.subrange(start as int, i + 1).last() == f@[i as int]@);
        }
        let fi = &f[i];
        if fi.len() == 0 || dot_field(fi) {
        } else if dot_dot_field(fi) {
            out.push(Component { kind: 2, name: Vec::new() });
            proof {
                assert(component_views(out@) =~= before.push(PathComponent::ParentDir));
            }
        } else {
            let name = crate::text::sub_chars(fi, 0, fi.len());
            out.push(Component { kind: 3, name });
            proof {
                assert(fi@.subrange(0, fi@.len() as int) =~= fi@);
                assert(component_views(out@) =~= before.push(PathComponent::Normal(fi@)));
            }
        }
        i = i + 1;
    }
    proof {
        if start == 1 {
            assert(fv.subrange(1, fv.len() as int) =~= fv.drop_first());
        } else {
            assert(fv.subrange(0, fv.len() as int) =~= fv);
        }
    }
    out
}

fn chars_compare(a: &Vec<char>, b: &Vec<char>) -> (r: i8)
    ensures
        r == chars_order(a@, b@),
{
    let mut k: usize = 0;
    proof {
        assert(a@.skip(0) =~= a@);
        assert(b@.skip(0) =~= b@);
    }
    loop
        invariant
            k <= a.len(),
            k <= b.len(),
            chars_order(a@, b@) == chars_order(a@.skip(k as int), b@.skip(k as int)),
        decreases a.len() - k,
    {
        if k == a.len() && k == b.len() {
            return 0;
        }
        if k == a.len() {
            return -1;
        }
        if k == b.len() {
            return 1;
        }
        let x = a[k];
        let y = b[k];
        proof {
            assert(a@.skip(k as int)[0] == x);
            assert(b@.skip(k as int)[0] == y);
            assert(a@.skip(k as int).drop_first() =~= a@.skip(k + 1));
            assert(b@.skip(k as int).drop_first() =~= b@.skip(k + 1));
        }
        if x < y {
            return -1;
        }
        if y < x {
            return 1;
        }
        k = k + 1;
    }
}

fn component_compare(a: &Component, b: &Component) -> (r: i8)
    ensures
        r == component_order(a@, b@),
{
    let ra = if a.kind <= 2 { a.kind } else { 3 };
    let rb = if b.kind <= 2 { b.kind } else { 3 };
    if ra < rb {
        -1
    } else if rb < ra {
        1
    } else if ra == 3 {
        chars_compare(&a.name, &b.name)
    } else {
        0
    }
}

fn components_compare(a: &Vec<Component>, b: &Vec<Component>) -> (r: i8)
    ensures
        r == components_order(component_views(a@), component_views(b@)),
{
    let ghost av = component_views(a@);
    let ghost bv = component_views(b@);
    let mut k: usize = 0;
    proof {
        assert(av.skip(0) =~= av);
        assert(bv.skip(0) =~= bv);
    }
    loop
        invariant
            k <= a.len(),
            k <= b.len(),
            av == component_views(a@),
            bv == component_views(b@),
            components_order(av, bv) == components_order(av.skip(k as int), bv.skip(k as int)),
        decreases a.len() - k,
    {
        if k == a.len() && k == b.len() {
            return 0;
        }
        if k == a.len() {
            return -1;
        }
        if k == b.len() {
            return 1;
        }
        let c = component_compare(&a[k], &b[k]);
        proof {
            assert(av.skip(k as int)[0] == a@[k as int]@);
            assert(bv.skip(k as int)[0] == b@[k as int]@);
            assert(av.skip(k as int).drop_first() =~= av.skip(k + 1));
            assert(bv.skip(k as int).drop_first() =~= bv.skip(k + 1));
        }
        if c != 0 {
            return c;
        }
        k = k + 1;
    }
}

/// The order of paths is a total order: antisymmetric, equal exactly on
/// equal components, and transitive.
pub proof fn lemma_path_order(a: Seq<char>, b: Seq<char>, c: Seq<char>)
    ensures
        -1 <= path_order(a, b) <= 1,
        path_order(a, b) == -path_order(b, a),
        path_order(a, b) == 0 <==> components(a) == components(b),
        path_order(a, b) < 0 && path_order(b, c) < 0 ==> path_order(a, c) < 0,
{
    reveal(path_order);
    lemma_components_order(components(a), components(b), components(c));
}

/// An input that a batch run may transcribe: a path named explicitly on
/// the command line, or one that a directory walk or a glob turned up.
#[derive(Debug, Clone, PartialEq)]
pub struct Candidate {
    pub path: String,
    pub explicit: bool,
}

/// Whether candidate `k` is kept: explicit paths always, others only when
/// they are audio files.
#[verifier::opaque]
pub open spec fn kept_at(c: Seq<(Seq<char>, bool)>, k: int) -> bool {
    c[k].1 || is_audio_path(c[k].0)
}

/// Each candidate as its path and whether it was named explicitly.
pub open spec fn candidate_views(v: Seq<Candidate>) -> Seq<(Seq<char>, bool)> {
    v.map_values(|c: Candidate| (c.path@, c.explicit))
}

/// Candidate `k` is kept and no earlier kept candidate names the same path.
pub open spec fn first_of_class(c: Seq<(Seq<char>, bool)>, k: int) -> bool {
    &&& kept_at(c, k)
    &&& forall|j: int| 0 <= j < k && #[trigger] kept_at(c, j) ==> path_order(c[j].0, c[k].0) != 0
}

pub open spec fn strictly_sorted(r: Seq<Seq<char>>) -> bool {
    forall|i: int, j: int| 0 <= i < j < r.len() ==> path_order(#[trigger] r[i], #[trigger] r[j]) < 0
}

/// Some kept candidate among the first `n`, the first of its path, is `p`.
#[verifier::opaque]
pub open spec fn has_first(c: Seq<(Seq<char>, bool)>, n: int, p: Seq<char>) -> bool {
    exists|k: int| 0 <= k < n && #[trigger] first_of_class(c, k) && c[k].0 == p
}

/// Some entry of `r` is the same path as `p`.
#[verifier::opaque]
pub open spec fn covered(r: Seq<Seq<char>>, p: Seq<char>) -> bool {
    exists|i: int| 0 <= i < r.len() && path_order(#[trigger] r[i], p) == 0
}

/// `r` is the set of the first `n` candidates as a `BTreeSet<PathBuf>`
/// holds it: sorted by path order, one entry per path (the first inserted),
/// and every kept candidate present.
pub open spec fn collected(c: Seq<(Seq<char>, bool)>, n: int, r: Seq<Seq<char>>) -> bool {
    &&& strictly_sorted(r)
    &&& forall|i: int| 0 <= i < r.len() ==> #[trigger] has_first(c, n, r[i])
    &&& forall|k: int| 0 <= k < n && kept_at(c, k) ==> #[trigger] covered(r, c[k].0)
}

proof fn lemma_has_first_grows(c: Seq<(Seq<char>, bool)>, n: int, p: Seq<char>)
    requires
        has_first(c, n, p),
    ensures
        has_first(c, n + 1, p),
{
    reveal(has_first);
    let k = choose|k: int| 0 <= k < n && #[trigger] first_of_class(c, k) && c[k].0 == p;
    assert(0 <= k < n + 1 && first_of_class(c, k) && c[k].0 == p);
}

proof fn lemma_collected_skip(c: Seq<(Seq<char>, bool)>, n: int, r: Seq<Seq<char>>)
    requires
        0 <= n < c.len(),
        collected(c, n, r),
        !kept_at(c, n),
    ensures
        collected(c, n + 1, r),
{
    assert forall|i: int| 0 <= i < r.len() implies #[trigger] has_first(c, n + 1, r[i]) by {
        assert(has_first(c, n, r[i]));
        lemma_has_first_grows(c, n, r[i]);
    }
    assert forall|k: int| 0 <= k < n + 1 && kept_at(c, k) implies #[trigger] covered(r, c[k].0) by {
        if k < n {
            assert(covered(r, c[k].0));
        }
    }
}

proof fn lemma_collected_present(c: Seq<(Seq<char>, bool)>, n: int, r: Seq<Seq<char>>, i: int)
    requires
        0 <= n < c.len(),
        collected(c, n, r),
        0 <= i < r.len(),
        path_order(r[i], c[n].0) == 0,
    ensures
        collected(c, n + 1, r),
{
    assert forall|t: int| 0 <= t < r.len() implies #[trigger] has_first(c, n + 1, r[t]) by {
        assert(has_first(c, n, r[t]));
        lemma_has_first_grows(c, n, r[t]);
    }
    assert forall|k: int| 0 <= k < n + 1 && kept_at(c, k) implies #[trigger] covered(r, c[k].0) by {
        if k < n {
            assert(covered(r, c[k].0));
        } else {
            reveal(covered);
            assert(path_order(r[i], c[k].0) == 0);
        }
    }
}

proof fn lemma_collected_insert(c: Seq<(Seq<char>, bool)>, n: int, r: Seq<Seq<char>>, i: int)
    requires
        0 <= n < c.len(),
        collected(c, n, r),
        kept_at(c, n),
        0 <= i <= r.len(),
        forall|t: int| 0 <= t < i ==> path_order(#[trigger] r[t], c[n].0) < 0,
        i < r.len() ==> path_order(r[i], c[n].0) > 0,
    ensures
        collected(c, n + 1, r.insert(i, c[n].0)),
{
    let p = c[n].0;
    let r2 = r.insert(i, p);
    assert forall|t: int| 0 <= t < r.len() implies path_order(#[trigger] r[t], p) != 0 by {
        if t > i {
            lemma_path_order(p, r[i], r[t]);
            lemma_path_order(r[i], p, p);
            assert(path_order(r[i], r[t]) < 0);
            lemma_path_order(r[t], p, p);
        }
    }
    assert forall|a: int, b: int| 0 <= a < b < r2.len() implies path_order(#[trigger] r2[a], #[trigger] r2[b]) < 0 by {
        if b < i {
            assert(path_order(r[a], r[b]) < 0);
        } else if b == i {
            assert(path_order(r[a], p) < 0);
        } else if a == i {
            lemma_path_order(r[i], p, p);
            if b - 1 > i {
                assert(path_order(r[i], r[b - 1]) < 0);
                lemma_path_order(p, r[i], r[b - 1]);
            }
        } else if a < i {
            assert(path_order(r[a], r[b - 1]) < 0);
        } else {
            assert(path_order(r[a - 1], r[b - 1]) < 0);
        }
    }
    assert(first_of_class(c, n)) by {
        assert forall|j: int| 0 <= j < n && #[trigger] kept_at(c, j) implies path_order(c[j].0, p) != 0 by {
            assert(covered(r, c[j].0));
            reveal(covered);
            let t = choose|t: int| 0 <= t < r.len() && path_order(#[trigger] r[t], c[j].0) == 0;
            assert(path_order(r[t], p) != 0);
            lemma_path_order(r[t], c[j].0, p);
            lemma_path_order(c[j].0, p, p);
            lemma_path_order(r[t], p, p);
        }
    }
    assert forall|t: int| 0 <= t < r2.len() implies #[trigger] has_first(c, n + 1, r2[t]) by {
        if t == i {
            reveal(has_first);
            assert(0 <= n < n + 1 && first_of_class(c, n) && c[n].0 == r2[t]);
        } else if t < i {
            assert(has_first(c, n, r[t]));
            lemma_has_first_grows(c, n, r[t]);
        } else {
            assert(has_first(c, n, r[t - 1]));
            lemma_has_first_grows(c, n, r[t - 1]);
        }
    }
    assert forall|k: int| 0 <= k < n + 1 && kept_at(c, k) implies #[trigger] covered(r2, c[k].0) by {
        reveal(covered);
        if k == n {
            lemma_path_order(p, p, p);
            assert(path_order(r2[i], p) == 0);
        } else {
            assert(covered(r, c[k].0));
            let t = choose|t: int| 0 <= t < r.len() && path_order(#[trigger] r[t], c[k].0) == 0;
            if t < i {
                assert(r2[t] == r[t]);
            } else {
                assert(r2[t + 1] == r[t]);
            }
        }
    }
}

proof fn lemma_sorted_same_elements(r1: Seq<Seq<char>>, r2: Seq<Seq<char>>)
    requires
        strictly_sorted(r1),
        strictly_sorted(r2),
        forall|i: int| 0 <= i < r1.len() ==> r2.contains(#[trigger] r1[i]),
        forall|j: int| 0 <= j < r2.len() ==> r1.contains(#[trigger] r2[j]),
    ensures
        r1 == r2,
    decreases r1.len(),
{
    if r1.len() == 0 {
        if r2.len() > 0 {
            assert(r1.contains(r2[0]));
        }
        assert(r1 =~= r2);
    } else if r2.len() == 0 {
        assert(r2.contains(r1[0]));
    } else {
        assert(r2.contains(r1[0]));
        let j = choose|j: int| 0 <= j < r2.len() && r2[j] == r1[0];
        assert(r1.contains(r2[0]));
        let i = choose|i: int| 0 <= i < r1.len() && r1[i] == r2[0];
        lemma_path_order(r1[0], r2[0], r1[0]);
        lemma_path_order(r1[0], r1[0], r1[0]);
        if j > 0 {
            assert(path_order(r2[0], r2[j]) < 0);
            if i > 0 {
                assert(path_order(r1[0], r1[i]) < 0);
            }
        }
        assert(r1[0] == r2[0]);
        let t1 = r1.drop_first();
        let t2 = r2.drop_first();
        assert forall|a: int| 0 <= a < t1.len() implies t2.contains(#[trigger] t1[a]) by {
            assert(r1[a + 1] == t1[a]);
            assert(r2.contains(r1[a + 1]));
            let b = choose|b: int| 0 <= b < r2.len() && r2[b] == r1[a + 1];
            assert(path_order(r1[0], r1[a + 1]) < 0);
            if b == 0 {
                lemma_path_order(r1[0], r1[0], r1[0]);
            }
            assert(t2[b - 1] == t1[a]);
        }
        assert forall|a: int| 0 <= a < t2.len() implies t1.contains(#[trigger] t2[a]) by {
            assert(r2[a + 1] == t2[a]);
            assert(r1.contains(r2[a + 1]));
            let b = choose|b: int| 0 <= b < r1.len() && r1[b] == r2[a + 1];
            assert(path_order(r2[0], r2[a + 1]) < 0);
            if b == 0 {
                lemma_path_order(r2[0], r2[0], r2[0]);
            }
            assert(t1[b - 1] == t2[a]);
        }
        assert(strictly_sorted(t1)) by {
            assert forall|a: int, b: int| 0 <= a < b < t1.len() implies path_order(#[trigger] t1[a], #[trigger] t1[b]) < 0 by {
                assert(path_order(r1[a + 1], r1[b + 1]) < 0);
            }
        }
        assert(strictly_sorted(t2)) by {
            assert forall|a: int, b: int| 0 <= a < b < t2.len() implies path_order(#[trigger] t2[a], #[trigger] t2[b]) < 0 by {
                assert(path_order(r2[a + 1], r2[b + 1]) < 0);
            }
        }
        lemma_sorted_same_elements(t1, t2);
        assert(r1 =~= seq![r1[0]] + t1);
        assert(r2 =~= seq![r2[0]] + t2);
    }
}

proof fn lemma_collected_contains(c: Seq<(Seq<char>, bool)>, n: int, r1: Seq<Seq<char>>, r2: Seq<Seq<char>>)
    requires
        collected(c, n, r1),
        collected(c, n, r2),
    ensures
        forall|i: int| 0 <= i < r1.len() ==> r2.contains(#[trigger] r1[i]),
{
    assert forall|i: int| 0 <= i < r1.len() implies r2.contains(#[trigger] r1[i]) by {
        assert(has_first(c, n, r1[i]));
        reveal(has_first);
        let k = choose|k: int| 0 <= k < n && #[trigger] first_of_class(c, k) && c[k].0 == r1[i];
        assert(kept_at(c, k));
        assert(covered(r2, c[k].0));
        reveal(covered);
        let j = choose|j: int| 0 <= j < r2.len() && path_order(#[trigger] r2[j], c[k].0) == 0;
        assert(has_first(c, n, r2[j]));
        let k2 = choose|k2: int| 0 <= k2 < n && #[trigger] first_of_class(c, k2) && c[k2].0 == r2[j];
        lemma_path_order(r2[j], c[k].0, r2[j]);
        if k < k2 {
            assert(kept_at(c, k));
            assert(path_order(c[k].0, c[k2].0) != 0);
        } else if k2 < k {
            assert(kept_at(c, k2));
            assert(path_order(c[k2].0, c[k].0) != 0);
        }
        assert(r2[j] == r1[i]);
    }
}

/// Law: the candidates determine the collected list: any two lists that
/// both collect the first `n` candidates are the same list.
pub proof fn lemma_collected_unique(c: Seq<(Seq<char>, bool)>, n: int, r1: Seq<Seq<char>>, r2: Seq<Seq<char>>)
    requires
        collected(c, n, r1),
        collected(c, n, r2),
    ensures
        r1 == r2,
{
    lemma_collected_contains(c, n, r1, r2);
    lemma_collected_contains(c, n, r2, r1);
    lemma_sorted_same_elements(r1, r2);
}

/// Law: collecting a collected list once more, its entries given as
/// explicit paths, gives that list back (with `lemma_collected_unique`, the
/// only list so collected).
pub proof fn lemma_collect_again(r: Seq<Seq<char>>)
    requires
        strictly_sorted(r),
    ensures
        collected(r.map_values(|p: Seq<char>| (p, true)), r.len() as int, r),
{
    let c = r.map_values(|p: Seq<char>| (p, true));
    reveal(kept_at);
    assert forall|i: int| 0 <= i < r.len() implies #[trigger] has_first(c, r.len() as int, r[i]) by {
        reveal(has_first);
        assert forall|j: int| 0 <= j < i && #[trigger] kept_at(c, j) implies path_order(c[j].0, c[i].0) != 0 by {
            assert(path_order(r[j], r[i]) < 0);
        }
        assert(first_of_class(c, i) && c[i].0 == r[i]);
    }
    assert forall|k: int| 0 <= k < r.len() && kept_at(c, k) implies #[trigger] covered(r, c[k].0) by {
        reveal(covered);
        lemma_path_order(r[k], r[k], r[k]);
        assert(path_order(r[k], c[k].0) == 0);
    }
}

pub open spec fn string_seq(v: Seq<String>) -> Seq<Seq<char>> {
    v.map_values(|s: String| s@)
}

/// The sorted, de-duplicated list of the kept candidates.
pub fn collect_files(cands: &[Candidate]) -> (r: Vec<String>)
    ensures
        collected(candidate_views(cands@), cands@.len() as int, string_seq(r@)),
{
    let mut out: Vec<String> = Vec::new();
    let mut keys: Vec<Vec<Component>> = Vec::new();
    let mut n: usize = 0;
    proof {
        assert(string_seq(out@) =~= Seq::<Seq<char>>::empty());
    }
    while n < cands.len()
        invariant
            n <= cands.len(),
            out.len() == keys.len(),
            forall|i: int| 0 <= i < keys.len() ==> component_views(#[trigger] keys@[i]@) == components(out@[i]@),
            collected(candidate_views(cands@), n as int, string_seq(out@)),
        decreases cands.len() - n,
    {
        let ghost c = candidate_views(cands@);
        let ghost r = string_seq(out@);
        let cand = &cands[n];
        let keep = cand.explicit || is_audio(cand.path.as_str());
        proof {
            reveal(kept_at);
            assert(c[n as int] == (cand.path@, cand.explicit));
            assert(keep == kept_at(c, n as int));
        }
        if !keep {
            proof {
                lemma_collected_skip(c, n as int, r);
            }
        } else {
            let pc = chars_of(cand.path.as_str());
            let key = components_of(&pc);
            let ghost p = cand.path@;
            let mut i: usize = 0;
            let mut found = false;
            while i < keys.len()
                invariant_except_break
                    !found,
                invariant
                    i <= keys.len(),
                    out.len() == keys.len(),
                    r == string_seq(out@),
                    component_views(key@) == components(p),
                    forall|t: int| 0 <= t < keys.len() ==> component_views(#[trigger] keys@[t]@) == components(out@[t]@),
                    forall|t: int| 0 <= t < i ==> path_order(#[trigger] r[t], p) < 0,
                ensures
                    i <= keys.len(),
                    found ==> i < keys.len() && path_order(r[i as int], p) == 0,
                    !found ==> (i < keys.len() ==> path_order(r[i as int], p) > 0),
                    forall|t: int| 0 <= t < i ==> path_order(#[trigger] r[t], p) < 0,
                decreases keys.len() - i,
            {
                let o = components_compare(&keys[i], &key);
                proof {
                    reveal(path_order);
                    assert(r[i as int] == out@[i as int]@);
                    assert(component_views(keys@[i as int]@) == components(out@[i as int]@));
                }
                if o == 0 {
                    found = true;
                    break;
                }
                if o > 0 {
                    break;
                }
                i = i + 1;
            }
            if found {
                proof {
                    lemma_collected_present(c, n as int, r, i as int);
                }
            } else {
                let ghost old_keys = keys@;
                let ghost old_out = out@;
                out.insert(i, cand.path.clone());
                keys.insert(i, key);
                proof {
                    lemma_collected_insert(c, n as int, r, i as int);
                    assert(string_seq(out@) =~= r.insert(i as int, p));
                    assert forall|t: int| 0 <= t < keys.len() implies component_views(#[trigger] keys@[t]@)
                        == components(out@[t]@) by {
                        if t < i {
                            assert(keys@[t] == old_keys[t] && out@[t] == old_out[t]);
                        } else if t > i {
                            assert(keys@[t] == old_keys[t - 1] && out@[t] == old_out[t - 1]);
                        }
                    }
                }
            }
        }
        n = n + 1;
    }
    out
}

/// An input holding `*`, `?` or `[` is a glob pattern.
pub open spec fn is_pattern(raw: Seq<char>) -> bool {
    raw.contains('*') || raw.contains('?') || raw.contains('[')
}

/// Whether the input `raw` is expanded as a glob pattern.
pub fn is_glob_pattern(raw: &str) -> (r: bool)
    ensures
        r == is_pattern(raw@),
{
    let v = chars_of(raw);
    contains_char(&v, '*') || contains_char(&v, '?') || contains_char(&v, '[')
}

/// What looking at one input found.
#[derive(Debug, Clone, PartialEq)]
pub enum InputScan {
    /// A plain path (no glob pattern) at which nothing exists; it holds
    /// the input as given.
    Missing(String),
    /// The files the input contributes: the path itself when it names a
    /// file, or what a glob or a directory walk turned up.
    Found(Vec<Candidate>),
}

/// The candidates of all scans, in input order.
pub open spec fn scan_candidates(s: Seq<InputScan>) -> Seq<(Seq<char>, bool)>
    decreases s.len(),
{
    if s.len() == 0 {
        Seq::empty()
    } else {
        scan_candidates(s.drop_last()) + match s.last() {
            InputScan::Missing(_) => Seq::empty(),
            InputScan::Found(v) => candidate_views(v@),
        }
    }
}

fn copy_candidate(c: &Candidate) -> (r: Candidate)
    ensures
        r.path@ == c.path@,
        r.explicit == c.explicit,
{
    Candidate { path: c.path.clone(), explicit: c.explicit }
}

/// The files of a batch run: an error holding the first input at which
/// nothing exists, or else the sorted, de-duplicated kept candidates.
pub fn collect_audio_files(scans: &[InputScan]) -> (r: Result<Vec<String>, String>)
    ensures
        match r {
            Err(raw) => exists|i: int|
                #![trigger scans@[i]]
                0 <= i < scans@.len() && (scans@[i] matches InputScan::Missing(m) && m@ == raw@) && forall|j: int|
                    0 <= j < i ==> !(#[trigger] scans@[j] is Missing),
            Ok(files) => (forall|i: int| 0 <= i < scans@.len() ==> !(#[trigger] scans@[i] is Missing)) && collected(
                scan_candidates(scans@),
                scan_candidates(scans@).len() as int,
                string_seq(files@),
            ),
        },
{
    let mut all: Vec<Candidate> = Vec::new();
    let mut i: usize = 0;
    while i < scans.len()
        invariant
            i <= scans.len(),
            forall|j: int| 0 <= j < i ==> !(#[trigger] scans@[j] is Missing),
            candidate_views(all@) == scan_candidates(scans@.take(i as int)),
        decreases scans.len() - i,
    {
        proof {
            assert(scans@.take(i + 1).drop_last() =~= scans@.take(i as int));
            assert(scans@.take(i + 1).last() == scans@[i as int]);
        }
        match &scans[i] {
            InputScan::Missing(raw) => {
                return Err(raw.clone());
            },
            InputScan::Found(v) => {
                let ghost before = candidate_views(all@);
                let mut k: usize = 0;
                while k < v.len()
                    invariant
                        k <= v.len(),
                        candidate_views(all@) == before + candidate_views(v@).take(k as int),
                    decreases v.len() - k,
                {
                    let cc = copy_candidate(&v[k]);
                    let ghost prev = all@;
                    all.push(cc);
                    proof {
                        assert(candidate_views(all@) =~= candidate_views(prev).push((v@[k as int].path@, v@[k as int].explicit)));
                        assert(candidate_views(v@).take(k + 1) =~= candidate_views(v@).take(k as int).push(
                            (v@[k as int].path@, v@[k as int].explicit),
                        ));
                        assert(candidate_views(all@) =~= before + candidate_views(v@).take(k + 1));
                    }
                    k = k + 1;
                }
                proof {
                    assert(candidate_views(v@).take(v@.len() as int) =~= candidate_views(v@));
                }
            },
        }
        i = i + 1;
    }
    proof {
        assert(scans@.take(scans@.len() as int) =~= scans@);
    }
    Ok(collect_files(&all))
}

} // verus!
