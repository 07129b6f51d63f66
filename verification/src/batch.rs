//! Which files are audio, where each transcript goes, and the tally of a
//! batch run.

use vstd::prelude::*;

use crate::path::{extension, extension_of, file_stem, file_stem_of, join, join_path};
use crate::text::{
    chars_of, decimal, decimal_chars, digit_char, one_of, to_lower, same_chars, string_from_chars, to_lowercase,
    views_of,
};
use crate::writers::{format_extension, OutputFormat};

verus! {

/// The extensions (lower case) of the audio files that directories and
/// globs contribute.
pub open spec fn audio_extensions() -> Seq<Seq<char>> {
    seq![
        seq!['o', 'p', 'u', 's'],
        seq!['o', 'g', 'g'],
        seq!['o', 'g', 'a'],
        seq!['m', 'p', '3'],
        seq!['m', '4', 'a'],
        seq!['w', 'a', 'v'],
        seq!['f', 'l', 'a', 'c'],
        seq!['m', 'p', '4'],
        seq!['w', 'e', 'b', 'm'],
        seq!['a', 'a', 'c'],
        seq!['w', 'm', 'a'],
        seq!['a', 'm', 'r'],
    ]
}

fn audio_extension_list() -> (v: Vec<Vec<char>>)
    ensures
        views_of(v@) == audio_extensions(),
{
    let v = vec![
        vec!['o', 'p', 'u', 's'],
        vec!['o', 'g', 'g'],
        vec!['o', 'g', 'a'],
        vec!['m', 'p', '3'],
        vec!['m', '4', 'a'],
        vec!['w', 'a', 'v'],
        vec!['f', 'l', 'a', 'c'],
        vec!['m', 'p', '4'],
        vec!['w', 'e', 'b', 'm'],
        vec!['a', 'a', 'c'],
        vec!['w', 'm', 'a'],
        vec!['a', 'm', 'r'],
    ];
    proof {
        assert(views_of(v@) =~= audio_extensions());
    }
    v
}

/// A path whose extension, lower-cased, is an audio extension.
pub open spec fn is_audio_path(p: Seq<char>) -> bool {
    match extension(p) {
        Some(e) => audio_extensions().contains(to_lower(e)),
        None => false,
    }
}

/// Whether `path` names an audio file, by its extension in any case.
pub fn is_audio(path: &str) -> (r: bool)
    ensures
        r == is_audio_path(path@),
{
    let p = chars_of(path);
    match extension_of(&p) {
        Some(e) => is_audio_extension(to_lowercase(string_from_chars(&e).as_str()).as_str()),
        None => false,
    }
}

/// Whether a lower-cased extension is one of the audio extensions.
pub fn is_audio_extension(lower: &str) -> (r: bool)
    ensures
        r == audio_extensions().contains(lower@),
{
    one_of(&chars_of(lower), &audio_extension_list())
}


/// How many entries of `s` equal `x`.
pub open spec fn occurrences(s: Seq<Seq<char>>, x: Seq<char>) -> nat
    decreases s.len(),
{
    if s.len() == 0 {
        0
    } else {
        occurrences(s.drop_last(), x) + if s.last() == x {
            1nat
        } else {
            0nat
        }
    }
}

/// A value occurs at most as often as the sequence is long.
pub proof fn lemma_occurrences_bound(s: Seq<Seq<char>>, x: Seq<char>)
    ensures
        occurrences(s, x) <= s.len(),
    decreases s.len(),
{
    if s.len() > 0 {
        lemma_occurrences_bound(s.drop_last(), x);
    }
}

/// The stems already given an output in this run, and the paths given,
/// in order.
pub struct StemCounts {
    stems: Vec<Vec<char>>,
    paths: Vec<Vec<char>>,
}

impl View for StemCounts {
    type V = Seq<Seq<char>>;

    closed spec fn view(&self) -> Seq<Seq<char>> {
        views_of(self.stems@)
    }
}

impl StemCounts {
    /// The output paths given so far, in order.
    pub closed spec fn paths(&self) -> Seq<Seq<char>> {
        views_of(self.paths@)
    }

    /// No stem given an output yet.
    pub fn new() -> (r: StemCounts)
        ensures
            r@ == Seq::<Seq<char>>::empty(),
            r.paths() == Seq::<Seq<char>>::empty(),
    {
        let r = StemCounts { stems: Vec::new(), paths: Vec::new() };
        proof {
            assert(r@ =~= Seq::<Seq<char>>::empty());
            assert(r.paths() =~= Seq::<Seq<char>>::empty());
        }
        r
    }

    /// How many times `stem` has been given an output so far.
    pub fn count(&self, stem: &Vec<char>) -> (r: usize)
        ensures
            r == occurrences(self@, stem@),
    {
        let ghost all = self@;
        let mut n: usize = 0;
        let mut k: usize = 0;
        while k < self.stems.len()
            invariant
                k <= self.stems.len(),
                all == views_of(self.stems@),
                n == occurrences(all.take(k as int), stem@),
                n <= k,
            decreases self.stems.len() - k,
        {
            proof {
                assert(all.take(k + 1).drop_last() =~= all.take(k as int));
                assert(all.take(k + 1).last() == self.stems@[k as int]@);
            }
            if same_chars(&self.stems[k], stem) {
                n = n + 1;
            }
            k = k + 1;
        }
        proof {
            assert(all.take(self.stems.len() as int) =~= all);
        }
        n
    }

    /// Whether `path` has been given to a source already.
    pub fn is_taken(&self, path: &Vec<char>) -> (r: bool)
        ensures
            r == self.paths().contains(path@),
    {
        one_of(path, &self.paths)
    }

    fn record(&mut self, stem: Vec<char>, path: Vec<char>)
        ensures
            final(self)@ == old(self)@.push(stem@),
            final(self).paths() == old(self).paths().push(path@),
    {
        let ghost before = self@;
        let ghost before_paths = self.paths();
        self.stems.push(stem);
        self.paths.push(path);
        proof {
            assert(self@ =~= before.push(stem@));
            assert(self.paths() =~= before_paths.push(path@));
        }
    }
}

/// The stem of a source path (empty when it has no file name).
pub open spec fn source_stem(source: Seq<char>) -> Seq<char> {
    match file_stem(source) {
        Some(s) => s,
        None => Seq::empty(),
    }
}

/// The stem, numbered from the second time it is used: `x`, `x-2`, `x-3`...
pub open spec fn numbered_name(stem: Seq<char>, count: nat) -> Seq<char> {
    if count == 1 {
        stem
    } else {
        stem + seq!['-'] + decimal(count)
    }
}

/// `out_dir/<numbered stem>.<format extension>`.
pub open spec fn output_path_spec(
    out_dir: Seq<char>,
    stem: Seq<char>,
    count: nat,
    fmt: OutputFormat,
) -> Seq<char> {
    join(out_dir, numbered_name(stem, count) + seq!['.'] + format_extension(fmt))
}

/// `c` is the first number from `start` up whose path is not `taken`.
pub open spec fn first_free(
    taken: Seq<Seq<char>>,
    out_dir: Seq<char>,
    stem: Seq<char>,
    start: nat,
    fmt: OutputFormat,
    c: nat,
) -> bool {
    &&& start <= c
    &&& !taken.contains(output_path_spec(out_dir, stem, c, fmt))
    &&& forall|j: nat|
        start <= j < c ==> taken.contains(#[trigger] output_path_spec(out_dir, stem, j, fmt))
}

/// The paths of numbers `start`, `start + 1`, ..., `start + m - 1`.
spec fn path_run(out_dir: Seq<char>, stem: Seq<char>, fmt: OutputFormat, start: nat, m: nat) -> Set<
    Seq<char>,
>
    decreases m,
{
    if m == 0 {
        Set::empty()
    } else {
        path_run(out_dir, stem, fmt, start, (m - 1) as nat).insert(
            output_path_spec(out_dir, stem, (start + m - 1) as nat, fmt),
        )
    }
}

proof fn lemma_path_run(out_dir: Seq<char>, stem: Seq<char>, fmt: OutputFormat, start: nat, m: nat)
    requires
        1 <= start,
    ensures
        path_run(out_dir, stem, fmt, start, m).finite(),
        path_run(out_dir, stem, fmt, start, m).len() == m,
        forall|p: Seq<char>|
            #[trigger] path_run(out_dir, stem, fmt, start, m).contains(p) ==> exists|j: nat|
                start <= j < start + m && p == output_path_spec(out_dir, stem, j, fmt),
    decreases m,
{
    if m > 0 {
        let m1 = (m - 1) as nat;
        lemma_path_run(out_dir, stem, fmt, start, m1);
        let prev = path_run(out_dir, stem, fmt, start, m1);
        let p = output_path_spec(out_dir, stem, (start + m1) as nat, fmt);
        if prev.contains(p) {
            let j = choose|j: nat| start <= j < start + m1 && p == output_path_spec(out_dir, stem, j, fmt);
            lemma_output_paths_differ(out_dir, stem, j, (start + m1) as nat, fmt);
        }
        assert forall|q: Seq<char>|
            #[trigger] path_run(out_dir, stem, fmt, start, m).contains(q) implies exists|j: nat|
                start <= j < start + m && q == output_path_spec(out_dir, stem, j, fmt) by {
            if q != p {
                assert(prev.contains(q));
                let j = choose|j: nat| start <= j < start + m1 && q == output_path_spec(out_dir, stem, j, fmt);
                assert(start <= j < start + m);
            } else {
                assert(start <= start + m1 < start + m);
            }
        }
    }
}

/// A run of taken numbered paths is no longer than the list of taken paths.
proof fn lemma_taken_run(
    taken: Seq<Seq<char>>,
    out_dir: Seq<char>,
    stem: Seq<char>,
    fmt: OutputFormat,
    start: nat,
    m: nat,
)
    requires
        1 <= start,
        forall|j: nat|
            start <= j < start + m ==> taken.contains(#[trigger] output_path_spec(out_dir, stem, j, fmt)),
    ensures
        m <= taken.len(),
{
    lemma_path_run(out_dir, stem, fmt, start, m);
    let run = path_run(out_dir, stem, fmt, start, m);
    assert forall|p: Seq<char>| run.contains(p) implies taken.to_set().contains(p) by {
        let j = choose|j: nat| start <= j < start + m && p == output_path_spec(out_dir, stem, j, fmt);
        assert(taken.contains(output_path_spec(out_dir, stem, j, fmt)));
    }
    taken.lemma_cardinality_of_set();
    vstd::set_lib::lemma_len_subset(run, taken.to_set());
}

/// No path occurs twice.
pub open spec fn pairwise_distinct(s: Seq<Seq<char>>) -> bool {
    forall|i: int, j: int| 0 <= i < j < s.len() ==> #[trigger] s[i] != #[trigger] s[j]
}

/// Law: adding a path that is not in a list of distinct paths keeps them
/// distinct; so the paths `next_output_path` gives in a run never repeat.
pub proof fn lemma_fresh_path_keeps_distinct(s: Seq<Seq<char>>, p: Seq<char>)
    requires
        pairwise_distinct(s),
        !s.contains(p),
    ensures
        pairwise_distinct(s.push(p)),
{
    assert forall|i: int, j: int| 0 <= i < j < s.push(p).len() implies #[trigger] s.push(p)[i]
        != #[trigger] s.push(p)[j] by {
        if j == s.len() {
            assert(s.push(p)[i] == s[i]);
        } else {
            assert(s.push(p)[i] == s[i] && s.push(p)[j] == s[j]);
        }
    }
}

/// `out_dir/<stem numbered k>.<extension>`.
fn candidate_path(out_dir: &Vec<char>, stem: &Vec<char>, k: u128, fmt: OutputFormat) -> (r: Vec<char>)
    requires
        k >= 1,
    ensures
        r@ == output_path_spec(out_dir@, stem@, k as nat, fmt),
{
    let mut name = crate::text::sub_chars(stem, 0, stem.len());
    if k != 1 {
        name.push('-');
        let mut d = decimal_chars(k);
        name.append(&mut d);
    }
    name.push('.');
    let mut ext = chars_of(fmt.extension());
    name.append(&mut ext);
    proof {
        assert(stem@.subrange(0, stem@.len() as int) =~= stem@);
        assert(name@ =~= numbered_name(stem@, k as nat) + seq!['.'] + format_extension(fmt));
    }
    join_path(out_dir, &name)
}

/// Assign a unique-in-run output path for `source`'s stem.
///
/// Numbering is driven purely by how many times this stem has already been
/// assigned in this run, never by filesystem existence: the `k`-th use of
/// a stem is numbered `k`, or the next number whose path no earlier source
/// was given.
pub fn next_output_path(
    source: &str,
    out_dir: &str,
    fmt: OutputFormat,
    seen: &mut StemCounts,
) -> (r: String)
    ensures
        final(seen)@ == old(seen)@.push(source_stem(source@)),
        final(seen).paths() == old(seen).paths().push(r@),
        !old(seen).paths().contains(r@),
        exists|c: nat|
            first_free(
                old(seen).paths(),
                out_dir@,
                source_stem(source@),
                occurrences(old(seen)@, source_stem(source@)) + 1,
                fmt,
                c,
            ) && r@ == output_path_spec(out_dir@, source_stem(source@), c, fmt),
{
    let stem = match file_stem_of(&chars_of(source)) {
        Some(s) => s,
        None => Vec::new(),
    };
    let dir = chars_of(out_dir);
    let occ = seen.count(&stem);
    let ghost taken = seen.paths();
    let n_exec = seen.paths.len();
    let ghost n = n_exec as int;
    let start: u128 = occ as u128 + 1;
    let mut k: u128 = start;
    let mut path = candidate_path(&dir, &stem, k, fmt);
    while seen.is_taken(&path)
        invariant
            start == occ + 1,
            start <= k,
            k - start <= n,
            n == seen.paths@.len(),
            0 <= n <= usize::MAX,
            taken == seen.paths(),
            occ == occurrences(seen@, stem@),
            path@ == output_path_spec(dir@, stem@, k as nat, fmt),
            forall|j: nat|
                start <= j < k ==> taken.contains(#[trigger] output_path_spec(dir@, stem@, j, fmt)),
        decreases n - (k - start),
    {
        proof {
            assert forall|j: nat| start <= j < start + (k + 1 - start) implies taken.contains(
                #[trigger] output_path_spec(dir@, stem@, j, fmt),
            ) by {
                if j == k {
                } else {
                    assert(j < k);
                }
            }
            lemma_taken_run(taken, dir@, stem@, fmt, start as nat, (k + 1 - start) as nat);
            assert(taken.len() == n);
        }
        k = k + 1;
        path = candidate_path(&dir, &stem, k, fmt);
    }
    proof {
        assert(stem@ == source_stem(source@));
        assert(first_free(taken, out_dir@, stem@, start as nat, fmt, k as nat));
    }
    let r = string_from_chars(&path);
    seen.record(stem, path);
    proof {
        assert(first_free(
            old(seen).paths(),
            out_dir@,
            source_stem(source@),
            occurrences(old(seen)@, source_stem(source@)) + 1,
            fmt,
            k as nat,
        ) && r@ == output_path_spec(out_dir@, source_stem(source@), k as nat, fmt));
    }
    r
}

/// Whether a source is transcribed: always with `--force`, else only when
/// its output does not exist yet.
pub open spec fn should_transcribe_spec(output_exists: bool, force: bool) -> bool {
    !output_exists || force
}

/// Law: a source whose output does not exist yet is always transcribed,
/// `--force` always transcribes, and only an existing output without
/// `--force` is skipped.
pub proof fn lemma_skip_only_existing_output(output_exists: bool, force: bool)
    ensures
        !output_exists ==> should_transcribe_spec(output_exists, force),
        force ==> should_transcribe_spec(output_exists, force),
        output_exists && !force ==> !should_transcribe_spec(output_exists, force),
{
}

/// The skip-or-transcribe decision for one source.
pub fn should_transcribe(output_exists: bool, force: bool) -> (r: bool)
    ensures
        r == should_transcribe_spec(output_exists, force),
        !output_exists ==> r,
        force ==> r,
        output_exists && !force ==> !r,
{
    !output_exists || force
}

/// Counts of a batch run.
#[derive(Debug, Clone, Copy, PartialEq, Eq, Structural)]
pub struct BatchStats {
    pub total: usize,
    pub done: usize,
    pub skipped: usize,
    pub failed: usize,
}

/// What became of one source.
#[derive(Debug, Clone, Copy, PartialEq, Eq, Structural)]
pub enum FileOutcome {
    Done,
    Skipped,
    Failed,
}

impl BatchStats {
    /// Files processed so far.
    pub open spec fn processed(self) -> int {
        self.done + self.skipped + self.failed
    }

    /// A run of `total` files, none processed yet.
    pub fn new(total: usize) -> (r: BatchStats)
        ensures
            r == (BatchStats { total, done: 0, skipped: 0, failed: 0 }),
    {
        BatchStats { total, done: 0, skipped: 0, failed: 0 }
    }

    /// Count one more processed file.
    pub fn record(&mut self, outcome: FileOutcome)
        requires
            outcome == FileOutcome::Done ==> old(self).done < usize::MAX,
            outcome == FileOutcome::Skipped ==> old(self).skipped < usize::MAX,
            outcome == FileOutcome::Failed ==> old(self).failed < usize::MAX,
        ensures
            final(self).total == old(self).total,
            final(self).processed() == old(self).processed() + 1,
            final(self).done == old(self).done + (if outcome == FileOutcome::Done { 1int } else { 0int }),
            final(self).skipped == old(self).skipped + (if outcome == FileOutcome::Skipped { 1int } else { 0int }),
            final(self).failed == old(self).failed + (if outcome == FileOutcome::Failed { 1int } else { 0int }),
    {
        match outcome {
            FileOutcome::Done => self.done = self.done + 1,
            FileOutcome::Skipped => self.skipped = self.skipped + 1,
            FileOutcome::Failed => self.failed = self.failed + 1,
        }
    }

    /// The process exit code of a finished run: 1 if any file failed, else
    /// 0; skips are not failures.
    pub fn exit_code(&self) -> (r: i32)
        ensures
            r == (if self.failed > 0 { 1i32 } else { 0i32 }),
    {
        if self.failed > 0 {
            1
        } else {
            0
        }
    }
}

/// The tally of a run whose sources had these outcomes.
pub open spec fn tally(outcomes: Seq<FileOutcome>, total: nat) -> BatchStats
    decreases outcomes.len(),
{
    if outcomes.len() == 0 {
        BatchStats { total: total as usize, done: 0, skipped: 0, failed: 0 }
    } else {
        let t = tally(outcomes.drop_last(), total);
        match outcomes.last() {
            FileOutcome::Done => BatchStats { done: (t.done + 1) as usize, ..t },
            FileOutcome::Skipped => BatchStats { skipped: (t.skipped + 1) as usize, ..t },
            FileOutcome::Failed => BatchStats { failed: (t.failed + 1) as usize, ..t },
        }
    }
}

/// Law: recording one outcome per source, starting from `new(total)`,
/// accounts for every source exactly once: done, skipped and failed add up
/// to the total, and the exit code is 1 exactly when one failed.
pub proof fn lemma_tally_accounts_for_all(outcomes: Seq<FileOutcome>)
    requires
        outcomes.len() <= usize::MAX,
    ensures
        tally(outcomes, outcomes.len()).processed() == outcomes.len(),
        tally(outcomes, outcomes.len()).total == outcomes.len(),
        (tally(outcomes, outcomes.len()).failed > 0) <==> outcomes.contains(FileOutcome::Failed),
{
    lemma_tally_counts(outcomes, outcomes.len());
}

proof fn lemma_tally_counts(outcomes: Seq<FileOutcome>, total: nat)
    requires
        outcomes.len() <= total <= usize::MAX,
    ensures
        tally(outcomes, total).processed() == outcomes.len(),
        tally(outcomes, total).total == total,
        (tally(outcomes, total).failed > 0) <==> outcomes.contains(FileOutcome::Failed),
        tally(outcomes, total).done <= outcomes.len(),
        tally(outcomes, total).skipped <= outcomes.len(),
        tally(outcomes, total).failed <= outcomes.len(),
    decreases outcomes.len(),
{
    if outcomes.len() > 0 {
        let p = outcomes.drop_last();
        lemma_tally_counts(p, total);
        if p.contains(FileOutcome::Failed) {
            let k = choose|k: int| 0 <= k < p.len() && p[k] == FileOutcome::Failed;
            assert(outcomes[k] == FileOutcome::Failed);
        }
        if outcomes.contains(FileOutcome::Failed) && outcomes.last() != FileOutcome::Failed {
            let k = choose|k: int| 0 <= k < outcomes.len() && outcomes[k] == FileOutcome::Failed;
            assert(p[k] == FileOutcome::Failed);
        }
        if outcomes.last() == FileOutcome::Failed {
            assert(outcomes[outcomes.len() - 1] == FileOutcome::Failed);
        }
    }
}

/// The batch-mode exit code when an input path is missing.
pub fn missing_input_exit_code() -> (r: i32)
    ensures
        r == 2,
{
    2
}

/// A batch run between files: the outcomes so far, their tally, and the
/// stems already given an output.
pub struct BatchRun {
    stats: BatchStats,
    seen: StemCounts,
    outcomes: Ghost<Seq<FileOutcome>>,
}

impl BatchRun {
    #[verifier::type_invariant]
    spec fn tallied(self) -> bool {
        &&& self.outcomes@.len() <= self.stats.total
        &&& self.stats == tally(self.outcomes@, self.stats.total as nat)
        &&& pairwise_distinct(self.seen.paths())
    }

    /// The outcomes recorded so far, in order.
    pub closed spec fn outcomes(self) -> Seq<FileOutcome> {
        self.outcomes@
    }

    /// The number of files of the run.
    pub closed spec fn total(self) -> nat {
        self.stats.total as nat
    }

    /// The stems given an output so far, in order.
    pub closed spec fn assigned(self) -> Seq<Seq<char>> {
        self.seen@
    }

    /// The output paths given so far, in order.
    pub closed spec fn paths(self) -> Seq<Seq<char>> {
        self.seen.paths()
    }

    /// A run over `total` files, nothing done yet.
    pub fn new(total: usize) -> (r: BatchRun)
        ensures
            r.total() == total,
            r.outcomes() == Seq::<FileOutcome>::empty(),
            r.assigned() == Seq::<Seq<char>>::empty(),
            r.paths() == Seq::<Seq<char>>::empty(),
    {
        BatchRun { stats: BatchStats::new(total), seen: StemCounts::new(), outcomes: Ghost(Seq::empty()) }
    }

    /// The output path of the next source (see `next_output_path`).
    pub fn output_path(&mut self, source: &str, out_dir: &str, fmt: OutputFormat) -> (r: String)
        ensures
            final(self).total() == old(self).total(),
            final(self).outcomes() == old(self).outcomes(),
            final(self).assigned() == old(self).assigned().push(source_stem(source@)),
            final(self).paths() == old(self).paths().push(r@),
            !old(self).paths().contains(r@),
            pairwise_distinct(final(self).paths()),
            exists|c: nat|
                first_free(
                    old(self).paths(),
                    out_dir@,
                    source_stem(source@),
                    occurrences(old(self).assigned(), source_stem(source@)) + 1,
                    fmt,
                    c,
                ) && r@ == output_path_spec(out_dir@, source_stem(source@), c, fmt),
    {
        proof {
            use_type_invariant(&*self);
        }
        let mut seen = StemCounts::new();
        std::mem::swap(&mut seen, &mut self.seen);
        let ghost before = seen.paths();
        let r = next_output_path(source, out_dir, fmt, &mut seen);
        proof {
            lemma_fresh_path_keeps_distinct(before, r@);
        }
        std::mem::swap(&mut seen, &mut self.seen);
        r
    }

    /// Record what became of the next source.
    pub fn record(&mut self, outcome: FileOutcome)
        requires
            old(self).outcomes().len() < old(self).total(),
        ensures
            final(self).total() == old(self).total(),
            final(self).outcomes() == old(self).outcomes().push(outcome),
            final(self).assigned() == old(self).assigned(),
            final(self).paths() == old(self).paths(),
    {
        proof {
            use_type_invariant(&*self);
        }
        let ghost before = self.outcomes@;
        let mut stats = self.stats;
        proof {
            lemma_tally_counts(before, stats.total as nat);
        }
        stats.record(outcome);
        proof {
            let after = before.push(outcome);
            assert(after.drop_last() =~= before);
        }
        let mut seen = StemCounts::new();
        std::mem::swap(&mut seen, &mut self.seen);
        *self = BatchRun { stats, seen, outcomes: Ghost(before.push(outcome)) };
    }

    /// The tally of the outcomes recorded so far.
    pub fn stats(&self) -> (r: BatchStats)
        ensures
            r == tally(self.outcomes(), self.total()),
    {
        proof {
            use_type_invariant(self);
        }
        self.stats
    }
}

proof fn lemma_decimal_shape(n: nat)
    ensures
        decimal(n).len() >= 1,
        n < 10 <==> decimal(n).len() == 1,
        decimal(n).last() == digit_char((n % 10) as int),
    decreases n,
{
    if n >= 10 {
        lemma_decimal_shape(n / 10);
    }
}

proof fn lemma_decimal_injective(a: nat, b: nat)
    requires
        decimal(a) == decimal(b),
    ensures
        a == b,
    decreases a,
{
    lemma_decimal_shape(a);
    lemma_decimal_shape(b);
    let da = (a % 10) as int;
    let db = (b % 10) as int;
    assert(digit_char(da) as int == 48 + da);
    assert(digit_char(db) as int == 48 + db);
    assert(da == db);
    if a >= 10 {
        assert(decimal(a / 10) =~= decimal(a).drop_last());
        assert(decimal(b / 10) =~= decimal(b).drop_last());
        lemma_decimal_injective(a / 10, b / 10);
    }
}

/// Law: within a run the outputs of one stem never collide: its k-th use
/// and its j-th use (k != j) get different paths.
pub proof fn lemma_output_paths_differ(out_dir: Seq<char>, stem: Seq<char>, a: nat, b: nat, fmt: OutputFormat)
    requires
        1 <= a,
        1 <= b,
        a != b,
    ensures
        output_path_spec(out_dir, stem, a, fmt) != output_path_spec(out_dir, stem, b, fmt),
{
    let ext = seq!['.'] + format_extension(fmt);
    let na = numbered_name(stem, a) + seq!['.'] + format_extension(fmt);
    let nb = numbered_name(stem, b) + seq!['.'] + format_extension(fmt);
    lemma_decimal_shape(a);
    lemma_decimal_shape(b);
    if a != 1 && b != 1 {
        if numbered_name(stem, a) == numbered_name(stem, b) {
            let k: int = stem.len() as int + 1;
            assert(decimal(a) =~= numbered_name(stem, a).subrange(k, numbered_name(stem, a).len() as int));
            assert(decimal(b) =~= numbered_name(stem, b).subrange(k, numbered_name(stem, b).len() as int));
            lemma_decimal_injective(a, b);
        }
    }
    assert(numbered_name(stem, a) != numbered_name(stem, b));
    assert(na != nb) by {
        if na == nb {
            assert(numbered_name(stem, a) =~= na.subrange(0, na.len() - ext.len()));
            assert(numbered_name(stem, b) =~= nb.subrange(0, nb.len() - ext.len()));
        }
    }
    let ja = join(out_dir, na);
    let jb = join(out_dir, nb);
    assert(na.len() > 0 && nb.len() > 0);
    assert((na[0] == '/') == (nb[0] == '/')) by {
        if stem.len() > 0 {
            assert(na[0] == stem[0] && nb[0] == stem[0]);
        } else {
            assert(na[0] == '.' || na[0] == '-');
            assert(nb[0] == '.' || nb[0] == '-');
        }
    }
    let pre = if na[0] == '/' {
        Seq::<char>::empty()
    } else if out_dir.len() > 0 && out_dir.last() != '/' {
        out_dir + seq!['/']
    } else {
        out_dir
    };
    assert(ja =~= pre + na);
    assert(jb =~= pre + nb);
    if ja == jb {
        assert(na =~= ja.subrange(pre.len() as int, ja.len() as int));
        assert(nb =~= jb.subrange(pre.len() as int, jb.len() as int));
    }
}

} // verus!
