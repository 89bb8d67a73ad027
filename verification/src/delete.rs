//! Moving culled shots to the OS trash: which files go, in what order, and what is reported of it.
use crate::catalog::{all_files, Shot, ShotView};
use crate::order::texts;
use vstd::prelude::*;
use vstd::string::*;

verus! {

pub struct Report {
    pub shots: usize,
    pub files: usize,
    pub failures: Vec<(String, String)>,
}

/// A report as numbers and texts.
#[verifier::ext_equal]
pub struct ReportView {
    pub shots: nat,
    pub files: nat,
    pub failures: Seq<(Seq<char>, Seq<char>)>,
}

/// What came of one file: nothing to say, or an error.
pub type Outcome = Option<Seq<char>>;

/// Pairs of texts.
pub open spec fn text_pairs(v: Seq<(String, String)>) -> Seq<(Seq<char>, Seq<char>)> {
    v.map_values(|p: (String, String)| (p.0@, p.1@))
}

impl View for Report {
    type V = ReportView;

    open spec fn view(&self) -> ReportView {
        ReportView {
            shots: self.shots as nat,
            files: self.files as nat,
            failures: text_pairs(self.failures@),
        }
    }
}

/// The shots as texts.
pub open spec fn views(shots: Seq<&Shot>) -> Seq<ShotView> {
    shots.map_values(|s: &Shot| s@)
}

/// How many files the shots have.
pub open spec fn total_files(shots: Seq<ShotView>) -> nat
    decreases shots.len(),
{
    if shots.len() == 0 {
        0
    } else {
        total_files(shots.drop_last()) + shots.last().files().len()
    }
}

/// How many of the outcomes are successes.
pub open spec fn done_files(outcomes: Seq<Outcome>) -> nat
    decreases outcomes.len(),
{
    if outcomes.len() == 0 {
        0
    } else {
        done_files(outcomes.drop_last()) + (if outcomes.last() is None {
            1nat
        } else {
            0
        })
    }
}

/// The files that failed, with their errors, in order.
pub open spec fn failed_files(files: Seq<Seq<char>>, outcomes: Seq<Outcome>) -> Seq<
    (Seq<char>, Seq<char>),
>
    decreases outcomes.len(),
{
    if outcomes.len() == 0 {
        Seq::empty()
    } else {
        let before = failed_files(files, outcomes.drop_last());
        match outcomes.last() {
            Some(e) => before.push((files[outcomes.len() - 1], e)),
            None => before,
        }
    }
}

/// Whether all files of a shot went.
pub open spec fn all_done(outcomes: Seq<Outcome>) -> bool {
    forall|k: int| 0 <= k < outcomes.len() ==> (#[trigger] outcomes[k]) is None
}

/// What is reported of `shots` when `outcomes[i][k]` came of the `k`-th file of the `i`-th shot.
pub open spec fn report_of(shots: Seq<ShotView>, outcomes: Seq<Seq<Outcome>>) -> ReportView
    decreases outcomes.len(),
{
    if outcomes.len() == 0 {
        ReportView { shots: 0, files: 0, failures: Seq::empty() }
    } else {
        let before = report_of(shots, outcomes.drop_last());
        let last = outcomes.last();
        ReportView {
            shots: before.shots + (if all_done(last) {
                1nat
            } else {
                0
            }),
            files: before.files + done_files(last),
            failures: before.failures + failed_files(shots[outcomes.len() - 1].files(), last),
        }
    }
}

impl ReportView {
    /// The report with no more files than can be counted.
    pub open spec fn counted(self) -> ReportView {
        ReportView {
            files: if self.files > usize::MAX {
                usize::MAX as nat
            } else {
                self.files
            },
            ..self
        }
    }
}

/// There is an outcome for every file.
pub open spec fn covers(shots: Seq<ShotView>, outcomes: Seq<Seq<Outcome>>) -> bool {
    &&& outcomes.len() == shots.len()
    &&& forall|i: int|
        0 <= i < shots.len() ==> (#[trigger] outcomes[i]).len() == shots[i].files().len()
}

/// The outcome that a result stands for.
pub open spec fn outcome_of(r: Result<(), String>) -> Outcome {
    match r {
        Ok(_) => None,
        Err(e) => Some(e@),
    }
}

/// `op` may answer `outcome` for `file`.
pub open spec fn answers<F: Fn(&str) -> Result<(), String>>(
    op: F,
    file: Seq<char>,
    outcome: Outcome,
) -> bool {
    exists|f: &str, r: Result<(), String>|
        f@ == file && outcome_of(r) == outcome && #[trigger] call_ensures(op, (f,), r)
}

/// Every outcome is an answer of `op` for its file.
pub open spec fn all_answers<F: Fn(&str) -> Result<(), String>>(
    op: F,
    files: Seq<Seq<char>>,
    outcomes: Seq<Outcome>,
) -> bool {
    forall|k: int| 0 <= k < outcomes.len() ==> answers(op, files[k], #[trigger] outcomes[k])
}

/// Whether `file` is one of the files of the shots.
pub open spec fn among_files(shots: Seq<ShotView>, file: Seq<char>) -> bool {
    exists|i: int| 0 <= i < shots.len() && (#[trigger] shots[i]).files().contains(file)
}

/// A sweep over the files of shots: what came of the shots that are dealt with, and of the files so
/// far of the one that is not.
pub struct SweepView {
    pub shots: Seq<ShotView>,
    pub outcomes: Seq<Seq<Outcome>>,
    pub current: Seq<Outcome>,
}

impl SweepView {
    /// A sweep before the first file.
    pub open spec fn start(shots: Seq<ShotView>) -> SweepView {
        SweepView { shots, outcomes: Seq::empty(), current: Seq::empty() }
    }

    /// The files of the shot that is being dealt with.
    pub open spec fn files(self) -> Seq<Seq<char>> {
        self.shots[self.outcomes.len() as int].files()
    }

    /// Every shot that is dealt with has an outcome for each of its files, and the one that is being
    /// dealt with has a file left.
    pub open spec fn valid(self) -> bool {
        &&& self.outcomes.len() <= self.shots.len()
        &&& forall|i: int|
            0 <= i < self.outcomes.len() ==> (#[trigger] self.outcomes[i]).len()
                == self.shots[i].files().len()
        &&& if self.outcomes.len() < self.shots.len() {
            self.current.len() < self.files().len()
        } else {
            self.current.len() == 0
        }
    }

    /// The file to try next.
    pub open spec fn next(self) -> Option<Seq<char>> {
        if self.outcomes.len() < self.shots.len() {
            Some(self.files()[self.current.len() as int])
        } else {
            None
        }
    }

    /// The sweep after the next file was tried.
    pub open spec fn recorded(self, outcome: Outcome) -> SweepView {
        let now = self.current.push(outcome);
        if now.len() == self.files().len() {
            SweepView { outcomes: self.outcomes.push(now), current: Seq::empty(), ..self }
        } else {
            SweepView { current: now, ..self }
        }
    }

    /// The sweep after as many files were tried as there are `answers`.
    pub open spec fn after(self, answers: Seq<Outcome>) -> SweepView
        decreases answers.len(),
    {
        if answers.len() == 0 {
            self
        } else {
            self.after(answers.drop_last()).recorded(answers.last())
        }
    }

    /// What is reported so far.
    pub open spec fn report(self) -> ReportView {
        let before = report_of(self.shots, self.outcomes);
        ReportView {
            shots: before.shots,
            files: before.files + done_files(self.current),
            failures: before.failures + failed_files(self.files(), self.current),
        }
    }
}

impl Default for Report {
    fn default() -> (r: Report)
        ensures
            r@ == (ReportView { shots: 0, files: 0, failures: Seq::empty() }),
    {
        let r = Report { shots: 0, files: 0, failures: Vec::new() };
        assert(r@.failures =~= Seq::empty());
        r
    }
}

/// A sweep over the files of shots, one file after another.
pub struct Sweep<'a> {
    pub shots: &'a [&'a Shot],
    /// The place of the shot that is being dealt with, and its files.
    pub at: usize,
    pub files: Vec<String>,
    /// How many of its files were tried, and whether all of them went.
    pub tried: usize,
    pub clean: bool,
    pub report: Report,
    pub outcomes: Ghost<Seq<Seq<Outcome>>>,
    pub current: Ghost<Seq<Outcome>>,
}

impl View for Sweep<'_> {
    type V = SweepView;

    open spec fn view(&self) -> SweepView {
        SweepView {
            shots: views(self.shots@),
            outcomes: self.outcomes@,
            current: self.current@,
        }
    }
}

impl<'a> Sweep<'a> {
    /// The counters tell what came of the files.
    pub open spec fn wf(&self) -> bool {
        &&& self@.valid()
        &&& self.at == self.outcomes@.len()
        &&& self.tried == self.current@.len()
        &&& self.clean == all_done(self.current@)
        &&& self.at < self.shots@.len() ==> texts(self.files@) == self@.files()
        &&& self.report@ == self@.report().counted()
        &&& self.report.shots <= self.at
    }

    /// A sweep over the files of `shots`, before the first.
    pub fn new(shots: &'a [&'a Shot]) -> (r: Sweep<'a>)
        ensures
            r@ == SweepView::start(views(shots@)),
            r.wf(),
    {
        let files = if shots.len() > 0 {
            shots[0].files()
        } else {
            Vec::new()
        };
        let report = Report::default();
        let r = Sweep {
            shots,
            at: 0,
            files,
            tried: 0,
            clean: true,
            report,
            outcomes: Ghost(Seq::empty()),
            current: Ghost(Seq::empty()),
        };
        assert(r.report@.failures =~= r@.report().failures);
        r
    }

    /// The file to try next. None when all were tried.
    pub fn next(&self) -> (r: Option<&str>)
        requires
            self.wf(),
        ensures
            match r {
                Some(f) => self@.next() == Some(f@),
                None => self@.next() is None,
            },
    {
        if self.at < self.shots.len() {
            assert(texts(self.files@)[self.tried as int] == self.files@[self.tried as int]@);
            assert(texts(self.files@).len() == self.files@.len());
            Some(self.files[self.tried].as_str())
        } else {
            None
        }
    }

    /// Notes what came of the next file. A shot counts as done only if all its files were.
    pub fn record(&mut self, result: Result<(), String>)
        requires
            old(self).wf(),
            old(self)@.next() is Some,
        ensures
            final(self)@ == old(self)@.recorded(outcome_of(result)),
            final(self).wf(),
    {
        let ghost before = self@;
        let ghost names = self@.files();
        let ghost now = self.current@.push(outcome_of(result));
        let n: usize = self.files.len();
        let m: usize = self.shots.len();
        proof {
            assert(texts(self.files@)[self.tried as int] == self.files@[self.tried as int]@);
            assert(texts(self.files@).len() == self.files@.len());
            assert(now.drop_last() =~= before.current);
            lemma_all_done_push(before.current, outcome_of(result));
        }
        match result {
            Ok(()) => {
                if self.report.files < usize::MAX {
                    self.report.files += 1;
                }
            },
            Err(e) => {
                self.clean = false;
                let ghost listed = self.report@.failures;
                let failure = (self.files[self.tried].clone(), e);
                self.report.failures.push(failure);
                assert(text_pairs(self.report.failures@) =~= listed.push(
                    (names[self.tried as int], e@),
                ));
            },
        }
        assert(self.report@.failures =~= report_of(before.shots, before.outcomes).failures
            + failed_files(names, now));
        self.tried += 1;
        if self.tried < n {
            self.current = Ghost(now);
            return;
        }
        if self.clean {
            self.report.shots += 1;
        }
        self.at += 1;
        self.tried = 0;
        self.clean = true;
        self.outcomes = Ghost(before.outcomes.push(now));
        self.current = Ghost(Seq::empty());
        if self.at < m {
            self.files = self.shots[self.at].files();
        }
        proof {
            assert(self.outcomes@.drop_last() =~= before.outcomes);
            assert(self.report@.failures =~= self@.report().failures);
        }
    }

    /// What is reported of the files that were tried.
    pub fn finish(self) -> (r: Report)
        requires
            self.wf(),
        ensures
            r@ == self@.report().counted(),
    {
        self.report
    }
}

proof fn lemma_all_done_push(outcomes: Seq<Outcome>, last: Outcome)
    ensures
        all_done(outcomes.push(last)) == (all_done(outcomes) && last is None),
{
    let now = outcomes.push(last);
    if all_done(now) {
        assert forall|j: int| 0 <= j < outcomes.len() implies (#[trigger] outcomes[j]) is None by {
            assert(now[j] is None);
        }
        assert(now[outcomes.len() as int] is None);
    }
}

impl Report {
    /// Run `op` on every file of every shot; a shot counts as done only if all its files were. `op`
    /// is asked for no other file.
    pub fn run<F: Fn(&str) -> Result<(), String>>(shots: &[&Shot], op: F) -> (r: Report)
        requires
            forall|f: &str|
                among_files(views(shots@), f@) ==> #[trigger] call_requires(op, (f,)),
        ensures
            exists|outcomes: Seq<Seq<Outcome>>|
                {
                    &&& covers(views(shots@), outcomes)
                    &&& forall|i: int|
                        0 <= i < shots@.len() ==> all_answers(
                            op,
                            views(shots@)[i].files(),
                            #[trigger] outcomes[i],
                        )
                    &&& r@ == (#[trigger] report_of(views(shots@), outcomes)).counted()
                },
    {
        let ghost all = views(shots@);
        let mut sweep = Sweep::new(shots);
        while sweep.at < shots.len()
            invariant
                sweep.wf(),
                sweep@.shots == all,
                all == views(shots@),
                all.len() == shots@.len(),
                forall|f: &str| among_files(all, f@) ==> #[trigger] call_requires(op, (f,)),
                forall|j: int|
                    0 <= j < sweep@.outcomes.len() ==> all_answers(
                        op,
                        all[j].files(),
                        #[trigger] sweep@.outcomes[j],
                    ),
                all_answers(op, sweep@.files(), sweep@.current),
            decreases total_files(all) - swept(sweep@),
        {
            let ghost before = sweep@;
            let result = match sweep.next() {
                Some(file) => {
                    assert(all[before.outcomes.len() as int].files().contains(file@));
                    assert(among_files(all, file@));
                    op(file)
                },
                None => Ok(()),
            };
            proof {
                lemma_swept(before, outcome_of(result));
                let now = before.current.push(outcome_of(result));
                assert(answers(op, before.files()[before.current.len() as int], outcome_of(result)));
                assert forall|j: int| 0 <= j < now.len() implies answers(
                    op,
                    before.files()[j],
                    #[trigger] now[j],
                ) by {
                    if j < before.current.len() {
                        assert(now[j] == before.current[j]);
                    }
                }
            }
            sweep.record(result);
        }
        assert(sweep@.report().failures =~= report_of(all, sweep@.outcomes).failures);
        assert(covers(all, sweep@.outcomes));
        sweep.finish()
    }
}

/// Moves every file of the shots to the trash with `delete`; a shot counts as done only if all its
/// files were. `delete` is asked for no other file.
pub fn trash_shots<F: Fn(&str) -> Result<(), String>>(shots: &[&Shot], delete: F) -> (r: Report)
    requires
        forall|f: &str| among_files(views(shots@), f@) ==> #[trigger] call_requires(delete, (f,)),
    ensures
        exists|outcomes: Seq<Seq<Outcome>>|
            {
                &&& covers(views(shots@), outcomes)
                &&& forall|i: int|
                    0 <= i < shots@.len() ==> all_answers(
                        delete,
                        views(shots@)[i].files(),
                        #[trigger] outcomes[i],
                    )
                &&& r@ == (#[trigger] report_of(views(shots@), outcomes)).counted()
            },
{
    Report::run(shots, delete)
}

/// How many files a sweep has tried.
pub open spec fn swept(s: SweepView) -> nat {
    total_files(s.shots.take(s.outcomes.len() as int)) + s.current.len()
}

/// Trying a file keeps a sweep valid, and counts one more.
proof fn lemma_swept(s: SweepView, outcome: Outcome)
    requires
        s.valid(),
        s.next() is Some,
    ensures
        s.recorded(outcome).valid(),
        s.recorded(outcome).shots == s.shots,
        swept(s.recorded(outcome)) == swept(s) + 1,
        swept(s) < total_files(s.shots),
{
    let n = s.outcomes.len() as int;
    assert(s.shots.take(n + 1).drop_last() =~= s.shots.take(n));
    assert(s.shots.take(n + 1).last() == s.shots[n]);
    lemma_files_at(s.shots, n, s.current.len() as int);
}

/// The files of a shot stand among all files, behind those of the shots before it.
proof fn lemma_files_at(shots: Seq<ShotView>, i: int, k: int)
    requires
        0 <= i < shots.len(),
        0 <= k < shots[i].files().len(),
    ensures
        all_files(shots).len() == total_files(shots),
        total_files(shots.take(i)) + k < total_files(shots),
        all_files(shots)[total_files(shots.take(i)) + k] == shots[i].files()[k],
    decreases shots.len(),
{
    let rest = shots.drop_last();
    lemma_files_counted(shots);
    lemma_files_counted(rest);
    if i == shots.len() - 1 {
        assert(shots.take(i) =~= rest);
    } else {
        lemma_files_at(rest, i, k);
        assert(rest.take(i) =~= shots.take(i));
    }
}

proof fn lemma_files_counted(shots: Seq<ShotView>)
    ensures
        all_files(shots).len() == total_files(shots),
    decreases shots.len(),
{
    if shots.len() > 0 {
        lemma_files_counted(shots.drop_last());
    }
}

/// Every file of the shots is tried once, in order, and no other: after as many tries as there are
/// `answers`, the file to try next is the one behind those, whatever came of them. When all were
/// tried there is none, and the report tells of every file.
pub proof fn law_each_file_once_in_order(shots: Seq<ShotView>, answers: Seq<Outcome>)
    requires
        answers.len() <= total_files(shots),
    ensures
        ({
            let s = SweepView::start(shots).after(answers);
            &&& s.valid()
            &&& s.shots == shots
            &&& answers.len() < total_files(shots) ==> s.next() == Some(
                all_files(shots)[answers.len() as int],
            )
            &&& answers.len() == total_files(shots) ==> {
                &&& s.next() is None
                &&& covers(shots, s.outcomes)
                &&& s.report() == report_of(shots, s.outcomes)
            }
        }),
{
    lemma_after(shots, answers);
    let s = SweepView::start(shots).after(answers);
    let n = s.outcomes.len() as int;
    if n < shots.len() {
        lemma_files_at(shots, n, s.current.len() as int);
    } else {
        assert(shots.take(n) =~= shots);
        assert(s.report().failures =~= report_of(shots, s.outcomes).failures);
    }
}

proof fn lemma_after(shots: Seq<ShotView>, answers: Seq<Outcome>)
    requires
        answers.len() <= total_files(shots),
    ensures
        SweepView::start(shots).after(answers).valid(),
        SweepView::start(shots).after(answers).shots == shots,
        swept(SweepView::start(shots).after(answers)) == answers.len(),
    decreases answers.len(),
{
    if answers.len() == 0 {
        assert(shots.take(0) =~= Seq::<ShotView>::empty());
    } else {
        lemma_after(shots, answers.drop_last());
        let s = SweepView::start(shots).after(answers.drop_last());
        if s.outcomes.len() == shots.len() {
            assert(shots.take(shots.len() as int) =~= shots);
        }
        lemma_swept(s, answers.last());
    }
}

/// Every file is accounted for: it went, or it is among the failures.
pub proof fn law_every_file_reported(shots: Seq<ShotView>, outcomes: Seq<Seq<Outcome>>)
    requires
        covers(shots, outcomes),
    ensures
        report_of(shots, outcomes).files + report_of(shots, outcomes).failures.len() == total_files(
            shots,
        ),
{
    lemma_files_reported(shots, outcomes);
    assert(shots.take(shots.len() as int) =~= shots);
}

proof fn lemma_files_reported(shots: Seq<ShotView>, outcomes: Seq<Seq<Outcome>>)
    requires
        outcomes.len() <= shots.len(),
        forall|i: int|
            0 <= i < outcomes.len() ==> (#[trigger] outcomes[i]).len() == shots[i].files().len(),
    ensures
        report_of(shots, outcomes).files + report_of(shots, outcomes).failures.len() == total_files(
            shots.take(outcomes.len() as int),
        ),
    decreases outcomes.len(),
{
    let n = outcomes.len() as int;
    if n > 0 {
        let rest = outcomes.drop_last();
        assert forall|i: int| 0 <= i < rest.len() implies (#[trigger] rest[i]).len()
            == shots[i].files().len() by {
            assert(rest[i] == outcomes[i]);
        }
        lemma_files_reported(shots, rest);
        lemma_done_or_failed(shots[n - 1].files(), outcomes[n - 1]);
        assert(shots.take(n).drop_last() =~= shots.take(n - 1));
    } else {
        assert(shots.take(0) =~= Seq::<ShotView>::empty());
    }
}

proof fn lemma_done_or_failed(files: Seq<Seq<char>>, outcomes: Seq<Outcome>)
    ensures
        done_files(outcomes) + failed_files(files, outcomes).len() == outcomes.len(),
        all_done(outcomes) <==> failed_files(files, outcomes).len() == 0,
    decreases outcomes.len(),
{
    if outcomes.len() > 0 {
        let rest = outcomes.drop_last();
        lemma_done_or_failed(files, rest);
        if all_done(outcomes) {
            assert forall|k: int| 0 <= k < rest.len() implies (#[trigger] rest[k]) is None by {
                assert(outcomes[k] is None);
            }
            assert(outcomes[outcomes.len() - 1] is None);
        }
        if outcomes.last() is None && all_done(rest) {
            assert forall|k: int| 0 <= k < outcomes.len() implies (#[trigger] outcomes[k]) is None by {
                if k < rest.len() {
                    assert(rest[k] is None);
                }
            }
        }
    }
}

/// Nothing failed exactly when every shot counts as done.
pub proof fn law_all_shots_done_without_failures(
    shots: Seq<ShotView>,
    outcomes: Seq<Seq<Outcome>>,
)
    requires
        covers(shots, outcomes),
    ensures
        report_of(shots, outcomes).failures.len() == 0 <==> report_of(shots, outcomes).shots
            == shots.len(),
        report_of(shots, outcomes).shots <= shots.len(),
{
    lemma_shots_done(shots, outcomes);
}

proof fn lemma_shots_done(shots: Seq<ShotView>, outcomes: Seq<Seq<Outcome>>)
    ensures
        report_of(shots, outcomes).failures.len() == 0 <==> report_of(shots, outcomes).shots
            == outcomes.len(),
        report_of(shots, outcomes).shots <= outcomes.len(),
    decreases outcomes.len(),
{
    if outcomes.len() > 0 {
        lemma_shots_done(shots, outcomes.drop_last());
        lemma_done_or_failed(shots[outcomes.len() - 1].files(), outcomes.last());
    }
}

/// Outcomes one after another.
pub open spec fn flat(outcomes: Seq<Seq<Outcome>>) -> Seq<Outcome>
    decreases outcomes.len(),
{
    if outcomes.len() == 0 {
        Seq::empty()
    } else {
        flat(outcomes.drop_last()) + outcomes.last()
    }
}

/// A sweep keeps every answer, in the order they came.
pub proof fn law_answers_are_kept(shots: Seq<ShotView>, answers: Seq<Outcome>)
    ensures
        ({
            let s = SweepView::start(shots).after(answers);
            flat(s.outcomes) + s.current == answers
        }),
    decreases answers.len(),
{
    let s = SweepView::start(shots).after(answers);
    if answers.len() == 0 {
        assert(flat(s.outcomes) + s.current =~= answers);
    } else {
        let rest = answers.drop_last();
        law_answers_are_kept(shots, rest);
        let t = SweepView::start(shots).after(rest);
        let now = t.current.push(answers.last());
        assert(t.outcomes.push(now).drop_last() =~= t.outcomes);
        assert(answers =~= rest.push(answers.last()));
        assert(flat(s.outcomes) + s.current =~= answers);
    }
}

proof fn lemma_failed_at(files: Seq<Seq<char>>, outcomes: Seq<Outcome>, k: int, e: Seq<char>)
    requires
        0 <= k < outcomes.len(),
        outcomes[k] == Some(e),
    ensures
        failed_files(files, outcomes).contains((files[k], e)),
    decreases outcomes.len(),
{
    let all = failed_files(files, outcomes);
    let before = failed_files(files, outcomes.drop_last());
    if k == outcomes.len() - 1 {
        assert(all[all.len() - 1] == (files[k], e));
    } else {
        lemma_failed_at(files, outcomes.drop_last(), k, e);
        let j = choose|j: int| 0 <= j < before.len() && before[j] == (files[k], e);
        assert(all[j] == (files[k], e));
    }
}

/// A file that could not be moved is among the failures, with its error.
pub proof fn law_failures_tell_their_errors(
    shots: Seq<ShotView>,
    outcomes: Seq<Seq<Outcome>>,
    i: int,
    k: int,
    e: Seq<char>,
)
    requires
        0 <= i < outcomes.len(),
        0 <= k < outcomes[i].len(),
        outcomes[i][k] == Some(e),
    ensures
        report_of(shots, outcomes).failures.contains((shots[i].files()[k], e)),
    decreases outcomes.len(),
{
    let n = outcomes.len() as int;
    let all = report_of(shots, outcomes).failures;
    let before = report_of(shots, outcomes.drop_last()).failures;
    let last = failed_files(shots[n - 1].files(), outcomes.last());
    let f = (shots[i].files()[k], e);
    if i == n - 1 {
        lemma_failed_at(shots[i].files(), outcomes[i], k, e);
        let j = choose|j: int| 0 <= j < last.len() && last[j] == f;
        assert(all[before.len() + j] == f);
    } else {
        law_failures_tell_their_errors(shots, outcomes.drop_last(), i, k, e);
        let j = choose|j: int| 0 <= j < before.len() && before[j] == f;
        assert(all[j] == f);
    }
}

/// A shot counts as done if each of its files went; every file that went counts, whatever became of
/// the others of its shot.
pub proof fn law_one_more_shot(shots: Seq<ShotView>, outcomes: Seq<Seq<Outcome>>, last: Seq<Outcome>)
    requires
        outcomes.len() < shots.len(),
        last.len() == shots[outcomes.len() as int].files().len(),
    ensures
        ({
            let before = report_of(shots, outcomes);
            let after = report_of(shots, outcomes.push(last));
            let more = after.failures.len() - before.failures.len();
            &&& (forall|k: int| 0 <= k < last.len() ==> (#[trigger] last[k]) is None)
                ==> after.shots == before.shots + 1 && more == 0
            &&& !(forall|k: int| 0 <= k < last.len() ==> (#[trigger] last[k]) is None)
                ==> after.shots == before.shots && more > 0
            &&& after.files - before.files + more == last.len()
        }),
{
    assert(outcomes.push(last).drop_last() =~= outcomes);
    lemma_done_or_failed(shots[outcomes.len() as int].files(), last);
}

/// The count of a report stops at the largest number there is.
pub proof fn law_counted(r: ReportView)
    ensures
        r.counted().shots == r.shots,
        r.counted().failures == r.failures,
        r.files <= usize::MAX ==> r.counted().files == r.files,
        r.files > usize::MAX ==> r.counted().files == usize::MAX,
{
}

/// A file went if nothing is said of it; else its error is told.
pub proof fn law_outcomes(e: String)
    ensures
        outcome_of(Ok(())) is None,
        outcome_of(Err(e)) == Some(e@),
{
}

} // verus!
