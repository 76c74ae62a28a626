//! The run state machine: one selected script at a time, in queue order,
//! stopping at the first failure unless errors are to be skipped.

use vstd::prelude::*;
use vstd::string::*;
use crate::batch_parser::{batches_of, views_of, BatchParser};
use crate::entries::{EntryStatus, ListEntry};
use crate::script_memory::{status_of, stored, ScriptDatabase};
use crate::selection::{
    opt_view,
    first_pending, lemma_first_pending, mark_path, marked, paths_of, AppState, Mark, ScriptState,
    ScriptView,
};
use crate::text::str_eq;

verus! {

/// The CRC-32 (ISO-HDLC) checksum of the UTF-8 encoding of a text.
pub uninterp spec fn crc32_of_text(s: Seq<char>) -> u32;

/// Relies on `crc::Crc::<u32>::checksum` with the `CRC_32_ISO_HDLC` algorithm,
/// over the UTF-8 bytes of `s`: the checksum depends on the text alone.
#[verifier::external_body]
fn text_checksum(s: &str) -> (r: u32)
    ensures
        r == crc32_of_text(s@),
{
    crc::Crc::<u32>::new(&crc::CRC_32_ISO_HDLC).checksum(s.as_bytes())
}

/// `s` without a leading byte-order mark.
pub open spec fn without_bom(s: Seq<char>) -> Seq<char> {
    if s.len() > 0 && s[0] == '\u{feff}' {
        s.drop_first()
    } else {
        s
    }
}

/// A script's content made ready to run: its checksum, and its batches.
pub struct PreparedScript {
    pub checksum: u32,
    pub batches: Vec<String>,
}

/// The checksum of the content as read, and the batches of the content
/// without its byte-order mark.
pub fn prepare_script(content: &str) -> (r: PreparedScript)
    ensures
        r.checksum == crc32_of_text(content@),
        views_of(r.batches@) == batches_of(without_bom(content@)),
{
    let checksum = text_checksum(content);
    let n = content.unicode_len();
    let parser = if n > 0 && content.get_char(0) == '\u{feff}' {
        let body = content.substring_char(1, n);
        assert(body@ =~= without_bom(content@));
        BatchParser::parse(body)
    } else {
        BatchParser::parse(content)
    };
    PreparedScript { checksum, batches: parser.batches }
}

/// The status shown for a listed entry, given the checksum of its content.
pub fn entry_status_with(db: &ScriptDatabase, entry: &ListEntry, crc: u32) -> (r: EntryStatus)
    requires
        db.wf(),
    ensures
        entry.is_directory ==> r == EntryStatus::Directory,
        !entry.is_directory ==> r == status_of(stored(db.view(), entry.relative_path@), crc),
{
    if entry.is_directory {
        EntryStatus::Directory
    } else {
        db.get_file_status(entry.relative_path.as_str(), crc)
    }
}

/// The status shown for a listed entry whose file holds `content`.
pub fn entry_status(db: &ScriptDatabase, entry: &ListEntry, content: &str) -> (r: EntryStatus)
    requires
        db.wf(),
    ensures
        entry.is_directory ==> r == EntryStatus::Directory,
        !entry.is_directory ==> r == status_of(
            stored(db.view(), entry.relative_path@),
            crc32_of_text(content@),
        ),
{
    if entry.is_directory {
        EntryStatus::Directory
    } else {
        entry_status_with(db, entry, text_checksum(content))
    }
}

/// How an attempt to run a script ended.
#[allow(inconsistent_fields)]
#[derive(Debug, Clone)]
pub enum ScriptOutcome {
    /// Every batch ran; the content had the given checksum.
    Succeeded { elapsed: u128, checksum: u32 },
    /// A batch failed, or the file could not be read (then there is no checksum).
    Failed { message: String, checksum: Option<u32> },
}

/// The change of run state an outcome brings.
pub open spec fn outcome_mark(o: ScriptOutcome) -> Mark {
    match o {
        ScriptOutcome::Succeeded { elapsed, .. } => Mark::Finished(elapsed),
        ScriptOutcome::Failed { message, .. } => Mark::Failed(message),
    }
}

/// A write to the run history.
#[derive(Debug, Clone)]
pub struct HistoryWrite {
    pub path: String,
    pub checksum: u32,
    pub success: bool,
}

/// What the driver has to do after an attempt: record the outcome, if there
/// is one to record, and submit a new run request if `resume` holds.
pub struct RunStep {
    pub record: Option<HistoryWrite>,
    pub resume: bool,
}

/// What the driver has to do after reporting an attempt with `advance`:
/// record the outcome, if there is one to record, and run `next`, if any.
pub struct Advance {
    pub record: Option<HistoryWrite>,
    pub next: Option<String>,
}

/// `w` is the history write owed for an attempt on `path` that ended with `o`.
pub open spec fn record_for(path: Seq<char>, o: ScriptOutcome, w: Option<HistoryWrite>) -> bool {
    match o {
        ScriptOutcome::Succeeded { checksum, .. } => w matches Some(h) && h.path@ == path
            && h.checksum == checksum && h.success,
        ScriptOutcome::Failed { checksum: Some(c), .. } => w matches Some(h) && h.path@ == path
            && h.checksum == c && !h.success,
        ScriptOutcome::Failed { checksum: None, .. } => w is None,
    }
}

/// The cycle stops after an attempt that ended with `o`.
pub open spec fn stops_after(o: ScriptOutcome, skip_errors: bool) -> bool {
    o is Failed && !skip_errors
}

#[derive(Debug, Clone)]
pub enum RunPhase {
    Idle,
    /// One script is in flight.
    Running { path: String, skip_errors: bool },
}

/// The selection queue together with the script in flight, if any.
pub struct Runner {
    pub queue: AppState,
    pub phase: RunPhase,
}

impl Runner {
    pub fn new(queue: AppState) -> (r: Self)
        ensures
            r.queue == queue,
            r.phase is Idle,
    {
        Runner { queue, phase: RunPhase::Idle }
    }

    /// A run request. While a script is in flight nothing changes. Otherwise
    /// the first entry not run yet, if any, is marked running and its path
    /// returned: the caller runs that script and reports with `finish`.
    pub fn run(&mut self, skip_errors: bool) -> (r: Option<String>)
        requires
            old(self).queue.wf(),
        ensures
            final(self).queue.wf(),
            old(self).phase is Running ==> r is None && final(self).queue.entries() == old(
                self,
            ).queue.entries() && final(self).phase == old(self).phase,
            old(self).phase is Idle ==> (final(self).queue.entries(), opt_view(r)) == run_step(
                old(self).queue.entries(),
            ),
            old(self).phase is Idle ==> (r matches Some(p) ==> final(self).phase == (
            RunPhase::Running { path: p, skip_errors })),
            old(self).phase is Idle ==> (r is None ==> final(self).phase is Idle),
    {
        if let RunPhase::Running { .. } = self.phase {
            return None;
        }
        match self.queue.first_runnable_index() {
            None => None,
            Some(i) => {
                proof {
                    lemma_first_pending(self.queue.entries());
                }
                let path = self.queue.selected[i].relative_path.clone();
                self.queue.mark(path.as_str(), &Mark::Running);
                self.phase = RunPhase::Running { path: path.clone(), skip_errors };
                Some(path)
            },
        }
    }

    /// The attempt on `path` ended with `outcome`. The entry of `path`, if it
    /// is still selected, takes the outcome's state. The outcome is to be
    /// recorded when its content's checksum is known. If `path` is the script
    /// in flight, the runner becomes idle and asks to go on after a success,
    /// or after a failure when errors are skipped.
    pub fn finish(&mut self, path: String, outcome: ScriptOutcome) -> (r: RunStep)
        requires
            old(self).queue.wf(),
        ensures
            final(self).queue.wf(),
            final(self).queue.entries() == mark_path(
                old(self).queue.entries(),
                path@,
                outcome_mark(outcome),
            ),
            match outcome {
                ScriptOutcome::Succeeded { checksum, .. } => r.record matches Some(w) && w.path@
                    == path@ && w.checksum == checksum && w.success,
                ScriptOutcome::Failed { checksum: Some(c), .. } => r.record matches Some(w)
                    && w.path@ == path@ && w.checksum == c && !w.success,
                ScriptOutcome::Failed { checksum: None, .. } => r.record is None,
            },
            match old(self).phase {
                RunPhase::Running { path: p, skip_errors } => if p@ == path@ {
                    final(self).phase is Idle && r.resume == (outcome is Succeeded || skip_errors)
                } else {
                    final(self).phase == old(self).phase && !r.resume
                },
                RunPhase::Idle => final(self).phase is Idle && !r.resume,
            },
    {
        let (m, record, succeeded) = match outcome {
            ScriptOutcome::Succeeded { elapsed, checksum } => (
                Mark::Finished(elapsed),
                Some(HistoryWrite { path: path.clone(), checksum, success: true }),
                true,
            ),
            ScriptOutcome::Failed { message, checksum } => (
                Mark::Failed(message),
                match checksum {
                    Some(c) => Some(HistoryWrite { path: path.clone(), checksum: c, success: false }),
                    None => None,
                },
                false,
            ),
        };
        self.queue.mark(path.as_str(), &m);
        let resume = match &self.phase {
            RunPhase::Running { path: p, skip_errors } => {
                if str_eq(p.as_str(), path.as_str()) {
                    let go_on = succeeded || *skip_errors;
                    self.phase = RunPhase::Idle;
                    go_on
                } else {
                    false
                }
            },
            RunPhase::Idle => false,
        };
        RunStep { record, resume }
    }
}

impl Runner {
    /// Reports how the attempt on the script in flight, `path`, ended, and
    /// goes on with the cycle: unless the cycle stops here, the next entry not
    /// run yet is marked running and returned for the driver to run.
    pub fn advance(&mut self, path: String, outcome: ScriptOutcome) -> (r: Advance)
        requires
            old(self).queue.wf(),
            old(self).phase matches RunPhase::Running { path: p, .. } && p@ == path@,
        ensures
            final(self).queue.wf(),
            record_for(path@, outcome, r.record),
            (final(self).queue.entries(), opt_view(r.next)) == advance_step(
                old(self).queue.entries(),
                path@,
                outcome,
                old(self).phase->skip_errors,
            ),
            r.next matches Some(p) ==> final(self).phase == (RunPhase::Running {
                path: p,
                skip_errors: old(self).phase->skip_errors,
            }),
            r.next is None ==> final(self).phase is Idle,
    {
        let skip = match &self.phase {
            RunPhase::Running { skip_errors, .. } => *skip_errors,
            RunPhase::Idle => false,
        };
        let step = self.finish(path, outcome);
        let next = if step.resume {
            self.run(skip)
        } else {
            None
        };
        Advance { record: step.record, next }
    }
}

/// Entry `r` shows outcome `o`: finished with its run time, or failed with
/// its message.
pub open spec fn shows_outcome(r: ScriptView, o: ScriptOutcome) -> bool {
    match o {
        ScriptOutcome::Succeeded { elapsed, .. } => r.state == ScriptState::Finished && r.elapsed
            == Some(elapsed),
        ScriptOutcome::Failed { message, .. } => r.state == ScriptState::Error && r.error == Some(
            message@,
        ),
    }
}

/// An entry after one attempt that ended with `o`.
pub open spec fn attempted(v: ScriptView, o: ScriptOutcome) -> ScriptView {
    marked(marked(v, Mark::Running), outcome_mark(o))
}

/// What a run request does to queue `s` (see `Runner::run`): the first entry
/// not run yet, if any, is marked running and its path handed out.
pub open spec fn run_step(s: Seq<ScriptView>) -> (Seq<ScriptView>, Option<Seq<char>>) {
    match first_pending(s) {
        None => (s, None),
        Some(i) => (mark_path(s, s[i].path, Mark::Running), Some(s[i].path)),
    }
}

/// What reporting that the attempt on `p` ended with `o` does to queue `e`
/// (see `Runner::advance`): the entry takes the outcome's state, and unless
/// the cycle stops there, a run request follows.
pub open spec fn advance_step(
    e: Seq<ScriptView>,
    p: Seq<char>,
    o: ScriptOutcome,
    skip_errors: bool,
) -> (Seq<ScriptView>, Option<Seq<char>>) {
    let t = mark_path(e, p, outcome_mark(o));
    if stops_after(o, skip_errors) {
        (t, None)
    } else {
        run_step(t)
    }
}

/// The queue a driver ends with that starts from queue `e` with `next`
/// handed out, runs each handed-out path `p`, and reports `outcome(p)` with
/// `advance`, at most `fuel` times.
pub open spec fn driven(
    e: Seq<ScriptView>,
    next: Option<Seq<char>>,
    outcome: spec_fn(Seq<char>) -> ScriptOutcome,
    skip_errors: bool,
    fuel: nat,
) -> Seq<ScriptView>
    decreases fuel,
{
    match next {
        None => e,
        Some(p) => if fuel == 0 {
            e
        } else {
            let a = advance_step(e, p, outcome(p), skip_errors);
            driven(a.0, a.1, outcome, skip_errors, (fuel - 1) as nat)
        },
    }
}

/// The queue after a run cycle from queue `s`: a run request, then the
/// driver loop above, each attempt on a path `p` ending with `outcome(p)`.
pub open spec fn run_cycle(
    s: Seq<ScriptView>,
    outcome: spec_fn(Seq<char>) -> ScriptOutcome,
    skip_errors: bool,
    fuel: nat,
) -> Seq<ScriptView> {
    driven(run_step(s).0, run_step(s).1, outcome, skip_errors, fuel)
}

/// The entries from position `m` on have not run; those before were attempted,
/// with the outcomes of their paths.
pub open spec fn attempted_up_to(
    s0: Seq<ScriptView>,
    s: Seq<ScriptView>,
    m: int,
    outcome: spec_fn(Seq<char>) -> ScriptOutcome,
) -> bool {
    &&& s.len() == s0.len()
    &&& 0 <= m <= s.len()
    &&& forall|i: int| 0 <= i < m ==> #[trigger] s[i] == attempted(s0[i], outcome(s0[i].path))
    &&& forall|i: int| m <= i < s.len() ==> #[trigger] s[i] == s0[i]
}

proof fn lemma_attempt_next(
    s0: Seq<ScriptView>,
    s: Seq<ScriptView>,
    m: int,
    outcome: spec_fn(Seq<char>) -> ScriptOutcome,
)
    requires
        paths_of(s0).no_duplicates(),
        forall|i: int| 0 <= i < s0.len() ==> (#[trigger] s0[i]).state == ScriptState::Pending,
        attempted_up_to(s0, s, m, outcome),
        m < s.len(),
    ensures
        first_pending(s) == Some(m),
        attempted_up_to(
            s0,
            mark_path(
                mark_path(s, s[m].path, Mark::Running),
                s[m].path,
                outcome_mark(outcome(s[m].path)),
            ),
            m + 1,
            outcome,
        ),
{
    lemma_first_pending(s);
    assert(s[m].state == ScriptState::Pending);
    match first_pending(s) {
        Some(k) => {
            if k < m {
                assert(s[k] == attempted(s0[k], outcome(s0[k].path)));
            }
        },
        None => {},
    }
    let p = s[m].path;
    let t = mark_path(mark_path(s, p, Mark::Running), p, outcome_mark(outcome(p)));
    assert forall|i: int| 0 <= i < s.len() && i != m implies s[i].path != p by {
        assert(paths_of(s0)[i] != paths_of(s0)[m]);
    }
    assert forall|i: int| 0 <= i < m + 1 implies #[trigger] t[i] == attempted(
        s0[i],
        outcome(s0[i].path),
    ) by {
        if i < m {
            assert(t[i] == s[i]);
        }
    }
    assert forall|i: int| m + 1 <= i < t.len() implies #[trigger] t[i] == s0[i] by {
        assert(t[i] == s[i]);
    }
}

proof fn lemma_cycle_from(
    s0: Seq<ScriptView>,
    s: Seq<ScriptView>,
    m: int,
    outcome: spec_fn(Seq<char>) -> ScriptOutcome,
    skip_errors: bool,
    fuel: nat,
)
    requires
        paths_of(s0).no_duplicates(),
        forall|i: int| 0 <= i < s0.len() ==> (#[trigger] s0[i]).state == ScriptState::Pending,
        attempted_up_to(s0, s, m, outcome),
        fuel >= s.len() - m,
        skip_errors || forall|i: int|
            0 <= i < m ==> !(outcome(#[trigger] s0[i].path) is Failed),
    ensures
        exists|e: int|
            m <= e <= s.len() && attempted_up_to(
                s0,
                run_cycle(s, outcome, skip_errors, fuel),
                e,
                outcome,
            ) && (e == s.len() || (!skip_errors && e > 0 && outcome(s0[e - 1].path) is Failed))
                && (!skip_errors ==> forall|i: int|
                0 <= i < e - 1 ==> !(outcome(#[trigger] s0[i].path) is Failed)),
    decreases fuel,
{
    lemma_first_pending(s);
    if m == s.len() {
        match first_pending(s) {
            Some(k) => {
                assert(s[k] == attempted(s0[k], outcome(s0[k].path)));
            },
            None => {},
        }
        assert(run_cycle(s, outcome, skip_errors, fuel) == s);
        assert(attempted_up_to(s0, run_cycle(s, outcome, skip_errors, fuel), m, outcome));
    } else {
        lemma_attempt_next(s0, s, m, outcome);
        let p = s[m].path;
        let e = mark_path(s, p, Mark::Running);
        let t = mark_path(e, p, outcome_mark(outcome(p)));
        assert(run_step(s) == (e, Some(p)));
        assert(s[m] == s0[m]);
        assert(fuel > 0);
        assert(run_cycle(s, outcome, skip_errors, fuel) == driven(
            advance_step(e, p, outcome(p), skip_errors).0,
            advance_step(e, p, outcome(p), skip_errors).1,
            outcome,
            skip_errors,
            (fuel - 1) as nat,
        ));
        if outcome(p) is Failed && !skip_errors {
            assert(advance_step(e, p, outcome(p), skip_errors) == (t, None::<Seq<char>>));
            assert(run_cycle(s, outcome, skip_errors, fuel) == t);
            assert(attempted_up_to(s0, run_cycle(s, outcome, skip_errors, fuel), m + 1, outcome));
        } else {
            lemma_cycle_from(s0, t, m + 1, outcome, skip_errors, (fuel - 1) as nat);
            assert(run_cycle(s, outcome, skip_errors, fuel) == run_cycle(
                t,
                outcome,
                skip_errors,
                (fuel - 1) as nat,
            ));
        }
    }
}

/// With errors skipped, a run cycle over scripts none of which has run
/// attempts every one, in queue order: each ends failed with its message if
/// its attempt failed, and finished with its run time otherwise, and the
/// queue keeps its order.
pub proof fn lemma_cycle_skipping_errors_attempts_all(
    s: Seq<ScriptView>,
    outcome: spec_fn(Seq<char>) -> ScriptOutcome,
)
    requires
        paths_of(s).no_duplicates(),
        forall|i: int| 0 <= i < s.len() ==> (#[trigger] s[i]).state == ScriptState::Pending,
    ensures
        run_cycle(s, outcome, true, s.len()).len() == s.len(),
        forall|i: int|
            0 <= i < s.len() ==> {
                let r = #[trigger] run_cycle(s, outcome, true, s.len())[i];
                &&& r.path == s[i].path
                &&& r.state == if outcome(s[i].path) is Failed {
                    ScriptState::Error
                } else {
                    ScriptState::Finished
                }
                &&& shows_outcome(r, outcome(s[i].path))
            },
{
    lemma_cycle_from(s, s, 0, outcome, true, s.len());
    let r = run_cycle(s, outcome, true, s.len());
    assert forall|i: int| 0 <= i < s.len() implies #[trigger] r[i].path == s[i].path && r[i].state
        == (if outcome(s[i].path) is Failed {
        ScriptState::Error
    } else {
        ScriptState::Finished
    }) && shows_outcome(r[i], outcome(s[i].path)) by {
        assert(r[i] == attempted(s[i], outcome(s[i].path)));
    }
}

/// Without skipping errors, a run cycle over scripts none of which has run
/// stops at the first failure, at position `k`: the scripts before it
/// finished with their run times, it failed with its message, and the ones
/// after it are left as they were, not run.
pub proof fn lemma_cycle_halts_at_first_failure(
    s: Seq<ScriptView>,
    outcome: spec_fn(Seq<char>) -> ScriptOutcome,
    k: int,
)
    requires
        paths_of(s).no_duplicates(),
        forall|i: int| 0 <= i < s.len() ==> (#[trigger] s[i]).state == ScriptState::Pending,
        0 <= k < s.len(),
        outcome(s[k].path) is Failed,
        forall|i: int| 0 <= i < k ==> !(outcome(#[trigger] s[i].path) is Failed),
    ensures
        run_cycle(s, outcome, false, s.len()).len() == s.len(),
        forall|i: int|
            0 <= i < s.len() ==> {
                let r = #[trigger] run_cycle(s, outcome, false, s.len())[i];
                &&& r.path == s[i].path
                &&& r.state == if i < k {
                    ScriptState::Finished
                } else if i == k {
                    ScriptState::Error
                } else {
                    ScriptState::Pending
                }
                &&& (i <= k ==> shows_outcome(r, outcome(s[i].path)))
                &&& (i > k ==> r == s[i])
            },
{
    lemma_cycle_from(s, s, 0, outcome, false, s.len());
    let r = run_cycle(s, outcome, false, s.len());
    let e = choose|e: int|
        0 <= e <= s.len() && attempted_up_to(s, r, e, outcome) && (e == s.len() || (e > 0
            && outcome(s[e - 1].path) is Failed)) && (forall|i: int|
            0 <= i < e - 1 ==> !(outcome(#[trigger] s[i].path) is Failed));
    if e == s.len() {
        if k < e - 1 {
            assert(!(outcome(s[k].path) is Failed));
        }
    } else {
        if k < e - 1 {
            assert(!(outcome(s[k].path) is Failed));
        }
        if e - 1 < k {
            assert(!(outcome(s[e - 1].path) is Failed));
        }
    }
    assert(e == k + 1);
    assert forall|i: int| 0 <= i < s.len() implies #[trigger] r[i].path == s[i].path && r[i].state
        == if i < k {
        ScriptState::Finished
    } else if i == k {
        ScriptState::Error
    } else {
        ScriptState::Pending
    } && (i <= k ==> shows_outcome(r[i], outcome(s[i].path))) && (i > k ==> r[i] == s[i]) by {
        if i <= k {
            assert(r[i] == attempted(s[i], outcome(s[i].path)));
        } else {
            assert(r[i] == s[i]);
        }
    }
}

} // verus!
