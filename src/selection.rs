//! The selection queue: the scripts chosen for a run, each with its run state.

use vstd::prelude::*;
use vstd::string::*;
use vstd::seq_lib::*;
use vstd::multiset::*;
use crate::entries::ListEntry;
use crate::text::{lemma_seq_lt_asymmetric, lemma_seq_lt_negative_transitive, seq_lt, str_eq, str_lt};

verus! {

broadcast use {vstd::seq_lib::group_to_multiset_ensures, vstd::multiset::group_multiset_axioms};

/// Where a selected script stands in the current run.
#[derive(Debug, Clone, Copy, PartialEq, Eq, Structural)]
pub enum ScriptState {
    Finished,
    Running,
    Error,
    Pending,
}

/// The mathematical value of a selected script.
pub struct ScriptView {
    pub path: Seq<char>,
    pub state: ScriptState,
    pub error: Option<Seq<char>>,
    pub elapsed: Option<u128>,
}

/// A selected script: its path relative to the repository root (the key of
/// the queue), its run state, the failure message and the run time in
/// milliseconds once known.
#[derive(Debug, Clone)]
pub struct Script {
    pub relative_path: String,
    pub state: ScriptState,
    pub error: Option<String>,
    pub elapsed: Option<u128>,
}

/// The text of an optional string.
pub open spec fn opt_view(o: Option<String>) -> Option<Seq<char>> {
    match o {
        Some(s) => Some(s@),
        None => None,
    }
}

impl View for Script {
    type V = ScriptView;

    open spec fn view(&self) -> ScriptView {
        ScriptView {
            path: self.relative_path@,
            state: self.state,
            error: opt_view(self.error),
            elapsed: self.elapsed,
        }
    }
}

/// A script that has not run yet.
pub open spec fn pending(path: Seq<char>) -> ScriptView {
    ScriptView { path, state: ScriptState::Pending, error: None, elapsed: None }
}

impl Script {
    pub fn none(path: &str) -> (r: Self)
        ensures
            r@ == pending(path@),
    {
        Script { error: None, relative_path: String::from_str(path), state: ScriptState::Pending, elapsed: None }
    }

    pub fn error(path: &str, error: String) -> (r: Self)
        ensures
            r@ == (ScriptView { path: path@, state: ScriptState::Error, error: Some(error@), elapsed: None }),
    {
        Script { error: Some(error), relative_path: String::from_str(path), state: ScriptState::Error, elapsed: None }
    }

    pub fn finished(path: &str, elapsed: u128) -> (r: Self)
        ensures
            r@ == (ScriptView { path: path@, state: ScriptState::Finished, error: None, elapsed: Some(elapsed) }),
    {
        Script { error: None, relative_path: String::from_str(path), state: ScriptState::Finished, elapsed: Some(elapsed) }
    }
}

/// The values of a list of scripts.
pub open spec fn views(s: Seq<Script>) -> Seq<ScriptView> {
    s.map_values(|x: Script| x@)
}

/// The paths of a list of script values.
pub open spec fn paths_of(s: Seq<ScriptView>) -> Seq<Seq<char>> {
    s.map_values(|x: ScriptView| x.path)
}

/// The texts of a list of strings.
pub open spec fn strs(s: Seq<String>) -> Seq<Seq<char>> {
    s.map_values(|x: String| x@)
}

/// Position of a run state in the queue order: finished scripts first, then
/// the running one, the failed ones, and those not run yet last.
pub open spec fn rank(s: ScriptState) -> int {
    match s {
        ScriptState::Finished => 0,
        ScriptState::Running => 1,
        ScriptState::Error => 2,
        ScriptState::Pending => 3,
    }
}

/// `a` comes strictly before `b` in queue order: by run state, then by path.
pub open spec fn queued_before(a: ScriptView, b: ScriptView) -> bool {
    rank(a.state) < rank(b.state) || (rank(a.state) == rank(b.state) && seq_lt(a.path, b.path))
}

/// No entry comes strictly before the one in front of it.
pub open spec fn in_queue_order(s: Seq<ScriptView>) -> bool {
    forall|i: int| 0 <= i < s.len() - 1 ==> !queued_before(#[trigger] s[i + 1], s[i])
}

/// Among the entries not run yet, none has a path before that of an earlier one.
pub open spec fn pending_in_path_order(s: Seq<ScriptView>) -> bool {
    forall|i: int, j: int|
        0 <= i < j < s.len() && (#[trigger] s[i]).state == ScriptState::Pending && (
        #[trigger] s[j]).state == ScriptState::Pending ==> !seq_lt(s[j].path, s[i].path)
}

proof fn lemma_queued_before_negative_transitive(a: ScriptView, b: ScriptView, c: ScriptView)
    ensures
        queued_before(c, a) ==> queued_before(c, b) || queued_before(b, a),
{
    lemma_seq_lt_negative_transitive(a.path, b.path, c.path);
}

proof fn lemma_in_queue_order_pairwise(s: Seq<ScriptView>, i: int, j: int)
    requires
        in_queue_order(s),
        0 <= i <= j < s.len(),
    ensures
        !queued_before(s[j], s[i]),
    decreases j - i,
{
    if j == i {
        lemma_seq_lt_asymmetric(s[i].path, s[i].path);
    } else {
        lemma_in_queue_order_pairwise(s, i, j - 1);
        assert(!queued_before(s[(j - 1) + 1], s[j - 1]));
        lemma_queued_before_negative_transitive(s[i], s[j - 1], s[j]);
    }
}

proof fn lemma_sorted_pending_in_path_order(s: Seq<ScriptView>)
    requires
        in_queue_order(s),
    ensures
        pending_in_path_order(s),
{
    assert forall|i: int, j: int|
        0 <= i < j < s.len() && (#[trigger] s[i]).state == ScriptState::Pending && (
        #[trigger] s[j]).state == ScriptState::Pending implies !seq_lt(s[j].path, s[i].path) by {
        lemma_in_queue_order_pairwise(s, i, j);
    }
}

fn rank_of(s: ScriptState) -> (r: u8)
    ensures
        r as int == rank(s),
{
    match s {
        ScriptState::Finished => 0,
        ScriptState::Running => 1,
        ScriptState::Error => 2,
        ScriptState::Pending => 3,
    }
}

fn queued_before_exec(a: &Script, b: &Script) -> (r: bool)
    ensures
        r == queued_before(a@, b@),
{
    let ra = rank_of(a.state);
    let rb = rank_of(b.state);
    ra < rb || (ra == rb && str_lt(a.relative_path.as_str(), b.relative_path.as_str()))
}

/// Puts `v` in queue order.
fn sort_queue(v: Vec<Script>) -> (r: Vec<Script>)
    ensures
        in_queue_order(views(r@)),
        views(r@).to_multiset() == views(v@).to_multiset(),
        paths_of(views(r@)).to_multiset() == paths_of(views(v@)).to_multiset(),
{
    let mut rest = v;
    let mut r: Vec<Script> = Vec::new();
    assert(views(r@).to_multiset().add(views(rest@).to_multiset()) =~= views(v@).to_multiset());
    assert(paths_of(views(r@)).to_multiset().add(paths_of(views(rest@)).to_multiset())
        =~= paths_of(views(v@)).to_multiset());
    while rest.len() > 0
        invariant
            in_queue_order(views(r@)),
            views(r@).to_multiset().add(views(rest@).to_multiset()) == views(v@).to_multiset(),
            paths_of(views(r@)).to_multiset().add(paths_of(views(rest@)).to_multiset())
                == paths_of(views(v@)).to_multiset(),
        decreases rest.len(),
    {
        let ghost rest0 = rest@;
        let ghost r0 = r@;
        let x = rest.pop().unwrap();
        assert(views(rest0) =~= views(rest@).push(x@));
        assert(paths_of(views(rest0)) =~= paths_of(views(rest@)).push(x@.path));
        let mut p: usize = 0;
        while p < r.len() && !queued_before_exec(&x, &r[p])
            invariant
                r@ == r0,
                p <= r.len(),
                forall|j: int| 0 <= j < p ==> !queued_before(x@, #[trigger] views(r@)[j]),
            decreases r.len() - p,
        {
            p += 1;
        }
        proof {
            if p < r.len() {
                lemma_seq_lt_asymmetric(x@.path, r@[p as int]@.path);
                assert(views(r0)[p as int] == r0[p as int]@);
                assert(!queued_before(views(r0)[p as int], x@));
            }
            if p > 0 {
                assert(!queued_before(x@, views(r0)[p - 1]));
            }
        }
        r.insert(p, x);
        proof {
            let t = views(r@);
            let s0 = views(r0);
            assert(t =~= s0.insert(p as int, x@));
            assert(paths_of(t) =~= paths_of(s0).insert(p as int, x@.path));
            assert forall|i: int| 0 <= i < t.len() - 1 implies !queued_before(
                #[trigger] t[i + 1],
                t[i],
            ) by {
                if i + 1 < p {
                    assert(t[i] == s0[i] && t[i + 1] == s0[i + 1]);
                    assert(!queued_before(s0[i + 1], s0[i]));
                } else if i + 1 == p {
                    assert(t[i] == s0[i] && t[i + 1] == x@);
                } else if i == p {
                    assert(t[i] == x@ && t[i + 1] == s0[i]);
                } else {
                    assert(t[i] == s0[i - 1] && t[i + 1] == s0[i]);
                    assert(!queued_before(s0[(i - 1) + 1], s0[i - 1]));
                }
            }
            assert(views(r@).to_multiset().add(views(rest@).to_multiset()) =~= views(
                v@,
            ).to_multiset());
            assert(paths_of(views(r@)).to_multiset().add(paths_of(views(rest@)).to_multiset())
                =~= paths_of(views(v@)).to_multiset());
        }
    }
    assert(views(rest@).to_multiset() =~= Multiset::empty());
    assert(paths_of(views(rest@)).to_multiset() =~= Multiset::empty());
    assert(views(r@).to_multiset() =~= views(r@).to_multiset().add(views(rest@).to_multiset()));
    assert(paths_of(views(r@)).to_multiset() =~= paths_of(views(r@)).to_multiset().add(
        paths_of(views(rest@)).to_multiset(),
    ));
    r
}

/// The entries of `s` whose path is not in `ps`, in order.
pub open spec fn without_paths(s: Seq<ScriptView>, ps: Seq<Seq<char>>) -> Seq<ScriptView>
    decreases s.len(),
{
    if s.len() == 0 {
        s
    } else {
        let rest = without_paths(s.drop_last(), ps);
        if ps.contains(s.last().path) {
            rest
        } else {
            rest.push(s.last())
        }
    }
}

/// `s` followed by a not-yet-run entry for each path of `ps` that it does not
/// hold yet, in the order of `ps`, each path once.
pub open spec fn with_paths(s: Seq<ScriptView>, ps: Seq<Seq<char>>) -> Seq<ScriptView>
    decreases ps.len(),
{
    if ps.len() == 0 {
        s
    } else {
        let prev = with_paths(s, ps.drop_last());
        if paths_of(prev).contains(ps.last()) {
            prev
        } else {
            prev.push(pending(ps.last()))
        }
    }
}

/// Some entry of `s` has a path in `ps`.
pub open spec fn any_path_in(s: Seq<ScriptView>, ps: Seq<Seq<char>>) -> bool {
    exists|i: int| 0 <= i < s.len() && ps.contains(#[trigger] s[i].path)
}

proof fn lemma_no_duplicates_by_multiset(a: Seq<Seq<char>>, b: Seq<Seq<char>>)
    requires
        a.no_duplicates(),
        a.to_multiset() == b.to_multiset(),
    ensures
        b.no_duplicates(),
{
    a.lemma_multiset_has_no_duplicates();
    b.lemma_multiset_has_no_duplicates_conv();
}

fn contains_path(ps: &[String], p: &String) -> (r: bool)
    ensures
        r == strs(ps@).contains(p@),
{
    let mut i: usize = 0;
    while i < ps.len()
        invariant
            i <= ps.len(),
            forall|j: int| 0 <= j < i ==> strs(ps@)[j] != p@,
        decreases ps.len() - i,
    {
        if ps[i] == *p {
            assert(strs(ps@)[i as int] == p@);
            return true;
        }
        i += 1;
    }
    false
}

fn holds_path(items: &Vec<Script>, p: &String) -> (r: bool)
    ensures
        r == paths_of(views(items@)).contains(p@),
{
    let mut i: usize = 0;
    while i < items.len()
        invariant
            i <= items.len(),
            forall|j: int| 0 <= j < i ==> paths_of(views(items@))[j] != p@,
        decreases items.len() - i,
    {
        if items[i].relative_path == *p {
            assert(paths_of(views(items@))[i as int] == p@);
            return true;
        }
        i += 1;
    }
    false
}

/// The entries of `items` whose path is not in `ps`.
fn take_out_paths(items: Vec<Script>, ps: &[String]) -> (r: Vec<Script>)
    requires
        paths_of(views(items@)).no_duplicates(),
    ensures
        views(r@) == without_paths(views(items@), strs(ps@)),
        paths_of(views(r@)).no_duplicates(),
{
    let ghost orig = views(items@);
    let mut rest = items;
    let mut kept: Vec<Script> = Vec::new();
    assert(orig.skip(0) =~= orig);
    assert(orig.take(0) =~= Seq::<ScriptView>::empty());
    while rest.len() > 0
        invariant
            rest.len() <= orig.len(),
            views(rest@) == orig.skip(orig.len() - rest.len()),
            views(kept@) == without_paths(orig.take(orig.len() - rest.len()), strs(ps@)),
            paths_of(views(kept@)).no_duplicates(),
            paths_of(orig).no_duplicates(),
            forall|i: int|
                0 <= i < kept.len() ==> exists|j: int|
                    0 <= j < orig.len() - rest.len() && orig[j].path == #[trigger] kept@[i]@.path,
        decreases rest.len(),
    {
        let ghost k = orig.len() - rest.len();
        let ghost kept0 = kept@;
        let ghost rest0 = rest@;
        assert(views(rest@)[0] == orig[k]);
        let x = rest.remove(0);
        assert(rest@ =~= rest0.skip(1));
        assert(views(rest@) =~= views(rest0).skip(1));
        assert(views(rest@) =~= orig.skip(k + 1));
        assert(orig.take(k + 1).drop_last() =~= orig.take(k));
        if !contains_path(ps, &x.relative_path) {
            kept.push(x);
            proof {
                assert(views(kept@) =~= views(kept0).push(x@));
                assert forall|i: int| 0 <= i < kept0.len() implies kept0[i]@.path != x@.path by {
                    let j = choose|j: int| 0 <= j < k && orig[j].path == #[trigger] kept0[i]@.path;
                    assert(paths_of(orig)[j] != paths_of(orig)[k]);
                }
                assert forall|a: int, b: int|
                    0 <= a < kept.len() && 0 <= b < kept.len() && a != b implies paths_of(
                    views(kept@),
                )[a] != paths_of(views(kept@))[b] by {
                    if a < kept0.len() && b < kept0.len() {
                        assert(paths_of(views(kept0))[a] != paths_of(views(kept0))[b]);
                    }
                }
                assert forall|i: int| 0 <= i < kept.len() implies exists|j: int|
                    0 <= j < k + 1 && orig[j].path == #[trigger] kept@[i]@.path by {
                    if i < kept0.len() {
                        assert(kept@[i] == kept0[i]);
                    } else {
                        assert(orig[k].path == kept@[i]@.path);
                    }
                }
            }
        }
    }
    assert(orig.take(orig.len() as int) =~= orig);
    kept
}

/// A change of run state applied to the entry of one path.
#[derive(Debug, Clone)]
pub enum Mark {
    Running,
    /// Finished successfully, after the given number of milliseconds.
    Finished(u128),
    /// Failed with the given message.
    Failed(String),
}

/// `v` after mark `m`.
pub open spec fn marked(v: ScriptView, m: Mark) -> ScriptView {
    match m {
        Mark::Running => ScriptView {
            path: v.path,
            state: ScriptState::Running,
            error: v.error,
            elapsed: v.elapsed,
        },
        Mark::Finished(ms) => ScriptView {
            path: v.path,
            state: ScriptState::Finished,
            error: v.error,
            elapsed: Some(ms),
        },
        Mark::Failed(msg) => ScriptView {
            path: v.path,
            state: ScriptState::Error,
            error: Some(msg@),
            elapsed: v.elapsed,
        },
    }
}

/// `s` with mark `m` applied to the entries whose path is `p`.
pub open spec fn mark_path(s: Seq<ScriptView>, p: Seq<char>, m: Mark) -> Seq<ScriptView> {
    s.map_values(|v: ScriptView| if v.path == p { marked(v, m) } else { v })
}

/// The first entry of `s`, from position `i` on, that has not run yet.
pub open spec fn first_pending_from(s: Seq<ScriptView>, i: nat) -> Option<int>
    decreases s.len() - i,
{
    if i >= s.len() {
        None
    } else if s[i as int].state == ScriptState::Pending {
        Some(i as int)
    } else {
        first_pending_from(s, i + 1)
    }
}

/// The first entry of `s` that has not run yet.
pub open spec fn first_pending(s: Seq<ScriptView>) -> Option<int> {
    first_pending_from(s, 0)
}

proof fn lemma_first_pending_from(s: Seq<ScriptView>, i: nat)
    ensures
        first_pending_from(s, i) matches Some(k) ==> i <= k < s.len() && s[k].state
            == ScriptState::Pending && forall|j: int| i <= j < k ==> s[j].state != ScriptState::Pending,
        first_pending_from(s, i) is None ==> forall|j: int|
            i <= j < s.len() ==> s[j].state != ScriptState::Pending,
    decreases s.len() - i,
{
    if i < s.len() && s[i as int].state != ScriptState::Pending {
        lemma_first_pending_from(s, i + 1);
    }
}

/// The first entry of `s` not run yet is the first entry whose state is `Pending`.
pub proof fn lemma_first_pending(s: Seq<ScriptView>)
    ensures
        first_pending(s) matches Some(k) ==> 0 <= k < s.len() && s[k].state
            == ScriptState::Pending && forall|j: int| 0 <= j < k ==> s[j].state != ScriptState::Pending,
        first_pending(s) is None ==> forall|j: int|
            0 <= j < s.len() ==> s[j].state != ScriptState::Pending,
{
    lemma_first_pending_from(s, 0);
}

/// The selection queue.
pub struct AppState {
    pub selected: Vec<Script>,
}

impl AppState {
    pub open spec fn entries(&self) -> Seq<ScriptView> {
        views(self.selected@)
    }

    /// No two entries share a path, and the entries not run yet are in path order.
    pub open spec fn wf(&self) -> bool {
        &&& paths_of(self.entries()).no_duplicates()
        &&& pending_in_path_order(self.entries())
    }

    /// The queue holds exactly the entries of `m`, in queue order.
    pub open spec fn holds_sorted(&self, m: Multiset<ScriptView>) -> bool {
        in_queue_order(self.entries()) && self.entries().to_multiset() == m
    }

    /// Deselects everything.
    pub fn clear(&mut self)
        ensures
            final(self).entries() == Seq::<ScriptView>::empty(),
            final(self).wf(),
    {
        self.selected.clear();
        assert(self.entries() =~= Seq::<ScriptView>::empty());
    }

    /// Position of the first entry, in queue order, that has not run yet.
    pub fn first_runnable_index(&self) -> (r: Option<usize>)
        ensures
            r matches Some(i) ==> first_pending(self.entries()) == Some(i as int),
            r is None ==> first_pending(self.entries()) is None,
    {
        let mut i: usize = 0;
        while i < self.selected.len()
            invariant
                i <= self.selected.len(),
                first_pending(self.entries()) == first_pending_from(self.entries(), i as nat),
            decreases self.selected.len() - i,
        {
            if self.selected[i].state == ScriptState::Pending {
                return Some(i);
            }
            i += 1;
        }
        None
    }

    /// The first entry, in queue order, that has not run yet; no other entry
    /// not run yet has a path before its path.
    pub fn first_runnable(&self) -> (r: Option<&Script>)
        requires
            self.wf(),
        ensures
            r matches Some(s) ==> first_pending(self.entries()) matches Some(i) && s@
                == self.entries()[i],
            r matches Some(s) ==> s.state == ScriptState::Pending && forall|j: int|
                0 <= j < self.entries().len() && (#[trigger] self.entries()[j]).state
                    == ScriptState::Pending ==> !seq_lt(self.entries()[j].path, s@.path),
            r is None ==> first_pending(self.entries()) is None,
    {
        match self.first_runnable_index() {
            Some(i) => {
                proof {
                    lemma_first_pending(self.entries());
                    let s = self.entries();
                    assert forall|j: int|
                        0 <= j < s.len() && (#[trigger] s[j]).state == ScriptState::Pending implies !seq_lt(
                        s[j].path,
                        s[i as int].path,
                    ) by {
                        if j == i {
                            lemma_seq_lt_asymmetric(s[j].path, s[j].path);
                        }
                    }
                }
                Some(&self.selected[i])
            },
            None => None,
        }
    }

    /// Applies `m` to the entry of `path`; nothing changes if there is none.
    pub fn mark(&mut self, path: &str, m: &Mark)
        requires
            old(self).wf(),
        ensures
            final(self).wf(),
            final(self).entries() == mark_path(old(self).entries(), path@, *m),
    {
        let ghost before = self.entries();
        let mut i: usize = 0;
        while i < self.selected.len()
            invariant
                self.selected.len() == before.len(),
                i <= self.selected.len(),
                forall|j: int|
                    0 <= j < i ==> #[trigger] self.entries()[j] == mark_path(before, path@, *m)[j],
                forall|j: int| i <= j < self.selected.len() ==> #[trigger] self.entries()[j] == before[j],
            decreases self.selected.len() - i,
        {
            if str_eq(self.selected[i].relative_path.as_str(), path) {
                let ghost sel0 = self.selected@;
                assert(self.entries()[i as int] == before[i as int]);
                assert(sel0[i as int]@ == before[i as int]);
                let mut e = self.selected.remove(i);
                assert(e == sel0[i as int]);
                match m {
                    Mark::Running => {
                        e.state = ScriptState::Running;
                    },
                    Mark::Finished(ms) => {
                        e.state = ScriptState::Finished;
                        e.elapsed = Some(*ms);
                    },
                    Mark::Failed(msg) => {
                        e.state = ScriptState::Error;
                        e.error = Some(msg.clone());
                    },
                }
                self.selected.insert(i, e);
                proof {
                    assert(self.selected@ =~= sel0.update(i as int, e));
                    assert forall|j: int| 0 <= j < self.selected.len() && j != i implies #[trigger] self.entries()[j]
                        == views(sel0)[j] by {
                        assert(self.selected@[j] == sel0[j]);
                    }
                    assert(e@ == marked(before[i as int], *m));
                    assert(self.entries()[i as int] == mark_path(before, path@, *m)[i as int]);
                }
            } else {
                assert(self.entries()[i as int] == before[i as int]);
                assert(self.entries()[i as int] == mark_path(before, path@, *m)[i as int]);
            }
            i += 1;
        }
        proof {
            assert(self.entries() =~= mark_path(before, path@, *m));
            assert(paths_of(self.entries()) =~= paths_of(before));
            let e = self.entries();
            assert forall|a: int, b: int|
                0 <= a < b < e.len() && (#[trigger] e[a]).state == ScriptState::Pending && (
                #[trigger] e[b]).state == ScriptState::Pending implies !seq_lt(e[b].path, e[a].path) by {
                assert(e[a] == before[a] && e[b] == before[b]);
            }
        }
    }

    pub fn new() -> (r: Self)
        ensures
            r.entries() == Seq::<ScriptView>::empty(),
            r.wf(),
    {
        let r = AppState { selected: Vec::new() };
        assert(r.entries() =~= Seq::<ScriptView>::empty());
        r
    }

    fn take_all(&mut self) -> (r: Vec<Script>)
        ensures
            r@ == old(self).selected@,
            final(self).selected@ == Seq::<Script>::empty(),
    {
        let mut items: Vec<Script> = Vec::new();
        std::mem::swap(&mut self.selected, &mut items);
        items
    }

    fn store_sorted(&mut self, items: Vec<Script>)
        requires
            paths_of(views(items@)).no_duplicates(),
        ensures
            final(self).wf(),
            final(self).holds_sorted(views(items@).to_multiset()),
    {
        let sorted = sort_queue(items);
        proof {
            lemma_no_duplicates_by_multiset(paths_of(views(items@)), paths_of(views(sorted@)));
            lemma_sorted_pending_in_path_order(views(sorted@));
        }
        self.selected = sorted;
    }

    /// Selects `script` unless it is selected already; the queue is then put
    /// in queue order.
    pub fn add(&mut self, script: String)
        requires
            old(self).wf(),
        ensures
            final(self).wf(),
            paths_of(old(self).entries()).contains(script@) ==> final(self).entries() == old(
                self,
            ).entries(),
            !paths_of(old(self).entries()).contains(script@) ==> final(self).holds_sorted(
                old(self).entries().push(pending(script@)).to_multiset(),
            ),
    {
        if !holds_path(&self.selected, &script) {
            let ghost before = self.entries();
            let mut items = self.take_all();
            items.push(Script::none(script.as_str()));
            proof {
                assert(views(items@) =~= before.push(pending(script@)));
                assert(paths_of(views(items@)) =~= paths_of(before).push(script@));
            }
            self.store_sorted(items);
        }
    }

    /// Deselects `script`; the queue is then put in queue order.
    pub fn remove(&mut self, script: String)
        requires
            old(self).wf(),
        ensures
            final(self).wf(),
            final(self).holds_sorted(
                without_paths(old(self).entries(), seq![script@]).to_multiset(),
            ),
    {
        let mut ps: Vec<String> = Vec::new();
        ps.push(script);
        assert(strs(ps@) =~= seq![script@]);
        let items = self.take_all();
        let kept = take_out_paths(items, ps.as_slice());
        self.store_sorted(kept);
    }

    /// Deselects every path of `script`; the queue is then put in queue order.
    pub fn remove_many(&mut self, script: &[String])
        requires
            old(self).wf(),
        ensures
            final(self).wf(),
            final(self).holds_sorted(without_paths(old(self).entries(), strs(script@)).to_multiset()),
    {
        let items = self.take_all();
        let kept = take_out_paths(items, script);
        self.store_sorted(kept);
    }

    /// Deselects `scripts` if it is selected and selects it otherwise; the
    /// queue is then put in queue order.
    pub fn toggle(&mut self, scripts: String)
        requires
            old(self).wf(),
        ensures
            final(self).wf(),
            paths_of(old(self).entries()).contains(scripts@) ==> final(self).holds_sorted(
                without_paths(old(self).entries(), seq![scripts@]).to_multiset(),
            ),
            !paths_of(old(self).entries()).contains(scripts@) ==> final(self).holds_sorted(
                old(self).entries().push(pending(scripts@)).to_multiset(),
            ),
    {
        if holds_path(&self.selected, &scripts) {
            self.remove(scripts);
        } else {
            self.add(scripts);
        }
    }

    /// All or nothing: if any path of `scripts` is selected, every path of
    /// `scripts` is deselected; otherwise every one is selected. The queue is
    /// then put in queue order.
    pub fn toggle_many(&mut self, scripts: &[String])
        requires
            old(self).wf(),
        ensures
            final(self).wf(),
            any_path_in(old(self).entries(), strs(scripts@)) ==> final(self).holds_sorted(
                without_paths(old(self).entries(), strs(scripts@)).to_multiset(),
            ),
            !any_path_in(old(self).entries(), strs(scripts@)) ==> final(self).holds_sorted(
                with_paths(old(self).entries(), strs(scripts@)).to_multiset(),
            ),
    {
        let mut i: usize = 0;
        let mut found = false;
        while i < self.selected.len()
            invariant
                i <= self.selected.len(),
                found == exists|j: int|
                    0 <= j < i && strs(scripts@).contains(#[trigger] self.entries()[j].path),
            decreases self.selected.len() - i,
        {
            if contains_path(scripts, &self.selected[i].relative_path) {
                assert(strs(scripts@).contains(self.entries()[i as int].path));
                found = true;
            }
            i += 1;
        }
        if found {
            self.remove_many(scripts);
        } else {
            self.add_many(scripts);
        }
    }

    /// Selects or deselects what a listed entry stands for: a file its own
    /// path (toggled), a directory the scripts below it, `children` (toggled
    /// all or nothing).
    pub fn select_current(&mut self, entry: &ListEntry, children: &[String])
        requires
            old(self).wf(),
        ensures
            final(self).wf(),
            entry.is_directory && any_path_in(old(self).entries(), strs(children@))
                ==> final(self).holds_sorted(
                without_paths(old(self).entries(), strs(children@)).to_multiset(),
            ),
            entry.is_directory && !any_path_in(old(self).entries(), strs(children@))
                ==> final(self).holds_sorted(
                with_paths(old(self).entries(), strs(children@)).to_multiset(),
            ),
            !entry.is_directory && paths_of(old(self).entries()).contains(entry.relative_path@)
                ==> final(self).holds_sorted(
                without_paths(old(self).entries(), seq![entry.relative_path@]).to_multiset(),
            ),
            !entry.is_directory && !paths_of(old(self).entries()).contains(entry.relative_path@)
                ==> final(self).holds_sorted(
                old(self).entries().push(pending(entry.relative_path@)).to_multiset(),
            ),
    {
        if entry.is_directory {
            self.toggle_many(children);
        } else {
            self.toggle(entry.relative_path.clone());
        }
    }

    /// Deselects what a listed entry stands for: a file its own path, a
    /// directory the scripts below it, `children`.
    pub fn unselect_current(&mut self, entry: &ListEntry, children: &[String])
        requires
            old(self).wf(),
        ensures
            final(self).wf(),
            entry.is_directory ==> final(self).holds_sorted(
                without_paths(old(self).entries(), strs(children@)).to_multiset(),
            ),
            !entry.is_directory ==> final(self).holds_sorted(
                without_paths(old(self).entries(), seq![entry.relative_path@]).to_multiset(),
            ),
    {
        if entry.is_directory {
            self.remove_many(children);
        } else {
            self.remove(entry.relative_path.clone());
        }
    }

    /// Selects every path of `scripts` that is not selected yet, each once;
    /// the queue is then put in queue order.
    pub fn add_many(&mut self, scripts: &[String])
        requires
            old(self).wf(),
        ensures
            final(self).wf(),
            final(self).holds_sorted(with_paths(old(self).entries(), strs(scripts@)).to_multiset()),
    {
        let ghost before = self.entries();
        let mut pool = self.take_all();
        let mut i: usize = 0;
        assert(strs(scripts@).take(0) =~= Seq::<Seq<char>>::empty());
        while i < scripts.len()
            invariant
                i <= scripts.len(),
                views(pool@) == with_paths(before, strs(scripts@).take(i as int)),
                paths_of(views(pool@)).no_duplicates(),
            decreases scripts.len() - i,
        {
            let ghost pool0 = pool@;
            assert(strs(scripts@).take(i + 1).drop_last() =~= strs(scripts@).take(i as int));
            if !holds_path(&pool, &scripts[i]) {
                pool.push(Script::none(scripts[i].as_str()));
                assert(views(pool@) =~= views(pool0).push(pending(scripts@[i as int]@)));
                assert(paths_of(views(pool@)) =~= paths_of(views(pool0)).push(scripts@[i as int]@));
            }
            i += 1;
        }
        assert(strs(scripts@).take(scripts.len() as int) =~= strs(scripts@));
        self.store_sorted(pool);
    }
}

} // verus!
