//! The run history: for each script path, the checksum of the content that
//! last ran and whether that run succeeded.

use vstd::prelude::*;
use crate::entries::EntryStatus;
use crate::text::str_eq;

verus! {

/// The outcome recorded for one path.
#[derive(Debug, Clone, Copy, PartialEq, Eq, Structural)]
pub struct ScriptDatabaseRecord {
    pub crc: u32,
    pub result: bool,
}

/// A stored row; `record` is absent where the stored values could not be read.
#[derive(Debug, Clone)]
pub struct HistoryRow {
    pub name: String,
    pub record: Option<ScriptDatabaseRecord>,
}

/// What the history holds for `path`: nothing, an unreadable row, or a record.
pub open spec fn stored(
    m: Map<Seq<char>, Option<ScriptDatabaseRecord>>,
    path: Seq<char>,
) -> Option<Option<ScriptDatabaseRecord>> {
    if m.contains_key(path) {
        Some(m[path])
    } else {
        None
    }
}

/// The status of a script whose content has checksum `crc`, given what the
/// history holds for its path.
pub open spec fn status_of(entry: Option<Option<ScriptDatabaseRecord>>, crc: u32) -> EntryStatus {
    match entry {
        None => EntryStatus::NeverStarted,
        Some(None) => EntryStatus::Unknown,
        Some(Some(r)) => if r.crc == crc {
            EntryStatus::Finished(r.result)
        } else {
            EntryStatus::Changed
        },
    }
}

/// The run history, one row per path; later runs overwrite earlier ones.
pub struct ScriptDatabase {
    rows: Vec<HistoryRow>,
}

impl ScriptDatabase {
    spec fn holds(&self, p: Seq<char>) -> bool {
        exists|i: int| 0 <= i < self.rows.len() && (#[trigger] self.rows@[i]).name@ == p
    }

    spec fn row_of(&self, p: Seq<char>) -> int {
        choose|i: int| 0 <= i < self.rows.len() && (#[trigger] self.rows@[i]).name@ == p
    }

    proof fn lemma_row_of(&self, p: Seq<char>, i: int)
        requires
            self.wf(),
            0 <= i < self.rows.len(),
            self.rows@[i].name@ == p,
        ensures
            self.holds(p),
            self.row_of(p) == i,
    {
        assert(self.holds(p));
        let k = self.row_of(p);
        assert(self.rows@[k].name@ == self.rows@[i].name@);
    }

    /// No two rows share a path.
    pub closed spec fn wf(&self) -> bool {
        forall|i: int, j: int|
            0 <= i < self.rows.len() && 0 <= j < self.rows.len() && i != j ==> (
            #[trigger] self.rows@[i]).name@ != (#[trigger] self.rows@[j]).name@
    }

    pub closed spec fn view(&self) -> Map<Seq<char>, Option<ScriptDatabaseRecord>> {
        Map::new(|p: Seq<char>| self.holds(p), |p: Seq<char>| self.rows@[self.row_of(p)].record)
    }

    /// An empty history.
    pub fn new() -> (r: Self)
        ensures
            r.wf(),
            r.view() == Map::<Seq<char>, Option<ScriptDatabaseRecord>>::empty(),
    {
        let r = ScriptDatabase { rows: Vec::new() };
        assert(r.view() =~= Map::<Seq<char>, Option<ScriptDatabaseRecord>>::empty());
        r
    }

    fn find(&self, path: &str) -> (r: Option<usize>)
        requires
            self.wf(),
        ensures
            r matches Some(i) ==> i < self.rows.len() && self.rows@[i as int].name@ == path@
                && self.view().contains_key(path@) && self.view()[path@] == self.rows@[i as int].record,
            r is None ==> !self.view().contains_key(path@),
    {
        let mut i: usize = 0;
        while i < self.rows.len()
            invariant
                self.wf(),
                i <= self.rows.len(),
                forall|j: int| 0 <= j < i ==> (#[trigger] self.rows@[j]).name@ != path@,
            decreases self.rows.len() - i,
        {
            if str_eq(self.rows[i].name.as_str(), path) {
                proof {
                    self.lemma_row_of(path@, i as int);
                }
                return Some(i);
            }
            i += 1;
        }
        None
    }

    fn put(&mut self, name: String, record: Option<ScriptDatabaseRecord>)
        requires
            old(self).wf(),
        ensures
            final(self).wf(),
            final(self).view() == old(self).view().insert(name@, record),
    {
        let ghost before = self.view();
        match self.find(name.as_str()) {
            Some(i) => {
                let ghost old_db = *self;
                let ghost rows0 = self.rows@;
                self.rows.remove(i);
                self.rows.insert(i, HistoryRow { name, record });
                proof {
                    assert(self.rows@ =~= rows0.update(i as int, HistoryRow { name, record }));
                    assert forall|a: int, b: int|
                        0 <= a < self.rows.len() && 0 <= b < self.rows.len() && a != b implies (
                        #[trigger] self.rows@[a]).name@ != (#[trigger] self.rows@[b]).name@ by {
                        assert(old_db.rows@[a].name@ == self.rows@[a].name@);
                        assert(old_db.rows@[b].name@ == self.rows@[b].name@);
                    }
                    self.lemma_row_of(name@, i as int);
                    assert forall|p: Seq<char>| p != name@ implies #[trigger] self.holds(p) == old_db.holds(p)
                        && (self.holds(p) ==> self.rows@[self.row_of(p)].record == rows0[old_db.row_of(p)].record) by {
                        if old_db.holds(p) {
                            let k = old_db.row_of(p);
                            old_db.lemma_row_of(p, k);
                            assert(self.rows@[k] == rows0[k]);
                            self.lemma_row_of(p, k);
                        }
                        if self.holds(p) {
                            let k = self.row_of(p);
                            assert(rows0[k] == self.rows@[k]);
                            old_db.lemma_row_of(p, k);
                        }
                    }
                    assert(self.view() =~= before.insert(name@, record));
                }
            },
            None => {
                let ghost old_db = *self;
                let ghost rows0 = self.rows@;
                self.rows.push(HistoryRow { name, record });
                proof {
                    assert forall|a: int, b: int|
                        0 <= a < self.rows.len() && 0 <= b < self.rows.len() && a != b implies (
                        #[trigger] self.rows@[a]).name@ != (#[trigger] self.rows@[b]).name@ by {
                        if a < rows0.len() {
                            assert(self.rows@[a] == rows0[a]);
                            assert(!before.contains_key(rows0[a].name@) ==> !old_db.holds(rows0[a].name@));
                        }
                        if b < rows0.len() {
                            assert(self.rows@[b] == rows0[b]);
                        }
                        if a < rows0.len() && b == rows0.len() {
                            assert(old_db.holds(rows0[a].name@));
                        }
                        if b < rows0.len() && a == rows0.len() {
                            assert(old_db.holds(rows0[b].name@));
                        }
                    }
                    self.lemma_row_of(name@, rows0.len() as int);
                    assert forall|p: Seq<char>| p != name@ implies #[trigger] self.holds(p) == old_db.holds(p)
                        && (self.holds(p) ==> self.rows@[self.row_of(p)].record == rows0[old_db.row_of(p)].record) by {
                        if old_db.holds(p) {
                            let k = old_db.row_of(p);
                            old_db.lemma_row_of(p, k);
                            assert(self.rows@[k] == rows0[k]);
                            self.lemma_row_of(p, k);
                        }
                        if self.holds(p) {
                            let k = self.row_of(p);
                            assert(rows0[k] == self.rows@[k]);
                            old_db.lemma_row_of(p, k);
                        }
                    }
                    assert(self.view() =~= before.insert(name@, record));
                }
            },
        }
    }

    /// Records that the content of `file` with checksum `crc` ran, and whether
    /// it succeeded, in place of whatever was recorded for `file` before.
    pub fn insert(&mut self, file: String, crc: u32, result: bool)
        requires
            old(self).wf(),
        ensures
            final(self).wf(),
            final(self).view() == old(self).view().insert(
                file@,
                Some(ScriptDatabaseRecord { crc, result }),
            ),
    {
        self.put(file, Some(ScriptDatabaseRecord { crc, result }));
    }

    /// Records that a row is stored for `file` whose values cannot be read.
    pub fn insert_unreadable(&mut self, file: String)
        requires
            old(self).wf(),
        ensures
            final(self).wf(),
            final(self).view() == old(self).view().insert(file@, None),
    {
        self.put(file, None);
    }

    /// The status of `file_path` whose content has checksum `crc`:
    /// `NeverStarted` without a row, `Unknown` for an unreadable one,
    /// `Finished` with the recorded result when the checksum matches, and
    /// `Changed` when it differs.
    pub fn get_file_status(&self, file_path: &str, crc: u32) -> (r: EntryStatus)
        requires
            self.wf(),
        ensures
            r == status_of(stored(self.view(), file_path@), crc),
    {
        match self.find(file_path) {
            None => EntryStatus::NeverStarted,
            Some(i) => match self.rows[i].record {
                None => EntryStatus::Unknown,
                Some(rec) => if rec.crc == crc {
                    EntryStatus::Finished(rec.result)
                } else {
                    EntryStatus::Changed
                },
            },
        }
    }
}

/// Once the outcome of a run of content with checksum `crc` has been recorded
/// for `path`, the history reports that very outcome for the same content,
/// and `Changed` for content with any other checksum.
pub proof fn lemma_recorded_outcome_reproduced(
    m: Map<Seq<char>, Option<ScriptDatabaseRecord>>,
    path: Seq<char>,
    crc: u32,
    result: bool,
    other: u32,
)
    requires
        other != crc,
    ensures
        status_of(stored(m.insert(path, Some(ScriptDatabaseRecord { crc, result })), path), crc)
            == EntryStatus::Finished(result),
        status_of(stored(m.insert(path, Some(ScriptDatabaseRecord { crc, result })), path), other)
            == EntryStatus::Changed,
{
}

} // verus!
