//! The reference snapshot: what was running when the user recorded it, plus the
//! paths they have since allowed by hand.
//!
//! A match here is a statement about the baseline, never about the process.

use crate::paths::{normalize_path, normalized_path};
use crate::process::ProcessRow;
use crate::state::{Snapshot, State, CURRENT_VERSION};
use crate::table::{
    clone_rows, clone_texts, distinct_texts, find_row, insert_text, lemma_rows_map,
    lemma_text_set, position_of, put_row, remove_text, rows_map, table_wf, text_set,
};
use crate::text::{
    chars_of, concatenated, lowercase, push_all, push_zero_padded, string_from_chars, to_lowercase,
    zero_padded,
};
use vstd::prelude::*;

verus! {

/// How a process relates to the reference snapshot.
#[derive(Clone, Copy, Debug, PartialEq, Eq, Structural)]
pub enum BaselineMatch {
    /// Its exact path was allowed by hand.
    Allowed,
    /// Its name is recorded, with this exact path.
    Path,
    /// Its name is recorded without any path.
    LegacyName,
    /// Its name is recorded, but Windows did not say where it runs from.
    PathUnknown,
    /// Its name is recorded with other paths only.
    PathMismatch,
    /// Its name is not recorded.
    Unrecorded,
}

/// The reference snapshot together with the paths allowed by hand.
#[derive(Clone, Debug)]
pub struct Baseline {
    records: Vec<(String, Vec<String>)>,
    allowed_paths: Vec<String>,
    onboarding_complete: bool,
    /// Set when an existing state file could not be read. While this is set
    /// the baseline in memory is empty but the file on disk is not, so saving
    /// would destroy a reference snapshot the user still has; `save` refuses
    /// instead.
    load_error: Option<String>,
}

/// What a process's lowercased name and normalized path say about it,
/// against recorded names (each with its set of paths) and allowed paths.
pub open spec fn match_of(
    records: Map<Seq<char>, Set<Seq<char>>>,
    allowed: Set<Seq<char>>,
    name: Seq<char>,
    path: Seq<char>,
) -> BaselineMatch {
    if path.len() > 0 && allowed.contains(path) {
        BaselineMatch::Allowed
    } else if !records.dom().contains(name) {
        BaselineMatch::Unrecorded
    } else if records[name] == Set::<Seq<char>>::empty() {
        BaselineMatch::LegacyName
    } else if path.len() == 0 {
        BaselineMatch::PathUnknown
    } else if records[name].contains(path) {
        BaselineMatch::Path
    } else {
        BaselineMatch::PathMismatch
    }
}

/// The snapshot a row list records: for each lowercased name, the set of
/// normalized paths of the rows carrying it, rows without a path left out.
pub open spec fn rows_snapshot(rows: Seq<ProcessRow>) -> Map<Seq<char>, Set<Seq<char>>>
    decreases rows.len(),
{
    if rows.len() == 0 {
        Map::empty()
    } else {
        let rest = rows_snapshot(rows.drop_last());
        let row = rows.last();
        let path = normalized_path(row.path@);
        let name = lowercase(row.name@);
        if row.path@.len() == 0 || path.len() == 0 {
            rest
        } else {
            rest.insert(
                name,
                if rest.dom().contains(name) {
                    rest[name]
                } else {
                    Set::empty()
                }.insert(path),
            )
        }
    }
}

/// `r` is the baseline the saved state `s` describes.
pub open spec fn describes(r: Baseline, s: State) -> bool {
    &&& r.records() == match s.snapshot {
        Some(snap) => rows_map(snap.executables@),
        None => Map::<Seq<char>, Set<Seq<char>>>::empty(),
    }
    &&& r.allowed() == text_set(s.allowed_paths@)
    &&& r.onboarded() == s.onboarding_complete
    &&& r.load_failure() is None
}

/// `s` is the state that saves `b` with the snapshot recorded at
/// `recorded_at`.
pub open spec fn saved_as(b: Baseline, recorded_at: Seq<char>, s: State) -> bool {
    &&& s.version == CURRENT_VERSION
    &&& s.onboarding_complete == b.onboarded()
    &&& text_set(s.allowed_paths@) == b.allowed()
    &&& distinct_texts(s.allowed_paths@)
    &&& s.snapshot matches Some(snap) && {
        &&& snap.recorded_at@ == recorded_at
        &&& rows_map(snap.executables@) == b.records()
        &&& table_wf(snap.executables@)
    }
}

/// The message of a refused save.
pub open spec fn refusal_message(error: Seq<char>) -> Seq<char> {
    error
        + " Nothing was written. Move or delete that file if you want to start a new baseline."@
}

impl Baseline {
    /// Recorded names, each with its set of paths.
    pub closed spec fn records(&self) -> Map<Seq<char>, Set<Seq<char>>> {
        rows_map(self.records@)
    }

    /// Paths allowed by hand.
    pub closed spec fn allowed(&self) -> Set<Seq<char>> {
        text_set(self.allowed_paths@)
    }

    /// Whether the first-run prompt has been answered.
    pub closed spec fn onboarded(&self) -> bool {
        self.onboarding_complete
    }

    /// Why the state file could not be read, if it could not.
    pub closed spec fn load_failure(&self) -> Option<Seq<char>> {
        match self.load_error {
            Some(e) => Some(e@),
            None => None,
        }
    }

    /// Each recorded name and allowed path is kept once.
    pub closed spec fn wf(&self) -> bool {
        table_wf(self.records@) && distinct_texts(self.allowed_paths@)
    }

    /// An empty baseline: nothing recorded or allowed, first-run prompt not
    /// answered, remembering why the state file could not be read, if it
    /// could not.
    pub fn empty(load_error: Option<String>) -> (r: Baseline)
        ensures
            r.wf(),
            r.records() == Map::<Seq<char>, Set<Seq<char>>>::empty(),
            r.allowed() == Set::<Seq<char>>::empty(),
            !r.onboarded(),
            r.load_failure() == match load_error {
                Some(e) => Some(e@),
                None => None::<Seq<char>>,
            },
    {
        Baseline {
            records: Vec::new(),
            allowed_paths: Vec::new(),
            onboarding_complete: false,
            load_error,
        }
    }

    /// The baseline a saved state describes.
    pub fn from_state(saved: State) -> (r: Baseline)
        ensures
            r.wf(),
            describes(r, saved),
    {
        let mut records: Vec<(String, Vec<String>)> = Vec::new();
        match &saved.snapshot {
            Some(snapshot) => {
                let t = &snapshot.executables;
                let mut i: usize = 0;
                while i < t.len()
                    invariant
                        i <= t.len(),
                        rows_map(records@) == rows_map(t@.take(i as int)),
                        table_wf(records@),
                    decreases t.len() - i,
                {
                    let name = t[i].0.clone();
                    let mut paths: Vec<String> = Vec::new();
                    let mut j: usize = 0;
                    while j < t[i].1.len()
                        invariant
                            i < t.len(),
                            j <= t@[i as int].1.len(),
                            text_set(paths@) == text_set(t@[i as int].1@.take(j as int)),
                            distinct_texts(paths@),
                        decreases t@[i as int].1.len() - j,
                    {
                        let p = t[i].1[j].clone();
                        insert_text(&mut paths, p);
                        proof {
                            let s = t@[i as int].1@;
                            assert(s.take(j + 1).drop_last() =~= s.take(j as int));
                        }
                        j = j + 1;
                    }
                    proof {
                        assert(t@[i as int].1@.take(t@[i as int].1.len() as int) =~= t@[
                            i as int
                        ].1@);
                        assert(t@.take(i + 1).drop_last() =~= t@.take(i as int));
                        assert(t@.take(i + 1).last() == t@[i as int]);
                    }
                    put_row(&mut records, name, paths);
                    i = i + 1;
                }
                assert(t@.take(t.len() as int) =~= t@);
            },
            None => {},
        }
        let mut allowed: Vec<String> = Vec::new();
        let a = &saved.allowed_paths;
        let mut k: usize = 0;
        while k < a.len()
            invariant
                k <= a.len(),
                text_set(allowed@) == text_set(a@.take(k as int)),
                distinct_texts(allowed@),
            decreases a.len() - k,
        {
            let p = a[k].clone();
            insert_text(&mut allowed, p);
            assert(a@.take(k + 1).drop_last() =~= a@.take(k as int));
            k = k + 1;
        }
        assert(a@.take(a.len() as int) =~= a@);
        Baseline {
            records,
            allowed_paths: allowed,
            onboarding_complete: saved.onboarding_complete,
            load_error: None,
        }
    }

    /// The baseline to start with, from the outcome of loading the state file.
    ///
    /// A state file that exists but could not be read is not replaced by an
    /// empty baseline that could later overwrite it: the error is kept and
    /// saving is refused. Only when there is no state file at all is a legacy
    /// `baseline.json` (already converted, when one was found) used. The
    /// second half of the result says whether it was.
    pub fn load(loaded: Result<State, String>, file_exists: bool, legacy: Option<State>) -> (r: (
        Baseline,
        bool,
    ))
        ensures
            r.0.wf(),
            match loaded {
                Ok(saved) => describes(r.0, saved) && !r.1,
                Err(e) => if file_exists {
                    r.0.records() == Map::<Seq<char>, Set<Seq<char>>>::empty() && r.0.allowed()
                        == Set::<Seq<char>>::empty() && !r.0.onboarded() && r.0.load_failure()
                        == Some(e@) && !r.1
                } else {
                    match legacy {
                        Some(imported) => describes(r.0, imported) && r.1,
                        None => r.0.records() == Map::<Seq<char>, Set<Seq<char>>>::empty()
                            && r.0.allowed() == Set::<Seq<char>>::empty() && !r.0.onboarded()
                            && r.0.load_failure() is None && !r.1,
                    }
                },
            },
    {
        match loaded {
            Ok(saved) => (Baseline::from_state(saved), false),
            Err(error) => {
                if file_exists {
                    (Baseline::empty(Some(error)), false)
                } else {
                    match legacy {
                        Some(imported) => (Baseline::from_state(imported), true),
                        None => (Baseline::empty(None), false),
                    }
                }
            },
        }
    }

    /// Whether a legacy `baseline.json` should be looked for: only when the
    /// state file could not be loaded because there is none.
    pub fn looks_for_legacy(loaded: &Result<State, String>, file_exists: bool) -> (r: bool)
        ensures
            r == (loaded is Err && !file_exists),
    {
        loaded.is_err() && !file_exists
    }

    /// How a process, by lowercased name and normalized path, relates to the
    /// baseline.
    pub fn classify_normalized(&self, normalized_name: &str, normalized_path: &str) -> (r:
        BaselineMatch)
        requires
            self.wf(),
        ensures
            r == match_of(self.records(), self.allowed(), normalized_name@, normalized_path@),
    {
        proof {
            lemma_rows_map(self.records@);
        }
        if !normalized_path.is_empty() {
            if let Some(_) = position_of(&self.allowed_paths, normalized_path) {
                proof {
                    lemma_text_set(self.allowed_paths@);
                }
                return BaselineMatch::Allowed;
            }
        }
        let i = match find_row(&self.records, normalized_name) {
            Some(i) => i,
            None => {
                return BaselineMatch::Unrecorded;
            },
        };
        let paths = &self.records[i].1;
        proof {
            lemma_text_set(paths@);
            assert(self.records()[normalized_name@] == text_set(paths@));
        }
        if paths.len() == 0 {
            assert(text_set(paths@) =~= Set::<Seq<char>>::empty());
            return BaselineMatch::LegacyName;
        }
        assert(text_set(paths@).contains(paths@[0]@));
        if normalized_path.is_empty() {
            return BaselineMatch::PathUnknown;
        }
        match position_of(paths, normalized_path) {
            Some(_) => BaselineMatch::Path,
            None => BaselineMatch::PathMismatch,
        }
    }

    /// How a process, by name and path as Windows reports them, relates to
    /// the baseline.
    pub fn classify_match(&self, name: &str, path: &str) -> (r: BaselineMatch)
        requires
            self.wf(),
        ensures
            r == match_of(self.records(), self.allowed(), lowercase(name@), normalized_path(path@)),
    {
        let normalized_name = to_lowercase(name);
        let normalized_path = normalize_path(path);
        self.classify_normalized(normalized_name.as_str(), normalized_path.as_str())
    }

    /// A baseline recording what the given rows run from, keeping the allowed
    /// paths and the load error, and marking the first-run prompt answered.
    pub fn replacement_from_rows(&self, rows: &[ProcessRow]) -> (r: Baseline)
        requires
            self.wf(),
        ensures
            r.wf(),
            r.records() == rows_snapshot(rows@),
            r.allowed() == self.allowed(),
            r.onboarded(),
            r.load_failure() == self.load_failure(),
    {
        let mut records: Vec<(String, Vec<String>)> = Vec::new();
        let mut i: usize = 0;
        while i < rows.len()
            invariant
                i <= rows.len(),
                rows_map(records@) == rows_snapshot(rows@.take(i as int)),
                table_wf(records@),
            decreases rows.len() - i,
        {
            let row = &rows[i];
            proof {
                assert(rows@.take(i + 1).drop_last() =~= rows@.take(i as int));
                assert(rows@.take(i + 1).last() == rows@[i as int]);
            }
            if !row.path.as_str().is_empty() {
                let path = normalize_path(row.path.as_str());
                if !path.as_str().is_empty() {
                    let name = to_lowercase(row.name.as_str());
                    proof {
                        lemma_rows_map(records@);
                    }
                    let mut paths: Vec<String> = match find_row(&records, name.as_str()) {
                        Some(k) => clone_texts(&records[k].1),
                        None => Vec::new(),
                    };
                    proof {
                        if rows_map(records@).dom().contains(name@) {
                            let k = choose|k: int| 0 <= k < records@.len() && records@[k].0@ == name@;
                            assert(rows_map(records@)[records@[k].0@] == text_set(records@[k].1@));
                        } else {
                            assert(text_set(paths@) =~= Set::<Seq<char>>::empty());
                        }
                    }
                    insert_text(&mut paths, path);
                    put_row(&mut records, name, paths);
                }
            }
            i = i + 1;
        }
        assert(rows@.take(rows.len() as int) =~= rows@);
        let load_error = match &self.load_error {
            Some(e) => Some(e.clone()),
            None => None,
        };
        Baseline {
            records,
            allowed_paths: clone_texts(&self.allowed_paths),
            onboarding_complete: true,
            load_error,
        }
    }

    /// Allows the exact path; says whether the allowance is new. A path that
    /// normalizes to nothing is never allowed.
    pub fn add(&mut self, path: &str) -> (r: bool)
        requires
            old(self).wf(),
        ensures
            final(self).wf(),
            r == (normalized_path(path@).len() > 0 && !old(self).allowed().contains(
                normalized_path(path@),
            )),
            final(self).allowed() == if normalized_path(path@).len() > 0 {
                old(self).allowed().insert(normalized_path(path@))
            } else {
                old(self).allowed()
            },
            final(self).records() == old(self).records(),
            final(self).onboarded() == old(self).onboarded(),
            final(self).load_failure() == old(self).load_failure(),
    {
        let normalized = normalize_path(path);
        if normalized.as_str().is_empty() {
            return false;
        }
        insert_text(&mut self.allowed_paths, normalized)
    }

    /// Withdraws the allowance of the exact path; says whether there was one.
    pub fn remove(&mut self, path: &str) -> (r: bool)
        requires
            old(self).wf(),
        ensures
            final(self).wf(),
            r == old(self).allowed().contains(normalized_path(path@)),
            final(self).allowed() == old(self).allowed().remove(normalized_path(path@)),
            final(self).records() == old(self).records(),
            final(self).onboarded() == old(self).onboarded(),
            final(self).load_failure() == old(self).load_failure(),
    {
        let normalized = normalize_path(path);
        remove_text(&mut self.allowed_paths, normalized.as_str())
    }

    /// Marks the first-run prompt answered.
    pub fn complete_onboarding(&mut self)
        ensures
            final(self).onboarded(),
            final(self).records() == old(self).records(),
            final(self).allowed() == old(self).allowed(),
            final(self).load_failure() == old(self).load_failure(),
            old(self).wf() ==> final(self).wf(),
    {
        self.onboarding_complete = true;
    }

    /// Whether the first-run prompt has been answered.
    pub fn onboarding_complete(&self) -> (r: bool)
        ensures
            r == self.onboarded(),
    {
        self.onboarding_complete
    }

    /// Whether any executable is recorded.
    pub fn is_recorded(&self) -> (r: bool)
        requires
            self.wf(),
        ensures
            r == (self.records() != Map::<Seq<char>, Set<Seq<char>>>::empty()),
    {
        proof {
            lemma_rows_map(self.records@);
            if self.records@.len() > 0 {
                assert(self.records().dom().contains(self.records@[0].0@));
            } else {
                assert(self.records() =~= Map::<Seq<char>, Set<Seq<char>>>::empty());
            }
        }
        self.records.len() > 0
    }

    /// Number of recorded executable names.
    pub fn recorded_count(&self) -> (r: usize)
        requires
            self.wf(),
        ensures
            r == self.records().dom().len(),
    {
        proof {
            lemma_rows_count(self.records@);
        }
        self.records.len()
    }

    /// Number of allowed paths.
    pub fn allowed_count(&self) -> (r: usize)
        requires
            self.wf(),
        ensures
            r == self.allowed().len(),
    {
        proof {
            lemma_texts_count(self.allowed_paths@);
        }
        self.allowed_paths.len()
    }

    /// The state to write: the snapshot recorded at `recorded_at`, the allowed
    /// paths and the answer to the first-run prompt. Refused while the state
    /// file on disk could not be read, so that file is never overwritten.
    pub fn save(&self, recorded_at: String) -> (r: Result<State, String>)
        requires
            self.wf(),
        ensures
            match self.load_failure() {
                Some(e) => r matches Err(m) && m@ == refusal_message(e),
                None => r matches Ok(s) && saved_as(*self, recorded_at@, s),
            },
    {
        match &self.load_error {
            Some(error) => {
                return Err(
                    concatenated(
                        error.as_str(),
                        " Nothing was written. Move or delete that file if you want to start a new baseline.",
                    ),
                );
            },
            None => {},
        }
        let executables = clone_rows(&self.records);
        Ok(
            State {
                version: CURRENT_VERSION,
                snapshot: Some(Snapshot { recorded_at, executables }),
                allowed_paths: clone_texts(&self.allowed_paths),
                onboarding_complete: self.onboarding_complete,
            },
        )
    }
}

/// A list of distinct texts has as many elements as its set.
proof fn lemma_texts_count(v: Seq<String>)
    requires
        distinct_texts(v),
    ensures
        text_set(v).len() == v.len(),
        text_set(v).finite(),
    decreases v.len(),
{
    if v.len() > 0 {
        let p = v.drop_last();
        assert(distinct_texts(p)) by {
            assert forall|i: int, j: int| 0 <= i < j < p.len() implies (#[trigger] p[i])@
                != (#[trigger] p[j])@ by {
                assert(p[i] == v[i] && p[j] == v[j]);
            }
        }
        lemma_texts_count(p);
        lemma_text_set(p);
        assert(!text_set(p).contains(v.last()@)) by {
            if text_set(p).contains(v.last()@) {
                let i = choose|i: int| 0 <= i < p.len() && p[i]@ == v.last()@;
                assert(v[i]@ == v[v.len() - 1]@);
            }
        }
    }
}

/// A table with distinct names maps as many names as it has rows.
proof fn lemma_rows_count(t: Seq<(String, Vec<String>)>)
    requires
        table_wf(t),
    ensures
        rows_map(t).dom().len() == t.len(),
        rows_map(t).dom().finite(),
    decreases t.len(),
{
    if t.len() > 0 {
        let p = t.drop_last();
        assert(table_wf(p)) by {
            assert forall|i: int, j: int| 0 <= i < j < p.len() implies (#[trigger] p[i]).0@
                != (#[trigger] p[j]).0@ by {
                assert(p[i] == t[i] && p[j] == t[j]);
            }
            assert forall|i: int| 0 <= i < p.len() implies distinct_texts((#[trigger] p[i]).1@) by {
                assert(p[i] == t[i]);
            }
        }
        lemma_rows_count(p);
        lemma_rows_map(p);
        assert(!rows_map(p).dom().contains(t.last().0@)) by {
            if rows_map(p).dom().contains(t.last().0@) {
                let i = choose|i: int| 0 <= i < p.len() && p[i].0@ == t.last().0@;
                assert(t[i].0@ == t[t.len() - 1].0@);
            }
        }
        assert(rows_map(t).dom() =~= rows_map(p).dom().insert(t.last().0@));
    }
}

// ---------------------------------------------------------------------------
// Laws
// ---------------------------------------------------------------------------

/// An allowed path is allowed whatever name it runs under and whatever the
/// How a process stands against the snapshot, case by case: an allowed
/// path wins; a name that is not recorded is unrecorded; a name recorded
/// without paths (from the oldest format) matches by name only; a recorded
/// name with paths is a path match when its path is among them, a mismatch
/// when its path is elsewhere, and unknown when the process has no path.
pub proof fn lemma_match_cases(
    records: Map<Seq<char>, Set<Seq<char>>>,
    allowed: Set<Seq<char>>,
    name: Seq<char>,
    path: Seq<char>,
)
    ensures
        path.len() > 0 && allowed.contains(path) ==> match_of(records, allowed, name, path)
            == BaselineMatch::Allowed,
        !(path.len() > 0 && allowed.contains(path)) ==> {
            &&& !records.dom().contains(name) ==> match_of(records, allowed, name, path)
                == BaselineMatch::Unrecorded
            &&& records.dom().contains(name) && records[name].is_empty() ==> match_of(
                records,
                allowed,
                name,
                path,
            ) == BaselineMatch::LegacyName
            &&& records.dom().contains(name) && !records[name].is_empty() && path.len() == 0
                ==> match_of(records, allowed, name, path) == BaselineMatch::PathUnknown
            &&& records.dom().contains(name) && !records[name].is_empty() && path.len() > 0
                && records[name].contains(path) ==> match_of(records, allowed, name, path)
                == BaselineMatch::Path
            &&& records.dom().contains(name) && !records[name].is_empty() && path.len() > 0
                && !records[name].contains(path) ==> match_of(records, allowed, name, path)
                == BaselineMatch::PathMismatch
        },
{
    if records.dom().contains(name) && !records[name].is_empty() {
        assert(records[name] != Set::<Seq<char>>::empty()) by {
            let x = records[name].choose();
            assert(records[name].contains(x));
        }
    }
    if records.dom().contains(name) && records[name].is_empty() {
        assert(records[name] =~= Set::<Seq<char>>::empty());
    }
}

/// snapshot records: allowing it and then classifying it gives `Allowed`.
pub proof fn lemma_allowance_wins(
    records: Map<Seq<char>, Set<Seq<char>>>,
    allowed: Set<Seq<char>>,
    name: Seq<char>,
    path: Seq<char>,
)
    requires
        normalized_path(path).len() > 0,
    ensures
        match_of(records, allowed.insert(normalized_path(path)), name, normalized_path(path))
            == BaselineMatch::Allowed,
{
}

/// Trust needs the exact path: a process is `Path`-matched only when its
/// path is known and recorded for its name.
pub proof fn lemma_path_match_needs_recorded_path(
    records: Map<Seq<char>, Set<Seq<char>>>,
    allowed: Set<Seq<char>>,
    name: Seq<char>,
    path: Seq<char>,
)
    ensures
        match_of(records, allowed, name, path) == BaselineMatch::Path ==> {
            &&& path.len() > 0
            &&& records.dom().contains(name)
            &&& records[name].contains(path)
        },
{
}

/// Allowing a path that was not allowed and then withdrawing it leaves the
/// allowances as they were.
pub proof fn lemma_add_then_remove(allowed: Set<Seq<char>>, path: Seq<char>)
    requires
        normalized_path(path).len() > 0,
        !allowed.contains(normalized_path(path)),
    ensures
        allowed.insert(normalized_path(path)).remove(normalized_path(path)) == allowed,
{
    assert(allowed.insert(normalized_path(path)).remove(normalized_path(path)) =~= allowed);
}

/// Every path a row list runs from is recorded for its lowercased name.
proof fn lemma_rows_snapshot_records(rows: Seq<ProcessRow>, i: int)
    requires
        0 <= i < rows.len(),
        normalized_path(rows[i].path@).len() > 0,
        rows[i].path@.len() > 0,
    ensures
        rows_snapshot(rows).dom().contains(lowercase(rows[i].name@)),
        rows_snapshot(rows)[lowercase(rows[i].name@)].contains(normalized_path(rows[i].path@)),
    decreases rows.len(),
{
    if i < rows.len() - 1 {
        lemma_rows_snapshot_records(rows.drop_last(), i);
        assert(rows.drop_last()[i] == rows[i]);
    }
}

/// After recording the running processes as the snapshot, every process
/// whose path Windows reported is known: it classifies as `Path`, or as
/// `Allowed` when its path is allowed by hand.
pub proof fn lemma_recorded_rows_are_known(
    rows: Seq<ProcessRow>,
    allowed: Set<Seq<char>>,
    i: int,
)
    requires
        0 <= i < rows.len(),
        rows[i].path@.len() > 0,
        normalized_path(rows[i].path@).len() > 0,
    ensures
        match_of(rows_snapshot(rows), allowed, lowercase(rows[i].name@), normalized_path(
            rows[i].path@,
        )) == BaselineMatch::Path || match_of(
            rows_snapshot(rows),
            allowed,
            lowercase(rows[i].name@),
            normalized_path(rows[i].path@),
        ) == BaselineMatch::Allowed,
{
    lemma_rows_snapshot_records(rows, i);
}

/// Saving a baseline and reading the saved state back gives the same
/// recorded executables, allowances and first-run answer.
pub proof fn lemma_save_round_trip(b: Baseline, recorded_at: Seq<char>, s: State, r: Baseline)
    requires
        saved_as(b, recorded_at, s),
        describes(r, s),
    ensures
        r.records() == b.records(),
        r.allowed() == b.allowed(),
        r.onboarded() == b.onboarded(),
{
}

/// The recording time of a snapshot: `YYYY-MM-DDTHH:MM:SSZ`, each field
/// zero-padded.
pub open spec fn utc_text(year: u16, month: u16, day: u16, hour: u16, minute: u16, second: u16) -> Seq<
    char,
> {
    zero_padded(year as nat, 4) + "-"@ + zero_padded(month as nat, 2) + "-"@ + zero_padded(
        day as nat,
        2,
    ) + "T"@ + zero_padded(hour as nat, 2) + ":"@ + zero_padded(minute as nat, 2) + ":"@
        + zero_padded(second as nat, 2) + "Z"@
}

/// Formats a UTC time the way snapshots record it.
pub fn utc_stamp(year: u16, month: u16, day: u16, hour: u16, minute: u16, second: u16) -> (r:
    String)
    ensures
        r@ == utc_text(year, month, day, hour, minute, second),
{
    let dash = chars_of("-");
    let colon = chars_of(":");
    let mut out: Vec<char> = Vec::new();
    push_zero_padded(&mut out, year as u64, 4);
    push_all(&mut out, &dash);
    push_zero_padded(&mut out, month as u64, 2);
    push_all(&mut out, &dash);
    push_zero_padded(&mut out, day as u64, 2);
    let t = chars_of("T");
    push_all(&mut out, &t);
    push_zero_padded(&mut out, hour as u64, 2);
    push_all(&mut out, &colon);
    push_zero_padded(&mut out, minute as u64, 2);
    push_all(&mut out, &colon);
    push_zero_padded(&mut out, second as u64, 2);
    let z = chars_of("Z");
    push_all(&mut out, &z);
    string_from_chars(out.as_slice())
}

} // verus!
