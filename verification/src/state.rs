//! The saved state: the reference snapshot, the paths allowed by hand, and
//! whether the first-run prompt has been answered.
//!
//! Reading and writing the file happens outside this crate; what is decided
//! here is which saved state is accepted, the normal form it is kept in, and
//! what a legacy `baseline.json` document turns into.

use crate::paths::{normalize_path, normalized_path};
use crate::table::{
    distinct_texts, insert_text, lemma_rows_map, lemma_text_set, put_row, rows_map,
    table_wf, text_set,
};
use crate::text::{concatenated, same_text, decimal, decimal_string, lowercase, to_lowercase};
use vstd::prelude::*;

pub use crate::paths::command_executable;
pub use crate::paths::expand_environment_with;

verus! {

/// Highest state-file version this build can read. Older files load and are
/// upgraded in memory; newer ones are refused rather than silently replaced.
pub const CURRENT_VERSION: u32 = 2;

/// What was running when the reference snapshot was recorded: for each
/// lowercased executable name, the normalized paths it ran from.
#[derive(Clone, Debug)]
pub struct Snapshot {
    pub recorded_at: String,
    pub executables: Vec<(String, Vec<String>)>,
}

/// Everything kept between runs.
#[derive(Clone, Debug)]
pub struct State {
    pub version: u32,
    pub snapshot: Option<Snapshot>,
    pub allowed_paths: Vec<String>,
    pub onboarding_complete: bool,
}

impl Default for Snapshot {
    /// No recording time and no executables.
    fn default() -> (r: Self)
        ensures
            r.recorded_at@ == Seq::<char>::empty(),
            r.executables@.len() == 0,
    {
        Snapshot { recorded_at: String::new(), executables: Vec::new() }
    }
}

impl Default for State {
    /// The state of a first run: current version, no snapshot, nothing
    /// allowed, first-run prompt not yet answered.
    fn default() -> (r: Self)
        ensures
            r.version == CURRENT_VERSION,
            r.snapshot is None,
            r.allowed_paths@.len() == 0,
            !r.onboarding_complete,
    {
        State {
            version: CURRENT_VERSION,
            snapshot: None,
            allowed_paths: Vec::new(),
            onboarding_complete: false,
        }
    }
}

/// The set of the normalized forms of the given paths, blank ones left out.
pub open spec fn normalized_texts(v: Seq<String>) -> Set<Seq<char>>
    decreases v.len(),
{
    if v.len() == 0 {
        Set::empty()
    } else {
        let rest = normalized_texts(v.drop_last());
        let q = normalized_path(v.last()@);
        if q.len() > 0 {
            rest.insert(q)
        } else {
            rest
        }
    }
}

/// The map a table describes once every name is lowercased and every path
/// normalized; a later row for a name replaces an earlier one.
pub open spec fn normalized_rows_map(t: Seq<(String, Vec<String>)>) -> Map<
    Seq<char>,
    Set<Seq<char>>,
>
    decreases t.len(),
{
    if t.len() == 0 {
        Map::empty()
    } else {
        normalized_rows_map(t.drop_last()).insert(
            lowercase(t.last().0@),
            normalized_texts(t.last().1@),
        )
    }
}

/// `r` is `s` in normal form: the same version, recording time and answer to
/// the first-run prompt, with names lowercased, paths normalized, blank paths
/// dropped, and each name and path kept once.
pub open spec fn normalized_state(r: State, s: State) -> bool {
    &&& r.version == s.version
    &&& r.onboarding_complete == s.onboarding_complete
    &&& text_set(r.allowed_paths@) == normalized_texts(s.allowed_paths@)
    &&& distinct_texts(r.allowed_paths@)
    &&& match (r.snapshot, s.snapshot) {
        (None, None) => true,
        (Some(a), Some(b)) => {
            &&& a.recorded_at@ == b.recorded_at@
            &&& rows_map(a.executables@) == normalized_rows_map(b.executables@)
            &&& table_wf(a.executables@)
        },
        _ => false,
    }
}

/// The distinct normalized forms of the given paths, blank ones left out.
fn normalized_list(paths: &Vec<String>) -> (r: Vec<String>)
    ensures
        text_set(r@) == normalized_texts(paths@),
        distinct_texts(r@),
{
    let mut r: Vec<String> = Vec::new();
    let mut i: usize = 0;
    while i < paths.len()
        invariant
            i <= paths.len(),
            text_set(r@) == normalized_texts(paths@.take(i as int)),
            distinct_texts(r@),
        decreases paths.len() - i,
    {
        let q = normalize_path(paths[i].as_str());
        proof {
            assert(paths@.take(i + 1).drop_last() =~= paths@.take(i as int));
            assert(paths@.take(i + 1).last() == paths@[i as int]);
        }
        if !q.as_str().is_empty() {
            insert_text(&mut r, q);
        }
        i = i + 1;
    }
    assert(paths@.take(paths.len() as int) =~= paths@);
    r
}

impl Snapshot {
    /// The snapshot with executable names lowercased and paths normalized,
    /// blank paths dropped.
    pub fn normalized(self) -> (r: Snapshot)
        ensures
            r.recorded_at@ == self.recorded_at@,
            rows_map(r.executables@) == normalized_rows_map(self.executables@),
            table_wf(r.executables@),
    {
        let mut table: Vec<(String, Vec<String>)> = Vec::new();
        let mut i: usize = 0;
        while i < self.executables.len()
            invariant
                i <= self.executables.len(),
                rows_map(table@) == normalized_rows_map(self.executables@.take(i as int)),
                table_wf(table@),
            decreases self.executables.len() - i,
        {
            let name = to_lowercase(self.executables[i].0.as_str());
            let paths = normalized_list(&self.executables[i].1);
            proof {
                let t = self.executables@;
                assert(t.take(i + 1).drop_last() =~= t.take(i as int));
                assert(t.take(i + 1).last() == t[i as int]);
            }
            put_row(&mut table, name, paths);
            i = i + 1;
        }
        assert(self.executables@.take(self.executables.len() as int) =~= self.executables@);
        Snapshot { recorded_at: self.recorded_at, executables: table }
    }
}

/// The refusal of a state file written by a newer build.
pub open spec fn newer_version_message(version: u32) -> Seq<char> {
    "state file was written by a newer version of ProcDrift (state version "@ + decimal(
        version as nat,
    ) + ", this build understands "@ + decimal(CURRENT_VERSION as nat)
        + "). Refusing to load it so the existing baseline is not overwritten."@
}

impl State {
    /// The state with allowed paths normalized and blank ones dropped, and
    /// its snapshot normalized.
    pub fn normalized(self) -> (r: State)
        ensures
            normalized_state(r, self),
    {
        let allowed = normalized_list(&self.allowed_paths);
        let snapshot = match self.snapshot {
            Some(s) => Some(s.normalized()),
            None => None,
        };
        State {
            version: self.version,
            snapshot,
            allowed_paths: allowed,
            onboarding_complete: self.onboarding_complete,
        }
    }

    /// Accepts a parsed state file. Only state written by a *newer* build is
    /// refused: an older file loads and is upgraded in memory. Accepted state
    /// comes back in normal form.
    pub fn load(parsed: State) -> (r: Result<State, String>)
        ensures
            parsed.version > CURRENT_VERSION ==> (r matches Err(e) && e@ == newer_version_message(
                parsed.version,
            )),
            parsed.version <= CURRENT_VERSION ==> (r matches Ok(s) && normalized_state(s, parsed)),
    {
        if parsed.version > CURRENT_VERSION {
            let a = concatenated(
                "state file was written by a newer version of ProcDrift (state version ",
                decimal_string(parsed.version as u64).as_str(),
            );
            let b = concatenated(a.as_str(), ", this build understands ");
            let c = concatenated(b.as_str(), decimal_string(CURRENT_VERSION as u64).as_str());
            let d = concatenated(
                c.as_str(),
                "). Refusing to load it so the existing baseline is not overwritten.",
            );
            return Err(d);
        }
        Ok(parsed.normalized())
    }
}

// ---------------------------------------------------------------------------
// Legacy baseline documents
// ---------------------------------------------------------------------------

/// A JSON document, holding what the legacy import reads. Object members keep
/// the order the document gives them.
#[derive(Debug)]
pub enum JsonValue {
    Null,
    Bool(bool),
    Number,
    String(String),
    Array(Vec<JsonValue>),
    Object(Vec<(String, JsonValue)>),
}

/// The value of the first member named `key`.
pub open spec fn field(members: Seq<(String, JsonValue)>, key: Seq<char>) -> Option<JsonValue>
    decreases members.len(),
{
    if members.len() == 0 {
        None
    } else if members[0].0@ == key {
        Some(members[0].1)
    } else {
        field(members.drop_first(), key)
    }
}

/// The member `key` of `v`, when `v` is an object that has one.
pub open spec fn member(v: JsonValue, key: Seq<char>) -> Option<JsonValue> {
    match v {
        JsonValue::Object(members) => field(members@, key),
        _ => None,
    }
}

/// The normalized, non-blank string items of a JSON array, as a set.
pub open spec fn item_paths(items: Seq<JsonValue>) -> Set<Seq<char>>
    decreases items.len(),
{
    if items.len() == 0 {
        Set::empty()
    } else {
        let rest = item_paths(items.drop_last());
        match items.last() {
            JsonValue::String(s) => {
                let q = normalized_path(s@);
                if q.len() > 0 {
                    rest.insert(q)
                } else {
                    rest
                }
            },
            _ => rest,
        }
    }
}

/// The paths a legacy record carries: its `paths` array, when it has one.
pub open spec fn record_paths(record: JsonValue) -> Set<Seq<char>> {
    match member(record, "paths"@) {
        Some(JsonValue::Array(items)) => item_paths(items@),
        _ => Set::empty(),
    }
}

/// The executables a legacy `processes` object lists with at least one
/// path, names lowercased; a later name replaces an earlier one.
pub open spec fn legacy_table(processes: Seq<(String, JsonValue)>) -> Map<
    Seq<char>,
    Set<Seq<char>>,
>
    decreases processes.len(),
{
    if processes.len() == 0 {
        Map::empty()
    } else {
        let rest = legacy_table(processes.drop_last());
        let paths = record_paths(processes.last().1);
        if paths == Set::<Seq<char>>::empty() {
            rest
        } else {
            rest.insert(lowercase(processes.last().0@), paths)
        }
    }
}

/// The recording time a legacy document gives, or the empty text.
pub open spec fn legacy_recorded_at(root: JsonValue) -> Seq<char> {
    match member(root, "recorded_at"@) {
        Some(JsonValue::String(s)) => s@,
        _ => Seq::empty(),
    }
}

/// The value of the first member of an object named `key`.
fn find_member<'a>(members: &'a Vec<(String, JsonValue)>, key: &str) -> (r: Option<&'a JsonValue>)
    ensures
        match r {
            Some(v) => field(members@, key@) == Some(*v),
            None => field(members@, key@) is None,
        },
{
    let mut i: usize = 0;
    assert(members@.skip(0) =~= members@);
    while i < members.len()
        invariant
            i <= members.len(),
            field(members@, key@) == field(members@.skip(i as int), key@),
        decreases members.len() - i,
    {
        proof {
            assert(members@.skip(i as int).drop_first() =~= members@.skip(i + 1));
            assert(members@.skip(i as int)[0] == members@[i as int]);
        }
        if same_text(members[i].0.as_str(), key) {
            return Some(&members[i].1);
        }
        i = i + 1;
    }
    None
}

/// The member `key` of `v`, when `v` is an object that has one.
fn member_of<'a>(v: &'a JsonValue, key: &str) -> (r: Option<&'a JsonValue>)
    ensures
        match r {
            Some(m) => member(*v, key@) == Some(*m),
            None => member(*v, key@) is None,
        },
{
    match v {
        JsonValue::Object(members) => find_member(members, key),
        _ => None,
    }
}

/// The distinct paths a legacy record carries.
fn legacy_record_paths(record: &JsonValue) -> (r: Vec<String>)
    ensures
        text_set(r@) == record_paths(*record),
        distinct_texts(r@),
{
    let mut r: Vec<String> = Vec::new();
    match member_of(record, "paths") {
        Some(JsonValue::Array(items)) => {
            let mut i: usize = 0;
            while i < items.len()
                invariant
                    i <= items.len(),
                    text_set(r@) == item_paths(items@.take(i as int)),
                    distinct_texts(r@),
                decreases items.len() - i,
            {
                proof {
                    assert(items@.take(i + 1).drop_last() =~= items@.take(i as int));
                    assert(items@.take(i + 1).last() == items@[i as int]);
                }
                match &items[i] {
                    JsonValue::String(s) => {
                        let q = normalize_path(s.as_str());
                        if !q.as_str().is_empty() {
                            insert_text(&mut r, q);
                        }
                    },
                    _ => {},
                }
                i = i + 1;
            }
            assert(items@.take(items.len() as int) =~= items@);
        },
        _ => {},
    }
    r
}

impl State {
    /// Converts a legacy `baseline.json` document into current state.
    ///
    /// The document decides what counts as normal on this machine, so it is
    /// accepted only when it is one of ours: a `processes` object with at
    /// least one executable carrying at least one path. The result is never
    /// marked as an answered first-run prompt and allows nothing: an imported
    /// baseline is a suggestion the user has not yet adopted.
    pub fn import_v1(root: &JsonValue) -> (r: Result<State, String>)
        ensures
            match member(*root, "processes"@) {
                Some(JsonValue::Object(processes)) => if legacy_table(processes@) == Map::<
                    Seq<char>,
                    Set<Seq<char>>,
                >::empty() {
                    r matches Err(e) && e@ == "not a baseline: no executable carried a path"@
                } else {
                    r matches Ok(s) && {
                        &&& s.version == CURRENT_VERSION
                        &&& s.allowed_paths@.len() == 0
                        &&& !s.onboarding_complete
                        &&& s.snapshot matches Some(snap) && {
                            &&& snap.recorded_at@ == legacy_recorded_at(*root)
                            &&& rows_map(snap.executables@) == legacy_table(processes@)
                            &&& table_wf(snap.executables@)
                        }
                    }
                },
                _ => r matches Err(e) && e@ == "not a baseline: no 'processes' object"@,
            },
    {
        let recorded_at = match member_of(root, "recorded_at") {
            Some(JsonValue::String(s)) => s.clone(),
            _ => String::new(),
        };
        let processes = match member_of(root, "processes") {
            Some(JsonValue::Object(members)) => members,
            _ => {
                return Err("not a baseline: no 'processes' object".to_owned());
            },
        };
        let mut table: Vec<(String, Vec<String>)> = Vec::new();
        let mut i: usize = 0;
        while i < processes.len()
            invariant
                i <= processes.len(),
                rows_map(table@) == legacy_table(processes@.take(i as int)),
                table_wf(table@),
            decreases processes.len() - i,
        {
            let paths = legacy_record_paths(&processes[i].1);
            proof {
                let t = processes@;
                assert(t.take(i + 1).drop_last() =~= t.take(i as int));
                assert(t.take(i + 1).last() == t[i as int]);
                lemma_text_set(paths@);
                if paths@.len() > 0 {
                    assert(text_set(paths@).contains(paths@[0]@));
                } else {
                    assert(text_set(paths@) =~= Set::<Seq<char>>::empty());
                }
            }
            if paths.len() > 0 {
                let name = to_lowercase(processes[i].0.as_str());
                put_row(&mut table, name, paths);
            }
            i = i + 1;
        }
        assert(processes@.take(processes.len() as int) =~= processes@);
        if table.len() == 0 {
            assert(rows_map(table@) =~= Map::<Seq<char>, Set<Seq<char>>>::empty());
            return Err("not a baseline: no executable carried a path".to_owned());
        }
        proof {
            lemma_rows_map(table@);
            assert(rows_map(table@).dom().contains(table@[0].0@));
        }
        Ok(
            State {
                version: CURRENT_VERSION,
                snapshot: Some(Snapshot { recorded_at, executables: table }),
                allowed_paths: Vec::new(),
                onboarding_complete: false,
            },
        )
    }
}

} // verus!
