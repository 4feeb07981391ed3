//! Turning one listing of the running processes into rows.
//!
//! Reading the kernel's process list and measuring rates happen outside
//! this crate; each process arrives here as a sample. What is decided here
//! is how each one relates to the baseline, what its parent says about it,
//! which ones were paused by this tool, and, through the activity tracker
//! and the autostart index, what the whole scan says about each.

use crate::activity::{borrowed_entries, updated, ActivityTracker, Entry, ProcessKey};
use crate::autostart::AutostartIndex;
use crate::baseline::{match_of, Baseline, BaselineMatch};
use crate::model::{resource_passes, EvidenceRow};
use crate::paths::{normalize_path, normalized_path};
use crate::process::{
    apply_live_findings, classify_evidence, evidence_bits, evidence_rows, evidence_trust,
    is_described,
    live_bits, same_but_findings, ProcKey, ProcessRow,
};
use crate::text::{
    chars_of, decimal, decimal_chars, lowercase, push_all, string_from_chars, to_lowercase,
};
use std::collections::HashSet;
use vstd::prelude::*;

verus! {

/// One process as the kernel lists it, with its rates already measured.
/// `accessible` says whether it could be opened; when it could not, its path
/// is unknown and empty.
#[derive(Clone, Debug)]
pub struct ProcessSample {
    pub key: ProcKey,
    pub ppid: u32,
    pub session_id: u32,
    pub thread_count: u32,
    pub handle_count: u32,
    pub name: String,
    pub path: String,
    pub accessible: bool,
    pub memory_bytes: u64,
    pub private_bytes: u64,
    pub cpu_tenths: u32,
    pub io_per_second: u64,
}

/// What persists from one scan to the next: the baseline, the autostart
/// index, the activity history, and the processes this tool paused.
pub struct ScanState {
    baseline: Baseline,
    autostart: AutostartIndex,
    activity: ActivityTracker,
    paused: Vec<ProcKey>,
}

/// How a sample relates to the baseline.
pub open spec fn sample_match(b: Baseline, s: ProcessSample) -> BaselineMatch {
    match_of(b.records(), b.allowed(), lowercase(s.name@), normalized_path(s.path@))
}

/// The process ids listed in a scan.
pub open spec fn listed_pids(samples: Seq<ProcessSample>) -> Set<u32> {
    Set::new(|pid: u32| exists|i: int| 0 <= i < samples.len() && samples[i].key.pid == pid)
}

/// The process ids of a scan that run from a recorded path.
pub open spec fn known_pids(b: Baseline, samples: Seq<ProcessSample>) -> Set<u32> {
    Set::new(
        |pid: u32|
            exists|i: int|
                0 <= i < samples.len() && samples[i].key.pid == pid && samples[i].accessible
                    && sample_match(b, samples[i]) == BaselineMatch::Path,
    )
}

/// Row `i` of `rows` is what sample `i` says before the whole-scan findings:
/// its measurements, its trust, and its snapshot and parent findings.
pub open spec fn base_row(
    b: Baseline,
    paused: Set<ProcKey>,
    samples: Seq<ProcessSample>,
    i: int,
    row: ProcessRow,
) -> bool {
    let s = samples[i];
    let m = sample_match(b, s);
    &&& row.key == s.key
    &&& row.ppid == s.ppid
    &&& row.session_id == s.session_id
    &&& row.thread_count == s.thread_count
    &&& row.handle_count == s.handle_count
    &&& row.name@ == s.name@
    &&& row.path@ == s.path@
    &&& row.cpu_tenths == s.cpu_tenths
    &&& row.memory_bytes == s.memory_bytes
    &&& row.private_bytes == s.private_bytes
    &&& row.io_per_second == s.io_per_second
    &&& row.paused_by_procdrift == paused.contains(s.key)
    &&& row.trust == evidence_trust(s.accessible, m, is_described(s.name@))
    &&& row.findings@ == evidence_bits(
        s.accessible,
        b.records() != Map::<Seq<char>, Set<Seq<char>>>::empty(),
        m,
        s.ppid,
        listed_pids(samples),
        known_pids(b, samples),
    )
}

/// The identities and executables a scan reports to the activity tracker.
pub open spec fn scan_entries(samples: Seq<ProcessSample>) -> Seq<Entry> {
    samples.map_values(
        |s: ProcessSample| (ProcessKey { pid: s.key.pid, created: s.key.created }, s.path@),
    )
}

impl ScanState {
    /// The baseline scans are compared against.
    pub closed spec fn baseline_view(&self) -> Baseline {
        self.baseline
    }

    /// The autostart index scans consult.
    pub closed spec fn autostart_view(&self) -> AutostartIndex {
        self.autostart
    }

    /// The activity history.
    pub closed spec fn activity_view(&self) -> ActivityTracker {
        self.activity
    }

    /// The baseline scans are compared against.
    pub fn baseline(&self) -> (r: &Baseline)
        ensures
            *r == self.baseline_view(),
    {
        &self.baseline
    }

    /// The activity history.
    pub fn activity(&self) -> (r: &ActivityTracker)
        ensures
            *r == self.activity_view(),
    {
        &self.activity
    }

    /// Replaces the baseline (after the user recorded or changed it).
    pub fn set_baseline(&mut self, baseline: Baseline)
        requires
            old(self).wf(),
            baseline.wf(),
        ensures
            final(self).wf(),
            final(self).baseline_view() == baseline,
            final(self).autostart_view() == old(self).autostart_view(),
            final(self).activity_view() == old(self).activity_view(),
            final(self).paused_keys() == old(self).paused_keys(),
    {
        self.baseline = baseline;
    }

    /// The processes this tool paused and has not seen end.
    pub closed spec fn paused_keys(&self) -> Set<ProcKey> {
        self.paused@.to_set()
    }

    /// The baseline keeps its names and paths once each, and each paused
    /// process is kept once.
    pub closed spec fn wf(&self) -> bool {
        self.baseline.wf() && self.autostart.wf() && self.paused@.no_duplicates()
    }

    /// The state before the first scan, with nothing paused.
    pub fn new(baseline: Baseline, autostart: AutostartIndex) -> (r: ScanState)
        requires
            baseline.wf(),
            autostart.wf(),
        ensures
            r.wf(),
            r.baseline_view() == baseline,
            r.autostart_view() == autostart,
            !r.activity_view().is_initialized(),
            r.activity_view().event_log().len() == 0,
            r.activity_view().start_view().len() == 0,
            r.paused_keys() == Set::<ProcKey>::empty(),
    {
        let r = ScanState { baseline, autostart, activity: ActivityTracker::default(), paused: Vec::new() };
        assert(r.paused@.to_set() =~= Set::<ProcKey>::empty());
        r
    }

    /// Whether this tool paused the process and has not seen it end.
    pub fn is_paused(&self, key: ProcKey) -> (r: bool)
        ensures
            r == self.paused_keys().contains(key),
    {
        let mut i: usize = 0;
        while i < self.paused.len()
            invariant
                i <= self.paused.len(),
                forall|j: int| 0 <= j < i ==> self.paused@[j] != key,
            decreases self.paused.len() - i,
        {
            if self.paused[i] == key {
                assert(self.paused@.to_set().contains(self.paused@[i as int]));
                return true;
            }
            i = i + 1;
        }
        false
    }

    /// Remembers that this tool paused the process.
    pub fn mark_paused(&mut self, key: ProcKey)
        requires
            old(self).wf(),
        ensures
            final(self).wf(),
            final(self).paused_keys() == old(self).paused_keys().insert(key),
            final(self).baseline_view() == old(self).baseline_view(),
            final(self).autostart_view() == old(self).autostart_view(),
            final(self).activity_view() == old(self).activity_view(),
    {
        if !self.is_paused(key) {
            let ghost before = self.paused@;
            self.paused.push(key);
            proof {
                before.lemma_push_to_set_commute(key);
                assert(self.paused@ == before.push(key));
                assert forall|a: int, b: int| 0 <= a < b < self.paused@.len() implies self.paused@[a]
                    != self.paused@[b] by {
                    if b == before.len() {
                        assert(before.to_set().contains(before[a]));
                    }
                }
            }
        } else {
            assert(self.paused@.to_set().insert(key) =~= self.paused@.to_set());
        }
    }

    /// Forgets that this tool paused the process (it was resumed or ended).
    pub fn mark_resumed(&mut self, key: ProcKey)
        requires
            old(self).wf(),
        ensures
            final(self).wf(),
            final(self).paused_keys() == old(self).paused_keys().remove(key),
            final(self).baseline_view() == old(self).baseline_view(),
            final(self).autostart_view() == old(self).autostart_view(),
            final(self).activity_view() == old(self).activity_view(),
    {
        let ghost before = self.paused@;
        let mut kept: Vec<ProcKey> = Vec::new();
        let mut i: usize = 0;
        while i < self.paused.len()
            invariant
                self.paused@ == before,
                before.no_duplicates(),
                i <= before.len(),
                kept@ == before.take(i as int).filter(|k: ProcKey| k != key),
                kept@.no_duplicates(),
                forall|k: ProcKey| kept@.contains(k) ==> before.take(i as int).contains(k),
            decreases before.len() - i,
        {
            let k = self.paused[i];
            let ghost old_kept = kept@;
            proof {
                assert(before.take(i + 1).drop_last() =~= before.take(i as int));
                before.take(i as int).lemma_filter_push(k, |k2: ProcKey| k2 != key);
                assert(before.take(i + 1) =~= before.take(i as int).push(k));
            }
            if k != key {
                proof {
                    assert forall|a: int, b: int| 0 <= a < b < kept@.len() + 1 implies kept@.push(
                        k,
                    )[a] != kept@.push(k)[b] by {
                        if b == kept@.len() {
                            assert(kept@.contains(kept@[a]));
                            let q = choose|q: int|
                                0 <= q < before.take(i as int).len() && before.take(i as int)[q]
                                    == kept@[a];
                            assert(before[q] == kept@[a]);
                        }
                    }
                }
                kept.push(k);
            }
            proof {
                assert forall|k2: ProcKey| kept@.contains(k2) implies before.take(i + 1).contains(
                    k2,
                ) by {
                    let q = choose|q: int| 0 <= q < kept@.len() && kept@[q] == k2;
                    if k2 == k {
                        assert(before.take(i + 1)[i as int] == k);
                    } else {
                        assert(kept@ == old_kept || kept@ == old_kept.push(k));
                        if kept@ == old_kept.push(k) {
                            assert(q < old_kept.len());
                            assert(old_kept[q] == k2);
                        }
                        assert(old_kept.contains(k2));
                        assert(before.take(i as int).contains(k2));
                        let w = choose|w: int| 0 <= w < i && before.take(i as int)[w] == k2;
                        assert(before.take(i + 1)[w] == k2);
                    }
                }
            }
            i = i + 1;
        }
        proof {
            assert(before.take(before.len() as int) =~= before);
            assert forall|k: ProcKey| #[trigger] kept@.to_set().contains(k) == before.to_set().remove(
                key,
            ).contains(k) by {
                let f = |k2: ProcKey| k2 != key;
                if kept@.contains(k) {
                    before.lemma_filter_contains_rev(f, k);
                }
                if before.contains(k) && k != key {
                    let q = choose|q: int| 0 <= q < before.len() && before[q] == k;
                    before.lemma_filter_contains(f, q);
                    assert(before.filter(f).contains(k)) by {
                        before.filter_lemma(f);
                    }
                }
            }
            assert(kept@.to_set() =~= before.to_set().remove(key));
        }
        self.paused = kept;
    }
}

impl ScanState {
    /// Turns one listing of the running processes into rows.
    ///
    /// Each row carries its sample's measurements, its trust from the
    /// baseline, and its snapshot and parent findings; then the activity
    /// tracker takes the scan, the processes this tool paused that are gone
    /// are forgotten, and the whole-scan findings (leaderboards, peers,
    /// restarts, autostart) are added.
    pub fn rows_from(&mut self, samples: &[ProcessSample], now_seconds: u64) -> (r: Vec<ProcessRow>)
        requires
            old(self).wf(),
        ensures
            final(self).wf(),
            final(self).baseline_view() == old(self).baseline_view(),
            final(self).autostart_view() == old(self).autostart_view(),
            updated(
                old(self).activity_view(),
                final(self).activity_view(),
                now_seconds,
                scan_entries(samples@),
            ),
            final(self).paused_keys() == old(self).paused_keys().filter(
                |k: ProcKey| exists|i: int| 0 <= i < samples@.len() && samples@[i].key == k,
            ),
            r@.len() == samples@.len(),
            exists|base: Seq<ProcessRow>, heavy: Seq<EvidenceRow>|
                {
                    &&& base.len() == samples@.len()
                    &&& forall|i: int|
                        0 <= i < base.len() ==> base_row(
                            old(self).baseline_view(),
                            old(self).paused_keys(),
                            samples@,
                            i,
                            #[trigger] base[i],
                        )
                    &&& #[trigger] resource_passes(evidence_rows(base), heavy)
                    &&& forall|i: int|
                        0 <= i < base.len() ==> {
                            &&& same_but_findings(#[trigger] r@[i], base[i])
                            &&& r@[i].findings@ == live_bits(
                                heavy[i].findings@,
                                base,
                                i,
                                final(self).activity_view().start_view(),
                                final(self).autostart_view()@,
                                now_seconds,
                            )
                        }
                },
    {
        broadcast use vstd::std_specs::hash::group_hash_axioms;

        let n = samples.len();
        let ghost b = self.baseline;
        let ghost paused_before = self.paused_keys();

        let mut all_pids: HashSet<u32> = HashSet::new();
        let mut matches: Vec<BaselineMatch> = Vec::new();
        let mut i: usize = 0;
        while i < n
            invariant
                n == samples@.len(),
                self.baseline == b,
                b.wf(),
                i <= n,
                all_pids@ == Set::new(
                    |pid: u32| exists|j: int| 0 <= j < i && samples@[j].key.pid == pid,
                ),
                matches@.len() == i,
                forall|j: int| 0 <= j < i ==> #[trigger] matches@[j] == sample_match(b, samples@[j]),
            decreases n - i,
        {
            all_pids.insert(samples[i].key.pid);
            let name = to_lowercase(samples[i].name.as_str());
            let path = normalize_path(samples[i].path.as_str());
            let m = self.baseline.classify_normalized(name.as_str(), path.as_str());
            matches.push(m);
            i = i + 1;
            proof {
                assert(all_pids@ =~= Set::new(
                    |pid: u32| exists|j: int| 0 <= j < i && samples@[j].key.pid == pid,
                ));
            }
        }
        assert(all_pids@ =~= listed_pids(samples@));

        let mut known: HashSet<u32> = HashSet::new();
        let mut i: usize = 0;
        while i < n
            invariant
                n == samples@.len(),
                i <= n,
                matches@.len() == n,
                forall|j: int| 0 <= j < n ==> #[trigger] matches@[j] == sample_match(b, samples@[j]),
                known@ == Set::new(
                    |pid: u32|
                        exists|j: int|
                            0 <= j < i && samples@[j].key.pid == pid && samples@[j].accessible
                                && sample_match(b, samples@[j]) == BaselineMatch::Path,
                ),
            decreases n - i,
        {
            if samples[i].accessible && matches[i] == BaselineMatch::Path {
                known.insert(samples[i].key.pid);
            }
            i = i + 1;
            proof {
                assert(known@ =~= Set::new(
                    |pid: u32|
                        exists|j: int|
                            0 <= j < i && samples@[j].key.pid == pid && samples@[j].accessible
                                && sample_match(b, samples@[j]) == BaselineMatch::Path,
                ));
            }
        }
        assert(known@ =~= known_pids(b, samples@));

        let recorded = self.baseline.is_recorded();
        let mut rows: Vec<ProcessRow> = Vec::new();
        let mut i: usize = 0;
        while i < n
            invariant
                n == samples@.len(),
                self.baseline == b,
                self.paused_keys() == paused_before,
                i <= n,
                matches@.len() == n,
                forall|j: int| 0 <= j < n ==> #[trigger] matches@[j] == sample_match(b, samples@[j]),
                all_pids@ == listed_pids(samples@),
                known@ == known_pids(b, samples@),
                recorded == (b.records() != Map::<Seq<char>, Set<Seq<char>>>::empty()),
                rows@.len() == i,
                forall|j: int| 0 <= j < i ==> base_row(b, paused_before, samples@, j, #[trigger] rows@[j]),
            decreases n - i,
        {
            let s = &samples[i];
            let (trust, findings) = classify_evidence(
                s.accessible,
                recorded,
                matches[i],
                s.name.as_str(),
                s.ppid,
                &all_pids,
                &known,
            );
            let paused = self.is_paused(s.key);
            rows.push(
                ProcessRow {
                    key: s.key,
                    ppid: s.ppid,
                    session_id: s.session_id,
                    thread_count: s.thread_count,
                    handle_count: s.handle_count,
                    trust,
                    findings,
                    name: s.name.clone(),
                    cpu_tenths: s.cpu_tenths,
                    memory_bytes: s.memory_bytes,
                    private_bytes: s.private_bytes,
                    io_per_second: s.io_per_second,
                    path: s.path.clone(),
                    paused_by_procdrift: paused,
                },
            );
            i = i + 1;
        }
        let ghost base = rows@;

        self.forget_ended(samples);

        let mut current: Vec<(ProcessKey, &str)> = Vec::new();
        let mut i: usize = 0;
        while i < n
            invariant
                n == samples@.len(),
                rows@ == base,
                base.len() == n,
                forall|j: int| 0 <= j < n ==> base_row(b, paused_before, samples@, j, #[trigger] base[j]),
                i <= n,
                borrowed_entries(current@) == scan_entries(samples@.take(i as int)),
            decreases n - i,
        {
            let ghost prev = current@;
            let entry = (
                ProcessKey { pid: rows[i].key.pid, created: rows[i].key.created },
                rows[i].path.as_str(),
            );
            current.push(entry);
            proof {
                let ii = i as int;
                assert(base_row(b, paused_before, samples@, ii, base[ii]));
                let sv = samples@[ii];
                assert(entry.1@ == sv.path@);
                assert(entry.0 == ProcessKey { pid: sv.key.pid, created: sv.key.created });
                assert(samples@.take(ii + 1) =~= samples@.take(ii).push(sv));
                assert(scan_entries(samples@.take(ii + 1)) =~= scan_entries(samples@.take(ii)).push(
                    (ProcessKey { pid: sv.key.pid, created: sv.key.created }, sv.path@),
                ));
                assert(current@ == prev.push(entry));
                assert(borrowed_entries(current@) =~= borrowed_entries(prev).push((entry.0, entry.1@)));
            }
            i = i + 1;
        }
        assert(samples@.take(n as int) =~= samples@);
        self.activity.update(now_seconds, current.as_slice());
        apply_live_findings(&mut rows, &self.activity, &self.autostart, now_seconds);
        rows
    }

    /// Forgets the processes this tool paused that are no longer listed.
    fn forget_ended(&mut self, samples: &[ProcessSample])
        requires
            old(self).wf(),
        ensures
            final(self).wf(),
            final(self).baseline == old(self).baseline,
            final(self).autostart == old(self).autostart,
            final(self).activity == old(self).activity,
            final(self).paused_keys() == old(self).paused_keys().filter(
                |k: ProcKey| exists|i: int| 0 <= i < samples@.len() && samples@[i].key == k,
            ),
    {
        let ghost before = self.paused@;
        let mut kept: Vec<ProcKey> = Vec::new();
        let mut i: usize = 0;
        while i < self.paused.len()
            invariant
                self.paused@ == before,
                before.no_duplicates(),
                i <= before.len(),
                kept@.no_duplicates(),
                forall|k: ProcKey|
                    #[trigger] kept@.contains(k) <==> (before.take(i as int).contains(k) && exists|q: int|
                        0 <= q < samples@.len() && samples@[q].key == k),
            decreases before.len() - i,
        {
            let k = self.paused[i];
            let mut present = false;
            let mut j: usize = 0;
            while j < samples.len()
                invariant
                    j <= samples@.len(),
                    present == exists|q: int| 0 <= q < j && samples@[q].key == k,
                decreases samples.len() - j,
            {
                if samples[j].key == k {
                    present = true;
                }
                j = j + 1;
            }
            let ghost old_kept = kept@;
            proof {
                assert(before.take(i + 1) =~= before.take(i as int).push(k));
            }
            if present {
                proof {
                    assert forall|a: int, c: int| 0 <= a < c < old_kept.len() + 1 implies old_kept.push(
                        k,
                    )[a] != old_kept.push(k)[c] by {
                        if c == old_kept.len() {
                            assert(old_kept.contains(old_kept[a]));
                            let w = choose|w: int|
                                0 <= w < i && before.take(i as int)[w] == old_kept[a];
                            assert(before[w] == old_kept[a]);
                            assert(before[i as int] == k);
                        }
                    }
                }
                kept.push(k);
            }
            proof {
                assert forall|k2: ProcKey| #[trigger] kept@.contains(k2) <==> (before.take(
                    i + 1,
                ).contains(k2) && exists|q: int| 0 <= q < samples@.len() && samples@[q].key == k2) by {
                    if kept@.contains(k2) {
                        let w = choose|w: int| 0 <= w < kept@.len() && kept@[w] == k2;
                        if w < old_kept.len() {
                            assert(old_kept[w] == k2);
                            assert(old_kept.contains(k2));
                            let z = choose|z: int| 0 <= z < i && before.take(i as int)[z] == k2;
                            assert(before.take(i + 1)[z] == k2);
                        } else {
                            assert(before.take(i + 1)[i as int] == k2);
                        }
                    }
                    if before.take(i + 1).contains(k2) && exists|q: int|
                        0 <= q < samples@.len() && samples@[q].key == k2 {
                        let z = choose|z: int|
                            0 <= z < before.take(i + 1).len() && #[trigger] before.take(i + 1)[z] == k2;
                        if z < i {
                            assert(before.take(i as int)[z] == k2);
                            assert(old_kept.contains(k2));
                            let w = choose|w: int| 0 <= w < old_kept.len() && old_kept[w] == k2;
                            assert(kept@[w] == k2);
                        } else {
                            assert(k2 == k);
                            assert(kept@[kept@.len() - 1] == k2);
                        }
                    }
                }
            }
            i = i + 1;
        }
        proof {
            assert(before.take(before.len() as int) =~= before);
            assert(kept@.to_set() =~= before.to_set().filter(
                |k: ProcKey| exists|i: int| 0 <= i < samples@.len() && samples@[i].key == k,
            ));
        }
        self.paused = kept;
    }
}

// ---------------------------------------------------------------------------
// Reading a kernel process record
// ---------------------------------------------------------------------------

/// The name a process is listed under: its image name when the kernel gives
/// one, "System" for process 4, and `<pid:N>` otherwise.
pub open spec fn listed_name(image: Option<Seq<char>>, pid: u32) -> Seq<char> {
    match image {
        Some(name) => name,
        None => if pid == 4 {
            "System"@
        } else {
            "<pid:"@ + decimal(pid as nat) + ">"@
        },
    }
}

/// The name a process is listed under (see `listed_name`).
pub fn process_name(image: Option<String>, pid: u32) -> (r: String)
    ensures
        r@ == listed_name(
            match image {
                Some(n) => Some(n@),
                None => None,
            },
            pid,
        ),
{
    match image {
        Some(name) => name,
        None => {
            if pid == 4 {
                "System".to_owned()
            } else {
                let mut out = chars_of("<pid:");
                push_all(&mut out, &decimal_chars(pid as u64));
                push_all(&mut out, &chars_of(">"));
                string_from_chars(out.as_slice())
            }
        },
    }
}

/// A kernel counter read as unsigned: negative values count as zero.
pub open spec fn counter(value: i64) -> int {
    if value < 0 {
        0
    } else {
        value as int
    }
}

/// The sum of nonnegative counters, saturating at the largest `i64`.
pub open spec fn counters_sum(values: Seq<i64>) -> int
    decreases values.len(),
{
    if values.len() == 0 {
        0
    } else {
        let s = counters_sum(values.drop_last()) + counter(values.last());
        if s > i64::MAX {
            i64::MAX as int
        } else {
            s
        }
    }
}

/// The total of a process's time or transfer counters, each clamped at zero
/// and the sum saturating at the largest `i64`.
pub fn counter_total(values: &[i64]) -> (r: u64)
    ensures
        r == counters_sum(values@),
{
    let mut total: i64 = 0;
    let mut i: usize = 0;
    while i < values.len()
        invariant
            i <= values@.len(),
            0 <= total,
            total == counters_sum(values@.take(i as int)),
        decreases values.len() - i,
    {
        proof {
            assert(values@.take(i + 1).drop_last() =~= values@.take(i as int));
            assert(values@.take(i + 1).last() == values@[i as int]);
        }
        let v = if values[i] < 0 {
            0
        } else {
            values[i]
        };
        total = if total > i64::MAX - v {
            i64::MAX
        } else {
            total + v
        };
        i = i + 1;
    }
    assert(values@.take(values@.len() as int) =~= values@);
    total as u64
}

} // verus!
