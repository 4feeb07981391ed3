//! Process starts and exits observed between scans, and the restart signal
//! derived from them.
//!
//! Identity is the pair (PID, creation time), so a recycled PID reads as one
//! process exiting and another starting. History is held in memory only and is
//! bounded both in count and in age.

use crate::text::{chars_of, decimal, decimal_chars, push_all, string_from_chars};
use std::collections::VecDeque;
use vstd::prelude::*;
use vstd::std_specs::iter::IteratorSpec;

verus! {

broadcast use vstd::std_specs::vecdeque::group_vec_dequeue_axioms;

/// Most events kept in the history.
pub const EVENT_LIMIT: usize = 128;

/// Age, in seconds, after which an event or a recorded start is forgotten.
pub const HISTORY_SECONDS: u64 = 600;

/// Most starts remembered per executable.
pub const STARTS_KEPT: usize = 8;

/// Window, in seconds, in which repeated starts count as restarting.
pub const RESTART_WINDOW_SECONDS: u64 = 120;

/// Starts within the window from which an executable is restarting.
pub const RESTART_THRESHOLD: usize = 3;

/// A process identity that survives PID reuse.
#[derive(Clone, Copy, Debug, PartialEq, Eq, Hash, Structural)]
pub struct ProcessKey {
    pub pid: u32,
    pub created: u64,
}

/// Whether a process appeared or disappeared.
#[derive(Clone, Copy, Debug, PartialEq, Eq, Structural)]
pub enum ActivityKind {
    Started,
    Exited,
}

/// One observed start or exit.
#[derive(Clone, Debug, PartialEq, Eq)]
pub struct ActivityEvent {
    pub at_seconds: u64,
    pub key: ProcessKey,
    pub executable: String,
    pub kind: ActivityKind,
}

/// An event as plain values: time, identity, executable, kind.
pub type EventView = (u64, ProcessKey, Seq<char>, ActivityKind);

impl View for ActivityEvent {
    type V = EventView;

    open spec fn view(&self) -> EventView {
        (self.at_seconds, self.key, self.executable@, self.kind)
    }
}

/// A process identity with its executable path.
pub type Entry = (ProcessKey, Seq<char>);

/// The plain view of owned entries.
pub open spec fn entries(s: Seq<(ProcessKey, String)>) -> Seq<Entry> {
    s.map_values(|e: (ProcessKey, String)| (e.0, e.1@))
}

/// The plain view of borrowed entries.
pub open spec fn borrowed_entries(s: Seq<(ProcessKey, &str)>) -> Seq<Entry> {
    s.map_values(|e: (ProcessKey, &str)| (e.0, e.1@))
}

/// Whether some entry has identity `k`.
pub open spec fn key_in(s: Seq<Entry>, k: ProcessKey) -> bool {
    exists|i: int| 0 <= i < s.len() && s[i].0 == k
}

/// The first entry for each identity, in order of first appearance.
pub open spec fn first_entries(s: Seq<Entry>) -> Seq<Entry>
    decreases s.len(),
{
    if s.len() == 0 {
        seq![]
    } else {
        let r = first_entries(s.drop_last());
        if key_in(r, s.last().0) {
            r
        } else {
            r.push(s.last())
        }
    }
}

/// The entries of `s` whose identity is (`present`) or is not (`!present`) in
/// `other`, in order.
pub open spec fn keep_by(s: Seq<Entry>, other: Seq<Entry>, present: bool) -> Seq<Entry>
    decreases s.len(),
{
    if s.len() == 0 {
        seq![]
    } else {
        let r = keep_by(s.drop_last(), other, present);
        if key_in(other, s.last().0) == present {
            r.push(s.last())
        } else {
            r
        }
    }
}

/// Every entry with identity `k` replaced by `e`.
pub open spec fn replace_key(s: Seq<Entry>, k: ProcessKey, e: Entry) -> Seq<Entry> {
    s.map_values(|x: Entry| if x.0 == k { e } else { x })
}

/// The first inventory: one entry per identity, in order of first appearance,
/// holding the executable of its last appearance (as collecting into a map
/// keeps the last value).
pub open spec fn initial_live(s: Seq<Entry>) -> Seq<Entry>
    decreases s.len(),
{
    if s.len() == 0 {
        seq![]
    } else {
        let r = initial_live(s.drop_last());
        if key_in(r, s.last().0) {
            replace_key(r, s.last().0, s.last())
        } else {
            r.push(s.last())
        }
    }
}

/// Processes present now that were not running before, first entry per
/// identity, in order of appearance.
pub open spec fn started_entries(live: Seq<Entry>, current: Seq<Entry>) -> Seq<Entry> {
    keep_by(first_entries(current), live, false)
}

/// Processes running before that are gone now, in the order they were
/// recorded.
pub open spec fn exited_entries(live: Seq<Entry>, current: Seq<Entry>) -> Seq<Entry> {
    keep_by(live, current, false)
}

/// Events of one kind at one time for a list of entries.
pub open spec fn stamp(s: Seq<Entry>, now: u64, kind: ActivityKind) -> Seq<EventView> {
    s.map_values(|e: Entry| (now, e.0, e.1, kind))
}

/// `u64::saturating_sub`.
pub open spec fn elapsed(now: u64, then: u64) -> u64 {
    if now >= then {
        (now - then) as u64
    } else {
        0
    }
}

/// The event history with the oldest entries dropped while it is longer than
/// the limit or its first entry is older than the history window.
pub open spec fn expire_events(ev: Seq<EventView>, now: u64) -> Seq<EventView>
    decreases ev.len(),
{
    if ev.len() > 0 && (ev.len() > EVENT_LIMIT || elapsed(now, ev[0].0) > HISTORY_SECONDS) {
        expire_events(ev.drop_first(), now)
    } else {
        ev
    }
}

/// Start times with those older than the history window dropped from the
/// front.
pub open spec fn drop_old(starts: Seq<u64>, now: u64) -> Seq<u64>
    decreases starts.len(),
{
    if starts.len() > 0 && elapsed(now, starts[0]) > HISTORY_SECONDS {
        drop_old(starts.drop_first(), now)
    } else {
        starts
    }
}

/// The last (at most) eight start times.
pub open spec fn keep_last(starts: Seq<u64>) -> Seq<u64> {
    if starts.len() > STARTS_KEPT {
        starts.skip(starts.len() - STARTS_KEPT)
    } else {
        starts
    }
}

/// Start history per executable.
pub type StartView = Seq<(Seq<char>, Seq<u64>)>;

/// Whether some start history is recorded for `name`.
pub open spec fn name_in(s: StartView, name: Seq<char>) -> bool {
    exists|i: int| 0 <= i < s.len() && s[i].0 == name
}

/// Records one start of `name` at `now`, keeping its last eight starts.
pub open spec fn record_one(s: StartView, name: Seq<char>, now: u64) -> StartView {
    if name_in(s, name) {
        s.map_values(
            |p: (Seq<char>, Seq<u64>)|
                if p.0 == name {
                    (name, keep_last(p.1.push(now)))
                } else {
                    p
                },
        )
    } else {
        s.push((name, seq![now]))
    }
}

/// Records one start at `now` for each entry, in order.
pub open spec fn record_starts(s: StartView, started: Seq<Entry>, now: u64) -> StartView
    decreases started.len(),
{
    if started.len() == 0 {
        s
    } else {
        record_one(record_starts(s, started.drop_last(), now), started.last().1, now)
    }
}

/// Every history with its expired starts dropped, and histories left empty
/// removed.
pub open spec fn expire_starts(s: StartView, now: u64) -> StartView
    decreases s.len(),
{
    if s.len() == 0 {
        s
    } else {
        let r = expire_starts(s.drop_last(), now);
        let kept = drop_old(s.last().1, now);
        if kept.len() > 0 {
            r.push((s.last().0, kept))
        } else {
            r
        }
    }
}

/// Number of starts within the restart window of `now`.
pub open spec fn recent_count(starts: Seq<u64>, now: u64) -> nat
    decreases starts.len(),
{
    if starts.len() == 0 {
        0
    } else {
        recent_count(starts.drop_last(), now) + if elapsed(now, starts.last())
            <= RESTART_WINDOW_SECONDS {
            1nat
        } else {
            0nat
        }
    }
}

/// Whether the history holds at least three starts of `name` within the
/// restart window of `now`.
pub open spec fn restarting(s: StartView, name: Seq<char>, now: u64) -> bool {
    exists|i: int|
        0 <= i < s.len() && s[i].0 == name && recent_count(s[i].1, now) >= RESTART_THRESHOLD
}

/// Every recorded history holds at most eight starts.
pub open spec fn histories_bounded(s: StartView) -> bool {
    forall|i: int| 0 <= i < s.len() ==> (#[trigger] s[i]).1.len() <= STARTS_KEPT
}

/// Tracks process starts and exits between scans.
pub struct ActivityTracker {
    live: Vec<(ProcessKey, String)>,
    events: VecDeque<ActivityEvent>,
    starts: Vec<(String, Vec<u64>)>,
    initialized: bool,
}

/// The plain view of start histories.
pub open spec fn start_entries(s: Seq<(String, Vec<u64>)>) -> StartView {
    s.map_values(|p: (String, Vec<u64>)| (p.0@, p.1@))
}

impl Default for ActivityTracker {
    /// A tracker that has not seen any scan.
    fn default() -> (r: Self)
        ensures
            !r.is_initialized(),
            r.live_view() == Seq::<Entry>::empty(),
            r.event_log() == Seq::<EventView>::empty(),
            r.start_view() == StartView::empty(),
    {
        let r = ActivityTracker {
            live: Vec::new(),
            events: VecDeque::new(),
            starts: Vec::new(),
            initialized: false,
        };
        assert(r.live_view() =~= Seq::<Entry>::empty());
        assert(r.event_log() =~= Seq::<EventView>::empty());
        assert(r.start_view() =~= StartView::empty());
        r
    }
}

// ---------------------------------------------------------------------------
// Executable helpers over entry vectors
// ---------------------------------------------------------------------------

fn clone_entry(e: &(ProcessKey, String)) -> (r: (ProcessKey, String))
    ensures
        r.0 == e.0,
        r.1@ == e.1@,
{
    (e.0, e.1.clone())
}

fn holds_key(s: &Vec<(ProcessKey, String)>, k: ProcessKey) -> (r: bool)
    ensures
        r == key_in(entries(s@), k),
{
    let mut i: usize = 0;
    while i < s.len()
        invariant
            i <= s.len(),
            forall|j: int| 0 <= j < i ==> s@[j].0 != k,
        decreases s.len() - i,
    {
        if s[i].0 == k {
            assert(entries(s@)[i as int].0 == k);
            return true;
        }
        i = i + 1;
    }
    assert forall|j: int| 0 <= j < entries(s@).len() implies entries(s@)[j].0 != k by {
        assert(entries(s@)[j].0 == s@[j].0);
    }
    false
}

fn owned_entries(current: &[(ProcessKey, &str)]) -> (r: Vec<(ProcessKey, String)>)
    ensures
        entries(r@) == borrowed_entries(current@),
{
    let mut r: Vec<(ProcessKey, String)> = Vec::new();
    let mut i: usize = 0;
    while i < current.len()
        invariant
            i <= current.len(),
            entries(r@) == borrowed_entries(current@.take(i as int)),
        decreases current.len() - i,
    {
        let (k, s) = current[i];
        let owned = s.to_owned();
        assert(borrowed_entries(current@.take(i + 1)) =~= borrowed_entries(current@.take(i as int)).push((k, s@)));
        r.push((k, owned));
        i = i + 1;
        assert(entries(r@) =~= borrowed_entries(current@.take(i as int)));
    }
    assert(current@.take(current.len() as int) =~= current@);
    r
}

fn first_entries_of(s: &Vec<(ProcessKey, String)>) -> (r: Vec<(ProcessKey, String)>)
    ensures
        entries(r@) == first_entries(entries(s@)),
{
    let mut r: Vec<(ProcessKey, String)> = Vec::new();
    let mut i: usize = 0;
    while i < s.len()
        invariant
            i <= s.len(),
            entries(r@) == first_entries(entries(s@).take(i as int)),
        decreases s.len() - i,
    {
        let e = clone_entry(&s[i]);
        proof {
            assert(entries(s@).take(i + 1).drop_last() =~= entries(s@).take(i as int));
            assert(entries(s@).take(i + 1).last() == (e.0, e.1@));
        }
        if !holds_key(&r, e.0) {
            r.push(e);
        }
        i = i + 1;
        assert(entries(r@) =~= first_entries(entries(s@).take(i as int)));
    }
    assert(entries(s@).take(s.len() as int) =~= entries(s@));
    r
}

fn select_by(s: &Vec<(ProcessKey, String)>, other: &Vec<(ProcessKey, String)>, present: bool) -> (r:
    Vec<(ProcessKey, String)>)
    ensures
        entries(r@) == keep_by(entries(s@), entries(other@), present),
{
    let mut r: Vec<(ProcessKey, String)> = Vec::new();
    let mut i: usize = 0;
    while i < s.len()
        invariant
            i <= s.len(),
            entries(r@) == keep_by(entries(s@).take(i as int), entries(other@), present),
        decreases s.len() - i,
    {
        let e = clone_entry(&s[i]);
        proof {
            assert(entries(s@).take(i + 1).drop_last() =~= entries(s@).take(i as int));
            assert(entries(s@).take(i + 1).last() == (e.0, e.1@));
        }
        if holds_key(other, e.0) == present {
            r.push(e);
        }
        i = i + 1;
        assert(entries(r@) =~= keep_by(entries(s@).take(i as int), entries(other@), present));
    }
    assert(entries(s@).take(s.len() as int) =~= entries(s@));
    r
}

fn inventory(s: &Vec<(ProcessKey, String)>) -> (r: Vec<(ProcessKey, String)>)
    ensures
        entries(r@) == initial_live(entries(s@)),
{
    let mut r: Vec<(ProcessKey, String)> = Vec::new();
    let mut i: usize = 0;
    while i < s.len()
        invariant
            i <= s.len(),
            entries(r@) == initial_live(entries(s@).take(i as int)),
        decreases s.len() - i,
    {
        let e = clone_entry(&s[i]);
        proof {
            assert(entries(s@).take(i + 1).drop_last() =~= entries(s@).take(i as int));
            assert(entries(s@).take(i + 1).last() == (e.0, e.1@));
        }
        if holds_key(&r, e.0) {
            let mut next: Vec<(ProcessKey, String)> = Vec::new();
            let mut j: usize = 0;
            while j < r.len()
                invariant
                    j <= r.len(),
                    entries(next@) == replace_key(entries(r@).take(j as int), e.0, (e.0, e.1@)),
                decreases r.len() - j,
            {
                assert(entries(r@).take(j + 1) =~= entries(r@).take(j as int).push(
                    entries(r@)[j as int],
                ));
                let ghost prior = next@;
                let item = if r[j].0 == e.0 {
                    clone_entry(&e)
                } else {
                    clone_entry(&r[j])
                };
                let ghost iv = (item.0, item.1@);
                assert(iv == (if entries(r@)[j as int].0 == e.0 {
                    (e.0, e.1@)
                } else {
                    entries(r@)[j as int]
                }));
                next.push(item);
                assert(entries(next@) =~= entries(prior).push(iv));
                assert(replace_key(entries(r@).take(j + 1), e.0, (e.0, e.1@)) =~= replace_key(
                    entries(r@).take(j as int),
                    e.0,
                    (e.0, e.1@),
                ).push(iv));
                j = j + 1;
                assert(entries(next@) =~= replace_key(
                    entries(r@).take(j as int),
                    e.0,
                    (e.0, e.1@),
                ));
            }
            assert(entries(r@).take(r.len() as int) =~= entries(r@));
            r = next;
        } else {
            r.push(e);
        }
        i = i + 1;
        assert(entries(r@) =~= initial_live(entries(s@).take(i as int)));
    }
    assert(entries(s@).take(s.len() as int) =~= entries(s@));
    r
}

// ---------------------------------------------------------------------------
// Executable helpers over start histories
// ---------------------------------------------------------------------------

fn copy_times(v: &Vec<u64>) -> (r: Vec<u64>)
    ensures
        r@ == v@,
{
    let mut r: Vec<u64> = Vec::new();
    let mut i: usize = 0;
    while i < v.len()
        invariant
            i <= v.len(),
            r@ == v@.take(i as int),
        decreases v.len() - i,
    {
        r.push(v[i]);
        i = i + 1;
        assert(r@ =~= v@.take(i as int));
    }
    assert(v@.take(v.len() as int) =~= v@);
    r
}

/// `times` plus `now`, keeping the last eight.
fn push_bounded(times: &Vec<u64>, now: u64) -> (r: Vec<u64>)
    ensures
        r@ == keep_last(times@.push(now)),
{
    let mut all = copy_times(times);
    all.push(now);
    let from: usize = if all.len() > STARTS_KEPT {
        all.len() - STARTS_KEPT
    } else {
        0
    };
    let mut r: Vec<u64> = Vec::new();
    let mut i = from;
    while i < all.len()
        invariant
            from <= i <= all.len(),
            r@ == all@.subrange(from as int, i as int),
        decreases all.len() - i,
    {
        r.push(all[i]);
        i = i + 1;
        assert(r@ =~= all@.subrange(from as int, i as int));
    }
    assert(r@ =~= keep_last(times@.push(now)));
    r
}

fn holds_name(s: &Vec<(String, Vec<u64>)>, name: &String) -> (r: bool)
    ensures
        r == name_in(start_entries(s@), name@),
{
    let mut i: usize = 0;
    while i < s.len()
        invariant
            i <= s.len(),
            forall|j: int| 0 <= j < i ==> s@[j].0@ != name@,
        decreases s.len() - i,
    {
        if s[i].0 == *name {
            assert(start_entries(s@)[i as int].0 == name@);
            return true;
        }
        i = i + 1;
    }
    assert forall|j: int| 0 <= j < start_entries(s@).len() implies start_entries(s@)[j].0
        != name@ by {
        assert(start_entries(s@)[j].0 == s@[j].0@);
    }
    false
}

fn record_start(s: &Vec<(String, Vec<u64>)>, name: &String, now: u64) -> (r: Vec<
    (String, Vec<u64>),
>)
    ensures
        start_entries(r@) == record_one(start_entries(s@), name@, now),
{
    let found = holds_name(s, name);
    let mut r: Vec<(String, Vec<u64>)> = Vec::new();
    let mut i: usize = 0;
    while i < s.len()
        invariant
            i <= s.len(),
            found == name_in(start_entries(s@), name@),
            found ==> start_entries(r@) == start_entries(s@).take(i as int).map_values(
                |p: (Seq<char>, Seq<u64>)|
                    if p.0 == name@ {
                        (name@, keep_last(p.1.push(now)))
                    } else {
                        p
                    },
            ),
            !found ==> start_entries(r@) == start_entries(s@).take(i as int),
        decreases s.len() - i,
    {
        assert(start_entries(s@).take(i + 1) =~= start_entries(s@).take(i as int).push(
            start_entries(s@)[i as int],
        ));
        assert(start_entries(s@)[i as int] == (s@[i as int].0@, s@[i as int].1@));
        let ghost prior = r@;
        let item = if found && s[i].0 == *name {
            (name.clone(), push_bounded(&s[i].1, now))
        } else {
            (s[i].0.clone(), copy_times(&s[i].1))
        };
        let ghost iv = (item.0@, item.1@);
        r.push(item);
        assert(start_entries(r@) =~= start_entries(prior).push(iv));
        i = i + 1;
        proof {
            if found {
                assert(start_entries(r@) =~= start_entries(s@).take(i as int).map_values(
                    |p: (Seq<char>, Seq<u64>)|
                        if p.0 == name@ {
                            (name@, keep_last(p.1.push(now)))
                        } else {
                            p
                        },
                ));
            } else {
                assert(start_entries(r@) =~= start_entries(s@).take(i as int));
            }
        }
    }
    assert(start_entries(s@).take(s.len() as int) =~= start_entries(s@));
    if !found {
        let mut first: Vec<u64> = Vec::new();
        first.push(now);
        r.push((name.clone(), first));
        assert(start_entries(r@) =~= record_one(start_entries(s@), name@, now));
    }
    r
}

fn saturating_elapsed(now: u64, then: u64) -> (r: u64)
    ensures
        r == elapsed(now, then),
{
    if now >= then {
        now - then
    } else {
        0
    }
}

fn drop_old_times(times: &Vec<u64>, now: u64) -> (r: Vec<u64>)
    ensures
        r@ == drop_old(times@, now),
{
    let mut from: usize = 0;
    assert(times@.skip(0) =~= times@);
    while from < times.len() && saturating_elapsed(now, times[from]) > HISTORY_SECONDS
        invariant
            from <= times.len(),
            drop_old(times@.skip(from as int), now) == drop_old(times@, now),
        decreases times.len() - from,
    {
        assert(times@.skip(from as int).drop_first() =~= times@.skip(from + 1));
        from = from + 1;
    }
    let mut r: Vec<u64> = Vec::new();
    let mut i = from;
    while i < times.len()
        invariant
            from <= i <= times.len(),
            r@ == times@.subrange(from as int, i as int),
        decreases times.len() - i,
    {
        r.push(times[i]);
        i = i + 1;
        assert(r@ =~= times@.subrange(from as int, i as int));
    }
    assert(r@ =~= times@.skip(from as int));
    r
}

fn expire_histories(s: &Vec<(String, Vec<u64>)>, now: u64) -> (r: Vec<(String, Vec<u64>)>)
    ensures
        start_entries(r@) == expire_starts(start_entries(s@), now),
{
    let mut r: Vec<(String, Vec<u64>)> = Vec::new();
    let mut i: usize = 0;
    while i < s.len()
        invariant
            i <= s.len(),
            start_entries(r@) == expire_starts(start_entries(s@).take(i as int), now),
        decreases s.len() - i,
    {
        let kept = drop_old_times(&s[i].1, now);
        proof {
            assert(start_entries(s@).take(i + 1).drop_last() =~= start_entries(s@).take(i as int));
            assert(start_entries(s@).take(i + 1).last() == (s@[i as int].0@, s@[i as int].1@));
        }
        if kept.len() > 0 {
            r.push((s[i].0.clone(), kept));
        }
        i = i + 1;
        assert(start_entries(r@) =~= expire_starts(start_entries(s@).take(i as int), now));
    }
    assert(start_entries(s@).take(s.len() as int) =~= start_entries(s@));
    r
}

fn count_recent(times: &Vec<u64>, now: u64) -> (r: usize)
    ensures
        r == recent_count(times@, now),
{
    let mut n: usize = 0;
    let mut i: usize = 0;
    while i < times.len()
        invariant
            i <= times.len(),
            n == recent_count(times@.take(i as int), now),
            n <= i,
        decreases times.len() - i,
    {
        assert(times@.take(i + 1).drop_last() =~= times@.take(i as int));
        if saturating_elapsed(now, times[i]) <= RESTART_WINDOW_SECONDS {
            n = n + 1;
        }
        i = i + 1;
    }
    assert(times@.take(times.len() as int) =~= times@);
    n
}

/// `after` is `before` after a scan at `now` that saw `cur`.
///
/// The first scan only records the inventory. Every later scan records a
/// start for each new identity and an exit for each vanished one, counts the
/// starts against their executables, and then forgets events beyond the
/// most recent 128 or older than ten minutes, and starts older than ten
/// minutes.
pub open spec fn updated(before: ActivityTracker, after: ActivityTracker, now: u64, cur: Seq<Entry>) -> bool {
    &&& after.is_initialized()
    &&& !before.is_initialized() ==> {
        &&& after.live_view() == initial_live(cur)
        &&& after.event_log() == before.event_log()
        &&& after.start_view() == before.start_view()
    }
    &&& before.is_initialized() ==> {
        let live = before.live_view();
        let started = started_entries(live, cur);
        let exited = exited_entries(live, cur);
        &&& after.live_view() == keep_by(live, cur, true) + started
        &&& after.event_log() == expire_events(
            before.event_log() + stamp(started, now, ActivityKind::Started) + stamp(
                exited,
                now,
                ActivityKind::Exited,
            ),
            now,
        )
        &&& after.start_view() == expire_starts(record_starts(before.start_view(), started, now), now)
        &&& after.event_log().len() <= EVENT_LIMIT
    }
}

// ---------------------------------------------------------------------------
// The tracker
// ---------------------------------------------------------------------------

impl ActivityTracker {
    /// Whether the first inventory has been taken.
    pub closed spec fn is_initialized(&self) -> bool {
        self.initialized
    }

    /// The processes seen in the last scan, in the order they were recorded.
    pub closed spec fn live_view(&self) -> Seq<Entry> {
        entries(self.live@)
    }

    /// The event history, oldest first.
    pub closed spec fn event_log(&self) -> Seq<EventView> {
        self.events@.map_values(|e: ActivityEvent| e@)
    }

    /// The event history as stored, oldest first.
    pub closed spec fn event_values(&self) -> Seq<ActivityEvent> {
        self.events@
    }

    /// Recent start times per executable.
    pub closed spec fn start_view(&self) -> StartView {
        start_entries(self.starts@)
    }

    /// Takes one scan: the identities running now and their executables.
    ///
    /// The first scan only records the inventory, so processes that were
    /// already running are never reported as starts. Every later scan
    /// records a start for each new identity and an exit for each vanished
    /// one, counts the start against its executable, and then forgets events
    /// beyond the most recent 128 or older than ten minutes, and starts older
    /// than ten minutes.
    pub fn update(&mut self, now_seconds: u64, current: &[(ProcessKey, &str)])
        ensures
            updated(*old(self), *final(self), now_seconds, borrowed_entries(current@)),
    {
        let cur = owned_entries(current);
        if !self.initialized {
            self.live = inventory(&cur);
            self.initialized = true;
            return ;
        }
        let ghost old_log = self.event_log();
        let firsts = first_entries_of(&cur);
        let started = select_by(&firsts, &self.live, false);
        let exited = select_by(&self.live, &cur, false);
        let ghost started_v = entries(started@);
        let ghost exited_v = entries(exited@);
        let mut i: usize = 0;
        while i < started.len()
            invariant
                self.initialized,
                self.live@ == old(self).live@,
                self.starts@ == old(self).starts@,
                i <= started.len(),
                started_v == entries(started@),
                self.event_log() == old_log + stamp(
                    started_v.take(i as int),
                    now_seconds,
                    ActivityKind::Started,
                ),
            decreases started.len() - i,
        {
            let e = clone_entry(&started[i]);
            assert(started_v[i as int] == (e.0, e.1@));
            assert(started_v.take(i + 1) =~= started_v.take(i as int).push(started_v[i as int]));
            let ghost prior = self.events@;
            let ghost ev: EventView = (now_seconds, e.0, e.1@, ActivityKind::Started);
            assert(stamp(started_v.take(i + 1), now_seconds, ActivityKind::Started) =~= stamp(
                started_v.take(i as int),
                now_seconds,
                ActivityKind::Started,
            ).push(ev));
            let event = ActivityEvent {
                at_seconds: now_seconds,
                key: e.0,
                executable: e.1,
                kind: ActivityKind::Started,
            };
            assert(event@ == ev);
            self.events.push_back(event);
            assert(self.events@ == prior.push(event));
            assert(self.event_log() =~= prior.map_values(|x: ActivityEvent| x@).push(ev));
            i = i + 1;
            assert(self.event_log() =~= old_log + stamp(
                started_v.take(i as int),
                now_seconds,
                ActivityKind::Started,
            ));
        }
        assert(started_v.take(started.len() as int) =~= started_v);
        let ghost mid_log = self.event_log();
        let mut j: usize = 0;
        while j < exited.len()
            invariant
                self.initialized,
                self.live@ == old(self).live@,
                self.starts@ == old(self).starts@,
                j <= exited.len(),
                exited_v == entries(exited@),
                self.event_log() == mid_log + stamp(
                    exited_v.take(j as int),
                    now_seconds,
                    ActivityKind::Exited,
                ),
            decreases exited.len() - j,
        {
            let e = clone_entry(&exited[j]);
            assert(exited_v[j as int] == (e.0, e.1@));
            assert(exited_v.take(j + 1) =~= exited_v.take(j as int).push(exited_v[j as int]));
            let ghost prior = self.events@;
            let ghost ev: EventView = (now_seconds, e.0, e.1@, ActivityKind::Exited);
            assert(stamp(exited_v.take(j + 1), now_seconds, ActivityKind::Exited) =~= stamp(
                exited_v.take(j as int),
                now_seconds,
                ActivityKind::Exited,
            ).push(ev));
            let event = ActivityEvent {
                at_seconds: now_seconds,
                key: e.0,
                executable: e.1,
                kind: ActivityKind::Exited,
            };
            assert(event@ == ev);
            self.events.push_back(event);
            assert(self.events@ == prior.push(event));
            assert(self.event_log() =~= prior.map_values(|x: ActivityEvent| x@).push(ev));
            j = j + 1;
            assert(self.event_log() =~= mid_log + stamp(
                exited_v.take(j as int),
                now_seconds,
                ActivityKind::Exited,
            ));
        }
        assert(exited_v.take(exited.len() as int) =~= exited_v);
        let ghost old_starts = self.start_view();
        let mut k: usize = 0;
        while k < started.len()
            invariant
                self.initialized,
                self.live@ == old(self).live@,
                self.event_log() == old_log + stamp(started_v, now_seconds, ActivityKind::Started)
                    + stamp(exited_v, now_seconds, ActivityKind::Exited),
                k <= started.len(),
                started_v == entries(started@),
                self.start_view() == record_starts(
                    old_starts,
                    started_v.take(k as int),
                    now_seconds,
                ),
            decreases started.len() - k,
        {
            assert(started_v.take(k + 1).drop_last() =~= started_v.take(k as int));
            assert(started_v.take(k + 1).last() == started_v[k as int]);
            assert(started_v[k as int].1 == started@[k as int].1@);
            self.starts = record_start(&self.starts, &started[k].1, now_seconds);
            k = k + 1;
        }
        assert(started_v.take(started.len() as int) =~= started_v);
        let mut next = select_by(&self.live, &cur, true);
        let ghost kept = entries(next@);
        let mut m: usize = 0;
        while m < started.len()
            invariant
                m <= started.len(),
                started_v == entries(started@),
                entries(next@) == kept + started_v.take(m as int),
            decreases started.len() - m,
        {
            let e = clone_entry(&started[m]);
            assert(started_v[m as int] == (e.0, e.1@));
            assert(started_v.take(m + 1) =~= started_v.take(m as int).push(started_v[m as int]));
            let ghost prior = next@;
            let ghost ev = (e.0, e.1@);
            next.push(e);
            assert(next@ == prior.push(e));
            assert(entries(next@) =~= entries(prior).push(ev));
            m = m + 1;
            assert(entries(next@) =~= kept + started_v.take(m as int));
        }
        assert(started_v.take(started.len() as int) =~= started_v);
        self.live = next;
        self.expire(now_seconds);
        proof {
            lemma_expire_events_bounded(
                old_log + stamp(started_v, now_seconds, ActivityKind::Started) + stamp(
                    exited_v,
                    now_seconds,
                    ActivityKind::Exited,
                ),
                now_seconds,
            );
        }
    }

    /// Whether `executable` started at least three times within the last two
    /// minutes of `now_seconds`.
    pub fn is_restarting(&self, executable: &str, now_seconds: u64) -> (r: bool)
        ensures
            r == restarting(self.start_view(), executable@, now_seconds),
    {
        let name = executable.to_owned();
        let mut i: usize = 0;
        while i < self.starts.len()
            invariant
                i <= self.starts.len(),
                name@ == executable@,
                forall|j: int|
                    0 <= j < i ==> !(start_entries(self.starts@)[j].0 == name@ && recent_count(
                        start_entries(self.starts@)[j].1,
                        now_seconds,
                    ) >= RESTART_THRESHOLD),
            decreases self.starts.len() - i,
        {
            if self.starts[i].0 == name && count_recent(&self.starts[i].1, now_seconds)
                >= RESTART_THRESHOLD {
                assert(start_entries(self.starts@)[i as int] == (
                    self.starts@[i as int].0@,
                    self.starts@[i as int].1@,
                ));
                return true;
            }
            i = i + 1;
        }
        false
    }

    /// The event history, oldest first.
    pub fn events(&self) -> (r: std::collections::vec_deque::Iter<'_, ActivityEvent>)
        ensures
            IteratorSpec::remaining(&r) == self.event_values().map_values(
                |e: ActivityEvent| &e,
            ),
            IteratorSpec::remaining(&r).map_values(|e: &ActivityEvent| (*e)@) == self.event_log(),
    {
        let r = self.events.iter();
        assert(self.events@.as_ref() =~= self.event_values().map_values(|e: ActivityEvent| &e));
        assert(self.event_values().map_values(|e: ActivityEvent| &e).map_values(
            |e: &ActivityEvent| (*e)@,
        ) =~= self.event_log());
        r
    }

    fn expire(&mut self, now_seconds: u64)
        ensures
            final(self).live_view() == old(self).live_view(),
            final(self).is_initialized() == old(self).is_initialized(),
            final(self).event_log() == expire_events(old(self).event_log(), now_seconds),
            final(self).start_view() == expire_starts(old(self).start_view(), now_seconds),
    {
        let ghost original = self.event_log();
        while self.events.len() > 0 && (self.events.len() > EVENT_LIMIT || saturating_elapsed(
            now_seconds,
            self.events[0].at_seconds,
        ) > HISTORY_SECONDS)
            invariant
                self.live@ == old(self).live@,
                self.starts@ == old(self).starts@,
                self.initialized == old(self).initialized,
                expire_events(self.event_log(), now_seconds) == expire_events(
                    original,
                    now_seconds,
                ),
            decreases self.events.len(),
        {
            let ghost before = self.event_log();
            assert(before[0] == self.events@[0]@);
            self.events.pop_front();
            assert(self.event_log() =~= before.drop_first());
        }
        self.starts = expire_histories(&self.starts, now_seconds);
    }
}

// ---------------------------------------------------------------------------
// Laws
// ---------------------------------------------------------------------------

/// Expiry leaves at most 128 events.
pub proof fn lemma_expire_events_bounded(ev: Seq<EventView>, now: u64)
    ensures
        expire_events(ev, now).len() <= EVENT_LIMIT,
        expire_events(ev, now).len() <= ev.len(),
    decreases ev.len(),
{
    if ev.len() > 0 && (ev.len() > EVENT_LIMIT || elapsed(now, ev[0].0) > HISTORY_SECONDS) {
        lemma_expire_events_bounded(ev.drop_first(), now);
    }
}

proof fn lemma_drop_old_shorter(starts: Seq<u64>, now: u64)
    ensures
        drop_old(starts, now).len() <= starts.len(),
    decreases starts.len(),
{
    if starts.len() > 0 && elapsed(now, starts[0]) > HISTORY_SECONDS {
        lemma_drop_old_shorter(starts.drop_first(), now);
    }
}

proof fn lemma_record_one_bounded(s: StartView, name: Seq<char>, now: u64)
    requires
        histories_bounded(s),
    ensures
        histories_bounded(record_one(s, name, now)),
{
    let r = record_one(s, name, now);
    if name_in(s, name) {
        assert forall|i: int| 0 <= i < r.len() implies (#[trigger] r[i]).1.len() <= STARTS_KEPT by {
            assert(s[i].1.len() <= STARTS_KEPT);
        }
    } else {
        assert forall|i: int| 0 <= i < r.len() implies (#[trigger] r[i]).1.len() <= STARTS_KEPT by {
            if i < s.len() {
                assert(r[i] == s[i]);
            }
        }
    }
}

proof fn lemma_record_starts_bounded(s: StartView, started: Seq<Entry>, now: u64)
    requires
        histories_bounded(s),
    ensures
        histories_bounded(record_starts(s, started, now)),
    decreases started.len(),
{
    if started.len() > 0 {
        lemma_record_starts_bounded(s, started.drop_last(), now);
        lemma_record_one_bounded(record_starts(s, started.drop_last(), now), started.last().1, now);
    }
}

proof fn lemma_expire_starts_bounded(s: StartView, now: u64)
    requires
        histories_bounded(s),
    ensures
        histories_bounded(expire_starts(s, now)),
    decreases s.len(),
{
    if s.len() > 0 {
        let rest = s.drop_last();
        assert(histories_bounded(rest)) by {
            assert forall|i: int| 0 <= i < rest.len() implies (#[trigger] rest[i]).1.len()
                <= STARTS_KEPT by {
                assert(rest[i] == s[i]);
            }
        }
        lemma_expire_starts_bounded(rest, now);
        let r = expire_starts(rest, now);
        let kept = drop_old(s.last().1, now);
        lemma_drop_old_shorter(s.last().1, now);
        assert(s[s.len() - 1].1.len() <= STARTS_KEPT);
        if kept.len() > 0 {
            let out = r.push((s.last().0, kept));
            assert forall|i: int| 0 <= i < out.len() implies (#[trigger] out[i]).1.len()
                <= STARTS_KEPT by {
                if i < r.len() {
                    assert(out[i] == r[i]);
                }
            }
        }
    }
}

/// A scan never lets the start history of an executable grow beyond eight
/// entries: if every history held at most eight starts before a later scan,
/// every history holds at most eight after it.
pub proof fn lemma_scan_keeps_histories_bounded(s: StartView, started: Seq<Entry>, now: u64)
    requires
        histories_bounded(s),
    ensures
        histories_bounded(expire_starts(record_starts(s, started, now), now)),
{
    lemma_record_starts_bounded(s, started, now);
    lemma_expire_starts_bounded(record_starts(s, started, now), now);
}

// ---------------------------------------------------------------------------
// The recent-activity text
// ---------------------------------------------------------------------------

/// How many events the recent-activity text lists.
pub const RECENT_LISTED: usize = 40;

/// The word for an event kind.
pub open spec fn kind_word(kind: ActivityKind) -> Seq<char> {
    match kind {
        ActivityKind::Started => "Started"@,
        ActivityKind::Exited => "Exited"@,
    }
}

/// One line of the recent-activity text.
pub open spec fn event_line(e: EventView) -> Seq<char> {
    decimal(e.0 as nat) + "s  "@ + kind_word(e.3) + "  "@ + e.2 + " (PID "@ + decimal(
        e.1.pid as nat,
    ) + ")"@
}

/// The lines for the most recent events, newest first: the event at index
/// `len - 1 - k` of the log for each `k` below the count listed.
pub open spec fn recent_lines(log: Seq<EventView>) -> Seq<Seq<char>> {
    let count = if log.len() < RECENT_LISTED {
        log.len()
    } else {
        RECENT_LISTED as nat
    };
    Seq::new(count, |k: int| event_line(log[log.len() - 1 - k]))
}

/// Lines joined with newlines.
pub open spec fn joined_lines(lines: Seq<Seq<char>>) -> Seq<char>
    decreases lines.len(),
{
    if lines.len() == 0 {
        Seq::empty()
    } else if lines.len() == 1 {
        lines[0]
    } else {
        joined_lines(lines.drop_last()) + "\n"@ + lines.last()
    }
}

/// The text shown when nothing has been observed.
pub open spec fn quiet_text() -> Seq<char> {
    "No process starts or exits have been observed in this session."@
}

impl ActivityTracker {
    /// The recent-activity text: the latest forty starts and exits, newest
    /// first, one per line, or a note that none has been observed.
    pub fn recent_text(&self) -> (r: String)
        ensures
            r@ == if self.event_log().len() == 0 {
                quiet_text()
            } else {
                joined_lines(recent_lines(self.event_log()))
            },
    {
        let n = self.events.len();
        if n == 0 {
            return "No process starts or exits have been observed in this session.".to_owned();
        }
        let ghost log = self.event_log();
        let ghost lines = recent_lines(log);
        let count = if n < RECENT_LISTED {
            n
        } else {
            RECENT_LISTED
        };
        let mut out: Vec<char> = Vec::new();
        let mut k: usize = 0;
        while k < count
            invariant
                n == self.events@.len(),
                log == self.event_log(),
                lines == recent_lines(log),
                lines.len() == count,
                0 < count <= n,
                k <= count,
                k > 0 ==> out@ == joined_lines(lines.take(k as int)),
                k == 0 ==> out@.len() == 0,
            decreases count - k,
        {
            let e = &self.events[n - 1 - k];
            assert(log[n - 1 - k] == self.events@[n - 1 - k]@);
            let mut line: Vec<char> = decimal_chars(e.at_seconds);
            push_all(&mut line, &chars_of("s  "));
            match e.kind {
                ActivityKind::Started => push_all(&mut line, &chars_of("Started")),
                ActivityKind::Exited => push_all(&mut line, &chars_of("Exited")),
            }
            push_all(&mut line, &chars_of("  "));
            push_all(&mut line, &chars_of(e.executable.as_str()));
            push_all(&mut line, &chars_of(" (PID "));
            push_all(&mut line, &decimal_chars(e.key.pid as u64));
            push_all(&mut line, &chars_of(")"));
            assert(line@ == lines[k as int]);
            if k > 0 {
                push_all(&mut out, &chars_of("\n"));
            }
            push_all(&mut out, &line);
            proof {
                assert(lines.take(k + 1).drop_last() =~= lines.take(k as int));
                assert(lines.take(k + 1).last() == lines[k as int]);
                if k == 0 {
                    assert(lines.take(1).len() == 1);
                    assert(out@ =~= lines.take(1)[0]);
                }
            }
            k = k + 1;
        }
        assert(lines.take(count as int) =~= lines);
        string_from_chars(out.as_slice())
    }
}

} // verus!
