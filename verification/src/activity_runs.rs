//! Laws of the activity tracker: what one scan reports, and what holds over
//! a whole run of scans.
//!
//! One scan: a start for every identity seen now and not before, an exit for
//! every identity seen before and not now, nothing for the others, and the
//! identities running afterwards are exactly those seen now.
//!
//! Restart detection: an executable is restarting exactly when at least
//! three of its starts, counted over every scan since the first, happened
//! within the restart window. The tracker keeps only the last eight starts
//! of each executable and forgets those older than the history window; the
//! lemmas here show that neither ever changes the answer.
//!
//! The event history: it stays in time order, holds at most 128 events, and
//! none older than the history window before the latest scan.

use crate::activity::{
    first_entries, keep_by, key_in,
    expire_events, stamp, EventView, EVENT_LIMIT, ActivityKind,
    elapsed, drop_old, keep_last, name_in, recent_count, record_one, record_starts, expire_starts,
    restarting, started_entries, exited_entries, updated, ActivityTracker, Entry, ProcessKey, StartView, HISTORY_SECONDS,
    RESTART_THRESHOLD, RESTART_WINDOW_SECONDS, STARTS_KEPT,
};
use vstd::prelude::*;

verus! {

/// Start times in ascending order.
pub open spec fn ascending(h: Seq<u64>) -> bool {
    forall|i: int, j: int| 0 <= i <= j < h.len() ==> h[i] <= h[j]
}

/// `kept` is what the tracker may hold, at time `w`, of the full start
/// history `all`: a suffix of it, every earlier start being older than the
/// history window or followed by at least eight later ones.
pub open spec fn kept_from(kept: Seq<u64>, all: Seq<u64>, w: u64) -> bool {
    &&& kept.len() <= all.len()
    &&& kept == all.skip(all.len() - kept.len())
    &&& ascending(all)
    &&& forall|i: int| 0 <= i < all.len() ==> #[trigger] all[i] <= w
    &&& forall|i: int|
        0 <= i < all.len() - kept.len() ==> elapsed(w, #[trigger] all[i]) > HISTORY_SECONDS || all.len()
            - 1 - i >= STARTS_KEPT
}

proof fn lemma_drop_old_suffix(s: Seq<u64>, n: u64)
    ensures
        drop_old(s, n).len() <= s.len(),
        drop_old(s, n) == s.skip(s.len() - drop_old(s, n).len()),
        forall|i: int|
            0 <= i < s.len() - drop_old(s, n).len() ==> elapsed(n, #[trigger] s[i]) > HISTORY_SECONDS,
    decreases s.len(),
{
    if s.len() > 0 && elapsed(n, s[0]) > HISTORY_SECONDS {
        let t = s.drop_first();
        lemma_drop_old_suffix(t, n);
        assert(t.skip(t.len() - drop_old(t, n).len()) =~= s.skip(s.len() - drop_old(s, n).len()));
        assert forall|i: int| 0 <= i < s.len() - drop_old(s, n).len() implies elapsed(
            n,
            #[trigger] s[i],
        ) > HISTORY_SECONDS by {
            if i > 0 {
                assert(s[i] == t[i - 1]);
            }
        }
    } else {
        assert(s.skip(0) =~= s);
    }
}

proof fn lemma_kept_later(kept: Seq<u64>, all: Seq<u64>, w: u64, later: u64)
    requires
        kept_from(kept, all, w),
        w <= later,
    ensures
        kept_from(kept, all, later),
{
    assert forall|i: int| 0 <= i < all.len() - kept.len() implies elapsed(later, #[trigger] all[i])
        > HISTORY_SECONDS || all.len() - 1 - i >= STARTS_KEPT by {
        assert(all[i] <= w);
    }
}

proof fn lemma_kept_push(kept: Seq<u64>, all: Seq<u64>, n: u64)
    requires
        kept_from(kept, all, n),
    ensures
        kept_from(keep_last(kept.push(n)), all.push(n), n),
{
    let a = all.push(n);
    let p = kept.push(n);
    let k = keep_last(p);
    assert(p =~= a.skip(a.len() - p.len()));
    assert(k =~= a.skip(a.len() - k.len()));
    assert forall|i: int, j: int| 0 <= i <= j < a.len() implies a[i] <= a[j] by {
        if j < all.len() {
            assert(a[i] == all[i] && a[j] == all[j]);
        } else {
            if i < all.len() {
                assert(all[i] <= n);
            }
        }
    }
    assert forall|i: int| 0 <= i < a.len() implies #[trigger] a[i] <= n by {
        if i < all.len() {
            assert(a[i] == all[i]);
        }
    }
    assert forall|i: int| 0 <= i < a.len() - k.len() implies elapsed(n, #[trigger] a[i])
        > HISTORY_SECONDS || a.len() - 1 - i >= STARTS_KEPT by {
        if i < all.len() - kept.len() {
            assert(a[i] == all[i]);
        }
    }
}

proof fn lemma_kept_expire(kept: Seq<u64>, all: Seq<u64>, n: u64)
    requires
        kept_from(kept, all, n),
    ensures
        kept_from(drop_old(kept, n), all, n),
{
    lemma_drop_old_suffix(kept, n);
    let d = drop_old(kept, n);
    assert(d =~= all.skip(all.len() - d.len()));
    assert forall|i: int| 0 <= i < all.len() - d.len() implies elapsed(n, #[trigger] all[i])
        > HISTORY_SECONDS || all.len() - 1 - i >= STARTS_KEPT by {
        if i >= all.len() - kept.len() {
            let j = i - (all.len() - kept.len());
            assert(kept[j] == all[i]);
        }
    }
}

proof fn lemma_recent_concat(a: Seq<u64>, b: Seq<u64>, now: u64)
    ensures
        recent_count(a + b, now) == recent_count(a, now) + recent_count(b, now),
    decreases b.len(),
{
    if b.len() == 0 {
        assert(a + b =~= a);
    } else {
        lemma_recent_concat(a, b.drop_last(), now);
        assert((a + b).drop_last() =~= a + b.drop_last());
    }
}

proof fn lemma_recent_bounds(s: Seq<u64>, now: u64)
    ensures
        recent_count(s, now) <= s.len(),
        recent_count(s, now) > 0 ==> exists|i: int|
            0 <= i < s.len() && elapsed(now, #[trigger] s[i]) <= RESTART_WINDOW_SECONDS,
        (forall|i: int| 0 <= i < s.len() ==> elapsed(now, #[trigger] s[i]) <= RESTART_WINDOW_SECONDS)
            ==> recent_count(s, now) == s.len(),
    decreases s.len(),
{
    if s.len() > 0 {
        let t = s.drop_last();
        lemma_recent_bounds(t, now);
        if recent_count(t, now) > 0 {
            let i = choose|i: int| 0 <= i < t.len() && elapsed(now, #[trigger] t[i]) <= RESTART_WINDOW_SECONDS;
            assert(s[i] == t[i]);
        }
        if forall|i: int| 0 <= i < s.len() ==> elapsed(now, #[trigger] s[i]) <= RESTART_WINDOW_SECONDS {
            assert forall|i: int| 0 <= i < t.len() implies elapsed(now, #[trigger] t[i])
                <= RESTART_WINDOW_SECONDS by {
                assert(t[i] == s[i]);
            }
        }
    }
}

/// Keeping a suffix as `kept_from` allows never changes whether three starts
/// fall in the restart window.
proof fn lemma_kept_restarting(kept: Seq<u64>, all: Seq<u64>, w: u64, now: u64)
    requires
        kept_from(kept, all, w),
        w <= now,
    ensures
        (recent_count(kept, now) >= RESTART_THRESHOLD) == (recent_count(all, now)
            >= RESTART_THRESHOLD),
{
    let d = all.len() - kept.len();
    let dropped = all.take(d);
    assert(all =~= dropped + kept);
    lemma_recent_concat(dropped, kept, now);
    lemma_recent_bounds(dropped, now);
    if recent_count(dropped, now) > 0 {
        let i = choose|i: int|
            0 <= i < dropped.len() && elapsed(now, #[trigger] dropped[i]) <= RESTART_WINDOW_SECONDS;
        assert(all[i] <= all[d - 1]);
        assert(dropped[d - 1] == all[d - 1]);
        assert(all[d - 1] <= w);
        assert(elapsed(w, all[d - 1]) <= HISTORY_SECONDS);
        assert(kept.len() >= STARTS_KEPT);
        assert forall|j: int| 0 <= j < kept.len() implies elapsed(now, #[trigger] kept[j])
            <= RESTART_WINDOW_SECONDS by {
            assert(kept[j] == all[d + j]);
            assert(all[d - 1] <= all[d + j]);
            assert(all[d + j] <= w);
        }
        lemma_recent_bounds(kept, now);
    }
}

/// No executable has two start histories.
pub open spec fn names_distinct(s: StartView) -> bool {
    forall|i: int, j: int| 0 <= i < j < s.len() ==> (#[trigger] s[i]).0 != (#[trigger] s[j]).0
}

/// The start history recorded for `name`; empty when there is none.
pub open spec fn history_of(s: StartView, name: Seq<char>) -> Seq<u64> {
    if name_in(s, name) {
        s[choose|i: int| 0 <= i < s.len() && s[i].0 == name].1
    } else {
        seq![]
    }
}

proof fn lemma_history_at(s: StartView, name: Seq<char>, i: int)
    requires
        names_distinct(s),
        0 <= i < s.len(),
        s[i].0 == name,
    ensures
        history_of(s, name) == s[i].1,
{
    assert(name_in(s, name));
    let j = choose|j: int| 0 <= j < s.len() && s[j].0 == name;
    if j != i {
        if j < i {
            assert(s[j].0 != s[i].0);
        } else {
            assert(s[i].0 != s[j].0);
        }
    }
}

/// With one history per name, restarting is about that history alone.
proof fn lemma_restarting_history(s: StartView, name: Seq<char>, now: u64)
    requires
        names_distinct(s),
    ensures
        restarting(s, name, now) == (recent_count(history_of(s, name), now) >= RESTART_THRESHOLD),
{
    if restarting(s, name, now) {
        let i = choose|i: int|
            0 <= i < s.len() && s[i].0 == name && recent_count(s[i].1, now) >= RESTART_THRESHOLD;
        lemma_history_at(s, name, i);
    }
    if name_in(s, name) {
        let i = choose|i: int| 0 <= i < s.len() && s[i].0 == name;
        lemma_history_at(s, name, i);
    }
}

proof fn lemma_record_one_history(s: StartView, recorded: Seq<char>, n: u64, name: Seq<char>)
    requires
        names_distinct(s),
    ensures
        names_distinct(record_one(s, recorded, n)),
        history_of(record_one(s, recorded, n), name) == if recorded == name {
            keep_last(history_of(s, name).push(n))
        } else {
            history_of(s, name)
        },
{
    let r = record_one(s, recorded, n);
    if name_in(s, recorded) {
        let f = |p: (Seq<char>, Seq<u64>)|
            if p.0 == recorded {
                (recorded, keep_last(p.1.push(n)))
            } else {
                p
            };
        assert(r == s.map_values(f));
        assert forall|i: int| 0 <= i < s.len() implies (#[trigger] r[i]).0 == s[i].0 by {
            assert(r[i] == f(s[i]));
        }
        assert(names_distinct(r)) by {
            assert forall|i: int, j: int| 0 <= i < j < r.len() implies (#[trigger] r[i]).0 != (
            #[trigger] r[j]).0 by {
                assert(r[i].0 == s[i].0 && r[j].0 == s[j].0);
            }
        }
        if name_in(s, name) {
            let i = choose|i: int| 0 <= i < s.len() && s[i].0 == name;
            lemma_history_at(s, name, i);
            assert(r[i] == f(s[i]));
            lemma_history_at(r, name, i);
        } else {
            assert forall|i: int| 0 <= i < r.len() implies #[trigger] r[i].0 != name by {
                assert(r[i].0 == s[i].0);
            }
            let k = choose|k: int| 0 <= k < s.len() && s[k].0 == recorded;
            if recorded == name {
                assert(s[k].0 == name);
            }
            assert(!name_in(r, name));
        }
    } else {
        assert(r == s.push((recorded, seq![n])));
        assert(names_distinct(r)) by {
            assert forall|i: int, j: int| 0 <= i < j < r.len() implies (#[trigger] r[i]).0 != (
            #[trigger] r[j]).0 by {
                if j == s.len() {
                    assert(r[i] == s[i]);
                    assert(!(s[i].0 == recorded));
                } else {
                    assert(r[i] == s[i] && r[j] == s[j]);
                }
            }
        }
        if recorded == name {
            lemma_history_at(r, name, s.len() as int);
            assert(seq![n] =~= keep_last(Seq::<u64>::empty().push(n)));
        } else if name_in(s, name) {
            let i = choose|i: int| 0 <= i < s.len() && s[i].0 == name;
            lemma_history_at(s, name, i);
            assert(r[i] == s[i]);
            lemma_history_at(r, name, i);
        } else {
            assert forall|i: int| 0 <= i < r.len() implies #[trigger] r[i].0 != name by {
                if i < s.len() {
                    assert(r[i] == s[i]);
                }
            }
        }
    }
}

/// How many of `started` run `name`.
pub open spec fn named_count(started: Seq<Entry>, name: Seq<char>) -> nat
    decreases started.len(),
{
    if started.len() == 0 {
        0
    } else {
        named_count(started.drop_last(), name) + if started.last().1 == name {
            1nat
        } else {
            0nat
        }
    }
}

/// `count` copies of the time `t`.
pub open spec fn repeated(t: u64, count: nat) -> Seq<u64> {
    Seq::new(count, |i: int| t)
}

proof fn lemma_record_starts_history(
    s: StartView,
    started: Seq<Entry>,
    n: u64,
    name: Seq<char>,
    all: Seq<u64>,
)
    requires
        names_distinct(s),
        kept_from(history_of(s, name), all, n),
    ensures
        names_distinct(record_starts(s, started, n)),
        kept_from(
            history_of(record_starts(s, started, n), name),
            all + repeated(n, named_count(started, name)),
            n,
        ),
    decreases started.len(),
{
    if started.len() == 0 {
        assert(all + repeated(n, 0) =~= all);
    } else {
        let front = started.drop_last();
        lemma_record_starts_history(s, front, n, name, all);
        let mid = record_starts(s, front, n);
        let before = all + repeated(n, named_count(front, name));
        lemma_record_one_history(mid, started.last().1, n, name);
        if started.last().1 == name {
            lemma_kept_push(history_of(mid, name), before, n);
            assert(before.push(n) =~= all + repeated(n, named_count(started, name)));
        }
    }
}

proof fn lemma_expire_starts_history(s: StartView, n: u64, name: Seq<char>)
    requires
        names_distinct(s),
    ensures
        names_distinct(expire_starts(s, n)),
        forall|j: int|
            0 <= j < expire_starts(s, n).len() ==> name_in(s, #[trigger] expire_starts(s, n)[j].0),
        history_of(expire_starts(s, n), name) == drop_old(history_of(s, name), n),
    decreases s.len(),
{
    if s.len() == 0 {
        assert(drop_old(Seq::<u64>::empty(), n) =~= Seq::<u64>::empty());
    } else {
        let t = s.drop_last();
        assert(names_distinct(t)) by {
            assert forall|i: int, j: int| 0 <= i < j < t.len() implies (#[trigger] t[i]).0 != (
            #[trigger] t[j]).0 by {
                assert(t[i] == s[i] && t[j] == s[j]);
            }
        }
        lemma_expire_starts_history(t, n, name);
        lemma_expire_starts_history(t, n, s.last().0);
        let r = expire_starts(t, n);
        let kept = drop_old(s.last().1, n);
        let last = s.len() - 1;
        assert(s.last() == s[last]);
        assert forall|j: int| 0 <= j < r.len() implies name_in(s, #[trigger] r[j].0) by {
            assert(name_in(t, r[j].0));
            let i = choose|i: int| 0 <= i < t.len() && t[i].0 == r[j].0;
            assert(s[i] == t[i]);
        }
        assert(!name_in(t, s.last().0)) by {
            if name_in(t, s.last().0) {
                let i = choose|i: int| 0 <= i < t.len() && t[i].0 == s.last().0;
                assert(s[i] == t[i]);
                assert(s[i].0 != s[last].0);
            }
        }
        assert forall|j: int| 0 <= j < r.len() implies #[trigger] r[j].0 != s.last().0 by {
            assert(name_in(t, r[j].0));
        }
        if name == s.last().0 {
            lemma_history_at(s, name, last);
            assert(!name_in(r, name)) by {
                if name_in(r, name) {
                    let j = choose|j: int| 0 <= j < r.len() && r[j].0 == name;
                }
            }
        } else if name_in(t, name) {
            let i = choose|i: int| 0 <= i < t.len() && t[i].0 == name;
            lemma_history_at(t, name, i);
            assert(s[i] == t[i]);
            lemma_history_at(s, name, i);
        } else {
            assert(!name_in(s, name)) by {
                if name_in(s, name) {
                    let i = choose|i: int| 0 <= i < s.len() && s[i].0 == name;
                    if i < last {
                        assert(t[i] == s[i]);
                    }
                }
            }
            assert(drop_old(Seq::<u64>::empty(), n) =~= Seq::<u64>::empty());
            assert(!name_in(r, name)) by {
                if name_in(r, name) {
                    let j = choose|j: int| 0 <= j < r.len() && r[j].0 == name;
                    assert(name_in(t, r[j].0));
                }
            }
        }
        if kept.len() > 0 {
            let out = r.push((s.last().0, kept));
            assert(names_distinct(out)) by {
                assert forall|i: int, j: int| 0 <= i < j < out.len() implies (#[trigger] out[i]).0
                    != (#[trigger] out[j]).0 by {
                    if j == r.len() {
                        assert(out[i] == r[i]);
                    } else {
                        assert(out[i] == r[i] && out[j] == r[j]);
                    }
                }
            }
            assert forall|j: int| 0 <= j < out.len() implies name_in(s, #[trigger] out[j].0) by {
                if j == r.len() {
                    assert(s[last].0 == out[j].0);
                } else {
                    assert(out[j] == r[j]);
                }
            }
            if name == s.last().0 {
                lemma_history_at(out, name, r.len() as int);
            } else if name_in(r, name) {
                let i = choose|i: int| 0 <= i < r.len() && r[i].0 == name;
                lemma_history_at(r, name, i);
                assert(out[i] == r[i]);
                lemma_history_at(out, name, i);
            } else {
                assert(!name_in(out, name)) by {
                    if name_in(out, name) {
                        let j = choose|j: int| 0 <= j < out.len() && out[j].0 == name;
                        if j < r.len() {
                            assert(out[j] == r[j]);
                        }
                    }
                }
            }
        }
    }
}

/// `trackers[k + 1]` is `trackers[k]` after the scan at `times[k]` that saw
/// `scans[k]`, with the scan times never going back.
pub open spec fn is_run(
    trackers: Seq<ActivityTracker>,
    times: Seq<u64>,
    scans: Seq<Seq<Entry>>,
) -> bool {
    &&& trackers.len() == times.len() + 1
    &&& scans.len() == times.len()
    &&& forall|k: int|
        0 <= k < times.len() ==> updated(
            #[trigger] trackers[k],
            trackers[k + 1],
            times[k],
            scans[k],
        )
    &&& forall|i: int, j: int| 0 <= i <= j < times.len() ==> times[i] <= times[j]
}

/// Every start of `name` reported by the first `k` scans of a run, as the
/// time of its scan: a scan after the first reports a start for each
/// identity it sees that the scan before did not.
pub open spec fn run_starts(
    trackers: Seq<ActivityTracker>,
    times: Seq<u64>,
    scans: Seq<Seq<Entry>>,
    name: Seq<char>,
    k: nat,
) -> Seq<u64>
    decreases k,
{
    if k == 0 {
        seq![]
    } else {
        let before = run_starts(trackers, times, scans, name, (k - 1) as nat);
        let t = trackers[k - 1];
        if t.is_initialized() {
            before + repeated(
                times[k - 1],
                named_count(started_entries(t.live_view(), scans[k - 1]), name),
            )
        } else {
            before
        }
    }
}

proof fn lemma_run_invariant(
    trackers: Seq<ActivityTracker>,
    times: Seq<u64>,
    scans: Seq<Seq<Entry>>,
    name: Seq<char>,
    k: nat,
)
    requires
        is_run(trackers, times, scans),
        !trackers[0].is_initialized(),
        trackers[0].start_view() == StartView::empty(),
        1 <= k <= times.len(),
    ensures
        names_distinct(trackers[k as int].start_view()),
        kept_from(
            history_of(trackers[k as int].start_view(), name),
            run_starts(trackers, times, scans, name, k),
            times[k - 1],
        ),
    decreases k,
{
    assert(updated(trackers[k - 1], trackers[k as int], times[k - 1], scans[k - 1]));
    if k == 1 {
        assert(!name_in(StartView::empty(), name));
        assert(run_starts(trackers, times, scans, name, 0) =~= Seq::<u64>::empty());
        assert(Seq::<u64>::empty().skip(0) =~= Seq::<u64>::empty());
    } else {
        let j = (k - 1) as nat;
        lemma_run_invariant(trackers, times, scans, name, j);
        assert(updated(trackers[j - 1], trackers[j as int], times[j - 1], scans[j - 1]));
        let t = trackers[j as int];
        let n = times[j as int];
        let started = started_entries(t.live_view(), scans[j as int]);
        let all = run_starts(trackers, times, scans, name, j);
        assert(times[j - 1] <= n);
        lemma_kept_later(history_of(t.start_view(), name), all, times[j - 1], n);
        lemma_record_starts_history(t.start_view(), started, n, name, all);
        let recorded = record_starts(t.start_view(), started, n);
        lemma_expire_starts_history(recorded, n, name);
        lemma_kept_expire(history_of(recorded, name), all + repeated(n, named_count(started, name)), n);
    }
}

/// Restart detection over a run of scans from a fresh tracker: after any
/// number of scans, and at any time `now` not before the last one, `name` is
/// restarting exactly when at least three of the starts the run reported
/// for it (see `run_starts`) lie within the restart window of `now`. Keeping
/// only the last eight starts and forgetting those older than the history
/// window never changes the answer.
pub proof fn lemma_restarting_counts_run_starts(
    trackers: Seq<ActivityTracker>,
    times: Seq<u64>,
    scans: Seq<Seq<Entry>>,
    name: Seq<char>,
    now: u64,
)
    requires
        is_run(trackers, times, scans),
        !trackers[0].is_initialized(),
        trackers[0].start_view() == StartView::empty(),
        times.len() > 0 ==> times.last() <= now,
    ensures
        restarting(trackers.last().start_view(), name, now) == (recent_count(
            run_starts(trackers, times, scans, name, times.len()),
            now,
        ) >= RESTART_THRESHOLD),
{
    let k = times.len();
    if k == 0 {
        assert(run_starts(trackers, times, scans, name, 0) =~= Seq::<u64>::empty());
        assert(trackers.last() == trackers[0]);
    } else {
        lemma_run_invariant(trackers, times, scans, name, k);
        assert(trackers.last() == trackers[k as int]);
        assert(times.last() == times[k - 1]);
        lemma_restarting_history(trackers.last().start_view(), name, now);
        lemma_kept_restarting(
            history_of(trackers.last().start_view(), name),
            run_starts(trackers, times, scans, name, k),
            times[k - 1],
            now,
        );
    }
}

/// Events in the order of their times.
pub open spec fn events_in_order(ev: Seq<EventView>) -> bool {
    forall|i: int, j: int| 0 <= i <= j < ev.len() ==> (#[trigger] ev[i]).0 <= (#[trigger] ev[j]).0
}

/// Every event happened at or before `now`, within the history window.
pub open spec fn events_recent(ev: Seq<EventView>, now: u64) -> bool {
    forall|i: int|
        0 <= i < ev.len() ==> (#[trigger] ev[i]).0 <= now && elapsed(now, ev[i].0)
            <= HISTORY_SECONDS
}

proof fn lemma_expire_events_suffix(ev: Seq<EventView>, now: u64)
    ensures
        expire_events(ev, now).len() <= ev.len(),
        expire_events(ev, now) == ev.skip(ev.len() - expire_events(ev, now).len()),
        expire_events(ev, now).len() <= EVENT_LIMIT,
        expire_events(ev, now).len() > 0 ==> elapsed(now, expire_events(ev, now)[0].0)
            <= HISTORY_SECONDS,
    decreases ev.len(),
{
    if ev.len() > 0 && (ev.len() > EVENT_LIMIT || elapsed(now, ev[0].0) > HISTORY_SECONDS) {
        let t = ev.drop_first();
        lemma_expire_events_suffix(t, now);
        assert(t.skip(t.len() - expire_events(t, now).len()) =~= ev.skip(
            ev.len() - expire_events(ev, now).len(),
        ));
    } else {
        assert(ev.skip(0) =~= ev);
    }
}

/// One scan keeps the history in order and recent.
proof fn lemma_scan_events(
    ev: Seq<EventView>,
    last: u64,
    started: Seq<Entry>,
    exited: Seq<Entry>,
    now: u64,
)
    requires
        events_in_order(ev),
        forall|i: int| 0 <= i < ev.len() ==> (#[trigger] ev[i]).0 <= last,
        last <= now,
    ensures
        events_in_order(
            expire_events(
                ev + stamp(started, now, ActivityKind::Started) + stamp(
                    exited,
                    now,
                    ActivityKind::Exited,
                ),
                now,
            ),
        ),
        events_recent(
            expire_events(
                ev + stamp(started, now, ActivityKind::Started) + stamp(
                    exited,
                    now,
                    ActivityKind::Exited,
                ),
                now,
            ),
            now,
        ),
{
    let all = ev + stamp(started, now, ActivityKind::Started) + stamp(
        exited,
        now,
        ActivityKind::Exited,
    );
    assert forall|i: int| 0 <= i < all.len() implies (#[trigger] all[i]).0 <= now && (i
        >= ev.len() ==> all[i].0 == now) by {
        if i < ev.len() {
            assert(all[i] == ev[i]);
        } else if i < ev.len() + started.len() {
            assert(all[i] == stamp(started, now, ActivityKind::Started)[i - ev.len()]);
        } else {
            assert(all[i] == stamp(exited, now, ActivityKind::Exited)[i - ev.len()
                - started.len()]);
        }
    }
    assert(events_in_order(all)) by {
        assert forall|i: int, j: int| 0 <= i <= j < all.len() implies (#[trigger] all[i]).0 <= (
        #[trigger] all[j]).0 by {
            if j < ev.len() {
                assert(all[i] == ev[i] && all[j] == ev[j]);
            } else if i < ev.len() {
                assert(all[i] == ev[i]);
            }
        }
    }
    lemma_expire_events_suffix(all, now);
    let kept = expire_events(all, now);
    let d = all.len() - kept.len();
    assert forall|i: int, j: int| 0 <= i <= j < kept.len() implies (#[trigger] kept[i]).0 <= (
    #[trigger] kept[j]).0 by {
        assert(kept[i] == all[d + i] && kept[j] == all[d + j]);
    }
    assert forall|i: int| 0 <= i < kept.len() implies (#[trigger] kept[i]).0 <= now && elapsed(
        now,
        kept[i].0,
    ) <= HISTORY_SECONDS by {
        assert(kept[i] == all[d + i]);
        assert(kept[0] == all[d]);
        assert(all[d].0 <= all[d + i].0);
    }
}

proof fn lemma_run_events(
    trackers: Seq<ActivityTracker>,
    times: Seq<u64>,
    scans: Seq<Seq<Entry>>,
    k: nat,
)
    requires
        is_run(trackers, times, scans),
        trackers[0].event_log() == Seq::<EventView>::empty(),
        1 <= k <= times.len(),
    ensures
        events_in_order(trackers[k as int].event_log()),
        events_recent(trackers[k as int].event_log(), times[k - 1]),
        trackers[k as int].event_log().len() <= EVENT_LIMIT,
    decreases k,
{
    assert(updated(trackers[k - 1], trackers[k as int], times[k - 1], scans[k - 1]));
    let t = trackers[k - 1];
    if k == 1 {
        if t.is_initialized() {
            lemma_scan_events(
                t.event_log(),
                times[0],
                started_entries(t.live_view(), scans[0]),
                exited_entries(t.live_view(), scans[0]),
                times[0],
            );
        }
    } else {
        let j = (k - 1) as nat;
        lemma_run_events(trackers, times, scans, j);
        assert(updated(trackers[j - 1], trackers[j as int], times[j - 1], scans[j - 1]));
        assert(t.is_initialized());
        let live = t.live_view();
        let cur = scans[j as int];
        assert(times[j - 1] <= times[j as int]);
        lemma_scan_events(
            t.event_log(),
            times[j - 1],
            started_entries(live, cur),
            exited_entries(live, cur),
            times[j as int],
        );
    }
}

/// The event history over a run of scans from a tracker with no events:
/// after any number of scans it is in time order, holds at most 128 events,
/// and every event happened at most ten minutes before the latest scan.
pub proof fn lemma_events_stay_ordered_and_recent(
    trackers: Seq<ActivityTracker>,
    times: Seq<u64>,
    scans: Seq<Seq<Entry>>,
)
    requires
        is_run(trackers, times, scans),
        trackers[0].event_log() == Seq::<EventView>::empty(),
        times.len() > 0,
    ensures
        events_in_order(trackers.last().event_log()),
        events_recent(trackers.last().event_log(), times.last()),
        trackers.last().event_log().len() <= EVENT_LIMIT,
{
    lemma_run_events(trackers, times, scans, times.len());
    assert(trackers.last() == trackers[times.len() as int]);
}

/// The identities of a list of entries.
pub open spec fn entry_keys(s: Seq<Entry>) -> Set<ProcessKey> {
    Set::new(|k: ProcessKey| key_in(s, k))
}

/// No identity occurs twice.
pub open spec fn keys_distinct(s: Seq<Entry>) -> bool {
    forall|i: int, j: int| 0 <= i < j < s.len() ==> (#[trigger] s[i]).0 != (#[trigger] s[j]).0
}

proof fn lemma_key_in_push(s: Seq<Entry>, e: Entry, k: ProcessKey)
    ensures
        key_in(s.push(e), k) == (key_in(s, k) || e.0 == k),
{
    let t = s.push(e);
    if key_in(s, k) {
        let i = choose|i: int| 0 <= i < s.len() && s[i].0 == k;
        assert(t[i] == s[i]);
    }
    if e.0 == k {
        assert(t[s.len() as int] == e);
    }
    if key_in(t, k) {
        let i = choose|i: int| 0 <= i < t.len() && t[i].0 == k;
        if i < s.len() {
            assert(t[i] == s[i]);
        }
    }
}

proof fn lemma_keep_by_keys(s: Seq<Entry>, other: Seq<Entry>, present: bool, k: ProcessKey)
    ensures
        key_in(keep_by(s, other, present), k) == (key_in(s, k) && key_in(other, k) == present),
    decreases s.len(),
{
    if s.len() > 0 {
        let front = s.drop_last();
        lemma_keep_by_keys(front, other, present, k);
        lemma_key_in_push(front, s.last(), k);
        assert(s =~= front.push(s.last()));
        lemma_key_in_push(keep_by(front, other, present), s.last(), k);
    }
}

proof fn lemma_keep_by_distinct(s: Seq<Entry>, other: Seq<Entry>, present: bool)
    requires
        keys_distinct(s),
    ensures
        keys_distinct(keep_by(s, other, present)),
    decreases s.len(),
{
    if s.len() > 0 {
        let front = s.drop_last();
        assert(keys_distinct(front)) by {
            assert forall|i: int, j: int| 0 <= i < j < front.len() implies (#[trigger] front[i]).0
                != (#[trigger] front[j]).0 by {
                assert(front[i] == s[i] && front[j] == s[j]);
            }
        }
        lemma_keep_by_distinct(front, other, present);
        let r = keep_by(front, other, present);
        if key_in(other, s.last().0) == present {
            assert(!key_in(front, s.last().0)) by {
                if key_in(front, s.last().0) {
                    let i = choose|i: int| 0 <= i < front.len() && front[i].0 == s.last().0;
                    assert(s[i] == front[i]);
                    assert(s[s.len() - 1] == s.last());
                }
            }
            lemma_keep_by_keys(front, other, present, s.last().0);
            let t = r.push(s.last());
            assert forall|i: int, j: int| 0 <= i < j < t.len() implies (#[trigger] t[i]).0 != (
            #[trigger] t[j]).0 by {
                if j == r.len() {
                    assert(t[i] == r[i]);
                    assert(key_in(r, r[i].0));
                } else {
                    assert(t[i] == r[i] && t[j] == r[j]);
                }
            }
        }
    }
}

proof fn lemma_first_entries(s: Seq<Entry>, k: ProcessKey)
    ensures
        key_in(first_entries(s), k) == key_in(s, k),
        keys_distinct(first_entries(s)),
    decreases s.len(),
{
    if s.len() > 0 {
        let front = s.drop_last();
        lemma_first_entries(front, k);
        lemma_first_entries(front, s.last().0);
        assert(s =~= front.push(s.last()));
        lemma_key_in_push(front, s.last(), k);
        let r = first_entries(front);
        lemma_key_in_push(r, s.last(), k);
        if !key_in(r, s.last().0) {
            let t = r.push(s.last());
            assert forall|i: int, j: int| 0 <= i < j < t.len() implies (#[trigger] t[i]).0 != (
            #[trigger] t[j]).0 by {
                if j == r.len() {
                    assert(t[i] == r[i]);
                    assert(key_in(r, r[i].0));
                } else {
                    assert(t[i] == r[i] && t[j] == r[j]);
                }
            }
        }
    }
}

/// What one scan after the first reports, as sets of identities: a start
/// for each identity seen now and not before (each once), an exit for each
/// identity seen before and not now, nothing for an identity in both; and
/// afterwards the running identities are exactly those seen now. With
/// distinct identities before, exits are reported once each and the new
/// list holds each identity once.
pub proof fn lemma_scan_reports_differences(live: Seq<Entry>, current: Seq<Entry>)
    ensures
        entry_keys(started_entries(live, current)) == entry_keys(current).difference(
            entry_keys(live),
        ),
        entry_keys(exited_entries(live, current)) == entry_keys(live).difference(
            entry_keys(current),
        ),
        entry_keys(keep_by(live, current, true) + started_entries(live, current)) == entry_keys(
            current,
        ),
        keys_distinct(started_entries(live, current)),
        keys_distinct(live) ==> keys_distinct(exited_entries(live, current)),
        keys_distinct(live) ==> keys_distinct(
            keep_by(live, current, true) + started_entries(live, current),
        ),
{
    let started = started_entries(live, current);
    let kept = keep_by(live, current, true);
    let after = kept + started;
    assert forall|k: ProcessKey| #[trigger] key_in(started, k) == (key_in(current, k) && !key_in(
        live,
        k,
    )) by {
        lemma_keep_by_keys(first_entries(current), live, false, k);
        lemma_first_entries(current, k);
    }
    assert forall|k: ProcessKey| #[trigger] key_in(exited_entries(live, current), k) == (key_in(
        live,
        k,
    ) && !key_in(current, k)) by {
        lemma_keep_by_keys(live, current, false, k);
    }
    assert forall|k: ProcessKey| #[trigger] key_in(after, k) == (key_in(kept, k) || key_in(
        started,
        k,
    )) by {
        if key_in(after, k) {
            let i = choose|i: int| 0 <= i < after.len() && after[i].0 == k;
            if i < kept.len() {
                assert(after[i] == kept[i]);
            } else {
                assert(after[i] == started[i - kept.len()]);
            }
        }
        if key_in(kept, k) {
            let i = choose|i: int| 0 <= i < kept.len() && kept[i].0 == k;
            assert(after[i] == kept[i]);
        }
        if key_in(started, k) {
            let i = choose|i: int| 0 <= i < started.len() && started[i].0 == k;
            assert(after[kept.len() + i] == started[i]);
        }
    }
    assert forall|k: ProcessKey| #[trigger] key_in(kept, k) == (key_in(live, k) && key_in(
        current,
        k,
    )) by {
        lemma_keep_by_keys(live, current, true, k);
    }
    assert(entry_keys(started) =~= entry_keys(current).difference(entry_keys(live)));
    assert(entry_keys(exited_entries(live, current)) =~= entry_keys(live).difference(
        entry_keys(current),
    ));
    assert(entry_keys(after) =~= entry_keys(current));
    lemma_first_entries(current, ProcessKey { pid: 0, created: 0 });
    lemma_keep_by_distinct(first_entries(current), live, false);
    if keys_distinct(live) {
        lemma_keep_by_distinct(live, current, false);
        lemma_keep_by_distinct(live, current, true);
        assert forall|i: int, j: int| 0 <= i < j < after.len() implies (#[trigger] after[i]).0 != (
        #[trigger] after[j]).0 by {
            if j < kept.len() {
                assert(after[i] == kept[i] && after[j] == kept[j]);
            } else if i >= kept.len() {
                assert(after[i] == started[i - kept.len()] && after[j] == started[j - kept.len()]);
            } else {
                assert(after[i] == kept[i] && after[j] == started[j - kept.len()]);
                assert(key_in(kept, kept[i].0));
                assert(key_in(started, started[j - kept.len()].0));
            }
        }
    }
}

} // verus!
