//! Process rows: the evidence each one carries, how it ranks for review, and
//! how the search box matches it.

use crate::activity::{restarting, ActivityTracker, StartView};
use crate::autostart::AutostartIndex;
use crate::baseline::BaselineMatch;
use crate::knowledge::{describe, description_for, knowledge_table};
use crate::model::{
    apply_resource_findings, group_flags, group_views, has_any, peer_outliers, resource_passes,
    trust_label, EvidenceRow, Findings, TrustState,
};
use crate::paths::normalized_path;
use crate::table::{distinct_texts, insert_text, lemma_text_set, text_set};
use crate::text::same_text;
use std::collections::{HashMap, HashSet};
use vstd::prelude::*;
use vstd::utf8::encode_utf8;

verus! {

/// A process identity: its id together with its creation time, so a reused
/// id is a different process.
#[derive(Clone, Copy, Debug, PartialEq, Eq, Structural, Hash)]
pub struct ProcKey {
    pub pid: u32,
    pub created: u64,
}

/// One process as the list shows it.
#[derive(Clone, Debug)]
pub struct ProcessRow {
    pub key: ProcKey,
    pub ppid: u32,
    pub session_id: u32,
    pub thread_count: u32,
    pub handle_count: u32,
    pub trust: TrustState,
    pub findings: Findings,
    pub name: String,
    pub cpu_tenths: u32,
    pub memory_bytes: u64,
    pub private_bytes: u64,
    pub io_per_second: u64,
    pub path: String,
    pub paused_by_procdrift: bool,
}

// ---------------------------------------------------------------------------
// Evidence from the snapshot and the process tree
// ---------------------------------------------------------------------------

/// The trust state of a process from its accessibility, its baseline match
/// and whether its name is one of the described Windows components: a
/// process that cannot be opened is protected; one whose exact path is in
/// the snapshot or allowed is allowed; otherwise a described Windows program
/// is known, and anything else unclassified.
pub open spec fn evidence_trust(
    accessible: bool,
    baseline_match: BaselineMatch,
    described: bool,
) -> TrustState {
    if !accessible {
        TrustState::Protected
    } else if baseline_match == BaselineMatch::Allowed || baseline_match == BaselineMatch::Path {
        TrustState::Allowed
    } else if described {
        TrustState::Known
    } else {
        TrustState::Unclassified
    }
}

/// Whether `describe` has a description for this process name.
pub open spec fn is_described(name: Seq<char>) -> bool {
    description_for(name, knowledge_table()) is Some
}

/// The findings of a process from its baseline match and its parent: new
/// (only once a snapshot is recorded), a different path than recorded, a
/// parent that is gone, a parent that runs from a recorded path. A process
/// that cannot be opened gets none.
pub open spec fn evidence_bits(
    accessible: bool,
    baseline_recorded: bool,
    baseline_match: BaselineMatch,
    ppid: u32,
    all_pids: Set<u32>,
    baseline_pids: Set<u32>,
) -> u16 {
    if !accessible {
        0
    } else {
        let b0: u16 = 0;
        let b1 = if baseline_recorded && baseline_match == BaselineMatch::Unrecorded {
            b0 | Findings::NEW
        } else {
            b0
        };
        let b2 = if baseline_match == BaselineMatch::PathMismatch {
            b1 | Findings::DIFFERENT_PATH
        } else {
            b1
        };
        let b3 = if ppid != 0 && !all_pids.contains(ppid) {
            b2 | Findings::PARENT_ENDED
        } else {
            b2
        };
        if ppid != 0 && baseline_pids.contains(ppid) {
            b3 | Findings::LAUNCHED_BY_KNOWN
        } else {
            b3
        }
    }
}

/// The trust state and the snapshot and parent findings of one process.
///
/// `all_pids` are the processes running now; `baseline_pids` those among them
/// that run from a recorded path. A path mismatch is never trusted because
/// of its parent: being launched by a known process is a finding, not trust.
pub fn classify_evidence(
    accessible: bool,
    baseline_recorded: bool,
    baseline_match: BaselineMatch,
    name: &str,
    ppid: u32,
    all_pids: &HashSet<u32>,
    baseline_pids: &HashSet<u32>,
) -> (r: (TrustState, Findings))
    ensures
        r.0 == evidence_trust(accessible, baseline_match, is_described(name@)),
        r.1@ == evidence_bits(
            accessible,
            baseline_recorded,
            baseline_match,
            ppid,
            all_pids@,
            baseline_pids@,
        ),
{
    broadcast use vstd::std_specs::hash::group_hash_axioms;

    let mut findings = Findings::default();
    if !accessible {
        return (TrustState::Protected, findings);
    }
    let trust = if baseline_match == BaselineMatch::Allowed || baseline_match
        == BaselineMatch::Path {
        TrustState::Allowed
    } else if describe(name).is_some() {
        TrustState::Known
    } else {
        TrustState::Unclassified
    };
    if baseline_recorded && baseline_match == BaselineMatch::Unrecorded {
        findings.insert(Findings::NEW);
    }
    if baseline_match == BaselineMatch::PathMismatch {
        findings.insert(Findings::DIFFERENT_PATH);
    }
    if ppid != 0 && !all_pids.contains(&ppid) {
        findings.insert(Findings::PARENT_ENDED);
    }
    if ppid != 0 && baseline_pids.contains(&ppid) {
        findings.insert(Findings::LAUNCHED_BY_KNOWN);
    }
    (trust, findings)
}

// ---------------------------------------------------------------------------
// Labels and ranking
// ---------------------------------------------------------------------------

/// The findings in the order the primary label picks among them, each with
/// its label.
pub open spec fn primary_table() -> Seq<(u16, Seq<char>)> {
    seq![
        (Findings::RESTARTING, "Restarting"@),
        (Findings::DIFFERENT_PATH, "Different path"@),
        (Findings::PARENT_ENDED, "Parent ended"@),
        (Findings::PEER_OUTLIER, "Peer outlier"@),
        (Findings::HEAVY_CPU, "Heavy CPU"@),
        (Findings::HEAVY_MEMORY, "Heavy memory"@),
        (Findings::HEAVY_DISK, "Heavy disk"@),
        (Findings::NEW, "New"@),
        (Findings::STARTS_AUTOMATICALLY, "Starts automatically"@),
        (Findings::MANY_INSTANCES, "Many instances"@),
        (Findings::LAUNCHED_BY_KNOWN, "Known parent"@),
    ]
}

/// The label of the first finding of `table` that is set, or "None".
pub open spec fn first_label(bits: u16, table: Seq<(u16, Seq<char>)>) -> Seq<char>
    decreases table.len(),
{
    if table.len() == 0 {
        "None"@
    } else if has_any(bits, table[0].0) {
        table[0].1
    } else {
        first_label(bits, table.drop_first())
    }
}

fn primary_entries() -> (r: Vec<(u16, &'static str)>)
    ensures
        r@.map_values(|e: (u16, &'static str)| (e.0, e.1@)) == primary_table(),
{
    let r = vec![
        (Findings::RESTARTING, "Restarting"),
        (Findings::DIFFERENT_PATH, "Different path"),
        (Findings::PARENT_ENDED, "Parent ended"),
        (Findings::PEER_OUTLIER, "Peer outlier"),
        (Findings::HEAVY_CPU, "Heavy CPU"),
        (Findings::HEAVY_MEMORY, "Heavy memory"),
        (Findings::HEAVY_DISK, "Heavy disk"),
        (Findings::NEW, "New"),
        (Findings::STARTS_AUTOMATICALLY, "Starts automatically"),
        (Findings::MANY_INSTANCES, "Many instances"),
        (Findings::LAUNCHED_BY_KNOWN, "Known parent"),
    ];
    assert(r@.map_values(|e: (u16, &'static str)| (e.0, e.1@)) =~= primary_table());
    r
}

/// The label of the most pressing finding of a row, in a fixed order of
/// precedence, or "None".
pub fn primary_finding(row: &ProcessRow) -> (r: &'static str)
    ensures
        r@ == first_label(row.findings@, primary_table()),
{
    let table = primary_entries();
    let ghost t = primary_table();
    let mut i: usize = 0;
    assert(t.skip(0) =~= t);
    while i < table.len()
        invariant
            i <= table.len(),
            table@.map_values(|e: (u16, &'static str)| (e.0, e.1@)) == t,
            t == primary_table(),
            first_label(row.findings@, t) == first_label(row.findings@, t.skip(i as int)),
        decreases table.len() - i,
    {
        let (flag, label) = table[i];
        proof {
            assert(t[i as int] == (flag, label@));
            assert(t.skip(i as int)[0] == t[i as int]);
            assert(t.skip(i as int).drop_first() =~= t.skip(i + 1));
        }
        if row.findings.contains(flag) {
            return label;
        }
        i = i + 1;
    }
    proof {
        assert(t.skip(i as int).len() == 0);
    }
    "None"
}

/// What the list shows in a row's first column.
pub open spec fn category_label(row: ProcessRow) -> Seq<char> {
    if row.paused_by_procdrift {
        "Paused by ProcDrift"@
    } else if row.trust == TrustState::Protected {
        "Protected"@
    } else if row.findings@ != 0 {
        first_label(row.findings@, primary_table())
    } else {
        trust_label(row.trust)
    }
}

/// What the list shows in a row's first column: paused, protected, its most
/// pressing finding, or its trust state.
pub fn legacy_category(row: &ProcessRow) -> (r: &'static str)
    ensures
        r@ == category_label(*row),
{
    if row.paused_by_procdrift {
        "Paused by ProcDrift"
    } else if row.trust == TrustState::Protected {
        "Protected"
    } else if !row.findings.is_empty() {
        primary_finding(row)
    } else {
        row.trust.label()
    }
}

/// The review rank of a row; lower ranks sort first.
pub open spec fn rank_of(trust: TrustState, bits: u16) -> u8 {
    let persistent_and_new = has_any(bits, Findings::NEW) && has_any(
        bits,
        Findings::STARTS_AUTOMATICALLY,
    );
    if has_any(bits, Findings::RESTARTING) || persistent_and_new {
        0
    } else if has_any(
        bits,
        (Findings::DIFFERENT_PATH | Findings::PARENT_ENDED) | Findings::PEER_OUTLIER,
    ) {
        1
    } else if has_any(bits, (Findings::HEAVY_CPU | Findings::HEAVY_MEMORY) | Findings::HEAVY_DISK) {
        2
    } else if trust == TrustState::Unclassified {
        3
    } else if trust == TrustState::Allowed {
        4
    } else {
        5
    }
}

/// The review rank of a row: restarting, or new and starting on its own,
/// first; then a changed path, an ended parent or a peer outlier; then heavy
/// use; then unclassified, allowed, and everything else.
pub fn risk_rank(row: &ProcessRow) -> (r: u8)
    ensures
        r == rank_of(row.trust, row.findings@),
{
    // Something absent from the reference snapshot that is also configured to
    // start on its own will still be here after a reboot. That combination is
    // the one worth looking at first; either finding alone is ordinary.
    let persistent_and_new = row.findings.contains(Findings::NEW) && row.findings.contains(
        Findings::STARTS_AUTOMATICALLY,
    );
    if row.findings.contains(Findings::RESTARTING) || persistent_and_new {
        0
    } else if row.findings.contains(
        (Findings::DIFFERENT_PATH | Findings::PARENT_ENDED) | Findings::PEER_OUTLIER,
    ) {
        1
    } else if row.findings.contains(
        (Findings::HEAVY_CPU | Findings::HEAVY_MEMORY) | Findings::HEAVY_DISK,
    ) {
        2
    } else if row.trust == TrustState::Unclassified {
        3
    } else if row.trust == TrustState::Allowed {
        4
    } else {
        5
    }
}

// ---------------------------------------------------------------------------
// Searching
// ---------------------------------------------------------------------------

/// ASCII lowercase of a byte.
pub open spec fn lower_byte(b: u8) -> u8 {
    if 65 <= b <= 90 {
        (b + 32) as u8
    } else {
        b
    }
}

fn lower_byte_of(b: u8) -> (r: u8)
    ensures
        r == lower_byte(b),
{
    if 65 <= b && b <= 90 {
        b + 32
    } else {
        b
    }
}

/// Whether `needle` occurs in `hay` at `start`, ignoring ASCII case.
pub open spec fn window_matches(hay: Seq<u8>, needle: Seq<u8>, start: int) -> bool {
    &&& 0 <= start
    &&& start + needle.len() <= hay.len()
    &&& forall|k: int| 0 <= k < needle.len() ==> lower_byte(#[trigger] hay[start + k]) == lower_byte(
        needle[k],
    )
}

/// Whether `needle` is empty or occurs somewhere in `hay`, ignoring ASCII
/// case.
pub open spec fn contains_ignoring_case(hay: Seq<u8>, needle: Seq<u8>) -> bool {
    needle.len() == 0 || exists|start: int| #[trigger] window_matches(hay, needle, start)
}

/// Whether the bytes of `haystack` contain `needle`, ignoring ASCII case.
pub fn contains_ascii_case_insensitive(haystack: &str, needle: &[u8]) -> (r: bool)
    ensures
        r == contains_ignoring_case(encode_utf8(haystack@), needle@),
{
    if needle.len() == 0 {
        return true;
    }
    let hay = haystack.as_bytes();
    if needle.len() > hay.len() {
        assert forall|start: int| !window_matches(hay@, needle@, start) by {}
        return false;
    }
    let last = hay.len() - needle.len();
    let mut start: usize = 0;
    while start <= last
        invariant
            hay@ == encode_utf8(haystack@),
            needle.len() > 0,
            needle.len() <= hay.len(),
            last == hay.len() - needle.len(),
            start <= last + 1,
            forall|s: int| 0 <= s < start ==> !window_matches(hay@, needle@, s),
        decreases last + 1 - start,
    {
        let mut k: usize = 0;
        let mut same = true;
        while k < needle.len()
            invariant
                start <= last,
                last == hay.len() - needle.len(),
                k <= needle.len(),
                same == forall|j: int| 0 <= j < k ==> lower_byte(#[trigger] hay@[start + j]) == lower_byte(
                    needle@[j],
                ),
            decreases needle.len() - k,
        {
            if lower_byte_of(hay[start + k]) != lower_byte_of(needle[k]) {
                same = false;
            }
            k = k + 1;
        }
        if same {
            assert(window_matches(hay@, needle@, start as int));
            return true;
        }
        start = start + 1;
    }
    assert forall|s: int| !window_matches(hay@, needle@, s) by {
        if 0 <= s && s + needle@.len() <= hay@.len() {
            assert(s < start);
        }
    }
    false
}

/// Whether a row is shown for a search: an empty query shows everything;
/// otherwise the query must occur in the name, the path or the first-column
/// label, ignoring ASCII case, or be the row's process id.
pub open spec fn search_shows(row: ProcessRow, query: Seq<u8>, query_pid: Option<u32>) -> bool {
    ||| query.len() == 0
    ||| contains_ignoring_case(encode_utf8(row.name@), query)
    ||| contains_ignoring_case(encode_utf8(row.path@), query)
    ||| contains_ignoring_case(encode_utf8(category_label(row)), query)
    ||| query_pid == Some(row.key.pid)
}

/// `u8::to_ascii_uppercase`.
pub open spec fn upper_byte(b: u8) -> u8 {
    if 97 <= b <= 122 {
        (b - 32) as u8
    } else {
        b
    }
}

/// Searching ignores ASCII case and finds any literal occurrence: a row is
/// shown for an empty query, for a query that occurs in its name, its path
/// or its first-column label, and for its process id; and uppercasing ASCII
/// letters in the query never changes what is shown.
pub proof fn lemma_search_laws(row: ProcessRow, query: Seq<u8>, query_pid: Option<u32>, start: int)
    ensures
        query.len() == 0 ==> search_shows(row, query, query_pid),
        query_pid == Some(row.key.pid) ==> search_shows(row, query, query_pid),
        0 <= start && start + query.len() <= encode_utf8(row.name@).len() && encode_utf8(
            row.name@,
        ).subrange(start, start + query.len()) == query ==> search_shows(row, query, query_pid),
        0 <= start && start + query.len() <= encode_utf8(row.path@).len() && encode_utf8(
            row.path@,
        ).subrange(start, start + query.len()) == query ==> search_shows(row, query, query_pid),
        0 <= start && start + query.len() <= encode_utf8(category_label(row)).len() && encode_utf8(
            category_label(row),
        ).subrange(start, start + query.len()) == query ==> search_shows(row, query, query_pid),
        search_shows(row, query.map_values(|b: u8| upper_byte(b)), query_pid) == search_shows(
            row,
            query,
            query_pid,
        ),
{
    lemma_occurrence_matches(encode_utf8(row.name@), query, start);
    lemma_occurrence_matches(encode_utf8(row.path@), query, start);
    lemma_occurrence_matches(encode_utf8(category_label(row)), query, start);
    lemma_case_free(encode_utf8(row.name@), query);
    lemma_case_free(encode_utf8(row.path@), query);
    lemma_case_free(encode_utf8(category_label(row)), query);
}

proof fn lemma_occurrence_matches(hay: Seq<u8>, needle: Seq<u8>, start: int)
    ensures
        0 <= start && start + needle.len() <= hay.len() && hay.subrange(start, start + needle.len())
            == needle ==> contains_ignoring_case(hay, needle),
{
    if 0 <= start && start + needle.len() <= hay.len() && hay.subrange(start, start + needle.len())
        == needle {
        assert forall|k: int| 0 <= k < needle.len() implies lower_byte(#[trigger] hay[start + k])
            == lower_byte(needle[k]) by {
            assert(hay.subrange(start, start + needle.len())[k] == hay[start + k]);
        }
        assert(window_matches(hay, needle, start));
    }
}

proof fn lemma_case_free(hay: Seq<u8>, needle: Seq<u8>)
    ensures
        contains_ignoring_case(hay, needle.map_values(|b: u8| upper_byte(b)))
            == contains_ignoring_case(hay, needle),
{
    let up = needle.map_values(|b: u8| upper_byte(b));
    assert forall|k: int| 0 <= k < needle.len() implies lower_byte(#[trigger] up[k]) == lower_byte(
        needle[k],
    ) by {
        assert(up[k] == upper_byte(needle[k]));
    }
    assert forall|start: int| #[trigger] window_matches(hay, up, start) == window_matches(
        hay,
        needle,
        start,
    ) by {
        if window_matches(hay, needle, start) {
            assert forall|k: int| 0 <= k < up.len() implies lower_byte(#[trigger] hay[start + k])
                == lower_byte(up[k]) by {
                assert(lower_byte(up[k]) == lower_byte(needle[k]));
            }
        }
        if window_matches(hay, up, start) {
            assert forall|k: int| 0 <= k < needle.len() implies lower_byte(#[trigger] hay[start + k])
                == lower_byte(needle[k]) by {
                assert(lower_byte(up[k]) == lower_byte(needle[k]));
            }
        }
    }
    if contains_ignoring_case(hay, needle) && needle.len() > 0 {
        let st = choose|st: int| #[trigger] window_matches(hay, needle, st);
        assert(window_matches(hay, up, st));
    }
    if contains_ignoring_case(hay, up) && up.len() > 0 {
        let st = choose|st: int| #[trigger] window_matches(hay, up, st);
        assert(window_matches(hay, needle, st));
    }
}

/// Whether a row is shown for a search (see `search_shows`).
pub fn row_matches_search(row: &ProcessRow, query: &[u8], query_pid: Option<u32>) -> (r: bool)
    ensures
        r == search_shows(*row, query@, query_pid),
{
    if query.len() == 0 {
        return true;
    }
    if contains_ascii_case_insensitive(row.name.as_str(), query) {
        return true;
    }
    if contains_ascii_case_insensitive(row.path.as_str(), query) {
        return true;
    }
    if contains_ascii_case_insensitive(legacy_category(row), query) {
        return true;
    }
    match query_pid {
        Some(pid) => pid == row.key.pid,
        None => false,
    }
}

/// `cmp` of two byte sequences in lexicographic order: -1, 0 or 1.
pub open spec fn lex_order(a: Seq<u8>, b: Seq<u8>) -> int
    decreases a.len(),
{
    if a.len() == 0 {
        if b.len() == 0 {
            0
        } else {
            -1
        }
    } else if b.len() == 0 {
        1
    } else if a[0] < b[0] {
        -1
    } else if a[0] > b[0] {
        1
    } else {
        lex_order(a.drop_first(), b.drop_first())
    }
}

/// The bytes with ASCII letters lowercased.
pub open spec fn lowered_bytes(s: Seq<u8>) -> Seq<u8> {
    s.map_values(|b: u8| lower_byte(b))
}

/// `lex_order` of two byte strings, from position `i` of both.
proof fn lemma_lex_from(a: Seq<u8>, b: Seq<u8>, i: int)
    requires
        0 <= i <= a.len(),
        i <= b.len(),
        forall|j: int| 0 <= j < i ==> a[j] == b[j],
    ensures
        lex_order(a, b) == lex_order(a.skip(i), b.skip(i)),
    decreases i,
{
    if i > 0 {
        lemma_lex_from(a.drop_first(), b.drop_first(), i - 1);
        assert(a.drop_first().skip(i - 1) =~= a.skip(i));
        assert(b.drop_first().skip(i - 1) =~= b.skip(i));
    } else {
        assert(a.skip(0) =~= a);
        assert(b.skip(0) =~= b);
    }
}

/// `lex_order` of the two byte strings with ASCII letters lowercased.
pub fn lowered_order(a: &[u8], b: &[u8]) -> (r: i8)
    ensures
        r == lex_order(lowered_bytes(a@), lowered_bytes(b@)),
        -1 <= r <= 1,
{
    let ghost la = lowered_bytes(a@);
    let ghost lb = lowered_bytes(b@);
    let mut i: usize = 0;
    while i < a.len() && i < b.len()
        invariant
            la == lowered_bytes(a@),
            lb == lowered_bytes(b@),
            i <= a.len(),
            i <= b.len(),
            forall|j: int| 0 <= j < i ==> la[j] == lb[j],
        decreases a.len() - i,
    {
        let x = lower_byte_of(a[i]);
        let y = lower_byte_of(b[i]);
        if x != y {
            proof {
                lemma_lex_from(la, lb, i as int);
                assert(la.skip(i as int)[0] == x);
                assert(lb.skip(i as int)[0] == y);
            }
            if x < y {
                return -1;
            } else {
                return 1;
            }
        }
        i = i + 1;
    }
    proof {
        lemma_lex_from(la, lb, i as int);
    }
    if i < a.len() {
        1
    } else if i < b.len() {
        -1
    } else {
        0
    }
}

/// Compares the bytes of two strings with ASCII letters lowercased.
pub fn cmp_ascii_case_insensitive(left: &str, right: &str) -> (r: std::cmp::Ordering)
    ensures
        (r == std::cmp::Ordering::Less) == (lex_order(
            lowered_bytes(encode_utf8(left@)),
            lowered_bytes(encode_utf8(right@)),
        ) == -1),
        (r == std::cmp::Ordering::Equal) == (lex_order(
            lowered_bytes(encode_utf8(left@)),
            lowered_bytes(encode_utf8(right@)),
        ) == 0),
        (r == std::cmp::Ordering::Greater) == (lex_order(
            lowered_bytes(encode_utf8(left@)),
            lowered_bytes(encode_utf8(right@)),
        ) == 1),
{
    let order = lowered_order(left.as_bytes(), right.as_bytes());
    if order < 0 {
        std::cmp::Ordering::Less
    } else if order == 0 {
        std::cmp::Ordering::Equal
    } else {
        std::cmp::Ordering::Greater
    }
}

// ---------------------------------------------------------------------------
// Findings that need the whole scan
// ---------------------------------------------------------------------------

/// The part of a row the leaderboards read.
pub open spec fn evidence_of(row: ProcessRow) -> EvidenceRow {
    EvidenceRow {
        trust: row.trust,
        findings: row.findings,
        cpu_tenths: row.cpu_tenths,
        memory_bytes: row.memory_bytes,
        disk_bytes_per_second: row.io_per_second,
    }
}

/// The part of each row the leaderboards read.
pub open spec fn evidence_rows(rows: Seq<ProcessRow>) -> Seq<EvidenceRow> {
    rows.map_values(|row: ProcessRow| evidence_of(row))
}

/// The peers of a path: `(row index, CPU tenths, memory bytes)` of every row
/// running from exactly that path, in row order.
pub open spec fn peer_group(rows: Seq<ProcessRow>, path: Seq<char>) -> Seq<(usize, u32, u64)>
    decreases rows.len(),
{
    if rows.len() == 0 {
        Seq::empty()
    } else {
        let rest = peer_group(rows.drop_last(), path);
        let row = rows.last();
        if row.path@ == path {
            rest.push(((rows.len() - 1) as usize, row.cpu_tenths, row.memory_bytes))
        } else {
            rest
        }
    }
}

/// The findings row `i` gets from the whole scan on top of `bits`: several
/// instances of its exact path, an outlier among at least three such peers,
/// restarting, and starting automatically.
pub open spec fn live_bits(
    bits: u16,
    rows: Seq<ProcessRow>,
    i: int,
    starts: StartView,
    autostart: Set<Seq<char>>,
    now: u64,
) -> u16 {
    let path = rows[i].path@;
    let group = peer_group(rows, path);
    let b1 = if path.len() > 0 && group.len() >= 2 {
        bits | Findings::MANY_INSTANCES
    } else {
        bits
    };
    let b2 = if path.len() > 0 && group_flags(group, i as usize) {
        b1 | Findings::PEER_OUTLIER
    } else {
        b1
    };
    let b3 = if restarting(starts, path, now) {
        b2 | Findings::RESTARTING
    } else {
        b2
    };
    if normalized_path(path).len() > 0 && autostart.contains(normalized_path(path)) {
        b3 | Findings::STARTS_AUTOMATICALLY
    } else {
        b3
    }
}

/// `a` is `b` with only its findings changed.
pub open spec fn same_but_findings(a: ProcessRow, b: ProcessRow) -> bool {
    &&& a.key == b.key
    &&& a.ppid == b.ppid
    &&& a.session_id == b.session_id
    &&& a.thread_count == b.thread_count
    &&& a.handle_count == b.handle_count
    &&& a.trust == b.trust
    &&& a.name@ == b.name@
    &&& a.cpu_tenths == b.cpu_tenths
    &&& a.memory_bytes == b.memory_bytes
    &&& a.private_bytes == b.private_bytes
    &&& a.io_per_second == b.io_per_second
    &&& a.path@ == b.path@
    &&& a.paused_by_procdrift == b.paused_by_procdrift
}

/// Every sample of the peer group of `path` comes from a row running from
/// `path`, at the index it names.
proof fn lemma_peer_group_members(rows: Seq<ProcessRow>, path: Seq<char>, k: int)
    requires
        rows.len() <= usize::MAX,
        0 <= k < peer_group(rows, path).len(),
    ensures
        0 <= peer_group(rows, path)[k].0 < rows.len(),
        rows[peer_group(rows, path)[k].0 as int].path@ == path,
    decreases rows.len(),
{
    let rest = peer_group(rows.drop_last(), path);
    if k < rest.len() {
        lemma_peer_group_members(rows.drop_last(), path, k);
        assert(rows.drop_last()[rest[k].0 as int] == rows[rest[k].0 as int]);
    }
}

/// The samples of the rows running from exactly `path`.
fn group_samples(rows: &Vec<ProcessRow>, path: &str) -> (r: Vec<(usize, u32, u64)>)
    ensures
        r@ == peer_group(rows@, path@),
{
    let mut r: Vec<(usize, u32, u64)> = Vec::new();
    let mut j: usize = 0;
    while j < rows.len()
        invariant
            j <= rows.len(),
            r@ == peer_group(rows@.take(j as int), path@),
        decreases rows.len() - j,
    {
        proof {
            assert(rows@.take(j + 1).drop_last() =~= rows@.take(j as int));
            assert(rows@.take(j + 1).last() == rows@[j as int]);
        }
        if same_text(rows[j].path.as_str(), path) {
            r.push((j, rows[j].cpu_tenths, rows[j].memory_bytes));
        }
        j = j + 1;
    }
    assert(rows@.take(rows.len() as int) =~= rows@);
    r
}

/// The distinct non-empty paths the rows run from.
fn distinct_paths(rows: &Vec<ProcessRow>) -> (r: Vec<String>)
    ensures
        distinct_texts(r@),
        forall|g: int| 0 <= g < r@.len() ==> (#[trigger] r@[g])@.len() > 0,
        forall|k: int|
            0 <= k < rows@.len() && (#[trigger] rows@[k]).path@.len() > 0 ==> text_set(r@).contains(
                rows@[k].path@,
            ),
{
    let mut r: Vec<String> = Vec::new();
    let mut j: usize = 0;
    while j < rows.len()
        invariant
            j <= rows.len(),
            distinct_texts(r@),
            forall|g: int| 0 <= g < r@.len() ==> (#[trigger] r@[g])@.len() > 0,
            forall|k: int|
                0 <= k < j && (#[trigger] rows@[k]).path@.len() > 0 ==> text_set(r@).contains(
                    rows@[k].path@,
                ),
        decreases rows.len() - j,
    {
        if !rows[j].path.as_str().is_empty() {
            let ghost before = r@;
            let p = rows[j].path.clone();
            insert_text(&mut r, p);
            proof {
                lemma_text_set(r@);
                lemma_text_set(before);
                assert forall|g: int| 0 <= g < r@.len() implies (#[trigger] r@[g])@.len() > 0 by {
                    if !before.contains(r@[g]) {
                        if r@[g]@ != rows@[j as int].path@ {
                            assert(text_set(r@).contains(r@[g]@));
                            assert(text_set(before).contains(r@[g]@));
                            let h = choose|h: int| 0 <= h < before.len() && before[h]@ == r@[g]@;
                            assert(before[h]@.len() > 0);
                        }
                    } else {
                        let h = choose|h: int| 0 <= h < before.len() && before[h] == r@[g];
                        assert(before[h]@.len() > 0);
                    }
                }
            }
        }
        j = j + 1;
    }
    r
}

/// Adds the findings that need the whole scan: the three leaderboards,
/// several instances of one exact path, an outlier among its exact-path
/// peers, restarting, and starting automatically.
pub fn apply_live_findings(
    rows: &mut Vec<ProcessRow>,
    activity: &ActivityTracker,
    autostart: &AutostartIndex,
    now_seconds: u64,
)
    ensures
        final(rows)@.len() == old(rows)@.len(),
        exists|heavy: Seq<EvidenceRow>|
            {
                &&& #[trigger] resource_passes(evidence_rows(old(rows)@), heavy)
                &&& forall|i: int|
                    0 <= i < old(rows)@.len() ==> {
                        &&& same_but_findings(#[trigger] final(rows)@[i], old(rows)@[i])
                        &&& final(rows)@[i].findings@ == live_bits(
                            heavy[i].findings@,
                            old(rows)@,
                            i,
                            activity.start_view(),
                            autostart@,
                            now_seconds,
                        )
                    }
            },
{
    broadcast use vstd::std_specs::hash::group_hash_axioms;

    let ghost original = rows@;
    let n = rows.len();
    let mut evidence: Vec<EvidenceRow> = Vec::new();
    let mut i: usize = 0;
    while i < n
        invariant
            n == rows.len(),
            rows@ == original,
            i <= n,
            evidence@ == original.take(i as int).map_values(|row: ProcessRow| evidence_of(row)),
        decreases n - i,
    {
        let row = &rows[i];
        evidence.push(
            EvidenceRow {
                trust: row.trust,
                findings: row.findings,
                cpu_tenths: row.cpu_tenths,
                memory_bytes: row.memory_bytes,
                disk_bytes_per_second: row.io_per_second,
            },
        );
        proof {
            assert(evidence@ =~= original.take(i + 1).map_values(
                |row: ProcessRow| evidence_of(row),
            ));
        }
        i = i + 1;
    }
    assert(original.take(n as int) =~= original);
    assert(evidence@ == evidence_rows(original));
    apply_resource_findings(&mut evidence);
    let ghost heavy = evidence@;

    let paths = distinct_paths(rows);
    let mut peers: HashMap<usize, Vec<(usize, u32, u64)>> = HashMap::new();
    let mut g: usize = 0;
    while g < paths.len()
        invariant
            rows@ == original,
            g <= paths.len(),
            forall|key: usize| #[trigger] peers@.contains_key(key) <==> key < g,
            forall|key: usize|
                #[trigger] peers@.contains_key(key) ==> peers@[key]@ == peer_group(
                    original,
                    paths@[key as int]@,
                ),
        decreases paths.len() - g,
    {
        let samples = group_samples(rows, paths[g].as_str());
        peers.insert(g, samples);
        g = g + 1;
    }
    let outliers = peer_outliers(&peers);
    proof {
        lemma_text_set(paths@);
        assert forall|k: int| 0 <= k < n implies #[trigger] outliers@.contains(k as usize) == (
        original[k].path@.len() > 0 && group_flags(peer_group(original, original[k].path@), k as usize)) by {
            let p = original[k].path@;
            if outliers@.contains(k as usize) {
                let gv = choose|gv: Seq<(usize, u32, u64)>|
                    group_views(peers@).contains(gv) && group_flags(gv, k as usize);
                let v = choose|v: Vec<(usize, u32, u64)>| peers@.values().contains(v) && v@ == gv;
                let key = choose|key: usize| peers@.contains_key(key) && peers@[key] == v;
                let q = paths@[key as int]@;
                let w = choose|w: int|
                    0 <= w < v@.len() && v@[w].0 == k as usize && crate::model::is_peer_outlier(v@, w);
                lemma_peer_group_members(original, q, w);
                assert(q == p);
                assert(q.len() > 0);
            }
            if p.len() > 0 && group_flags(peer_group(original, p), k as usize) {
                assert(text_set(paths@).contains(p));
                let key_i = choose|h: int| 0 <= h < paths@.len() && paths@[h]@ == p;
                let key = key_i as usize;
                assert(peers@.contains_key(key));
                assert(peers@.values().contains(peers@[key]));
                assert(group_views(peers@).contains(peers@[key]@));
            }
        }
    }

    let mut many: Vec<bool> = Vec::new();
    let mut m: usize = 0;
    while m < n
        invariant
            rows@ == original,
            n == original.len(),
            m <= n,
            many@.len() == m,
            forall|k: int|
                0 <= k < m ==> #[trigger] many@[k] == (original[k].path@.len() > 0
                    && peer_group(original, original[k].path@).len() >= 2),
        decreases n - m,
    {
        let mut several = false;
        if !rows[m].path.as_str().is_empty() {
            let samples = group_samples(rows, rows[m].path.as_str());
            several = samples.len() >= 2;
        }
        many.push(several);
        m = m + 1;
    }

    let mut i: usize = 0;
    while i < n
        invariant
            n == original.len(),
            rows@.len() == n,
            evidence@ == heavy,
            many@.len() == n,
            forall|k: int|
                0 <= k < n ==> #[trigger] many@[k] == (original[k].path@.len() > 0
                    && peer_group(original, original[k].path@).len() >= 2),
            heavy.len() == n,
            i <= n,
            forall|k: int| 0 <= k < n ==> #[trigger] outliers@.contains(k as usize) == (
            original[k].path@.len() > 0 && group_flags(peer_group(original, original[k].path@), k as usize)),
            forall|k: int| i <= k < n ==> #[trigger] rows@[k] == original[k],
            forall|k: int|
                0 <= k < i ==> {
                    &&& same_but_findings(#[trigger] rows@[k], original[k])
                    &&& rows@[k].findings@ == live_bits(
                        heavy[k].findings@,
                        original,
                        k,
                        activity.start_view(),
                        autostart@,
                        now_seconds,
                    )
                },
        decreases n - i,
    {
        let mut findings = evidence[i].findings;
        let ghost path = original[i as int].path@;
        let ghost group = peer_group(original, path);
        assert(rows@[i as int] == original[i as int]);
        let ghost b0 = findings@;
        if many[i] {
            findings.insert(Findings::MANY_INSTANCES);
        }
        let ghost b1 = findings@;
        assert(b1 == if path.len() > 0 && group.len() >= 2 {
            b0 | Findings::MANY_INSTANCES
        } else {
            b0
        });
        let flagged = outliers.contains(&i);
        proof {
            let ki = i as int;
            assert(outliers@.contains(ki as usize) == (original[ki].path@.len() > 0 && group_flags(
                peer_group(original, original[ki].path@),
                ki as usize,
            )));
            assert(flagged == (path.len() > 0 && group_flags(group, i)));
        }
        if flagged {
            findings.insert(Findings::PEER_OUTLIER);
        }
        let ghost b2 = findings@;
        if activity.is_restarting(rows[i].path.as_str(), now_seconds) {
            findings.insert(Findings::RESTARTING);
        }
        let ghost b3 = findings@;
        assert(b3 == if restarting(activity.start_view(), path, now_seconds) {
            b2 | Findings::RESTARTING
        } else {
            b2
        });
        if autostart.contains(rows[i].path.as_str()) {
            findings.insert(Findings::STARTS_AUTOMATICALLY);
        }
        assert(findings@ == live_bits(
            heavy[i as int].findings@,
            original,
            i as int,
            activity.start_view(),
            autostart@,
            now_seconds,
        ));
        let ghost before = rows@;
        rows[i].findings = findings;
        proof {
            assert(rows@[i as int].findings == findings);
            assert(same_but_findings(rows@[i as int], original[i as int]));
            assert forall|k: int| 0 <= k < n && k != i implies rows@[k] == before[k] by {}
        }
        i = i + 1;
    }
}

/// `lex_order` is a total order: equal sequences compare equal, swapping
/// the arguments flips the sign, and "no greater than" is transitive.
pub proof fn lemma_lex_order_total(a: Seq<u8>, b: Seq<u8>, c: Seq<u8>)
    ensures
        lex_order(a, a) == 0,
        lex_order(a, b) == -lex_order(b, a),
        -1 <= lex_order(a, b) <= 1,
        lex_order(a, b) <= 0 && lex_order(b, c) <= 0 ==> lex_order(a, c) <= 0,
    decreases a.len(),
{
    if a.len() > 0 && b.len() > 0 && c.len() > 0 {
        lemma_lex_order_total(a.drop_first(), b.drop_first(), c.drop_first());
    } else if a.len() > 0 && b.len() > 0 {
        lemma_lex_order_total(a.drop_first(), b.drop_first(), b.drop_first());
    } else if a.len() > 0 {
        lemma_lex_order_total(a.drop_first(), a.drop_first(), a.drop_first());
    }
}

/// A copy of a row.
pub fn copy_row(row: &ProcessRow) -> (r: ProcessRow)
    ensures
        r == *row,
{
    ProcessRow {
        key: row.key,
        ppid: row.ppid,
        session_id: row.session_id,
        thread_count: row.thread_count,
        handle_count: row.handle_count,
        trust: row.trust,
        findings: row.findings,
        name: row.name.clone(),
        cpu_tenths: row.cpu_tenths,
        memory_bytes: row.memory_bytes,
        private_bytes: row.private_bytes,
        io_per_second: row.io_per_second,
        path: row.path.clone(),
        paused_by_procdrift: row.paused_by_procdrift,
    }
}

/// A Windows file time from its two halves.
pub fn filetime_value(high: u32, low: u32) -> (r: u64)
    ensures
        r == high as int * 0x1_0000_0000 + low as int,
{
    let h = high as u64;
    let l = low as u64;
    assert((h << 32u64) | l == h * 0x1_0000_0000 + l) by (bit_vector)
        requires
            h < 0x1_0000_0000,
            l < 0x1_0000_0000,
    ;
    (h << 32u64) | l
}

// ---------------------------------------------------------------------------
// Laws
// ---------------------------------------------------------------------------

/// The snapshot and parent findings of a process, flag by flag: an
/// unopenable process gets none; otherwise it is new exactly when a snapshot
/// is recorded and its name is not in it, at a different path exactly on a
/// path mismatch, its parent ended exactly when it names a parent that is not
/// running, and it was launched by a known process exactly when its parent
/// runs from a recorded path. No other finding is set here.
pub proof fn lemma_evidence_by_flag(
    accessible: bool,
    recorded: bool,
    baseline_match: BaselineMatch,
    ppid: u32,
    all_pids: Set<u32>,
    baseline_pids: Set<u32>,
)
    ensures
        ({
            let bits = evidence_bits(accessible, recorded, baseline_match, ppid, all_pids, baseline_pids);
            &&& (bits & Findings::NEW != 0) == (accessible && recorded && baseline_match
                == BaselineMatch::Unrecorded)
            &&& (bits & Findings::DIFFERENT_PATH != 0) == (accessible && baseline_match
                == BaselineMatch::PathMismatch)
            &&& (bits & Findings::PARENT_ENDED != 0) == (accessible && ppid != 0
                && !all_pids.contains(ppid))
            &&& (bits & Findings::LAUNCHED_BY_KNOWN != 0) == (accessible && ppid != 0
                && baseline_pids.contains(ppid))
            &&& bits & 0xFDF8u16 == 0
        }),
{
    let bits = evidence_bits(accessible, recorded, baseline_match, ppid, all_pids, baseline_pids);
    if accessible {
        let n = recorded && baseline_match == BaselineMatch::Unrecorded;
        let d = baseline_match == BaselineMatch::PathMismatch;
        let e = ppid != 0 && !all_pids.contains(ppid);
        let k = ppid != 0 && baseline_pids.contains(ppid);
        let b0: u16 = 0;
        let b1 = if n { b0 | Findings::NEW } else { b0 };
        let b2 = if d { b1 | Findings::DIFFERENT_PATH } else { b1 };
        let b3 = if e { b2 | Findings::PARENT_ENDED } else { b2 };
        let b4 = if k { b3 | Findings::LAUNCHED_BY_KNOWN } else { b3 };
        assert(bits == b4);
        assert({
            &&& (b4 & 1 != 0) == n
            &&& (b4 & 2 != 0) == d
            &&& (b4 & 4 != 0) == e
            &&& (b4 & 512 != 0) == k
            &&& b4 & 0xFDF8u16 == 0
        }) by (bit_vector)
            requires
                b0 == 0,
                b1 == if n { b0 | 1u16 } else { b0 },
                b2 == if d { b1 | 2u16 } else { b1 },
                b3 == if e { b2 | 4u16 } else { b2 },
                b4 == if k { b3 | 512u16 } else { b3 },
        ;
    } else {
        assert(bits == 0);
        assert((0u16 & 1 == 0) && (0u16 & 2 == 0) && (0u16 & 4 == 0) && (0u16 & 512 == 0) && (0u16
            & 0xFDF8u16 == 0)) by (bit_vector);
    }
}

/// The review rank, flag by flag: a restarting process, or a new one that
/// also starts automatically, ranks 0; otherwise a changed path, an ended
/// parent or a peer outlier ranks 1; otherwise any heavy finding ranks 2;
/// otherwise an unclassified process ranks 3, an allowed one 4, and any other
/// 5.
pub proof fn lemma_rank_by_flag(trust: TrustState, bits: u16)
    ensures
        ({
            let first = bits & Findings::RESTARTING != 0 || (bits & Findings::NEW != 0 && bits
                & Findings::STARTS_AUTOMATICALLY != 0);
            let second = bits & Findings::DIFFERENT_PATH != 0 || bits & Findings::PARENT_ENDED != 0
                || bits & Findings::PEER_OUTLIER != 0;
            let heavy = bits & Findings::HEAVY_CPU != 0 || bits & Findings::HEAVY_MEMORY != 0 || bits
                & Findings::HEAVY_DISK != 0;
            &&& (rank_of(trust, bits) == 0) == first
            &&& (rank_of(trust, bits) == 1) == (!first && second)
            &&& (rank_of(trust, bits) == 2) == (!first && !second && heavy)
            &&& (rank_of(trust, bits) == 3) == (!first && !second && !heavy && trust
                == TrustState::Unclassified)
            &&& (rank_of(trust, bits) == 4) == (!first && !second && !heavy && trust
                == TrustState::Allowed)
            &&& (rank_of(trust, bits) == 5) == (!first && !second && !heavy && trust
                != TrustState::Unclassified && trust != TrustState::Allowed)
        }),
{
    assert((bits & 70u16 != 0) == (bits & 2u16 != 0 || bits & 4u16 != 0 || bits & 64u16 != 0))
        by (bit_vector);
    assert((bits & 56u16 != 0) == (bits & 8u16 != 0 || bits & 16u16 != 0 || bits & 32u16 != 0))
        by (bit_vector);
    assert((Findings::DIFFERENT_PATH | Findings::PARENT_ENDED) | Findings::PEER_OUTLIER == 70u16)
        by (bit_vector);
    assert((Findings::HEAVY_CPU | Findings::HEAVY_MEMORY) | Findings::HEAVY_DISK == 56u16)
        by (bit_vector);
}

/// The trust state by its inputs: a process that cannot be opened is
/// protected; otherwise an exact snapshot path or an allowance makes it
/// allowed, then a described Windows program is known, and anything else is
/// unclassified.
pub proof fn lemma_trust_by_inputs(accessible: bool, baseline_match: BaselineMatch, described: bool)
    ensures
        !accessible ==> evidence_trust(accessible, baseline_match, described) == TrustState::Protected,
        accessible && (baseline_match == BaselineMatch::Path || baseline_match
            == BaselineMatch::Allowed) ==> evidence_trust(accessible, baseline_match, described)
            == TrustState::Allowed,
        accessible && baseline_match != BaselineMatch::Path && baseline_match
            != BaselineMatch::Allowed && described ==> evidence_trust(
            accessible,
            baseline_match,
            described,
        ) == TrustState::Known,
        accessible && baseline_match != BaselineMatch::Path && baseline_match
            != BaselineMatch::Allowed && !described ==> evidence_trust(
            accessible,
            baseline_match,
            described,
        ) == TrustState::Unclassified,
{
}

/// The findings a scan adds to a row, flag by flag: it keeps every finding
/// it had; it gains "many instances" exactly when other processes share its
/// (non-empty) path, "peer outlier" exactly when its group of peers flags
/// it, "restarting" exactly when its executable is restarting, and "starts
/// automatically" exactly when a startup entry names its normalized path;
/// no other finding changes.
pub proof fn lemma_live_findings_by_flag(
    bits: u16,
    rows: Seq<ProcessRow>,
    i: int,
    starts: StartView,
    autostart: Set<Seq<char>>,
    now: u64,
)
    requires
        0 <= i < rows.len(),
    ensures
        ({
            let out = live_bits(bits, rows, i, starts, autostart, now);
            let path = rows[i].path@;
            let m = path.len() > 0 && peer_group(rows, path).len() >= 2;
            let o = path.len() > 0 && group_flags(peer_group(rows, path), i as usize);
            let r = restarting(starts, path, now);
            let a = normalized_path(path).len() > 0 && autostart.contains(normalized_path(path));
            &&& (out & Findings::MANY_INSTANCES != 0) == (bits & Findings::MANY_INSTANCES != 0 || m)
            &&& (out & Findings::PEER_OUTLIER != 0) == (bits & Findings::PEER_OUTLIER != 0 || o)
            &&& (out & Findings::RESTARTING != 0) == (bits & Findings::RESTARTING != 0 || r)
            &&& (out & Findings::STARTS_AUTOMATICALLY != 0) == (bits & Findings::STARTS_AUTOMATICALLY
                != 0 || a)
            &&& out & 0xFA3Fu16 == bits & 0xFA3Fu16
        }),
{
    let path = rows[i].path@;
    let m = path.len() > 0 && peer_group(rows, path).len() >= 2;
    let o = path.len() > 0 && group_flags(peer_group(rows, path), i as usize);
    let r = restarting(starts, path, now);
    let a = normalized_path(path).len() > 0 && autostart.contains(normalized_path(path));
    let b1 = if m { bits | Findings::MANY_INSTANCES } else { bits };
    let b2 = if o { b1 | Findings::PEER_OUTLIER } else { b1 };
    let b3 = if r { b2 | Findings::RESTARTING } else { b2 };
    let b4 = if a { b3 | Findings::STARTS_AUTOMATICALLY } else { b3 };
    assert(live_bits(bits, rows, i, starts, autostart, now) == b4);
    assert({
        &&& (b4 & 256 != 0) == (bits & 256 != 0 || m)
        &&& (b4 & 64 != 0) == (bits & 64 != 0 || o)
        &&& (b4 & 128 != 0) == (bits & 128 != 0 || r)
        &&& (b4 & 1024 != 0) == (bits & 1024 != 0 || a)
        &&& b4 & 0xFA3Fu16 == bits & 0xFA3Fu16
    }) by (bit_vector)
        requires
            b1 == if m { bits | 256u16 } else { bits },
            b2 == if o { b1 | 64u16 } else { b1 },
            b3 == if r { b2 | 128u16 } else { b2 },
            b4 == if a { b3 | 1024u16 } else { b3 },
    ;
}

/// The first-column label of a row: paused rows say so, then protected
/// ones; otherwise the most pressing finding in the order restarting,
/// different path, parent ended, peer outlier, heavy CPU, heavy memory,
/// heavy disk, new, starts automatically, many instances, known parent;
/// and a row with no findings shows its trust state.
pub proof fn lemma_category_precedence(row: ProcessRow)
    ensures
        ({
            let b = row.findings@;
            let label = category_label(row);
            if row.paused_by_procdrift {
                label == "Paused by ProcDrift"@
            } else if row.trust == TrustState::Protected {
                label == "Protected"@
            } else if b & Findings::RESTARTING != 0 {
                label == "Restarting"@
            } else if b & Findings::DIFFERENT_PATH != 0 {
                label == "Different path"@
            } else if b & Findings::PARENT_ENDED != 0 {
                label == "Parent ended"@
            } else if b & Findings::PEER_OUTLIER != 0 {
                label == "Peer outlier"@
            } else if b & Findings::HEAVY_CPU != 0 {
                label == "Heavy CPU"@
            } else if b & Findings::HEAVY_MEMORY != 0 {
                label == "Heavy memory"@
            } else if b & Findings::HEAVY_DISK != 0 {
                label == "Heavy disk"@
            } else if b & Findings::NEW != 0 {
                label == "New"@
            } else if b & Findings::STARTS_AUTOMATICALLY != 0 {
                label == "Starts automatically"@
            } else if b & Findings::MANY_INSTANCES != 0 {
                label == "Many instances"@
            } else if b & Findings::LAUNCHED_BY_KNOWN != 0 {
                label == "Known parent"@
            } else if b != 0 {
                label == "None"@
            } else {
                label == trust_label(row.trust)
            }
        }),
{
    let t = primary_table();
    let b = row.findings@;
    assert(b == 0 ==> (b & 128u16 == 0 && b & 2u16 == 0 && b & 4u16 == 0 && b & 64u16 == 0 && b
        & 8u16 == 0 && b & 16u16 == 0 && b & 32u16 == 0 && b & 1u16 == 0 && b & 1024u16 == 0 && b
        & 256u16 == 0 && b & 512u16 == 0)) by (bit_vector);
    if b & Findings::RESTARTING != 0 {
        lemma_first_label_at(b, t, 0);
    } else if b & Findings::DIFFERENT_PATH != 0 {
        lemma_first_label_at(b, t, 1);
    } else if b & Findings::PARENT_ENDED != 0 {
        lemma_first_label_at(b, t, 2);
    } else if b & Findings::PEER_OUTLIER != 0 {
        lemma_first_label_at(b, t, 3);
    } else if b & Findings::HEAVY_CPU != 0 {
        lemma_first_label_at(b, t, 4);
    } else if b & Findings::HEAVY_MEMORY != 0 {
        lemma_first_label_at(b, t, 5);
    } else if b & Findings::HEAVY_DISK != 0 {
        lemma_first_label_at(b, t, 6);
    } else if b & Findings::NEW != 0 {
        lemma_first_label_at(b, t, 7);
    } else if b & Findings::STARTS_AUTOMATICALLY != 0 {
        lemma_first_label_at(b, t, 8);
    } else if b & Findings::MANY_INSTANCES != 0 {
        lemma_first_label_at(b, t, 9);
    } else if b & Findings::LAUNCHED_BY_KNOWN != 0 {
        lemma_first_label_at(b, t, 10);
    } else {
        lemma_first_label_none(b, t);
    }
}

proof fn lemma_first_label_at(bits: u16, t: Seq<(u16, Seq<char>)>, j: int)
    requires
        0 <= j < t.len(),
        has_any(bits, t[j].0),
        forall|k: int| 0 <= k < j ==> !has_any(bits, #[trigger] t[k].0),
    ensures
        first_label(bits, t) == t[j].1,
    decreases j,
{
    if j > 0 {
        assert(!has_any(bits, t[0].0));
        let rest = t.drop_first();
        assert forall|k: int| 0 <= k < j - 1 implies !has_any(bits, #[trigger] rest[k].0) by {
            assert(rest[k] == t[k + 1]);
        }
        assert(rest[j - 1] == t[j]);
        lemma_first_label_at(bits, rest, j - 1);
    }
}

proof fn lemma_first_label_none(bits: u16, t: Seq<(u16, Seq<char>)>)
    requires
        forall|k: int| 0 <= k < t.len() ==> !has_any(bits, #[trigger] t[k].0),
    ensures
        first_label(bits, t) == "None"@,
    decreases t.len(),
{
    if t.len() > 0 {
        assert(!has_any(bits, t[0].0));
        let rest = t.drop_first();
        assert forall|k: int| 0 <= k < rest.len() implies !has_any(bits, #[trigger] rest[k].0) by {
            assert(rest[k] == t[k + 1]);
        }
        lemma_first_label_none(bits, rest);
    }
}

/// Trust comes from the baseline match and the process name alone: no
/// finding (a new name, an ended or a known parent) changes it, so a
/// different path is never trusted because of the process that launched
/// it, and is flagged as a different path.
pub proof fn lemma_trust_ignores_findings(
    accessible: bool,
    baseline_match: BaselineMatch,
    described: bool,
    recorded: bool,
    ppid: u32,
    all_pids: Set<u32>,
    baseline_pids: Set<u32>,
)
    ensures
        accessible && baseline_match == BaselineMatch::PathMismatch ==> evidence_trust(
            accessible,
            baseline_match,
            described,
        ) != TrustState::Allowed && has_any(
            evidence_bits(accessible, recorded, baseline_match, ppid, all_pids, baseline_pids),
            Findings::DIFFERENT_PATH,
        ),
{
    if accessible && baseline_match == BaselineMatch::PathMismatch {
        let b0: u16 = 0;
        let b1 = if recorded && baseline_match == BaselineMatch::Unrecorded {
            b0 | Findings::NEW
        } else {
            b0
        };
        assert(b1 == 0);
        let b2 = b1 | Findings::DIFFERENT_PATH;
        let b3 = if ppid != 0 && !all_pids.contains(ppid) {
            b2 | Findings::PARENT_ENDED
        } else {
            b2
        };
        let b4 = if ppid != 0 && baseline_pids.contains(ppid) {
            b3 | Findings::LAUNCHED_BY_KNOWN
        } else {
            b3
        };
        assert(b2 & 2 != 0) by (bit_vector)
            requires
                b2 == b1 | 2u16,
        ;
        assert(b3 & 2 != 0) by (bit_vector)
            requires
                b2 & 2 != 0,
                b3 == b2 || b3 == b2 | 4u16,
        ;
        assert(b4 & 2 != 0) by (bit_vector)
            requires
                b3 & 2 != 0,
                b4 == b3 || b4 == b3 | 512u16,
        ;
    }
}

/// Something new that also starts automatically ranks first for review,
/// whatever else is true of it.
pub proof fn lemma_persistent_new_ranks_first(trust: TrustState, bits: u16)
    requires
        has_any(bits, Findings::NEW),
        has_any(bits, Findings::STARTS_AUTOMATICALLY),
    ensures
        rank_of(trust, bits) == 0,
{
}

} // verus!
