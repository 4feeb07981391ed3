//! Trust states, findings, review filters, and the resource leaderboards.
//!
//! Trust says where an executable stands relative to the reference snapshot;
//! findings say what is true about a process right now. The two are kept
//! independent: no finding changes a trust state and no trust state implies a
//! finding.

use std::collections::{HashMap, HashSet};
use vstd::prelude::*;
use vstd::std_specs::iter::IteratorSpec;
use vstd::relations::{sorted_by, total_ordering};

verus! {

/// CPU use, in tenths of a percent, from which a process can be heavy.
pub const CPU_HEAVY_TENTHS: u32 = 10;

/// Working set, in bytes, from which a process can be heavy.
pub const MEMORY_HEAVY_BYTES: u64 = 134217728;

/// Disk transfer rate, in bytes per second, from which a process can be heavy.
pub const DISK_HEAVY_BYTES: u64 = 65536;

/// Where an executable stands relative to the reference snapshot.
#[derive(Clone, Copy, Debug, PartialEq, Eq, Structural)]
pub enum TrustState {
    /// A process this tool will not act on (one it cannot open).
    Protected,
    /// Its exact path is in the reference snapshot, or was allowed by hand.
    Allowed,
    /// A Windows-shipped program that can be described, whose exact path is
    /// not in the snapshot.
    Known,
    /// Nothing is known about it beyond this scan.
    Unclassified,
}

/// The label shown for a trust state.
pub open spec fn trust_label(t: TrustState) -> Seq<char> {
    match t {
        TrustState::Protected => "Protected"@,
        TrustState::Allowed => "Allowed"@,
        TrustState::Known => "Known"@,
        TrustState::Unclassified => "Unclassified"@,
    }
}

impl TrustState {
    /// The label shown for this trust state.
    pub fn label(self) -> (r: &'static str)
        ensures
            r@ == trust_label(self),
    {
        match self {
            TrustState::Protected => "Protected",
            TrustState::Allowed => "Allowed",
            TrustState::Known => "Known",
            TrustState::Unclassified => "Unclassified",
        }
    }
}

/// A set of findings, one bit each.
#[derive(Clone, Copy, Debug, PartialEq, Eq, Structural)]
pub struct Findings(u16);

impl View for Findings {
    type V = u16;

    closed spec fn view(&self) -> u16 {
        self.0
    }
}

impl Default for Findings {
    /// No findings.
    fn default() -> (r: Self)
        ensures
            r@ == 0,
    {
        Findings(0)
    }
}

/// The mask of the three "heavy" findings.
pub open spec fn heavy_mask() -> u16 {
    (Findings::HEAVY_CPU | Findings::HEAVY_MEMORY) | Findings::HEAVY_DISK
}

/// Whether any bit of `mask` is set in `bits`.
pub open spec fn has_any(bits: u16, mask: u16) -> bool {
    bits & mask != 0
}

impl Findings {
    pub const NEW: u16 = 1;
    pub const DIFFERENT_PATH: u16 = 2;
    pub const PARENT_ENDED: u16 = 4;
    pub const HEAVY_CPU: u16 = 8;
    pub const HEAVY_MEMORY: u16 = 16;
    pub const HEAVY_DISK: u16 = 32;
    pub const PEER_OUTLIER: u16 = 64;
    pub const RESTARTING: u16 = 128;
    pub const MANY_INSTANCES: u16 = 256;
    pub const LAUNCHED_BY_KNOWN: u16 = 512;
    pub const STARTS_AUTOMATICALLY: u16 = 1024;

    /// True when *any* bit in `finding` is set. Callers pass several flags at
    /// once to ask "any of these", which is why this is an intersection test
    /// rather than a subset test.
    pub fn contains(self, finding: u16) -> (r: bool)
        ensures
            r == has_any(self@, finding),
    {
        self.0 & finding != 0
    }

    /// Adds every bit of `finding`.
    pub fn insert(&mut self, finding: u16)
        ensures
            final(self)@ == old(self)@ | finding,
    {
        self.0 = self.0 | finding;
    }

    /// True when no finding is set.
    pub fn is_empty(self) -> (r: bool)
        ensures
            r == (self@ == 0),
    {
        self.0 == 0
    }

    /// The findings set, one bit per flag, as plain bits.
    pub fn bits(self) -> (r: u16)
        ensures
            r == self@,
    {
        self.0
    }

    /// The explanation of each finding that is set, in a fixed order, phrased
    /// as an observation rather than a verdict.
    pub fn calm_reasons(self) -> (r: Vec<&'static str>)
        ensures
            r@.map_values(|s: &str| s@) == reasons_for(self@, reason_table()),
    {
        let table = reason_entries();
        let mut reasons: Vec<&'static str> = Vec::new();
        let mut i: usize = 0;
        while i < table.len()
            invariant
                i <= table.len(),
                table@.map_values(|e: (u16, &str)| (e.0, e.1@)) == reason_table(),
                reasons@.map_values(|s: &str| s@) == reasons_for(
                    self@,
                    reason_table().take(i as int),
                ),
            decreases table.len() - i,
        {
            let (flag, reason) = table[i];
            proof {
                assert(reason_table().take(i + 1).drop_last() =~= reason_table().take(i as int));
                assert(reason_table()[i as int] == (flag, reason@));
            }
            if self.contains(flag) {
                reasons.push(reason);
            }
            i = i + 1;
            assert(reasons@.map_values(|s: &str| s@) =~= reasons_for(
                self@,
                reason_table().take(i as int),
            ));
        }
        assert(reason_table().take(table.len() as int) =~= reason_table());
        reasons
    }
}

/// Each finding flag with its calm explanation, in display order.
pub open spec fn reason_table() -> Seq<(u16, Seq<char>)> {
    seq![
        (Findings::NEW, "Not present in the reference snapshot"@),
        (Findings::DIFFERENT_PATH, "This name was seen at a different path"@),
        (Findings::PARENT_ENDED, "The launching process is no longer running"@),
        (Findings::HEAVY_CPU, "Currently among the highest CPU users"@),
        (Findings::HEAVY_MEMORY, "Currently among the highest memory users"@),
        (Findings::HEAVY_DISK, "Currently among the highest disk users"@),
        (Findings::PEER_OUTLIER, "Using more resources than matching instances"@),
        (Findings::RESTARTING, "Started at least three times in two minutes"@),
        (Findings::MANY_INSTANCES, "Multiple matching instances are running"@),
        (Findings::LAUNCHED_BY_KNOWN, "Launched by a known process"@),
        (Findings::STARTS_AUTOMATICALLY, "An exact startup entry was found"@),
    ]
}

/// The explanations in `table` whose flag intersects `bits`, in table order.
pub open spec fn reasons_for(bits: u16, table: Seq<(u16, Seq<char>)>) -> Seq<Seq<char>>
    decreases table.len(),
{
    if table.len() == 0 {
        seq![]
    } else {
        let rest = reasons_for(bits, table.drop_last());
        if has_any(bits, table.last().0) {
            rest.push(table.last().1)
        } else {
            rest
        }
    }
}

/// Whether `w` occurs in `s` as a run of consecutive characters.
pub open spec fn contains_text(s: Seq<char>, w: Seq<char>) -> bool {
    exists|i: int| 0 <= i && i + w.len() <= s.len() && #[trigger] s.subrange(i, i + w.len()) == w
}

/// No three consecutive characters of `s` from position `i` on are `a b c`.
pub open spec fn lacks_run(s: Seq<char>, i: int, a: char, b: char, c: char) -> bool
    decreases s.len() - i,
{
    if i < 0 || i + 3 > s.len() {
        true
    } else {
        !(s[i] == a && s[i + 1] == b && s[i + 2] == c) && lacks_run(s, i + 1, a, b, c)
    }
}

proof fn lemma_lacks_run(s: Seq<char>, i: int, a: char, b: char, c: char, q: int)
    requires
        0 <= i <= q,
        q + 3 <= s.len(),
        lacks_run(s, i, a, b, c),
    ensures
        !(s[q] == a && s[q + 1] == b && s[q + 2] == c),
    decreases q - i,
{
    if i < q {
        lemma_lacks_run(s, i + 1, a, b, c, q);
    }
}

/// A word containing the run `a b c` at `p` does not occur in a text that
/// lacks that run.
proof fn lemma_run_excludes_word(s: Seq<char>, w: Seq<char>, p: int, a: char, b: char, c: char)
    requires
        0 <= p,
        p + 3 <= w.len(),
        w[p] == a && w[p + 1] == b && w[p + 2] == c,
        lacks_run(s, 0, a, b, c),
    ensures
        !contains_text(s, w),
{
    if contains_text(s, w) {
        let i = choose|i: int| 0 <= i && i + w.len() <= s.len() && #[trigger] s.subrange(i, i + w.len()) == w;
        let sub = s.subrange(i, i + w.len());
        assert(sub[p] == s[i + p] && sub[p + 1] == s[i + p + 1] && sub[p + 2] == s[i + p + 2]);
        lemma_lacks_run(s, 0, a, b, c, i + p);
    }
}

/// Free of the verdict words: no run of `ali` (so no "malicious"), `eat` (so
/// no "threat") or `saf` (so no "safe").
pub open spec fn verdict_free(s: Seq<char>) -> bool {
    &&& lacks_run(s, 0, 'a', 'l', 'i')
    &&& lacks_run(s, 0, 'e', 'a', 't')
    &&& lacks_run(s, 0, 's', 'a', 'f')
}

proof fn lemma_table_is_verdict_free()
    ensures
        forall|j: int| 0 <= j < reason_table().len() ==> verdict_free(#[trigger] reason_table()[j].1),
{
    assert(lacks_run(reason_table()[0].1, 0, 'a', 'l', 'i')) by {
        reveal_strlit("Not present in the reference snapshot");
        reveal_with_fuel(lacks_run, 50);
    }
    assert(lacks_run(reason_table()[0].1, 0, 'e', 'a', 't')) by {
        reveal_strlit("Not present in the reference snapshot");
        reveal_with_fuel(lacks_run, 50);
    }
    assert(lacks_run(reason_table()[0].1, 0, 's', 'a', 'f')) by {
        reveal_strlit("Not present in the reference snapshot");
        reveal_with_fuel(lacks_run, 50);
    }
    assert(lacks_run(reason_table()[1].1, 0, 'a', 'l', 'i')) by {
        reveal_strlit("This name was seen at a different path");
        reveal_with_fuel(lacks_run, 50);
    }
    assert(lacks_run(reason_table()[1].1, 0, 'e', 'a', 't')) by {
        reveal_strlit("This name was seen at a different path");
        reveal_with_fuel(lacks_run, 50);
    }
    assert(lacks_run(reason_table()[1].1, 0, 's', 'a', 'f')) by {
        reveal_strlit("This name was seen at a different path");
        reveal_with_fuel(lacks_run, 50);
    }
    assert(lacks_run(reason_table()[2].1, 0, 'a', 'l', 'i')) by {
        reveal_strlit("The launching process is no longer running");
        reveal_with_fuel(lacks_run, 50);
    }
    assert(lacks_run(reason_table()[2].1, 0, 'e', 'a', 't')) by {
        reveal_strlit("The launching process is no longer running");
        reveal_with_fuel(lacks_run, 50);
    }
    assert(lacks_run(reason_table()[2].1, 0, 's', 'a', 'f')) by {
        reveal_strlit("The launching process is no longer running");
        reveal_with_fuel(lacks_run, 50);
    }
    assert(lacks_run(reason_table()[3].1, 0, 'a', 'l', 'i')) by {
        reveal_strlit("Currently among the highest CPU users");
        reveal_with_fuel(lacks_run, 50);
    }
    assert(lacks_run(reason_table()[3].1, 0, 'e', 'a', 't')) by {
        reveal_strlit("Currently among the highest CPU users");
        reveal_with_fuel(lacks_run, 50);
    }
    assert(lacks_run(reason_table()[3].1, 0, 's', 'a', 'f')) by {
        reveal_strlit("Currently among the highest CPU users");
        reveal_with_fuel(lacks_run, 50);
    }
    assert(lacks_run(reason_table()[4].1, 0, 'a', 'l', 'i')) by {
        reveal_strlit("Currently among the highest memory users");
        reveal_with_fuel(lacks_run, 50);
    }
    assert(lacks_run(reason_table()[4].1, 0, 'e', 'a', 't')) by {
        reveal_strlit("Currently among the highest memory users");
        reveal_with_fuel(lacks_run, 50);
    }
    assert(lacks_run(reason_table()[4].1, 0, 's', 'a', 'f')) by {
        reveal_strlit("Currently among the highest memory users");
        reveal_with_fuel(lacks_run, 50);
    }
    assert(lacks_run(reason_table()[5].1, 0, 'a', 'l', 'i')) by {
        reveal_strlit("Currently among the highest disk users");
        reveal_with_fuel(lacks_run, 50);
    }
    assert(lacks_run(reason_table()[5].1, 0, 'e', 'a', 't')) by {
        reveal_strlit("Currently among the highest disk users");
        reveal_with_fuel(lacks_run, 50);
    }
    assert(lacks_run(reason_table()[5].1, 0, 's', 'a', 'f')) by {
        reveal_strlit("Currently among the highest disk users");
        reveal_with_fuel(lacks_run, 50);
    }
    assert(lacks_run(reason_table()[6].1, 0, 'a', 'l', 'i')) by {
        reveal_strlit("Using more resources than matching instances");
        reveal_with_fuel(lacks_run, 50);
    }
    assert(lacks_run(reason_table()[6].1, 0, 'e', 'a', 't')) by {
        reveal_strlit("Using more resources than matching instances");
        reveal_with_fuel(lacks_run, 50);
    }
    assert(lacks_run(reason_table()[6].1, 0, 's', 'a', 'f')) by {
        reveal_strlit("Using more resources than matching instances");
        reveal_with_fuel(lacks_run, 50);
    }
    assert(lacks_run(reason_table()[7].1, 0, 'a', 'l', 'i')) by {
        reveal_strlit("Started at least three times in two minutes");
        reveal_with_fuel(lacks_run, 50);
    }
    assert(lacks_run(reason_table()[7].1, 0, 'e', 'a', 't')) by {
        reveal_strlit("Started at least three times in two minutes");
        reveal_with_fuel(lacks_run, 50);
    }
    assert(lacks_run(reason_table()[7].1, 0, 's', 'a', 'f')) by {
        reveal_strlit("Started at least three times in two minutes");
        reveal_with_fuel(lacks_run, 50);
    }
    assert(lacks_run(reason_table()[8].1, 0, 'a', 'l', 'i')) by {
        reveal_strlit("Multiple matching instances are running");
        reveal_with_fuel(lacks_run, 50);
    }
    assert(lacks_run(reason_table()[8].1, 0, 'e', 'a', 't')) by {
        reveal_strlit("Multiple matching instances are running");
        reveal_with_fuel(lacks_run, 50);
    }
    assert(lacks_run(reason_table()[8].1, 0, 's', 'a', 'f')) by {
        reveal_strlit("Multiple matching instances are running");
        reveal_with_fuel(lacks_run, 50);
    }
    assert(lacks_run(reason_table()[9].1, 0, 'a', 'l', 'i')) by {
        reveal_strlit("Launched by a known process");
        reveal_with_fuel(lacks_run, 50);
    }
    assert(lacks_run(reason_table()[9].1, 0, 'e', 'a', 't')) by {
        reveal_strlit("Launched by a known process");
        reveal_with_fuel(lacks_run, 50);
    }
    assert(lacks_run(reason_table()[9].1, 0, 's', 'a', 'f')) by {
        reveal_strlit("Launched by a known process");
        reveal_with_fuel(lacks_run, 50);
    }
    assert(lacks_run(reason_table()[10].1, 0, 'a', 'l', 'i')) by {
        reveal_strlit("An exact startup entry was found");
        reveal_with_fuel(lacks_run, 50);
    }
    assert(lacks_run(reason_table()[10].1, 0, 'e', 'a', 't')) by {
        reveal_strlit("An exact startup entry was found");
        reveal_with_fuel(lacks_run, 50);
    }
    assert(lacks_run(reason_table()[10].1, 0, 's', 'a', 'f')) by {
        reveal_strlit("An exact startup entry was found");
        reveal_with_fuel(lacks_run, 50);
    }
}

proof fn lemma_reasons_from_table(bits: u16, table: Seq<(u16, Seq<char>)>, k: int)
    requires
        0 <= k < reasons_for(bits, table).len(),
    ensures
        exists|j: int| 0 <= j < table.len() && reasons_for(bits, table)[k] == #[trigger] table[j].1,
    decreases table.len(),
{
    let rest = reasons_for(bits, table.drop_last());
    if k < rest.len() {
        lemma_reasons_from_table(bits, table.drop_last(), k);
        let j = choose|j: int| 0 <= j < table.drop_last().len() && rest[k] == #[trigger] table.drop_last()[j].1;
        assert(table[j] == table.drop_last()[j]);
    } else {
        assert(table[table.len() - 1] == table.last());
    }
}

/// No explanation ever uses verdict language: none contains "malicious",
/// "threat" or "safe", whatever the findings.
pub proof fn lemma_reasons_are_calm(f: Findings)
    ensures
        forall|k: int|
            0 <= k < reasons_for(f@, reason_table()).len() ==> {
                let reason = #[trigger] reasons_for(f@, reason_table())[k];
                &&& !contains_text(reason, "malicious"@)
                &&& !contains_text(reason, "threat"@)
                &&& !contains_text(reason, "safe"@)
            },
{
    lemma_table_is_verdict_free();
    reveal_strlit("malicious");
    reveal_strlit("threat");
    reveal_strlit("safe");
    assert forall|k: int| 0 <= k < reasons_for(f@, reason_table()).len() implies {
        let reason = #[trigger] reasons_for(f@, reason_table())[k];
        &&& !contains_text(reason, "malicious"@)
        &&& !contains_text(reason, "threat"@)
        &&& !contains_text(reason, "safe"@)
    } by {
        lemma_reasons_from_table(f@, reason_table(), k);
        let reason = reasons_for(f@, reason_table())[k];
        let j = choose|j: int| 0 <= j < reason_table().len() && reason == #[trigger] reason_table()[j].1;
        assert(verdict_free(reason_table()[j].1));
        lemma_run_excludes_word(reason, "malicious"@, 1, 'a', 'l', 'i');
        lemma_run_excludes_word(reason, "threat"@, 3, 'e', 'a', 't');
        lemma_run_excludes_word(reason, "safe"@, 0, 's', 'a', 'f');
    }
}

proof fn lemma_reasons_filter(bits: u16, t: Seq<(u16, Seq<char>)>)
    ensures
        reasons_for(bits, t) == t.filter(|e: (u16, Seq<char>)| has_any(bits, e.0)).map_values(
            |e: (u16, Seq<char>)| e.1,
        ),
    decreases t.len(),
{
    reveal(Seq::filter);
    if t.len() > 0 {
        lemma_reasons_filter(bits, t.drop_last());
        let kept = t.drop_last().filter(|e: (u16, Seq<char>)| has_any(bits, e.0));
        if has_any(bits, t.last().0) {
            assert(kept.push(t.last()).map_values(|e: (u16, Seq<char>)| e.1) =~= kept.map_values(
                |e: (u16, Seq<char>)| e.1,
            ).push(t.last().1));
        }
    }
}

proof fn lemma_reasons_mask(bits: u16, t: Seq<(u16, Seq<char>)>)
    requires
        forall|j: int| 0 <= j < t.len() ==> #[trigger] t[j].0 & 0x7FF == t[j].0,
    ensures
        reasons_for(bits, t) == reasons_for(bits & 0x7FF, t),
    decreases t.len(),
{
    if t.len() > 0 {
        lemma_reasons_mask(bits, t.drop_last());
        let flag = t.last().0;
        assert(flag & 0x7FF == flag);
        assert(((bits & flag) != 0) == (((bits & 0x7FF) & flag) != 0)) by (bit_vector)
            requires
                flag & 0x7FF == flag,
        ;
    }
}

/// Each finding has exactly one explanation: the table lists the eleven
/// flags once each in ascending bit order with pairwise different texts,
/// the explanations of a findings set are those of the flags it contains in
/// that order, bits outside the eleven flags add nothing, and no findings
/// give no explanation.
pub proof fn lemma_reasons_per_flag(f: Findings)
    ensures
        reason_table().map_values(|e: (u16, Seq<char>)| e.0) == seq![
            Findings::NEW,
            Findings::DIFFERENT_PATH,
            Findings::PARENT_ENDED,
            Findings::HEAVY_CPU,
            Findings::HEAVY_MEMORY,
            Findings::HEAVY_DISK,
            Findings::PEER_OUTLIER,
            Findings::RESTARTING,
            Findings::MANY_INSTANCES,
            Findings::LAUNCHED_BY_KNOWN,
            Findings::STARTS_AUTOMATICALLY,
        ],
        forall|i: int, j: int|
            0 <= i < j < reason_table().len() ==> #[trigger] reason_table()[i].1
                != #[trigger] reason_table()[j].1,
        reasons_for(f@, reason_table()) == reason_table().filter(
            |e: (u16, Seq<char>)| has_any(f@, e.0),
        ).map_values(|e: (u16, Seq<char>)| e.1),
        reasons_for(f@, reason_table()) == reasons_for(f@ & 0x7FF, reason_table()),
        f@ == 0 ==> reasons_for(f@, reason_table()) == Seq::<Seq<char>>::empty(),
{
    assert(reason_table().map_values(|e: (u16, Seq<char>)| e.0) =~= seq![
        Findings::NEW,
        Findings::DIFFERENT_PATH,
        Findings::PARENT_ENDED,
        Findings::HEAVY_CPU,
        Findings::HEAVY_MEMORY,
        Findings::HEAVY_DISK,
        Findings::PEER_OUTLIER,
        Findings::RESTARTING,
        Findings::MANY_INSTANCES,
        Findings::LAUNCHED_BY_KNOWN,
        Findings::STARTS_AUTOMATICALLY,
    ]);
    reveal_strlit("Not present in the reference snapshot");
    reveal_strlit("This name was seen at a different path");
    reveal_strlit("The launching process is no longer running");
    reveal_strlit("Currently among the highest CPU users");
    reveal_strlit("Currently among the highest memory users");
    reveal_strlit("Currently among the highest disk users");
    reveal_strlit("Using more resources than matching instances");
    reveal_strlit("Started at least three times in two minutes");
    reveal_strlit("Multiple matching instances are running");
    reveal_strlit("Launched by a known process");
    reveal_strlit("An exact startup entry was found");
    assert(reason_table()[0].1.len() == 37 && reason_table()[0].1[0] == 'N');
    assert(reason_table()[1].1.len() == 38 && reason_table()[1].1[0] == 'T');
    assert(reason_table()[2].1.len() == 42 && reason_table()[2].1[0] == 'T');
    assert(reason_table()[3].1.len() == 37 && reason_table()[3].1[0] == 'C');
    assert(reason_table()[4].1.len() == 40 && reason_table()[4].1[0] == 'C');
    assert(reason_table()[5].1.len() == 38 && reason_table()[5].1[0] == 'C');
    assert(reason_table()[6].1.len() == 44 && reason_table()[6].1[0] == 'U');
    assert(reason_table()[7].1.len() == 43 && reason_table()[7].1[0] == 'S');
    assert(reason_table()[8].1.len() == 39 && reason_table()[8].1[0] == 'M');
    assert(reason_table()[9].1.len() == 27 && reason_table()[9].1[0] == 'L');
    assert(reason_table()[10].1.len() == 32 && reason_table()[10].1[0] == 'A');
    lemma_reasons_filter(f@, reason_table());
    assert forall|j: int| 0 <= j < reason_table().len() implies #[trigger] reason_table()[j].0
        & 0x7FF == reason_table()[j].0 by {
        let x = reason_table()[j].0;
        assert(x <= 1024);
        assert(x & 0x7FF == x) by (bit_vector)
            requires
                x <= 1024,
        ;
    }
    lemma_reasons_mask(f@, reason_table());
    if f@ == 0 {
        assert forall|j: int| 0 <= j < reason_table().len() implies !has_any(
            f@,
            #[trigger] reason_table()[j].0,
        ) by {
            assert(0u16 & reason_table()[j].0 == 0) by (bit_vector);
        }
        lemma_reasons_none(f@, reason_table());
    }
}

proof fn lemma_reasons_none(bits: u16, t: Seq<(u16, Seq<char>)>)
    requires
        forall|j: int| 0 <= j < t.len() ==> !has_any(bits, #[trigger] t[j].0),
    ensures
        reasons_for(bits, t) == Seq::<Seq<char>>::empty(),
    decreases t.len(),
{
    if t.len() > 0 {
        assert(!has_any(bits, t[t.len() - 1].0));
        lemma_reasons_none(bits, t.drop_last());
    }
}

fn reason_entries() -> (r: Vec<(u16, &'static str)>)
    ensures
        r@.map_values(|e: (u16, &str)| (e.0, e.1@)) == reason_table(),
{
    let r = vec![
        (Findings::NEW, "Not present in the reference snapshot"),
        (Findings::DIFFERENT_PATH, "This name was seen at a different path"),
        (Findings::PARENT_ENDED, "The launching process is no longer running"),
        (Findings::HEAVY_CPU, "Currently among the highest CPU users"),
        (Findings::HEAVY_MEMORY, "Currently among the highest memory users"),
        (Findings::HEAVY_DISK, "Currently among the highest disk users"),
        (Findings::PEER_OUTLIER, "Using more resources than matching instances"),
        (Findings::RESTARTING, "Started at least three times in two minutes"),
        (Findings::MANY_INSTANCES, "Multiple matching instances are running"),
        (Findings::LAUNCHED_BY_KNOWN, "Launched by a known process"),
        (Findings::STARTS_AUTOMATICALLY, "An exact startup entry was found"),
    ];
    assert(r@.map_values(|e: (u16, &str)| (e.0, e.1@)) =~= reason_table());
    r
}

/// The review filters offered above the process list.
#[derive(Clone, Copy, Debug, PartialEq, Eq, Structural)]
pub enum Filter {
    Review,
    New,
    Heavy,
    Restarting,
    Known,
    All,
}

/// The part of a process row that filtering and the leaderboards read.
#[derive(Clone, Copy, Debug)]
pub struct EvidenceRow {
    pub trust: TrustState,
    pub findings: Findings,
    pub cpu_tenths: u32,
    pub memory_bytes: u64,
    pub disk_bytes_per_second: u64,
}

/// Whether a row with this trust state and these findings belongs under the
/// filter.
pub open spec fn shown_under(trust: TrustState, bits: u16, filter: Filter) -> bool {
    let heavy = has_any(bits, heavy_mask());
    match filter {
        Filter::Review => {
            ||| trust == TrustState::Unclassified
            ||| has_any(bits, Findings::NEW) && has_any(bits, Findings::STARTS_AUTOMATICALLY)
            ||| has_any(
                bits,
                ((Findings::DIFFERENT_PATH | Findings::PARENT_ENDED) | Findings::RESTARTING)
                    | Findings::PEER_OUTLIER,
            )
            ||| heavy
        },
        Filter::New => has_any(bits, Findings::NEW | Findings::DIFFERENT_PATH),
        Filter::Heavy => heavy,
        Filter::Restarting => has_any(bits, Findings::RESTARTING),
        Filter::Known => trust == TrustState::Known || trust == TrustState::Allowed,
        Filter::All => true,
    }
}

/// Which rows each review filter shows, flag by flag: Review shows every
/// unclassified row, every new row that also starts automatically, and every
/// row with a changed path, an ended parent, restarts, a peer-outlier or any
/// heavy finding, whatever its trust; New shows new rows and rows at a
/// different path; Heavy the rows with any heavy finding; Restarting the
/// restarting rows; Known the known and allowed rows; All every row.
pub proof fn lemma_filters_by_flag(trust: TrustState, bits: u16)
    ensures
        shown_under(trust, bits, Filter::Review) == (trust == TrustState::Unclassified || (bits
            & Findings::NEW != 0 && bits & Findings::STARTS_AUTOMATICALLY != 0) || bits
            & Findings::DIFFERENT_PATH != 0 || bits & Findings::PARENT_ENDED != 0 || bits
            & Findings::RESTARTING != 0 || bits & Findings::PEER_OUTLIER != 0 || bits
            & Findings::HEAVY_CPU != 0 || bits & Findings::HEAVY_MEMORY != 0 || bits
            & Findings::HEAVY_DISK != 0),
        shown_under(trust, bits, Filter::New) == (bits & Findings::NEW != 0 || bits
            & Findings::DIFFERENT_PATH != 0),
        shown_under(trust, bits, Filter::Heavy) == (bits & Findings::HEAVY_CPU != 0 || bits
            & Findings::HEAVY_MEMORY != 0 || bits & Findings::HEAVY_DISK != 0),
        shown_under(trust, bits, Filter::Restarting) == (bits & Findings::RESTARTING != 0),
        shown_under(trust, bits, Filter::Known) == (trust == TrustState::Known || trust
            == TrustState::Allowed),
        shown_under(trust, bits, Filter::All),
{
    assert((bits & 56u16 != 0) == (bits & 8u16 != 0 || bits & 16u16 != 0 || bits & 32u16 != 0))
        by (bit_vector);
    assert((bits & 198u16 != 0) == (bits & 2u16 != 0 || bits & 4u16 != 0 || bits & 128u16 != 0
        || bits & 64u16 != 0)) by (bit_vector);
    assert((bits & 3u16 != 0) == (bits & 1u16 != 0 || bits & 2u16 != 0)) by (bit_vector);
    assert(heavy_mask() == 56u16) by (bit_vector);
    assert(((Findings::DIFFERENT_PATH | Findings::PARENT_ENDED) | Findings::RESTARTING)
        | Findings::PEER_OUTLIER == 198u16) by (bit_vector);
    assert(Findings::NEW | Findings::DIFFERENT_PATH == 3u16) by (bit_vector);
}

impl EvidenceRow {
    /// Whether this row is shown under `filter`.
    pub fn matches_filter(&self, filter: Filter) -> (r: bool)
        ensures
            r == shown_under(self.trust, self.findings@, filter),
    {
        let heavy = self.findings.contains(
            (Findings::HEAVY_CPU | Findings::HEAVY_MEMORY) | Findings::HEAVY_DISK,
        );
        match filter {
            Filter::Review => {
                // A new executable that also has a startup entry survives a
                // reboot, so it belongs in review even when its trust state
                // would not otherwise put it there.
                let persistent_and_new = self.findings.contains(Findings::NEW)
                    && self.findings.contains(Findings::STARTS_AUTOMATICALLY);
                self.trust == TrustState::Unclassified || persistent_and_new
                    || self.findings.contains(
                    ((Findings::DIFFERENT_PATH | Findings::PARENT_ENDED) | Findings::RESTARTING)
                        | Findings::PEER_OUTLIER,
                ) || heavy
            },
            Filter::New => self.findings.contains(Findings::NEW | Findings::DIFFERENT_PATH),
            Filter::Heavy => heavy,
            Filter::Restarting => self.findings.contains(Findings::RESTARTING),
            Filter::Known => self.trust == TrustState::Known || self.trust
                == TrustState::Allowed,
            Filter::All => true,
        }
    }
}

// ---------------------------------------------------------------------------
// Resource leaderboards
// ---------------------------------------------------------------------------

/// The measurement a leaderboard ranks by.
#[derive(Clone, Copy, Debug, PartialEq, Eq, Structural)]
pub enum Metric {
    Cpu,
    Memory,
    Disk,
}

/// The value of `metric` for a row.
pub open spec fn metric_of(row: EvidenceRow, metric: Metric) -> u64 {
    match metric {
        Metric::Cpu => row.cpu_tenths as u64,
        Metric::Memory => row.memory_bytes,
        Metric::Disk => row.disk_bytes_per_second,
    }
}

fn metric_value(row: &EvidenceRow, metric: Metric) -> (r: u64)
    ensures
        r == metric_of(*row, metric),
{
    match metric {
        Metric::Cpu => row.cpu_tenths as u64,
        Metric::Memory => row.memory_bytes,
        Metric::Disk => row.disk_bytes_per_second,
    }
}

/// Number of `true` entries.
pub open spec fn count_true(s: Seq<bool>) -> nat
    decreases s.len(),
{
    if s.len() == 0 {
        0
    } else {
        count_true(s.drop_last()) + if s.last() {
            1nat
        } else {
            0nat
        }
    }
}

/// Which rows reach the leaderboard's minimum.
pub open spec fn eligible(rows: Seq<EvidenceRow>, metric: Metric, minimum: u64) -> Seq<bool> {
    Seq::new(rows.len(), |i: int| metric_of(rows[i], metric) >= minimum)
}

/// `marks` picks a top-five leaderboard: only rows at or above the minimum,
/// as many as five (or all eligible rows if fewer), and no unpicked eligible
/// row measures more than a picked one. Which of several equal rows at the
/// boundary is picked is left open, as an unstable sort leaves it.
pub open spec fn top_five_marks(
    rows: Seq<EvidenceRow>,
    metric: Metric,
    minimum: u64,
    marks: Seq<bool>,
) -> bool {
    &&& marks.len() == rows.len()
    &&& forall|i: int| 0 <= i < marks.len() && #[trigger] marks[i] ==> metric_of(rows[i], metric) >= minimum
    &&& forall|i: int, j: int|
        0 <= i < marks.len() && 0 <= j < marks.len() && #[trigger] marks[i] && !#[trigger] marks[j]
            && metric_of(rows[j], metric) >= minimum ==> metric_of(rows[j], metric) <= metric_of(
            rows[i],
            metric,
        )
    &&& count_true(marks) == if count_true(eligible(rows, metric, minimum)) < 5 {
        count_true(eligible(rows, metric, minimum))
    } else {
        5
    }
}

/// `after` is `before` with `flag` added to exactly the marked rows.
pub open spec fn flagged(
    before: Seq<EvidenceRow>,
    after: Seq<EvidenceRow>,
    marks: Seq<bool>,
    flag: u16,
) -> bool {
    &&& after.len() == before.len()
    &&& marks.len() == before.len()
    &&& forall|i: int|
        0 <= i < before.len() ==> {
            &&& (#[trigger] after[i]).trust == before[i].trust
            &&& after[i].cpu_tenths == before[i].cpu_tenths
            &&& after[i].memory_bytes == before[i].memory_bytes
            &&& after[i].disk_bytes_per_second == before[i].disk_bytes_per_second
            &&& after[i].findings@ == if marks[i] {
                before[i].findings@ | flag
            } else {
                before[i].findings@
            }
        }
}

/// One leaderboard pass: some top-five pick of `before` is flagged.
pub open spec fn leaderboard_pass(
    before: Seq<EvidenceRow>,
    after: Seq<EvidenceRow>,
    metric: Metric,
    minimum: u64,
    flag: u16,
) -> bool {
    exists|marks: Seq<bool>|
        top_five_marks(before, metric, minimum, marks) && flagged(before, after, marks, flag)
}

proof fn lemma_count_update(s: Seq<bool>, i: int)
    requires
        0 <= i < s.len(),
        !s[i],
    ensures
        count_true(s.update(i, true)) == count_true(s) + 1,
    decreases s.len(),
{
    if i == s.len() - 1 {
        assert(s.update(i, true).drop_last() =~= s.drop_last());
    } else {
        lemma_count_update(s.drop_last(), i);
        assert(s.update(i, true).drop_last() =~= s.drop_last().update(i, true));
    }
}

proof fn lemma_count_monotone(a: Seq<bool>, b: Seq<bool>)
    requires
        a.len() == b.len(),
        forall|i: int| 0 <= i < a.len() && #[trigger] a[i] ==> b[i],
    ensures
        count_true(a) <= count_true(b),
        (forall|i: int| 0 <= i < a.len() ==> a[i] == #[trigger] b[i]) ==> count_true(a)
            == count_true(b),
    decreases a.len(),
{
    if a.len() > 0 {
        lemma_count_monotone(a.drop_last(), b.drop_last());
        assert(a.last() ==> b.last());
    }
}

proof fn lemma_count_all_false(n: nat)
    ensures
        count_true(Seq::new(n, |i: int| false)) == 0,
    decreases n,
{
    if n > 0 {
        assert(Seq::new(n, |i: int| false).drop_last() =~= Seq::new(
            (n - 1) as nat,
            |i: int| false,
        ));
        lemma_count_all_false((n - 1) as nat);
    }
}

/// Flags the (at most five) highest rows at or above `minimum`.
pub fn mark_top_five(rows: &mut Vec<EvidenceRow>, metric: Metric, minimum: u64, flag: u16)
    ensures
        leaderboard_pass(old(rows)@, final(rows)@, metric, minimum, flag),
{
    let n = rows.len();
    let ghost elig = eligible(rows@, metric, minimum);
    let mut marks: Vec<bool> = Vec::new();
    while marks.len() < n
        invariant
            marks.len() <= n,
            forall|i: int| 0 <= i < marks.len() ==> !#[trigger] marks@[i],
        decreases n - marks.len(),
    {
        marks.push(false);
    }
    proof {
        assert(marks@ =~= Seq::new(n as nat, |i: int| false));
        lemma_count_all_false(n as nat);
    }
    let mut chosen: usize = 0;
    while chosen < 5
        invariant
            n == rows.len(),
            rows@ == old(rows)@,
            elig == eligible(rows@, metric, minimum),
            marks.len() == n,
            chosen <= 5,
            count_true(marks@) == chosen,
            forall|i: int| 0 <= i < n && #[trigger] marks@[i] ==> elig[i],
            forall|i: int, j: int|
                0 <= i < n && 0 <= j < n && #[trigger] marks@[i] && !#[trigger] marks@[j]
                    && elig[j] ==> metric_of(rows@[j], metric) <= metric_of(rows@[i], metric),
        ensures
            n == rows.len(),
            rows@ == old(rows)@,
            marks.len() == n,
            count_true(marks@) == chosen,
            forall|i: int| 0 <= i < n && #[trigger] marks@[i] ==> elig[i],
            forall|i: int, j: int|
                0 <= i < n && 0 <= j < n && #[trigger] marks@[i] && !#[trigger] marks@[j]
                    && elig[j] ==> metric_of(rows@[j], metric) <= metric_of(rows@[i], metric),
            chosen == 5 || forall|j: int| 0 <= j < n && #[trigger] elig[j] ==> marks@[j],
        decreases 5 - chosen,
    {
        let mut best: Option<usize> = None;
        let mut best_value: u64 = 0;
        let mut i: usize = 0;
        while i < n
            invariant
                n == rows.len(),
                marks.len() == n,
                elig == eligible(rows@, metric, minimum),
                i <= n,
                match best {
                    Some(b) => b < i && !marks@[b as int] && elig[b as int] && best_value
                        == metric_of(rows@[b as int], metric) && forall|j: int|
                        0 <= j < i && !#[trigger] marks@[j] && elig[j] ==> metric_of(
                            rows@[j],
                            metric,
                        ) <= best_value,
                    None => forall|j: int| 0 <= j < i && !#[trigger] marks@[j] ==> !elig[j],
                },
            decreases n - i,
        {
            let v = metric_value(&rows[i], metric);
            if !marks[i] && v >= minimum {
                match best {
                    Some(_) => {
                        if v > best_value {
                            best = Some(i);
                            best_value = v;
                        }
                    },
                    None => {
                        best = Some(i);
                        best_value = v;
                    },
                }
            }
            i = i + 1;
        }
        match best {
            None => {
                break ;
            },
            Some(b) => {
                proof {
                    lemma_count_update(marks@, b as int);
                }
                marks.set(b, true);
                chosen = chosen + 1;
            },
        }
    }
    proof {
        lemma_count_monotone(marks@, elig);
        if chosen < 5 {
            lemma_count_monotone(elig, marks@);
        }
    }
    let ghost before = rows@;
    let mut k: usize = 0;
    while k < n
        invariant
            n == rows.len(),
            before.len() == n,
            marks.len() == n,
            k <= n,
            forall|i: int|
                0 <= i < k ==> {
                    &&& (#[trigger] rows@[i]).trust == before[i].trust
                    &&& rows@[i].cpu_tenths == before[i].cpu_tenths
                    &&& rows@[i].memory_bytes == before[i].memory_bytes
                    &&& rows@[i].disk_bytes_per_second == before[i].disk_bytes_per_second
                    &&& rows@[i].findings@ == if marks@[i] {
                        before[i].findings@ | flag
                    } else {
                        before[i].findings@
                    }
                },
            forall|i: int| k <= i < n ==> #[trigger] rows@[i] == before[i],
        decreases n - k,
    {
        if marks[k] {
            let mut row = rows[k];
            row.findings.insert(flag);
            rows.set(k, row);
        }
        k = k + 1;
    }
    assert(top_five_marks(before, metric, minimum, marks@));
    assert(flagged(before, rows@, marks@, flag));
}

/// `after` is `before` with the three leaderboards applied in turn: heavy
/// CPU, then heavy memory, then heavy disk.
pub open spec fn resource_passes(before: Seq<EvidenceRow>, after: Seq<EvidenceRow>) -> bool {
    exists|first: Seq<EvidenceRow>, second: Seq<EvidenceRow>|
        {
            &&& leaderboard_pass(
                before,
                first,
                Metric::Cpu,
                CPU_HEAVY_TENTHS as u64,
                Findings::HEAVY_CPU,
            )
            &&& leaderboard_pass(
                first,
                second,
                Metric::Memory,
                MEMORY_HEAVY_BYTES,
                Findings::HEAVY_MEMORY,
            )
            &&& leaderboard_pass(second, after, Metric::Disk, DISK_HEAVY_BYTES, Findings::HEAVY_DISK)
        }
}

/// Which rows carry `flag`.
pub open spec fn flag_marks(rows: Seq<EvidenceRow>, flag: u16) -> Seq<bool> {
    Seq::new(rows.len(), |i: int| has_any(rows[i].findings@, flag))
}

/// The same rows with the same trust and measurements.
pub open spec fn same_measures(a: Seq<EvidenceRow>, b: Seq<EvidenceRow>) -> bool {
    &&& a.len() == b.len()
    &&& forall|i: int|
        0 <= i < a.len() ==> {
            &&& (#[trigger] b[i]).trust == a[i].trust
            &&& b[i].cpu_tenths == a[i].cpu_tenths
            &&& b[i].memory_bytes == a[i].memory_bytes
            &&& b[i].disk_bytes_per_second == a[i].disk_bytes_per_second
        }
}

proof fn lemma_pass_keeps_measures(
    before: Seq<EvidenceRow>,
    after: Seq<EvidenceRow>,
    metric: Metric,
    minimum: u64,
    flag: u16,
) -> (marks: Seq<bool>)
    requires
        leaderboard_pass(before, after, metric, minimum, flag),
    ensures
        same_measures(before, after),
        top_five_marks(before, metric, minimum, marks),
        flagged(before, after, marks, flag),
{
    choose|marks: Seq<bool>|
        top_five_marks(before, metric, minimum, marks) && flagged(before, after, marks, flag)
}

proof fn lemma_marks_same_measures(
    a: Seq<EvidenceRow>,
    b: Seq<EvidenceRow>,
    metric: Metric,
    minimum: u64,
    marks: Seq<bool>,
)
    requires
        same_measures(a, b),
        top_five_marks(b, metric, minimum, marks),
    ensures
        top_five_marks(a, metric, minimum, marks),
{
    assert forall|i: int| 0 <= i < a.len() implies metric_of(#[trigger] a[i], metric) == metric_of(
        b[i],
        metric,
    ) by {
        assert(b[i].cpu_tenths == a[i].cpu_tenths);
    }
    assert(eligible(a, metric, minimum) =~= eligible(b, metric, minimum));
}

/// The heavy leaderboards on rows that carry none of the heavy findings yet:
/// the rows keep their trust, measurements and other findings, and for each
/// of CPU, memory and disk the rows given that finding are a top-five pick
/// (`top_five_marks`): only rows at or above the minimum, five of them or
/// every eligible row if fewer, none measuring less than an eligible row
/// left out.
pub proof fn lemma_leaderboards(before: Seq<EvidenceRow>, after: Seq<EvidenceRow>)
    requires
        resource_passes(before, after),
        forall|i: int| 0 <= i < before.len() ==> !has_any(#[trigger] before[i].findings@, heavy_mask()),
    ensures
        same_measures(before, after),
        forall|i: int|
            0 <= i < before.len() ==> (#[trigger] after[i].findings@ & 0xFFC7) == before[i].findings@,
        top_five_marks(
            before,
            Metric::Cpu,
            CPU_HEAVY_TENTHS as u64,
            flag_marks(after, Findings::HEAVY_CPU),
        ),
        top_five_marks(
            before,
            Metric::Memory,
            MEMORY_HEAVY_BYTES,
            flag_marks(after, Findings::HEAVY_MEMORY),
        ),
        top_five_marks(before, Metric::Disk, DISK_HEAVY_BYTES, flag_marks(after, Findings::HEAVY_DISK)),
{
    let (first, second) = choose|first: Seq<EvidenceRow>, second: Seq<EvidenceRow>|
        {
            &&& leaderboard_pass(
                before,
                first,
                Metric::Cpu,
                CPU_HEAVY_TENTHS as u64,
                Findings::HEAVY_CPU,
            )
            &&& leaderboard_pass(
                first,
                second,
                Metric::Memory,
                MEMORY_HEAVY_BYTES,
                Findings::HEAVY_MEMORY,
            )
            &&& leaderboard_pass(second, after, Metric::Disk, DISK_HEAVY_BYTES, Findings::HEAVY_DISK)
        };
    let m1 = lemma_pass_keeps_measures(
        before,
        first,
        Metric::Cpu,
        CPU_HEAVY_TENTHS as u64,
        Findings::HEAVY_CPU,
    );
    let m2 = lemma_pass_keeps_measures(
        first,
        second,
        Metric::Memory,
        MEMORY_HEAVY_BYTES,
        Findings::HEAVY_MEMORY,
    );
    let m3 = lemma_pass_keeps_measures(
        second,
        after,
        Metric::Disk,
        DISK_HEAVY_BYTES,
        Findings::HEAVY_DISK,
    );
    assert(same_measures(before, second));
    assert(same_measures(before, after));
    lemma_marks_same_measures(before, first, Metric::Memory, MEMORY_HEAVY_BYTES, m2);
    lemma_marks_same_measures(before, second, Metric::Disk, DISK_HEAVY_BYTES, m3);
    assert forall|i: int| 0 <= i < before.len() implies {
        &&& (#[trigger] after[i].findings@ & 0xFFC7) == before[i].findings@
        &&& has_any(after[i].findings@, Findings::HEAVY_CPU) == m1[i]
        &&& has_any(after[i].findings@, Findings::HEAVY_MEMORY) == m2[i]
        &&& has_any(after[i].findings@, Findings::HEAVY_DISK) == m3[i]
    } by {
        let b = before[i].findings@;
        let x1 = first[i].findings@;
        let x2 = second[i].findings@;
        let x3 = after[i].findings@;
        let c1 = m1[i];
        let c2 = m2[i];
        let c3 = m3[i];
        assert(!has_any(b, heavy_mask()));
        assert(x1 == if c1 { b | 8 } else { b });
        assert(x2 == if c2 { x1 | 16 } else { x1 });
        assert(x3 == if c3 { x2 | 32 } else { x2 });
        assert({
            &&& (x3 & 0xFFC7) == b
            &&& (x3 & 8 != 0) == c1
            &&& (x3 & 16 != 0) == c2
            &&& (x3 & 32 != 0) == c3
        }) by (bit_vector)
            requires
                b & ((8u16 | 16u16) | 32u16) == 0,
                x1 == if c1 { b | 8 } else { b },
                x2 == if c2 { x1 | 16 } else { x1 },
                x3 == if c3 { x2 | 32 } else { x2 },
        ;
    }
    assert(flag_marks(after, Findings::HEAVY_CPU) =~= m1);
    assert(flag_marks(after, Findings::HEAVY_MEMORY) =~= m2);
    assert(flag_marks(after, Findings::HEAVY_DISK) =~= m3);
}

/// Marks the heavy CPU, memory and disk users: for each measurement, the (at
/// most five) highest rows that reach its minimum.
pub fn apply_resource_findings(rows: &mut Vec<EvidenceRow>)
    ensures
        resource_passes(old(rows)@, final(rows)@),
{
    mark_top_five(rows, Metric::Cpu, CPU_HEAVY_TENTHS as u64, Findings::HEAVY_CPU);
    let ghost first = rows@;
    mark_top_five(rows, Metric::Memory, MEMORY_HEAVY_BYTES, Findings::HEAVY_MEMORY);
    let ghost second = rows@;
    mark_top_five(rows, Metric::Disk, DISK_HEAVY_BYTES, Findings::HEAVY_DISK);
}

// ---------------------------------------------------------------------------
// Peer outliers
// ---------------------------------------------------------------------------

/// Ascending order on measurements.
pub open spec fn ascending() -> spec_fn(u64, u64) -> bool {
    |a: u64, b: u64| a <= b
}

proof fn lemma_ascending_total()
    ensures
        total_ordering(ascending()),
{
}

/// The median: the element at index `len / 2` of the values sorted ascending
/// (the upper median for an even count).
pub open spec fn median_of(values: Seq<u64>) -> u64 {
    values.sort_by(ascending())[(values.len() / 2) as int]
}

/// `u64::abs_diff`.
pub open spec fn abs_diff(a: u64, b: u64) -> u64 {
    if a >= b {
        (a - b) as u64
    } else {
        (b - a) as u64
    }
}

/// `u64::saturating_add`.
pub open spec fn saturating_add(a: u64, b: u64) -> u64 {
    if a + b > u64::MAX {
        u64::MAX
    } else {
        (a + b) as u64
    }
}

/// `u64::saturating_mul`.
pub open spec fn saturating_mul(a: u64, b: u64) -> u64 {
    if a * b > u64::MAX {
        u64::MAX
    } else {
        (a * b) as u64
    }
}

/// Median plus the larger of four median absolute deviations and
/// `floor_delta`, saturating.
pub open spec fn robust_limit_of(values: Seq<u64>, floor_delta: u64) -> u64 {
    let midpoint = median_of(values);
    let deviations = values.map_values(|v: u64| abs_diff(v, midpoint));
    let spread = saturating_mul(median_of(deviations), 4);
    saturating_add(
        midpoint,
        if spread >= floor_delta {
            spread
        } else {
            floor_delta
        },
    )
}

/// The CPU measurements of a peer group.
pub open spec fn cpu_values(group: Seq<(usize, u32, u64)>) -> Seq<u64> {
    group.map_values(|s: (usize, u32, u64)| s.1 as u64)
}

/// The memory measurements of a peer group.
pub open spec fn memory_values(group: Seq<(usize, u32, u64)>) -> Seq<u64> {
    group.map_values(|s: (usize, u32, u64)| s.2)
}

/// Whether sample `k` of a group uses more than its peers' robust limit of
/// CPU or of memory.
pub open spec fn is_peer_outlier(group: Seq<(usize, u32, u64)>, k: int) -> bool {
    ||| group[k].1 as u64 > robust_limit_of(cpu_values(group), 30)
    ||| group[k].2 > robust_limit_of(memory_values(group), MEMORY_HEAVY_BYTES)
}

/// Whether a group of at least three peers reports row `index` as an
/// outlier.
pub open spec fn group_flags(group: Seq<(usize, u32, u64)>, index: usize) -> bool {
    &&& group.len() >= 3
    &&& exists|k: int| 0 <= k < group.len() && group[k].0 == index && is_peer_outlier(group, k)
}

/// Row indices that some peer group reports as an outlier.
pub open spec fn outliers_of(groups: Set<Seq<(usize, u32, u64)>>) -> Set<usize> {
    Set::new(|index: usize| exists|g: Seq<(usize, u32, u64)>| groups.contains(g) && group_flags(g, index))
}

/// The groups of a sample map, as plain sequences.
pub open spec fn group_views<K>(samples: Map<K, Vec<(usize, u32, u64)>>) -> Set<Seq<(usize, u32, u64)>> {
    samples.values().map(|g: Vec<(usize, u32, u64)>| g@)
}

/// The values sorted ascending.
pub fn sorted_copy(values: &Vec<u64>) -> (r: Vec<u64>)
    ensures
        r@ == values@.sort_by(ascending()),
{
    broadcast use vstd::seq_lib::group_to_multiset_ensures;

    let mut out: Vec<u64> = Vec::new();
    let mut i: usize = 0;
    while i < values.len()
        invariant
            i <= values.len(),
            sorted_by(out@, ascending()),
            out@.to_multiset() == values@.take(i as int).to_multiset(),
        decreases values.len() - i,
    {
        let x = values[i];
        let mut p: usize = 0;
        while p < out.len() && out[p] <= x
            invariant
                p <= out.len(),
                forall|j: int| 0 <= j < p ==> out@[j] <= x,
            decreases out.len() - p,
        {
            p = p + 1;
        }
        let ghost before = out@;
        proof {
            assert forall|j: int| p <= j < before.len() implies x < #[trigger] before[j] by {
                assert(ascending()(before[p as int], before[j]) || j == p);
            }
        }
        out.insert(p, x);
        proof {
            assert(out@ == before.insert(p as int, x));
            assert forall|a: int, b: int| 0 <= a < b < out@.len() implies #[trigger] ascending()(
                out@[a],
                out@[b],
            ) by {
                if b < p {
                    assert(ascending()(before[a], before[b]));
                } else if b == p {
                } else if a < p {
                    assert(out@[b] == before[b - 1]);
                } else if a == p {
                    assert(out@[b] == before[b - 1]);
                } else {
                    assert(ascending()(before[a - 1], before[b - 1]));
                }
            }
            assert(values@.take(i + 1) =~= values@.take(i as int).push(x));
            vstd::seq_lib::to_multiset_insert(before, p as int, x);
            vstd::seq_lib::to_multiset_build(values@.take(i as int), x);
        }
        i = i + 1;
    }
    proof {
        assert(values@.take(values.len() as int) =~= values@);
        lemma_ascending_total();
        values@.lemma_sort_by_ensures(ascending());
        vstd::seq_lib::lemma_sorted_unique(out@, values@.sort_by(ascending()), ascending());
    }
    out
}

/// The upper median of a non-empty list.
pub fn median(values: &Vec<u64>) -> (r: u64)
    requires
        values.len() > 0,
    ensures
        r == median_of(values@),
{
    let sorted = sorted_copy(values);
    proof {
        lemma_ascending_total();
        values@.lemma_sort_by_ensures(ascending());
        vstd::seq_lib::to_multiset_len(values@);
        vstd::seq_lib::to_multiset_len(values@.sort_by(ascending()));
    }
    sorted[sorted.len() / 2]
}

/// Median plus the larger of four median absolute deviations and
/// `floor_delta`, saturating.
pub fn robust_limit(values: &Vec<u64>, floor_delta: u64) -> (r: u64)
    requires
        values.len() > 0,
    ensures
        r == robust_limit_of(values@, floor_delta),
{
    let midpoint = median(values);
    let mut deviations: Vec<u64> = Vec::new();
    let mut i: usize = 0;
    while i < values.len()
        invariant
            i <= values.len(),
            deviations@ == values@.take(i as int).map_values(|v: u64| abs_diff(v, midpoint)),
        decreases values.len() - i,
    {
        let v = values[i];
        let d = if v >= midpoint {
            v - midpoint
        } else {
            midpoint - v
        };
        deviations.push(d);
        i = i + 1;
        assert(deviations@ =~= values@.take(i as int).map_values(
            |v: u64| abs_diff(v, midpoint),
        ));
    }
    assert(values@.take(values.len() as int) =~= values@);
    let deviation = median(&deviations);
    let spread = if deviation > u64::MAX / 4 {
        u64::MAX
    } else {
        deviation * 4
    };
    let widened = if spread >= floor_delta {
        spread
    } else {
        floor_delta
    };
    midpoint.saturating_add(widened)
}

/// Indices of the samples in `group` that are outliers among their peers,
/// when the group has at least three members.
fn group_outliers(group: &Vec<(usize, u32, u64)>, found: &mut HashSet<usize>)
    ensures
        final(found)@ == old(found)@.union(Set::new(|index: usize| group_flags(group@, index))),
{
    broadcast use vstd::std_specs::hash::group_hash_axioms;

    if group.len() < 3 {
        assert(Set::new(|index: usize| group_flags(group@, index)) =~= Set::empty());
        assert(old(found)@.union(Set::empty()) =~= old(found)@);
        return ;
    }
    let mut cpu: Vec<u64> = Vec::new();
    let mut memory: Vec<u64> = Vec::new();
    let mut i: usize = 0;
    while i < group.len()
        invariant
            i <= group.len(),
            cpu@ == cpu_values(group@.take(i as int)),
            memory@ == memory_values(group@.take(i as int)),
        decreases group.len() - i,
    {
        cpu.push(group[i].1 as u64);
        memory.push(group[i].2);
        i = i + 1;
        assert(cpu@ =~= cpu_values(group@.take(i as int)));
        assert(memory@ =~= memory_values(group@.take(i as int)));
    }
    assert(group@.take(group.len() as int) =~= group@);
    let cpu_limit = robust_limit(&cpu, 30);
    let memory_limit = robust_limit(&memory, MEMORY_HEAVY_BYTES);
    let ghost start = found@;
    let mut k: usize = 0;
    while k < group.len()
        invariant
            k <= group.len(),
            group.len() >= 3,
            cpu_limit == robust_limit_of(cpu_values(group@), 30),
            memory_limit == robust_limit_of(memory_values(group@), MEMORY_HEAVY_BYTES),
            found@ == start.union(
                Set::new(
                    |index: usize|
                        exists|q: int|
                            0 <= q < k && group@[q].0 == index && is_peer_outlier(group@, q),
                ),
            ),
        decreases group.len() - k,
    {
        let (index, c, m) = group[k];
        let ghost prev = found@;
        let ghost kk = k as int;
        let flagged_now = c as u64 > cpu_limit || m > memory_limit;
        assert(flagged_now == is_peer_outlier(group@, kk));
        if flagged_now {
            found.insert(index);
        }
        k = k + 1;
        assert forall|x: usize|
            #![trigger found@.contains(x)]
            found@.contains(x) == (start.contains(x) || exists|q: int|
                0 <= q < k && group@[q].0 == x && is_peer_outlier(group@, q)) by {
            if exists|q: int| 0 <= q < k && group@[q].0 == x && is_peer_outlier(group@, q) {
                let q = choose|q: int| 0 <= q < k && group@[q].0 == x && is_peer_outlier(group@, q);
                if q < kk {
                    assert(prev.contains(x));
                }
            }
            if prev.contains(x) && !start.contains(x) {
                let q = choose|q: int| 0 <= q < kk && group@[q].0 == x && is_peer_outlier(group@, q);
                assert(0 <= q < k);
            }
        }
        assert(found@ =~= start.union(
            Set::new(
                |index: usize|
                    exists|q: int| 0 <= q < k && group@[q].0 == index && is_peer_outlier(group@, q),
            ),
        ));
    }
    assert(Set::new(
        |index: usize|
            exists|q: int|
                0 <= q < group.len() && group@[q].0 == index && is_peer_outlier(group@, q),
    ) =~= Set::new(|index: usize| group_flags(group@, index)));
}

/// Processes using more CPU or memory than their exact-path peers: within
/// every group of at least three peers, a sample above the group's robust
/// limit (median plus four median absolute deviations, with a floor) is an
/// outlier. Samples are `(row index, CPU tenths, memory bytes)`.
pub fn peer_outliers<K>(samples: &HashMap<K, Vec<(usize, u32, u64)>>) -> (r: HashSet<usize>)
    requires
        vstd::std_specs::hash::obeys_key_model::<K>(),
    ensures
        r@ == outliers_of(group_views(samples@)),
{
    broadcast use vstd::std_specs::hash::group_hash_axioms;

    let mut outliers: HashSet<usize> = HashSet::new();
    let groups = samples.values();
    let ghost all = IteratorSpec::remaining(&groups);
    for group in it: groups
        invariant
            it.seq() == all,
            all.unref().to_set() == samples@.values(),
            forall|index: usize|
                #[trigger] outliers@.contains(index) == exists|gi: int|
                    0 <= gi < it.index() && group_flags(it.seq()[gi]@, index),
    {
        group_outliers(group, &mut outliers);
    }
    assert forall|index: usize| outliers@.contains(index) == outliers_of(group_views(samples@)).contains(index) by {
        if outliers@.contains(index) {
            let gi = choose|gi: int| 0 <= gi < all.len() && group_flags(all[gi]@, index);
            assert(all.unref()[gi] == *all[gi]);
            assert(all.unref().to_set().contains(*all[gi]));
        }
        if outliers_of(group_views(samples@)).contains(index) {
            let g = choose|g: Seq<(usize, u32, u64)>| group_views(samples@).contains(g) && group_flags(g, index);
            let v = choose|v: Vec<(usize, u32, u64)>| samples@.values().contains(v) && v@ == g;
            assert(all.unref().to_set().contains(v));
            let gi = choose|gi: int| 0 <= gi < all.len() && all.unref()[gi] == v;
            assert(all.unref()[gi] == *all[gi]);
            assert(group_flags(all[gi]@, index));
        }
    }
    assert(outliers@ =~= outliers_of(group_views(samples@)));
    outliers
}

} // verus!
