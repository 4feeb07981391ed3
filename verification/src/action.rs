//! The three things this tool can do to a process, the checks that come
//! before any of them, and which processes a tree action reaches.
//!
//! Every action re-verifies the creation time, so a recycled process id cannot
//! be hit by a click aimed at the process that used to hold it.

use crate::model::TrustState;
use crate::process::{ProcKey, ProcessRow};
use std::collections::HashMap;
use vstd::prelude::*;

verus! {

/// What can be done to a process.
#[derive(Clone, Copy, Debug, PartialEq, Eq, Structural)]
pub enum Action {
    Terminate,
    Suspend,
    Resume,
}

/// The refusal for the system idle process, the kernel and this tool itself.
pub open spec fn protected_message() -> Seq<char> {
    "This protected process cannot be controlled by ProcDrift."@
}

/// Whether a process id may never be acted on: the idle process (0), the
/// kernel (4), and this tool itself.
pub open spec fn is_protected_pid(pid: u32, own_pid: u32) -> bool {
    pid == 0 || pid == 4 || pid == own_pid
}

/// The first check of every action, made before the process is opened.
pub fn check_target(expected: ProcKey, own_pid: u32) -> (r: Result<(), String>)
    ensures
        is_protected_pid(expected.pid, own_pid) ==> (r matches Err(e) && e@
            == protected_message()),
        !is_protected_pid(expected.pid, own_pid) ==> r is Ok,
{
    if expected.pid == 0 || expected.pid == 4 || expected.pid == own_pid {
        return Err("This protected process cannot be controlled by ProcDrift.".to_owned());
    }
    Ok(())
}

/// The check made once the process is open: it must still be the process
/// that was listed, by creation time. An unknown creation time never
/// matches.
pub fn check_identity(expected: ProcKey, current_created: Option<u64>) -> (r: Result<(), String>)
    ensures
        (expected.created != 0 && current_created == Some(expected.created)) ==> r is Ok,
        !(expected.created != 0 && current_created == Some(expected.created)) ==> (r matches Err(
            e,
        ) && e@ == "Process identity changed; refresh and retry."@),
{
    let same = match current_created {
        Some(created) => expected.created != 0 && created == expected.created,
        None => false,
    };
    if same {
        Ok(())
    } else {
        Err("Process identity changed; refresh and retry.".to_owned())
    }
}

/// The check made once the process is open and its identity confirmed: a
/// process that Windows reports as critical (the query succeeded and the
/// flag is set) is never acted on.
pub fn check_critical(queried: bool, critical: i32) -> (r: Result<(), String>)
    ensures
        (queried && critical != 0) ==> (r matches Err(e) && e@
            == "Windows reports this as a critical process; action blocked."@),
        !(queried && critical != 0) ==> r is Ok,
{
    if queried && critical != 0 {
        Err("Windows reports this as a critical process; action blocked.".to_owned())
    } else {
        Ok(())
    }
}

/// Why the window refuses to act on a row before asking anything, if it
/// does: this tool itself, a kernel pseudo-process, or a protected process.
pub open spec fn refusal_for(pid: u32, own_pid: u32, trust: TrustState) -> Option<Seq<char>> {
    if pid == own_pid {
        Some("Refusing to act on ProcDrift itself."@)
    } else if pid == 0 || pid == 4 {
        Some(
            "Refusing to act on a kernel pseudo-process. Ending it would stop the machine."@,
        )
    } else if trust == TrustState::Protected {
        Some(
            "Refusing to act on a protected system process. Ending it would stop the machine."@,
        )
    } else {
        None
    }
}

/// Why the window refuses to act on a row (see `refusal_for`).
pub fn action_refusal(pid: u32, own_pid: u32, trust: TrustState) -> (r: Option<&'static str>)
    ensures
        match r {
            Some(m) => refusal_for(pid, own_pid, trust) == Some(m@),
            None => refusal_for(pid, own_pid, trust) is None,
        },
{
    if pid == own_pid {
        Some("Refusing to act on ProcDrift itself.")
    } else if pid == 0 || pid == 4 {
        Some("Refusing to act on a kernel pseudo-process. Ending it would stop the machine.")
    } else if trust == TrustState::Protected {
        Some("Refusing to act on a protected system process. Ending it would stop the machine.")
    } else {
        None
    }
}

// ---------------------------------------------------------------------------
// The captured process tree
// ---------------------------------------------------------------------------

/// The members found so far (process id to creation time) and the keys in
/// the order they were found.
pub type TreeView = (Map<u32, u64>, Seq<ProcKey>);

/// Whether a row joins the tree: not the excluded process, not already a
/// member, and a child of a member that started no later than it.
pub open spec fn joins(row: ProcessRow, excluded_pid: u32, members: Map<u32, u64>) -> bool {
    &&& row.key.pid != excluded_pid
    &&& !members.dom().contains(row.key.pid)
    &&& members.dom().contains(row.ppid)
    &&& row.key.created >= members[row.ppid]
}

/// One pass over the rows in order, each joining row added at once (so a
/// later row can join under it in the same pass).
pub open spec fn tree_pass(rows: Seq<ProcessRow>, excluded_pid: u32, s: TreeView) -> TreeView
    decreases rows.len(),
{
    if rows.len() == 0 {
        s
    } else {
        let t = tree_pass(rows.drop_last(), excluded_pid, s);
        let row = rows.last();
        if joins(row, excluded_pid, t.0) {
            (t.0.insert(row.key.pid, row.key.created), t.1.push(row.key))
        } else {
            t
        }
    }
}

/// The tree after `k` passes, starting from the root alone.
pub open spec fn tree_after(rows: Seq<ProcessRow>, root: ProcKey, excluded_pid: u32, k: nat) -> TreeView
    decreases k,
{
    if k == 0 {
        (map![root.pid => root.created], seq![root])
    } else {
        tree_pass(rows, excluded_pid, tree_after(rows, root, excluded_pid, (k - 1) as nat))
    }
}

/// Number of rows whose process id is not among `pids`.
pub open spec fn outside_count(rows: Seq<ProcessRow>, pids: Set<u32>) -> nat
    decreases rows.len(),
{
    if rows.len() == 0 {
        0
    } else {
        outside_count(rows.drop_last(), pids) + if pids.contains(rows.last().key.pid) {
            0nat
        } else {
            1nat
        }
    }
}

proof fn lemma_outside_count_shrinks(rows: Seq<ProcessRow>, a: Set<u32>, b: Set<u32>, j: int)
    requires
        a.subset_of(b),
        0 <= j < rows.len(),
        !a.contains(rows[j].key.pid),
        b.contains(rows[j].key.pid),
    ensures
        outside_count(rows, b) < outside_count(rows, a),
    decreases rows.len(),
{
    lemma_outside_count_monotone(rows.drop_last(), a, b);
    if j < rows.len() - 1 {
        lemma_outside_count_shrinks(rows.drop_last(), a, b, j);
    }
}

proof fn lemma_outside_count_monotone(rows: Seq<ProcessRow>, a: Set<u32>, b: Set<u32>)
    requires
        a.subset_of(b),
    ensures
        outside_count(rows, b) <= outside_count(rows, a),
    decreases rows.len(),
{
    if rows.len() > 0 {
        lemma_outside_count_monotone(rows.drop_last(), a, b);
    }
}

/// A pass only adds: members stay members and found keys stay in place.
proof fn lemma_pass_grows(rows: Seq<ProcessRow>, excluded_pid: u32, s: TreeView)
    ensures
        s.0.dom().subset_of(tree_pass(rows, excluded_pid, s).0.dom()),
        s.1.len() <= tree_pass(rows, excluded_pid, s).1.len(),
        tree_pass(rows, excluded_pid, s).1.len() == s.1.len() ==> tree_pass(rows, excluded_pid, s)
            == s,
    decreases rows.len(),
{
    if rows.len() > 0 {
        lemma_pass_grows(rows.drop_last(), excluded_pid, s);
    }
}

/// A pass that adds something adds the process id of some row that was not
/// a member.
proof fn lemma_pass_adds_row(rows: Seq<ProcessRow>, excluded_pid: u32, s: TreeView)
    requires
        tree_pass(rows, excluded_pid, s).1.len() > s.1.len(),
    ensures
        exists|j: int|
            0 <= j < rows.len() && !s.0.dom().contains(rows[j].key.pid) && tree_pass(
                rows,
                excluded_pid,
                s,
            ).0.dom().contains(rows[j].key.pid),
    decreases rows.len(),
{
    let t = tree_pass(rows.drop_last(), excluded_pid, s);
    lemma_pass_grows(rows.drop_last(), excluded_pid, s);
    if t.1.len() > s.1.len() {
        lemma_pass_adds_row(rows.drop_last(), excluded_pid, s);
        let j = choose|j: int|
            0 <= j < rows.drop_last().len() && !s.0.dom().contains(rows.drop_last()[j].key.pid)
                && t.0.dom().contains(rows.drop_last()[j].key.pid);
        assert(rows[j] == rows.drop_last()[j]);
    } else {
        assert(joins(rows.last(), excluded_pid, t.0));
        assert(t == s);
        assert(rows[rows.len() - 1] == rows.last());
    }
}

/// The processes an "end tree" action reaches: the root, then every listed
/// process whose parent is already in the tree and started no later than it
/// (so a recycled parent id does not adopt an older process), found in passes
/// over the rows until a pass finds nothing new. The excluded process (this
/// tool) is never included. Keys come in the order they were found, so
/// parents precede their children.
pub fn captured_process_tree(rows: &[ProcessRow], root: ProcKey, excluded_pid: u32) -> (r: Vec<
    ProcKey,
>)
    ensures
        exists|k: nat|
            {
                &&& r@ == (#[trigger] tree_after(rows@, root, excluded_pid, k)).1
                &&& tree_after(rows@, root, excluded_pid, k + 1) == tree_after(
                    rows@,
                    root,
                    excluded_pid,
                    k,
                )
                &&& forall|j: nat|
                    j < k ==> (#[trigger] tree_after(rows@, root, excluded_pid, j + 1)).1.len()
                        > tree_after(rows@, root, excluded_pid, j).1.len()
            },
{
    broadcast use vstd::std_specs::hash::group_hash_axioms;

    let mut members: HashMap<u32, u64> = HashMap::new();
    let mut targets: Vec<ProcKey> = Vec::new();
    members.insert(root.pid, root.created);
    targets.push(root);
    let ghost mut k: nat = 0;
    proof {
        assert(members@ =~= map![root.pid => root.created]);
        assert(targets@ =~= seq![root]);
    }
    loop
        invariant
            (members@, targets@) == tree_after(rows@, root, excluded_pid, k),
            forall|j: nat|
                j < k ==> (#[trigger] tree_after(rows@, root, excluded_pid, j + 1)).1.len()
                    > tree_after(rows@, root, excluded_pid, j).1.len(),
        decreases outside_count(rows@, members@.dom()),
    {
        let ghost start: TreeView = (members@, targets@);
        let before = targets.len();
        let mut i: usize = 0;
        while i < rows.len()
            invariant
                i <= rows.len(),
                start == tree_after(rows@, root, excluded_pid, k),
                (members@, targets@) == tree_pass(rows@.take(i as int), excluded_pid, start),
            decreases rows.len() - i,
        {
            let row = &rows[i];
            proof {
                assert(rows@.take(i + 1).drop_last() =~= rows@.take(i as int));
                assert(rows@.take(i + 1).last() == rows@[i as int]);
            }
            if row.key.pid != excluded_pid && !members.contains_key(&row.key.pid) {
                let joined = match members.get(&row.ppid) {
                    Some(parent_created) => row.key.created >= *parent_created,
                    None => false,
                };
                if joined {
                    members.insert(row.key.pid, row.key.created);
                    targets.push(row.key);
                }
            }
            i = i + 1;
        }
        proof {
            assert(rows@.take(rows.len() as int) =~= rows@);
            lemma_pass_grows(rows@, excluded_pid, start);
        }
        if targets.len() == before {
            proof {
                assert(tree_after(rows@, root, excluded_pid, k + 1) == tree_after(
                    rows@,
                    root,
                    excluded_pid,
                    k,
                ));
            }
            return targets;
        }
        proof {
            lemma_pass_adds_row(rows@, excluded_pid, start);
            let j = choose|j: int|
                0 <= j < rows@.len() && !start.0.dom().contains(rows@[j].key.pid)
                    && members@.dom().contains(rows@[j].key.pid);
            lemma_outside_count_shrinks(rows@, start.0.dom(), members@.dom(), j);
            k = k + 1;
            assert forall|j: nat| j < k implies (#[trigger] tree_after(
                rows@,
                root,
                excluded_pid,
                j + 1,
            )).1.len() > tree_after(rows@, root, excluded_pid, j).1.len() by {}
        }
    }
}

// ---------------------------------------------------------------------------
// Laws
// ---------------------------------------------------------------------------

/// The shape every captured tree has: it starts at the root; no process id
/// occurs twice; every later key is a listed process other than the
/// excluded one, whose parent is an earlier key that started no later than
/// it.
pub open spec fn captured_shape(rows: Seq<ProcessRow>, root: ProcKey, excluded_pid: u32, t: Seq<
    ProcKey,
>) -> bool {
    &&& t.len() >= 1
    &&& t[0] == root
    &&& forall|a: int, b: int| 0 <= a < b < t.len() ==> (#[trigger] t[a]).pid != (#[trigger] t[b]).pid
    &&& forall|i: int|
        1 <= i < t.len() ==> {
            &&& (#[trigger] t[i]).pid != excluded_pid
            &&& exists|j: int, p: int|
                0 <= j < rows.len() && rows[j].key == t[i] && 0 <= p < i && t[p].pid
                    == rows[j].ppid && t[i].created >= t[p].created
        }
}

/// The members map agrees with the found keys.
spec fn members_agree(s: TreeView) -> bool {
    &&& forall|i: int|
        0 <= i < s.1.len() ==> s.0.dom().contains((#[trigger] s.1[i]).pid) && s.0[s.1[i].pid]
            == s.1[i].created
    &&& forall|pid: u32| #[trigger] s.0.dom().contains(pid) ==> exists|i: int| 0 <= i < s.1.len() && s.1[i].pid == pid
}

proof fn lemma_pass_keeps_shape(
    rows: Seq<ProcessRow>,
    all_rows: Seq<ProcessRow>,
    root: ProcKey,
    excluded_pid: u32,
    s: TreeView,
)
    requires
        captured_shape(all_rows, root, excluded_pid, s.1),
        members_agree(s),
        rows.len() <= all_rows.len(),
        forall|j: int| 0 <= j < rows.len() ==> rows[j] == all_rows[j],
    ensures
        captured_shape(all_rows, root, excluded_pid, tree_pass(rows, excluded_pid, s).1),
        members_agree(tree_pass(rows, excluded_pid, s)),
    decreases rows.len(),
{
    if rows.len() > 0 {
        let t = tree_pass(rows.drop_last(), excluded_pid, s);
        lemma_pass_keeps_shape(rows.drop_last(), all_rows, root, excluded_pid, s);
        let row = rows.last();
        if joins(row, excluded_pid, t.0) {
            let m2 = t.0.insert(row.key.pid, row.key.created);
            let t2 = t.1.push(row.key);
            let n = t.1.len() as int;
            let p = choose|p: int| 0 <= p < t.1.len() && t.1[p].pid == row.ppid;
            assert(t.0[row.ppid] == t.1[p].created);
            assert(all_rows[rows.len() - 1] == row);
            assert forall|a: int, b: int| 0 <= a < b < t2.len() implies (#[trigger] t2[a]).pid
                != (#[trigger] t2[b]).pid by {
                if b == n {
                    assert(t.0.dom().contains(t.1[a].pid));
                } else {
                    assert(t2[a] == t.1[a] && t2[b] == t.1[b]);
                }
            }
            assert forall|i: int| 1 <= i < t2.len() implies {
                &&& (#[trigger] t2[i]).pid != excluded_pid
                &&& exists|j: int, q: int|
                    0 <= j < all_rows.len() && all_rows[j].key == t2[i] && 0 <= q < i && t2[q].pid
                        == all_rows[j].ppid && t2[i].created >= t2[q].created
            } by {
                if i == n {
                    let j = rows.len() - 1;
                    assert(all_rows[j].key == t2[i] && 0 <= p < i && t2[p].pid == all_rows[j].ppid
                        && t2[i].created >= t2[p].created);
                } else {
                    assert(t2[i] == t.1[i]);
                    let (j, q) = choose|j: int, q: int|
                        0 <= j < all_rows.len() && all_rows[j].key == t.1[i] && 0 <= q < i
                            && t.1[q].pid == all_rows[j].ppid && t.1[i].created >= t.1[q].created;
                    assert(t2[q] == t.1[q]);
                }
            }
            assert forall|i: int| 0 <= i < t2.len() implies m2.dom().contains(
                (#[trigger] t2[i]).pid,
            ) && m2[t2[i].pid] == t2[i].created by {
                if i < n {
                    assert(t2[i] == t.1[i]);
                    assert(t.0.dom().contains(t.1[i].pid));
                }
            }
            assert forall|pid: u32| #[trigger] m2.dom().contains(pid) implies exists|i: int|
                0 <= i < t2.len() && t2[i].pid == pid by {
                if pid == row.key.pid {
                    assert(t2[n].pid == pid);
                } else {
                    let i = choose|i: int| 0 <= i < t.1.len() && t.1[i].pid == pid;
                    assert(t2[i].pid == pid);
                }
            }
            let out: TreeView = (m2, t2);
            assert(tree_pass(rows, excluded_pid, s) == out);
            assert(t2[0] == t.1[0]);
            assert(captured_shape(all_rows, root, excluded_pid, t2));
            assert forall|i: int| 0 <= i < out.1.len() implies out.0.dom().contains(
                (#[trigger] out.1[i]).pid,
            ) && out.0[out.1[i].pid] == out.1[i].created by {
                assert(out.1[i] == t2[i]);
                assert(m2.dom().contains(t2[i].pid) && m2[t2[i].pid] == t2[i].created);
            }
            assert forall|pid: u32| #[trigger] out.0.dom().contains(pid) implies exists|i: int|
                0 <= i < out.1.len() && out.1[i].pid == pid by {
                assert(m2.dom().contains(pid));
                let i = choose|i: int| 0 <= i < t2.len() && t2[i].pid == pid;
                assert(out.1[i].pid == pid);
            }
            assert(members_agree(out));
        } else {
            assert(tree_pass(rows, excluded_pid, s) == t);
        }
    }
}

proof fn lemma_tree_after_shape(rows: Seq<ProcessRow>, root: ProcKey, excluded_pid: u32, k: nat)
    ensures
        captured_shape(rows, root, excluded_pid, tree_after(rows, root, excluded_pid, k).1),
        members_agree(tree_after(rows, root, excluded_pid, k)),
    decreases k,
{
    if k == 0 {
        let s = tree_after(rows, root, excluded_pid, 0);
        assert(s.1[0] == root);
        assert forall|pid: u32| #[trigger] s.0.dom().contains(pid) implies exists|i: int|
            0 <= i < s.1.len() && s.1[i].pid == pid by {
            assert(s.1[0].pid == pid);
        }
    } else {
        lemma_tree_after_shape(rows, root, excluded_pid, (k - 1) as nat);
        lemma_pass_keeps_shape(
            rows,
            rows,
            root,
            excluded_pid,
            tree_after(rows, root, excluded_pid, (k - 1) as nat),
        );
    }
}

/// Every tree the passes build has the captured shape: it is transitive
/// through listed parent links, never holds a process id twice, never
/// adopts a process older than its parent (a recycled id), and never holds
/// the excluded process below the root.
pub proof fn lemma_captured_tree_shape(
    rows: Seq<ProcessRow>,
    root: ProcKey,
    excluded_pid: u32,
    k: nat,
)
    ensures
        captured_shape(rows, root, excluded_pid, tree_after(rows, root, excluded_pid, k).1),
{
    lemma_tree_after_shape(rows, root, excluded_pid, k);
}

/// The tree is closed under the parent links it follows: every listed
/// process other than the excluded one whose parent is a member that started
/// no later than it is itself a member.
pub open spec fn closed_tree(rows: Seq<ProcessRow>, excluded_pid: u32, t: Seq<ProcKey>) -> bool {
    forall|j: int, m: int|
        0 <= j < rows.len() && 0 <= m < t.len() && rows[j].key.pid != excluded_pid
            && #[trigger] rows[j].ppid == #[trigger] t[m].pid && rows[j].key.created >= t[m].created
            ==> exists|i: int| 0 <= i < t.len() && t[i].pid == rows[j].key.pid
}

proof fn lemma_unchanged_pass_joins_nothing(rows: Seq<ProcessRow>, excluded_pid: u32, s: TreeView)
    requires
        tree_pass(rows, excluded_pid, s).1.len() == s.1.len(),
    ensures
        forall|j: int| 0 <= j < rows.len() ==> !joins(#[trigger] rows[j], excluded_pid, s.0),
    decreases rows.len(),
{
    if rows.len() > 0 {
        let front = rows.drop_last();
        lemma_pass_grows(front, excluded_pid, s);
        let t = tree_pass(front, excluded_pid, s);
        if joins(rows.last(), excluded_pid, t.0) {
            assert(tree_pass(rows, excluded_pid, s).1.len() == t.1.len() + 1);
        }
        assert(t == s);
        lemma_unchanged_pass_joins_nothing(front, excluded_pid, s);
        assert forall|j: int| 0 <= j < rows.len() implies !joins(
            #[trigger] rows[j],
            excluded_pid,
            s.0,
        ) by {
            if j < front.len() {
                assert(rows[j] == front[j]);
            } else {
                assert(rows[j] == rows.last());
            }
        }
    }
}

/// Once a pass finds nothing new, the tree is closed: no listed process
/// outside it (other than the excluded one) has a member as its parent with
/// a creation time no earlier than that member's. With the shape law this
/// makes the captured tree exactly the root and its descendants.
pub proof fn lemma_captured_tree_closed(
    rows: Seq<ProcessRow>,
    root: ProcKey,
    excluded_pid: u32,
    k: nat,
)
    requires
        tree_after(rows, root, excluded_pid, k + 1) == tree_after(rows, root, excluded_pid, k),
    ensures
        closed_tree(rows, excluded_pid, tree_after(rows, root, excluded_pid, k).1),
{
    let s = tree_after(rows, root, excluded_pid, k);
    lemma_tree_after_shape(rows, root, excluded_pid, k);
    assert(tree_pass(rows, excluded_pid, s) == tree_after(rows, root, excluded_pid, k + 1));
    lemma_unchanged_pass_joins_nothing(rows, excluded_pid, s);
    assert forall|j: int, m: int|
        0 <= j < rows.len() && 0 <= m < s.1.len() && rows[j].key.pid != excluded_pid
            && #[trigger] rows[j].ppid == #[trigger] s.1[m].pid && rows[j].key.created
            >= s.1[m].created implies exists|i: int|
        0 <= i < s.1.len() && s.1[i].pid == rows[j].key.pid by {
        assert(!joins(rows[j], excluded_pid, s.0));
        assert(s.0.dom().contains(s.1[m].pid) && s.0[s.1[m].pid] == s.1[m].created);
        assert(s.0.dom().contains(rows[j].key.pid));
    }
}

} // verus!
