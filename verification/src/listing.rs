//! What the process list shows: which rows, in which order, and which cells
//! of a row already on screen need repainting.

use crate::model::{has_any, shown_under, EvidenceRow, Filter, Findings, TrustState};
use crate::process::{
    copy_row, lemma_lex_order_total,
    lex_order, lowered_bytes, lowered_order, rank_of, risk_rank, row_matches_search,
    search_shows, ProcKey, ProcessRow,
};
use crate::text::{
    chars_of, parse_u32, parse_u32_chars, same_text, string_from_chars, trim_both, trimmed, Trim,
};
use vstd::utf8::encode_utf8;
use vstd::prelude::*;

verus! {

/// Whether the cells that change only when a row's identity or findings
/// change (first column, name, process id, path) differ between two rows.
pub open spec fn static_changed(old: ProcessRow, new: ProcessRow) -> bool {
    ||| old.trust != new.trust
    ||| old.findings@ != new.findings@
    ||| old.name@ != new.name@
    ||| old.key.pid != new.key.pid
    ||| old.path@ != new.path@
}

/// Whether the measurement cells (CPU, memory, disk rate) differ between two
/// rows.
pub open spec fn dynamic_changed(old: ProcessRow, new: ProcessRow) -> bool {
    ||| old.cpu_tenths != new.cpu_tenths
    ||| old.memory_bytes != new.memory_bytes
    ||| old.io_per_second != new.io_per_second
}

/// Whether the first column, name, process id or path of a row on screen
/// needs repainting.
pub fn static_cells_changed(old: &ProcessRow, new: &ProcessRow) -> (r: bool)
    ensures
        r == static_changed(*old, *new),
{
    old.trust != new.trust || old.findings.bits() != new.findings.bits() || !same_text(
        old.name.as_str(),
        new.name.as_str(),
    ) || old.key.pid != new.key.pid || !same_text(old.path.as_str(), new.path.as_str())
}

/// Whether the CPU, memory or disk cell of a row on screen needs repainting.
pub fn dynamic_cells_changed(old: &ProcessRow, new: &ProcessRow) -> (r: bool)
    ensures
        r == dynamic_changed(*old, *new),
{
    old.cpu_tenths != new.cpu_tenths || old.memory_bytes != new.memory_bytes || old.io_per_second
        != new.io_per_second
}

/// Whether the rows on screen and the rows to show list the same processes
/// in the same order, so the list can be repainted in place.
pub fn same_order(rendered: &Vec<ProcessRow>, displayed: &Vec<ProcessRow>) -> (r: bool)
    ensures
        r == (rendered@.len() == displayed@.len() && forall|i: int|
            0 <= i < rendered@.len() ==> #[trigger] rendered@[i].key == displayed@[i].key),
{
    if rendered.len() != displayed.len() {
        return false;
    }
    let mut i: usize = 0;
    while i < rendered.len()
        invariant
            rendered@.len() == displayed@.len(),
            i <= rendered.len(),
            forall|j: int| 0 <= j < i ==> #[trigger] rendered@[j].key == displayed@[j].key,
        decreases rendered.len() - i,
    {
        if rendered[i].key.pid != displayed[i].key.pid || rendered[i].key.created
            != displayed[i].key.created {
            return false;
        }
        i = i + 1;
    }
    true
}

/// The rows whose measurement cells are repainted: from the row above the
/// first visible one to the row below the last, clipped to the list.
pub open spec fn visible_rows(top: usize, per_page: usize, len: usize) -> (int, int) {
    let start = if top >= 1 { top - 1 } else { 0 };
    let end = top + per_page + 1;
    (
        if start < len { start } else { len as int },
        if end < len { end } else { len as int },
    )
}

/// `visible_rows`, with the additions saturating as the list view's
/// indices never exceed the row count.
pub fn visible_range(top: usize, per_page: usize, len: usize) -> (r: (usize, usize))
    ensures
        r.0 == visible_rows(top, per_page, len).0,
        r.1 == visible_rows(top, per_page, len).1,
{
    let start = top.saturating_sub(1);
    let end = top.saturating_add(per_page).saturating_add(1);
    (
        if start < len { start } else { len },
        if end < len { end } else { len },
    )
}

/// Whether repainting the list in place changes anything: some row's
/// identity or findings cells differ, or its measurement cells differ and it
/// is in `start..end`.
pub open spec fn repaint_needed(
    rendered: Seq<ProcessRow>,
    displayed: Seq<ProcessRow>,
    start: int,
    end: int,
) -> bool {
    exists|i: int|
        0 <= i < rendered.len() && {
            ||| static_changed(#[trigger] rendered[i], displayed[i])
            ||| start <= i < end && dynamic_changed(rendered[i], displayed[i])
        }
}

/// `repaint_needed` for rows already on screen in the same order.
pub fn needs_repaint(
    rendered: &Vec<ProcessRow>,
    displayed: &Vec<ProcessRow>,
    start: usize,
    end: usize,
) -> (r: bool)
    requires
        rendered@.len() == displayed@.len(),
    ensures
        r == repaint_needed(rendered@, displayed@, start as int, end as int),
{
    let mut i: usize = 0;
    while i < rendered.len()
        invariant
            rendered@.len() == displayed@.len(),
            i <= rendered.len(),
            forall|j: int|
                0 <= j < i ==> !(static_changed(#[trigger] rendered@[j], displayed@[j]) || (start
                    <= j < end && dynamic_changed(rendered@[j], displayed@[j]))),
        decreases rendered.len() - i,
    {
        if static_cells_changed(&rendered[i], &displayed[i]) || (i >= start && i < end
            && dynamic_cells_changed(&rendered[i], &displayed[i])) {
            return true;
        }
        i = i + 1;
    }
    false
}

// ---------------------------------------------------------------------------
// Ordering the list
// ---------------------------------------------------------------------------

/// How the list is ordered: by a column (ascending or descending), or by
/// each row's rank in a list of keys computed beforehand.
#[derive(Clone, Copy, Debug, PartialEq, Eq, Structural)]
pub enum OrderBy {
    Column(usize, bool),
    Rank,
}

/// -1, 0 or 1 as `x` is below, equal to or above `y`.
pub open spec fn num_order(x: int, y: int) -> int {
    if x < y {
        -1
    } else if x > y {
        1
    } else {
        0
    }
}

/// Names compared byte by byte with ASCII letters lowercased.
pub open spec fn name_order(a: ProcessRow, b: ProcessRow) -> int {
    lex_order(lowered_bytes(encode_utf8(a.name@)), lowered_bytes(encode_utf8(b.name@)))
}

/// Paths compared byte by byte with ASCII letters lowercased.
pub open spec fn path_order(a: ProcessRow, b: ProcessRow) -> int {
    lex_order(lowered_bytes(encode_utf8(a.path@)), lowered_bytes(encode_utf8(b.path@)))
}

/// The ascending order of a column: review rank then name, name, process
/// id, CPU, memory, disk rate, and for any other column the path.
pub open spec fn column_order(column: usize, a: ProcessRow, b: ProcessRow) -> int {
    if column == 0 {
        let r = num_order(rank_of(a.trust, a.findings@) as int, rank_of(b.trust, b.findings@) as int);
        if r != 0 {
            r
        } else {
            name_order(a, b)
        }
    } else if column == 1 {
        name_order(a, b)
    } else if column == 2 {
        num_order(a.key.pid as int, b.key.pid as int)
    } else if column == 3 {
        num_order(a.cpu_tenths as int, b.cpu_tenths as int)
    } else if column == 4 {
        num_order(a.memory_bytes as int, b.memory_bytes as int)
    } else if column == 5 {
        num_order(a.io_per_second as int, b.io_per_second as int)
    } else {
        path_order(a, b)
    }
}

/// How rows `i` and `j` compare: by column (reversed when descending), or by
/// their ranks.
pub open spec fn entry_order(how: OrderBy, rows: Seq<ProcessRow>, ranks: Seq<usize>, i: int, j: int) -> int {
    match how {
        OrderBy::Column(column, descending) => if descending {
            -column_order(column, rows[i], rows[j])
        } else {
            column_order(column, rows[i], rows[j])
        },
        OrderBy::Rank => num_order(ranks[i] as int, ranks[j] as int),
    }
}

/// A column's order compares each row equal to itself, flips with its
/// arguments, and "no greater than" is transitive.
pub proof fn lemma_column_order_total(column: usize, a: ProcessRow, b: ProcessRow, c: ProcessRow)
    ensures
        column_order(column, a, a) == 0,
        column_order(column, a, b) == -column_order(column, b, a),
        column_order(column, a, b) <= 0 && column_order(column, b, c) <= 0 ==> column_order(
            column,
            a,
            c,
        ) <= 0,
{
    let na = lowered_bytes(encode_utf8(a.name@));
    let nb = lowered_bytes(encode_utf8(b.name@));
    let nc = lowered_bytes(encode_utf8(c.name@));
    let pa = lowered_bytes(encode_utf8(a.path@));
    let pb = lowered_bytes(encode_utf8(b.path@));
    let pc = lowered_bytes(encode_utf8(c.path@));
    lemma_lex_order_total(na, nb, nc);
    lemma_lex_order_total(nb, na, nc);
    lemma_lex_order_total(pa, pb, pc);
    lemma_lex_order_total(pb, pa, pc);
    if column == 0 {
        let ra = rank_of(a.trust, a.findings@) as int;
        let rb = rank_of(b.trust, b.findings@) as int;
        let rc = rank_of(c.trust, c.findings@) as int;
        if column_order(column, a, b) <= 0 && column_order(column, b, c) <= 0 {
            assert(ra <= rb && rb <= rc);
            if ra == rc {
                assert(ra == rb);
                assert(name_order(a, b) <= 0 && name_order(b, c) <= 0);
            }
        }
    }
}

/// The order compares each row equal to itself, flips with its arguments,
/// and "no greater than" is transitive.
pub proof fn lemma_entry_order_total(
    how: OrderBy,
    rows: Seq<ProcessRow>,
    ranks: Seq<usize>,
    i: int,
    j: int,
    k: int,
)
    ensures
        entry_order(how, rows, ranks, i, i) == 0,
        entry_order(how, rows, ranks, i, j) == -entry_order(how, rows, ranks, j, i),
        entry_order(how, rows, ranks, i, j) <= 0 && entry_order(how, rows, ranks, j, k) <= 0
            ==> entry_order(how, rows, ranks, i, k) <= 0,
{
    match how {
        OrderBy::Column(column, descending) => {
            lemma_column_order_total(column, rows[i], rows[j], rows[k]);
            lemma_column_order_total(column, rows[k], rows[j], rows[i]);
            lemma_column_order_total(column, rows[i], rows[k], rows[j]);
        },
        OrderBy::Rank => {},
    }
}

/// `out` is `rows` reordered by `perm` so that the order never decreases,
/// and rows that compare equal keep their original relative order.
pub open spec fn stable_order(
    how: OrderBy,
    rows: Seq<ProcessRow>,
    ranks: Seq<usize>,
    perm: Seq<int>,
) -> bool {
    &&& perm.len() == rows.len()
    &&& forall|k: int| 0 <= k < perm.len() ==> 0 <= #[trigger] perm[k] < rows.len()
    &&& forall|k: int, l: int| 0 <= k < l < perm.len() ==> #[trigger] perm[k] != #[trigger] perm[l]
    &&& forall|k: int, l: int|
        0 <= k < l < perm.len() ==> entry_order(how, rows, ranks, #[trigger] perm[k], #[trigger] perm[l])
            <= 0
    &&& forall|k: int, l: int|
        0 <= k < l < perm.len() && entry_order(how, rows, ranks, #[trigger] perm[k], #[trigger] perm[l])
            == 0 ==> perm[k] < perm[l]
}

/// -1, 0 or 1 as `x` is below, equal to or above `y`.
fn order_of(x: u64, y: u64) -> (r: i8)
    ensures
        r == num_order(x as int, y as int),
{
    if x < y {
        -1
    } else if x > y {
        1
    } else {
        0
    }
}

fn compare_entries(how: OrderBy, rows: &Vec<ProcessRow>, ranks: &Vec<usize>, i: usize, j: usize) -> (r: i8)
    requires
        i < rows.len(),
        j < rows.len(),
        how == OrderBy::Rank ==> ranks.len() == rows.len(),
    ensures
        r == entry_order(how, rows@, ranks@, i as int, j as int),
{
    let a = &rows[i];
    let b = &rows[j];
    match how {
        OrderBy::Column(column, descending) => {
            let r: i8 = if column == 0 {
                let first = order_of(risk_rank(a) as u64, risk_rank(b) as u64);
                if first != 0 {
                    first
                } else {
                    lowered_order(a.name.as_str().as_bytes(), b.name.as_str().as_bytes())
                }
            } else if column == 1 {
                lowered_order(a.name.as_str().as_bytes(), b.name.as_str().as_bytes())
            } else if column == 2 {
                order_of(a.key.pid as u64, b.key.pid as u64)
            } else if column == 3 {
                order_of(a.cpu_tenths as u64, b.cpu_tenths as u64)
            } else if column == 4 {
                order_of(a.memory_bytes, b.memory_bytes)
            } else if column == 5 {
                order_of(a.io_per_second, b.io_per_second)
            } else {
                lowered_order(a.path.as_str().as_bytes(), b.path.as_str().as_bytes())
            };
            if descending {
                -r
            } else {
                r
            }
        },
        OrderBy::Rank => order_of(ranks[i] as u64, ranks[j] as u64),
    }
}

/// The indices of the rows in a stable order.
fn stable_indices(how: OrderBy, rows: &Vec<ProcessRow>, ranks: &Vec<usize>) -> (r: Vec<usize>)
    requires
        how == OrderBy::Rank ==> ranks.len() == rows.len(),
    ensures
        stable_order(how, rows@, ranks@, r@.map_values(|x: usize| x as int)),
{
    let n = rows.len();
    let mut idx: Vec<usize> = Vec::new();
    let mut i: usize = 0;
    while i < n
        invariant
            n == rows.len(),
            how == OrderBy::Rank ==> ranks.len() == rows.len(),
            i <= n,
            idx@.len() == i,
            forall|k: int| 0 <= k < i ==> #[trigger] idx@[k] < i,
            forall|k: int, l: int| 0 <= k < l < i ==> #[trigger] idx@[k] != #[trigger] idx@[l],
            forall|k: int, l: int|
                0 <= k < l < i ==> entry_order(how, rows@, ranks@, #[trigger] idx@[k] as int, #[trigger] idx@[l] as int)
                    <= 0,
            forall|k: int, l: int|
                0 <= k < l < i && entry_order(how, rows@, ranks@, #[trigger] idx@[k] as int, #[trigger] idx@[l] as int)
                    == 0 ==> idx@[k] < idx@[l],
        decreases n - i,
    {
        let mut p: usize = 0;
        while p < idx.len() && compare_entries(how, rows, ranks, idx[p], i) <= 0
            invariant
                n == rows.len(),
                how == OrderBy::Rank ==> ranks.len() == rows.len(),
                i < n,
                idx@.len() == i,
                forall|k: int| 0 <= k < i ==> #[trigger] idx@[k] < i,
                p <= idx@.len(),
                forall|k: int| 0 <= k < p ==> entry_order(how, rows@, ranks@, #[trigger] idx@[k] as int, i as int) <= 0,
            decreases idx@.len() - p,
        {
            p = p + 1;
        }
        let ghost before = idx@;
        proof {
            assert forall|q: int| p <= q < i implies entry_order(
                how,
                rows@,
                ranks@,
                #[trigger] before[q] as int,
                i as int,
            ) > 0 by {
                let ip = before[p as int] as int;
                let iq = before[q] as int;
                lemma_entry_order_total(how, rows@, ranks@, ip, iq, i as int);
                lemma_entry_order_total(how, rows@, ranks@, iq, i as int, ip);
                if q > p {
                    assert(entry_order(how, rows@, ranks@, before[p as int] as int, before[q] as int) <= 0);
                }
            }
        }
        idx.insert(p, i);
        proof {
            let after = idx@;
            assert(after =~= before.insert(p as int, i));
            assert forall|k: int| 0 <= k < i + 1 implies #[trigger] after[k] < i + 1 by {
                if k < p {
                    assert(after[k] == before[k]);
                } else if k > p {
                    assert(after[k] == before[k - 1]);
                }
            }
            assert forall|k: int, l: int| 0 <= k < l < i + 1 implies #[trigger] after[k] != #[trigger] after[l] by {
                if k < p && l < p {
                    assert(after[k] == before[k] && after[l] == before[l]);
                } else if k < p && l == p {
                    assert(after[k] == before[k]);
                } else if k < p {
                    assert(after[k] == before[k] && after[l] == before[l - 1]);
                } else if k == p {
                    assert(after[l] == before[l - 1]);
                } else {
                    assert(after[k] == before[k - 1] && after[l] == before[l - 1]);
                }
            }
            assert forall|k: int, l: int| 0 <= k < l < i + 1 implies entry_order(how, rows@, ranks@, #[trigger] after[k] as int, #[trigger] after[l] as int) <= 0
                && (entry_order(how, rows@, ranks@, after[k] as int, after[l] as int) == 0 ==> after[k] < after[l]) by {
                if k < p && l < p {
                    assert(after[k] == before[k] && after[l] == before[l]);
                } else if k < p && l == p {
                    assert(after[k] == before[k]);
                } else if k < p {
                    assert(after[k] == before[k] && after[l] == before[l - 1]);
                } else if k == p {
                    assert(after[l] == before[l - 1]);
                    lemma_entry_order_total(how, rows@, ranks@, i as int, before[l - 1] as int, i as int);
                } else {
                    assert(after[k] == before[k - 1] && after[l] == before[l - 1]);
                }
            }
        }
        i = i + 1;
    }
    proof {
        let perm = idx@.map_values(|x: usize| x as int);
        assert forall|k: int, l: int| 0 <= k < l < perm.len() implies #[trigger] perm[k] != #[trigger] perm[l] by {
            assert(idx@[k] != idx@[l]);
        }
        assert forall|k: int, l: int| 0 <= k < l < perm.len() implies entry_order(how, rows@, ranks@, #[trigger] perm[k], #[trigger] perm[l]) <= 0 by {
            assert(entry_order(how, rows@, ranks@, idx@[k] as int, idx@[l] as int) <= 0);
        }
        assert forall|k: int, l: int| 0 <= k < l < perm.len() && entry_order(how, rows@, ranks@, #[trigger] perm[k], #[trigger] perm[l]) == 0 implies perm[k] < perm[l] by {
            assert(entry_order(how, rows@, ranks@, idx@[k] as int, idx@[l] as int) == 0);
        }
    }
    idx
}

/// The rows in the stable order `perm` describes.
pub open spec fn reordered(rows: Seq<ProcessRow>, perm: Seq<int>) -> Seq<ProcessRow> {
    perm.map_values(|k: int| rows[k])
}

fn rows_in_order(rows: &Vec<ProcessRow>, idx: &Vec<usize>) -> (r: Vec<ProcessRow>)
    requires
        forall|k: int| 0 <= k < idx@.len() ==> #[trigger] idx@[k] < rows@.len(),
    ensures
        r@ == reordered(rows@, idx@.map_values(|x: usize| x as int)),
{
    let mut r: Vec<ProcessRow> = Vec::new();
    let mut k: usize = 0;
    while k < idx.len()
        invariant
            k <= idx@.len(),
            forall|q: int| 0 <= q < idx@.len() ==> #[trigger] idx@[q] < rows@.len(),
            r@ == reordered(rows@, idx@.map_values(|x: usize| x as int)).take(k as int),
        decreases idx.len() - k,
    {
        let row = copy_row(&rows[idx[k]]);
        r.push(row);
        k = k + 1;
        assert(r@ =~= reordered(rows@, idx@.map_values(|x: usize| x as int)).take(k as int));
    }
    assert(reordered(rows@, idx@.map_values(|x: usize| x as int)).take(idx@.len() as int)
        =~= reordered(rows@, idx@.map_values(|x: usize| x as int)));
    r
}

/// Whether `a` may come before `b` when ordering by `value`: no greater
/// ascending, no smaller descending.
pub open spec fn in_order(a: int, b: int, descending: bool) -> bool {
    if descending {
        a >= b
    } else {
        a <= b
    }
}

/// Sorting by a column puts the rows in that column's order, ascending or
/// descending: by review rank for the first column, by name (bytes, ASCII
/// case ignored) for the second, by process id, CPU, memory or disk rate for
/// the next four, and by path for any other; the result holds every row
/// exactly once.
pub proof fn lemma_sorted_by_column(
    rows: Seq<ProcessRow>,
    column: usize,
    descending: bool,
    perm: Seq<int>,
)
    requires
        stable_order(OrderBy::Column(column, descending), rows, Seq::empty(), perm),
    ensures
        reordered(rows, perm).len() == rows.len(),
        forall|i: int| 0 <= i < rows.len() ==> #[trigger] perm.contains(i),
        forall|k: int| 0 <= k < perm.len() ==> #[trigger] reordered(rows, perm)[k] == rows[perm[k]],
        forall|k: int, l: int|
            0 <= k < l < rows.len() ==> {
                let a = #[trigger] reordered(rows, perm)[k];
                let b = #[trigger] reordered(rows, perm)[l];
                &&& column == 0 ==> in_order(
                    rank_of(a.trust, a.findings@) as int,
                    rank_of(b.trust, b.findings@) as int,
                    descending,
                )
                &&& column == 2 ==> in_order(a.key.pid as int, b.key.pid as int, descending)
                &&& column == 3 ==> in_order(a.cpu_tenths as int, b.cpu_tenths as int, descending)
                &&& column == 4 ==> in_order(a.memory_bytes as int, b.memory_bytes as int, descending)
                &&& column == 5 ==> in_order(
                    a.io_per_second as int,
                    b.io_per_second as int,
                    descending,
                )
                &&& column == 1 ==> (if descending {
                    lex_order(lowered_bytes(encode_utf8(a.name@)), lowered_bytes(encode_utf8(b.name@))) >= 0
                } else {
                    lex_order(lowered_bytes(encode_utf8(a.name@)), lowered_bytes(encode_utf8(b.name@))) <= 0
                })
                &&& column >= 6 ==> (if descending {
                    lex_order(lowered_bytes(encode_utf8(a.path@)), lowered_bytes(encode_utf8(b.path@))) >= 0
                } else {
                    lex_order(lowered_bytes(encode_utf8(a.path@)), lowered_bytes(encode_utf8(b.path@))) <= 0
                })
            },
{
    let out = reordered(rows, perm);
    assert forall|k: int, l: int| 0 <= k < l < rows.len() implies {
        let a = #[trigger] reordered(rows, perm)[k];
        let b = #[trigger] reordered(rows, perm)[l];
        &&& column == 0 ==> in_order(
            rank_of(a.trust, a.findings@) as int,
            rank_of(b.trust, b.findings@) as int,
            descending,
        )
        &&& column == 2 ==> in_order(a.key.pid as int, b.key.pid as int, descending)
        &&& column == 3 ==> in_order(a.cpu_tenths as int, b.cpu_tenths as int, descending)
        &&& column == 4 ==> in_order(a.memory_bytes as int, b.memory_bytes as int, descending)
        &&& column == 5 ==> in_order(a.io_per_second as int, b.io_per_second as int, descending)
        &&& column == 1 ==> (if descending {
            lex_order(lowered_bytes(encode_utf8(a.name@)), lowered_bytes(encode_utf8(b.name@))) >= 0
        } else {
            lex_order(lowered_bytes(encode_utf8(a.name@)), lowered_bytes(encode_utf8(b.name@))) <= 0
        })
        &&& column >= 6 ==> (if descending {
            lex_order(lowered_bytes(encode_utf8(a.path@)), lowered_bytes(encode_utf8(b.path@))) >= 0
        } else {
            lex_order(lowered_bytes(encode_utf8(a.path@)), lowered_bytes(encode_utf8(b.path@))) <= 0
        })
    } by {
        assert(out[k] == rows[perm[k]] && out[l] == rows[perm[l]]);
        assert(entry_order(OrderBy::Column(column, descending), rows, Seq::empty(), perm[k], perm[l])
            <= 0);
    }
    lemma_perm_onto(perm, rows.len() as int);
}

/// A sequence of `n` distinct indices below `n` holds every index below `n`.
proof fn lemma_perm_onto(perm: Seq<int>, n: int)
    requires
        perm.len() == n,
        forall|k: int| 0 <= k < perm.len() ==> 0 <= #[trigger] perm[k] < n,
        forall|k: int, l: int| 0 <= k < l < perm.len() ==> #[trigger] perm[k] != #[trigger] perm[l],
    ensures
        forall|i: int| 0 <= i < n ==> #[trigger] perm.contains(i),
{
    let shown = perm.to_set();
    let all = vstd::set_lib::set_int_range(0, n);
    assert(perm.no_duplicates()) by {
        assert forall|k: int, l: int| 0 <= k < perm.len() && 0 <= l < perm.len() && k != l implies perm[k]
            != perm[l] by {
            if k < l {
                assert(perm[k] != perm[l]);
            } else {
                assert(perm[l] != perm[k]);
            }
        }
    }
    perm.unique_seq_to_set();
    vstd::set_lib::lemma_int_range(0, n);
    assert(shown.subset_of(all));
    vstd::set_lib::lemma_subset_equality(shown, all);
    assert forall|i: int| 0 <= i < n implies #[trigger] perm.contains(i) by {
        assert(all.contains(i));
        assert(shown.contains(i));
    }
}

/// The rows ordered by a column, ascending or descending; rows that compare
/// equal keep their order.
pub fn sort_by_column(rows: &Vec<ProcessRow>, column: usize, descending: bool) -> (r: Vec<ProcessRow>)
    ensures
        exists|perm: Seq<int>|
            {
                &&& #[trigger] stable_order(OrderBy::Column(column, descending), rows@, Seq::empty(), perm)
                &&& r@ == reordered(rows@, perm)
            },
{
    let ranks: Vec<usize> = Vec::new();
    let idx = stable_indices(OrderBy::Column(column, descending), rows, &ranks);
    proof {
        let perm = idx@.map_values(|x: usize| x as int);
        assert forall|k: int| 0 <= k < idx@.len() implies #[trigger] idx@[k] < rows@.len() by {
            assert(0 <= perm[k] < rows@.len());
        }
        assert(ranks@ =~= Seq::<usize>::empty());
    }
    rows_in_order(rows, &idx)
}

/// Where a key was on screen: its last position in `keys`, or `usize::MAX`
/// when it was not shown.
pub open spec fn rendered_rank(keys: Seq<ProcKey>, key: ProcKey) -> usize
    decreases keys.len(),
{
    if keys.len() == 0 {
        usize::MAX
    } else if keys.last() == key {
        (keys.len() - 1) as usize
    } else {
        rendered_rank(keys.drop_last(), key)
    }
}

/// The on-screen rank of each row.
pub open spec fn rendered_ranks(rows: Seq<ProcessRow>, keys: Seq<ProcKey>) -> Seq<usize> {
    rows.map_values(|row: ProcessRow| rendered_rank(keys, row.key))
}

fn rank_on_screen(keys: &Vec<ProcKey>, key: ProcKey) -> (r: usize)
    ensures
        r == rendered_rank(keys@, key),
{
    let mut i: usize = keys.len();
    assert(keys@.take(keys@.len() as int) =~= keys@);
    while i > 0
        invariant
            i <= keys@.len(),
            rendered_rank(keys@, key) == rendered_rank(keys@.take(i as int), key),
        decreases i,
    {
        proof {
            assert(keys@.take(i as int).drop_last() =~= keys@.take(i - 1));
            assert(keys@.take(i as int).last() == keys@[i - 1]);
        }
        if keys[i - 1] == key {
            return i - 1;
        }
        i = i - 1;
    }
    assert(keys@.take(0) =~= Seq::<ProcKey>::empty());
    usize::MAX
}

/// The rows in the order they were on screen (rows that were not shown
/// last), so a refresh that only changed measurements does not reshuffle
/// the list under the pointer.
pub fn sort_like_rendered(rows: &Vec<ProcessRow>, rendered: &Vec<ProcKey>) -> (r: Vec<ProcessRow>)
    ensures
        exists|perm: Seq<int>|
            {
                &&& #[trigger] stable_order(
                    OrderBy::Rank,
                    rows@,
                    rendered_ranks(rows@, rendered@),
                    perm,
                )
                &&& r@ == reordered(rows@, perm)
            },
{
    let mut ranks: Vec<usize> = Vec::new();
    let mut j: usize = 0;
    while j < rows.len()
        invariant
            j <= rows@.len(),
            ranks@ == rendered_ranks(rows@, rendered@).take(j as int),
        decreases rows.len() - j,
    {
        let rank = rank_on_screen(rendered, rows[j].key);
        ranks.push(rank);
        j = j + 1;
        assert(ranks@ =~= rendered_ranks(rows@, rendered@).take(j as int));
    }
    assert(ranks@ =~= rendered_ranks(rows@, rendered@));
    let idx = stable_indices(OrderBy::Rank, rows, &ranks);
    proof {
        let perm = idx@.map_values(|x: usize| x as int);
        assert forall|k: int| 0 <= k < idx@.len() implies #[trigger] idx@[k] < rows@.len() by {
            assert(0 <= perm[k] < rows@.len());
        }
    }
    rows_in_order(rows, &idx)
}

/// Whether a row is listed under a filter and a search query (already
/// trimmed).
pub open spec fn listed(row: ProcessRow, filter: Filter, query: Seq<char>) -> bool {
    shown_under(row.trust, row.findings@, filter) && search_shows(
        row,
        encode_utf8(query),
        parse_u32(query),
    )
}

/// The rows listed under a filter and a search text, in their order. The
/// search text is trimmed; a query that is a number also matches that
/// process id.
pub fn filter_rows(rows: &Vec<ProcessRow>, filter: Filter, search_text: &str) -> (r: Vec<ProcessRow>)
    ensures
        r@ == rows@.filter(
            |row: ProcessRow| listed(row, filter, trim_both(search_text@, Trim::Whitespace)),
        ),
{
    let raw = chars_of(search_text);
    let query_chars = trimmed(&raw, Trim::Whitespace);
    let query = string_from_chars(query_chars.as_slice());
    let query_bytes = query.as_str().as_bytes();
    let query_pid = parse_u32_chars(&query_chars);
    let ghost q = trim_both(search_text@, Trim::Whitespace);
    let ghost f = |row: ProcessRow| listed(row, filter, q);
    let mut r: Vec<ProcessRow> = Vec::new();
    let mut i: usize = 0;
    while i < rows.len()
        invariant
            i <= rows@.len(),
            query@ == q,
            query_bytes@ == encode_utf8(q),
            query_pid == parse_u32(q),
            f == (|row: ProcessRow| listed(row, filter, q)),
            r@ == rows@.take(i as int).filter(f),
        decreases rows.len() - i,
    {
        let row = &rows[i];
        let evidence = EvidenceRow {
            trust: row.trust,
            findings: row.findings,
            cpu_tenths: row.cpu_tenths,
            memory_bytes: row.memory_bytes,
            disk_bytes_per_second: row.io_per_second,
        };
        let keep = evidence.matches_filter(filter) && row_matches_search(row, query_bytes, query_pid);
        proof {
            assert(rows@.take(i + 1) =~= rows@.take(i as int).push(*row));
            rows@.take(i as int).lemma_filter_push(*row, f);
        }
        if keep {
            r.push(copy_row(row));
        }
        i = i + 1;
    }
    assert(rows@.take(rows.len() as int) =~= rows@);
    r
}

/// What the list shows: the rows listed under the filter and search, in the
/// order they were on screen when only measurements may have changed and
/// the list is sorted by CPU, memory or disk rate; otherwise sorted by the
/// column.
pub fn displayed_rows(
    rows: &Vec<ProcessRow>,
    filter: Filter,
    search_text: &str,
    column: usize,
    descending: bool,
    force_resort: bool,
    rendered: &Vec<ProcKey>,
) -> (r: Vec<ProcessRow>)
    ensures
        ({
            let shown = rows@.filter(
                |row: ProcessRow| listed(row, filter, trim_both(search_text@, Trim::Whitespace)),
            );
            if !force_resort && 3 <= column <= 5 && rendered@.len() > 0 {
                exists|perm: Seq<int>|
                    {
                        &&& #[trigger] stable_order(
                            OrderBy::Rank,
                            shown,
                            rendered_ranks(shown, rendered@),
                            perm,
                        )
                        &&& r@ == reordered(shown, perm)
                    }
            } else {
                exists|perm: Seq<int>|
                    {
                        &&& #[trigger] stable_order(
                            OrderBy::Column(column, descending),
                            shown,
                            Seq::empty(),
                            perm,
                        )
                        &&& r@ == reordered(shown, perm)
                    }
            }
        }),
{
    let shown = filter_rows(rows, filter, search_text);
    if !force_resort && 3 <= column && column <= 5 && rendered.len() > 0 {
        sort_like_rendered(&shown, rendered)
    } else {
        sort_by_column(&shown, column, descending)
    }
}

/// How many rows are worth attention: unclassified, or with a changed path,
/// an ended parent, a restart, a peer outlier, or heavy use.
pub open spec fn anomalous(row: ProcessRow) -> bool {
    row.trust == TrustState::Unclassified || has_any(
        row.findings@,
        (((((Findings::DIFFERENT_PATH | Findings::PARENT_ENDED) | Findings::RESTARTING)
            | Findings::PEER_OUTLIER) | Findings::HEAVY_CPU) | Findings::HEAVY_MEMORY)
            | Findings::HEAVY_DISK,
    )
}

/// The number of rows worth attention (see `anomalous`).
pub fn anomaly_count(rows: &Vec<ProcessRow>) -> (r: usize)
    ensures
        r == rows@.filter(|row: ProcessRow| anomalous(row)).len(),
{
    let ghost f = |row: ProcessRow| anomalous(row);
    let mut count: usize = 0;
    let mut i: usize = 0;
    while i < rows.len()
        invariant
            i <= rows@.len(),
            f == (|row: ProcessRow| anomalous(row)),
            count == rows@.take(i as int).filter(f).len(),
            count <= i,
        decreases rows.len() - i,
    {
        let row = &rows[i];
        proof {
            assert(rows@.take(i + 1) =~= rows@.take(i as int).push(*row));
            rows@.take(i as int).lemma_filter_push(*row, f);
        }
        if row.trust == TrustState::Unclassified || row.findings.contains(
            (((((Findings::DIFFERENT_PATH | Findings::PARENT_ENDED) | Findings::RESTARTING)
                | Findings::PEER_OUTLIER) | Findings::HEAVY_CPU) | Findings::HEAVY_MEMORY)
                | Findings::HEAVY_DISK,
        ) {
            count = count + 1;
        }
        i = i + 1;
    }
    assert(rows@.take(rows.len() as int) =~= rows@);
    count
}

} // verus!
