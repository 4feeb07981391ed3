//! Small collections of strings: a list read as a set, and a table from a
//! name to a set of paths. Both the saved state and the reference snapshot
//! are made of these.
//!
//! The lists keep each text once and the tables keep each name once, so a
//! list means the set of its texts and a table means a map.

use crate::text::same_text;
use vstd::prelude::*;

verus! {

// ---------------------------------------------------------------------------
// A list of strings read as a set
// ---------------------------------------------------------------------------

/// The set of the texts in a list.
pub open spec fn text_set(v: Seq<String>) -> Set<Seq<char>>
    decreases v.len(),
{
    if v.len() == 0 {
        Set::empty()
    } else {
        text_set(v.drop_last()).insert(v.last()@)
    }
}

/// No text occurs twice in the list.
pub open spec fn distinct_texts(v: Seq<String>) -> bool {
    forall|i: int, j: int| 0 <= i < j < v.len() ==> (#[trigger] v[i])@ != (#[trigger] v[j])@
}

/// A text is in `text_set(v)` exactly when some element of `v` holds it.
pub proof fn lemma_text_set(v: Seq<String>)
    ensures
        forall|x: Seq<char>| #[trigger]
            text_set(v).contains(x) <==> exists|i: int| 0 <= i < v.len() && v[i]@ == x,
    decreases v.len(),
{
    if v.len() > 0 {
        lemma_text_set(v.drop_last());
        assert forall|x: Seq<char>| #[trigger]
            text_set(v).contains(x) <==> exists|i: int| 0 <= i < v.len() && v[i]@ == x by {
            if text_set(v).contains(x) {
                if x == v.last()@ {
                    assert(v[v.len() - 1]@ == x);
                } else {
                    assert(text_set(v.drop_last()).contains(x));
                    let i = choose|i: int|
                        0 <= i < v.drop_last().len() && v.drop_last()[i]@ == x;
                    assert(v[i]@ == x);
                }
            }
            if exists|i: int| 0 <= i < v.len() && v[i]@ == x {
                let i = choose|i: int| 0 <= i < v.len() && v[i]@ == x;
                if i < v.len() - 1 {
                    assert(v.drop_last()[i]@ == x);
                    assert(text_set(v.drop_last()).contains(x));
                }
            }
        }
    }
}

/// `text_set` of a list with one more element.
pub proof fn lemma_text_set_push(v: Seq<String>, s: String)
    ensures
        text_set(v.push(s)) == text_set(v).insert(s@),
{
    assert(v.push(s).drop_last() =~= v);
}

/// A copy of a list of strings.
pub fn clone_texts(v: &Vec<String>) -> (r: Vec<String>)
    ensures
        r@ == v@,
{
    let mut r: Vec<String> = Vec::new();
    let mut i: usize = 0;
    while i < v.len()
        invariant
            i <= v.len(),
            r@ == v@.take(i as int),
        decreases v.len() - i,
    {
        let s = v[i].clone();
        r.push(s);
        assert(r@ =~= v@.take(i + 1));
        i = i + 1;
    }
    assert(v@.take(v.len() as int) =~= v@);
    r
}

/// The index of the element of `v` that holds `s`, if any.
pub fn position_of(v: &Vec<String>, s: &str) -> (r: Option<usize>)
    ensures
        match r {
            Some(i) => i < v.len() && v@[i as int]@ == s@,
            None => !text_set(v@).contains(s@),
        },
{
    let mut i: usize = 0;
    while i < v.len()
        invariant
            i <= v.len(),
            forall|j: int| 0 <= j < i ==> v@[j]@ != s@,
        decreases v.len() - i,
    {
        if same_text(v[i].as_str(), s) {
            return Some(i);
        }
        i = i + 1;
    }
    proof {
        lemma_text_set(v@);
    }
    None
}

/// Adds `s` to the list unless it is already there; says whether it was
/// added.
pub fn insert_text(v: &mut Vec<String>, s: String) -> (r: bool)
    requires
        distinct_texts(old(v)@),
    ensures
        r == !text_set(old(v)@).contains(s@),
        text_set(final(v)@) == text_set(old(v)@).insert(s@),
        distinct_texts(final(v)@),
{
    match position_of(v, s.as_str()) {
        Some(i) => {
            proof {
                lemma_text_set(v@);
                assert(text_set(v@).insert(s@) =~= text_set(v@));
            }
            false
        },
        None => {
            let ghost before = v@;
            proof {
                lemma_text_set(before);
            }
            v.push(s);
            proof {
                lemma_text_set_push(before, s);
                assert forall|i: int, j: int| 0 <= i < j < v@.len() implies (#[trigger] v@[i])@
                    != (#[trigger] v@[j])@ by {
                    if j == v@.len() - 1 {
                        assert(v@[i] == before[i]);
                    } else {
                        assert(v@[i] == before[i] && v@[j] == before[j]);
                    }
                }
            }
            true
        },
    }
}

/// Removes `s` from the list; says whether it was there.
pub fn remove_text(v: &mut Vec<String>, s: &str) -> (r: bool)
    requires
        distinct_texts(old(v)@),
    ensures
        r == text_set(old(v)@).contains(s@),
        text_set(final(v)@) == text_set(old(v)@).remove(s@),
        distinct_texts(final(v)@),
{
    match position_of(v, s) {
        Some(i) => {
            let ghost before = v@;
            v.remove(i);
            proof {
                lemma_text_set(before);
                lemma_text_set(v@);
                assert(v@ =~= before.remove(i as int));
                assert forall|x: Seq<char>| #[trigger]
                    text_set(v@).contains(x) == text_set(before).remove(s@).contains(x) by {
                    if text_set(v@).contains(x) {
                        let k = choose|k: int| 0 <= k < v@.len() && v@[k]@ == x;
                        if k < i {
                            assert(before[k]@ == x);
                            assert(x != s@);
                        } else {
                            assert(before[k + 1]@ == x);
                            assert(x != s@);
                        }
                    }
                    if text_set(before).remove(s@).contains(x) {
                        let k = choose|k: int| 0 <= k < before.len() && before[k]@ == x;
                        assert(k != i);
                        if k < i {
                            assert(v@[k]@ == x);
                        } else {
                            assert(v@[k - 1]@ == x);
                        }
                    }
                }
                assert(text_set(v@) =~= text_set(before).remove(s@));
                assert forall|a: int, b: int| 0 <= a < b < v@.len() implies (#[trigger] v@[a])@
                    != (#[trigger] v@[b])@ by {
                    let a0 = if a < i { a } else { a + 1 };
                    let b0 = if b < i { b } else { b + 1 };
                    assert(v@[a] == before[a0] && v@[b] == before[b0]);
                }
            }
            true
        },
        None => {
            proof {
                assert(text_set(v@).remove(s@) =~= text_set(v@));
            }
            false
        },
    }
}

// ---------------------------------------------------------------------------
// A table from a name to a set of paths
// ---------------------------------------------------------------------------

/// The map a list of rows describes; a later row for a name replaces an
/// earlier one.
pub open spec fn rows_map(t: Seq<(String, Vec<String>)>) -> Map<Seq<char>, Set<Seq<char>>>
    decreases t.len(),
{
    if t.len() == 0 {
        Map::empty()
    } else {
        rows_map(t.drop_last()).insert(t.last().0@, text_set(t.last().1@))
    }
}

/// Each name occurs once and each row's paths are distinct.
pub open spec fn table_wf(t: Seq<(String, Vec<String>)>) -> bool {
    &&& forall|i: int, j: int|
        0 <= i < j < t.len() ==> (#[trigger] t[i]).0@ != (#[trigger] t[j]).0@
    &&& forall|i: int| 0 <= i < t.len() ==> distinct_texts((#[trigger] t[i]).1@)
}

/// In a table whose names are distinct, a name is mapped exactly when a row
/// carries it, and then to that row's paths.
pub proof fn lemma_rows_map(t: Seq<(String, Vec<String>)>)
    requires
        forall|i: int, j: int| 0 <= i < j < t.len() ==> (#[trigger] t[i]).0@ != (#[trigger] t[j]).0@,
    ensures
        forall|k: Seq<char>| #[trigger]
            rows_map(t).dom().contains(k) <==> exists|i: int| 0 <= i < t.len() && t[i].0@ == k,
        forall|i: int| 0 <= i < t.len() ==> rows_map(t)[(#[trigger] t[i]).0@] == text_set(t[i].1@),
    decreases t.len(),
{
    if t.len() > 0 {
        let p = t.drop_last();
        assert forall|i: int, j: int| 0 <= i < j < p.len() implies (#[trigger] p[i]).0@
            != (#[trigger] p[j]).0@ by {
            assert(p[i] == t[i] && p[j] == t[j]);
        }
        lemma_rows_map(p);
        assert forall|k: Seq<char>| #[trigger]
            rows_map(t).dom().contains(k) <==> exists|i: int| 0 <= i < t.len() && t[i].0@ == k by {
            if rows_map(t).dom().contains(k) && k != t.last().0@ {
                assert(rows_map(p).dom().contains(k));
                let i = choose|i: int| 0 <= i < p.len() && p[i].0@ == k;
                assert(t[i].0@ == k);
            }
            if exists|i: int| 0 <= i < t.len() && t[i].0@ == k {
                let i = choose|i: int| 0 <= i < t.len() && t[i].0@ == k;
                if i < t.len() - 1 {
                    assert(p[i].0@ == k);
                    assert(rows_map(p).dom().contains(k));
                }
            }
        }
        assert forall|i: int| 0 <= i < t.len() implies rows_map(t)[(#[trigger] t[i]).0@]
            == text_set(t[i].1@) by {
            if i < t.len() - 1 {
                assert(p[i] == t[i]);
                assert(t[i].0@ != t[t.len() - 1].0@);
            }
        }
    }
}

/// The index of the row named `name`, if any.
pub fn find_row(t: &Vec<(String, Vec<String>)>, name: &str) -> (r: Option<usize>)
    ensures
        match r {
            Some(i) => i < t.len() && t@[i as int].0@ == name@,
            None => forall|j: int| 0 <= j < t.len() ==> t@[j].0@ != name@,
        },
{
    let mut i: usize = 0;
    while i < t.len()
        invariant
            i <= t.len(),
            forall|j: int| 0 <= j < i ==> t@[j].0@ != name@,
        decreases t.len() - i,
    {
        if same_text(t[i].0.as_str(), name) {
            return Some(i);
        }
        i = i + 1;
    }
    None
}

/// Sets the paths of `name`, replacing its row or adding one.
pub fn put_row(t: &mut Vec<(String, Vec<String>)>, name: String, paths: Vec<String>)
    requires
        table_wf(old(t)@),
        distinct_texts(paths@),
    ensures
        rows_map(final(t)@) == rows_map(old(t)@).insert(name@, text_set(paths@)),
        table_wf(final(t)@),
{
    let ghost before = t@;
    let ghost entry = (name, paths);
    match find_row(t, name.as_str()) {
        Some(i) => {
            t.set(i, (name, paths));
            proof {
                assert(t@ =~= before.update(i as int, entry));
                lemma_rows_map(before);
                assert forall|a: int, b: int| 0 <= a < b < t@.len() implies (#[trigger] t@[a]).0@
                    != (#[trigger] t@[b]).0@ by {
                    assert(t@[a].0@ == before[a].0@ && t@[b].0@ == before[b].0@);
                }
                lemma_rows_map(t@);
                assert forall|k: Seq<char>| #[trigger] rows_map(t@).dom().contains(k)
                    == rows_map(before).insert(name@, text_set(entry.1@)).dom().contains(k) by {
                    if rows_map(t@).dom().contains(k) {
                        let j = choose|j: int| 0 <= j < t@.len() && t@[j].0@ == k;
                        assert(before[j].0@ == k);
                    }
                    if rows_map(before).dom().contains(k) {
                        let j = choose|j: int| 0 <= j < before.len() && before[j].0@ == k;
                        assert(t@[j].0@ == k);
                    }
                    if k == name@ {
                        assert(t@[i as int].0@ == k);
                    }
                }
                assert forall|k: Seq<char>| #[trigger] rows_map(t@).dom().contains(k) implies rows_map(
                    t@,
                )[k] == rows_map(before).insert(name@, text_set(entry.1@))[k] by {
                    let j = choose|j: int| 0 <= j < t@.len() && t@[j].0@ == k;
                    if j != i {
                        assert(t@[j] == before[j]);
                    }
                }
                assert(rows_map(t@) =~= rows_map(before).insert(name@, text_set(entry.1@)));
            }
        },
        None => {
            t.push((name, paths));
            proof {
                assert(t@.drop_last() =~= before);
                assert forall|a: int, b: int| 0 <= a < b < t@.len() implies (#[trigger] t@[a]).0@
                    != (#[trigger] t@[b]).0@ by {
                    if b < t@.len() - 1 {
                        assert(t@[a] == before[a] && t@[b] == before[b]);
                    } else {
                        assert(t@[a] == before[a]);
                    }
                }
                assert forall|a: int| 0 <= a < t@.len() implies distinct_texts(
                    (#[trigger] t@[a]).1@,
                ) by {
                    if a < t@.len() - 1 {
                        assert(t@[a] == before[a]);
                    }
                }
            }
        },
    }
}

/// A copy of a table.
pub fn clone_rows(t: &Vec<(String, Vec<String>)>) -> (r: Vec<(String, Vec<String>)>)
    ensures
        r@.len() == t@.len(),
        forall|i: int| 0 <= i < t@.len() ==> (#[trigger] r@[i]).0@ == t@[i].0@ && r@[i].1@ == t@[i].1@,
        rows_map(r@) == rows_map(t@),
        table_wf(t@) ==> table_wf(r@),
{
    let mut r: Vec<(String, Vec<String>)> = Vec::new();
    let mut i: usize = 0;
    while i < t.len()
        invariant
            i <= t.len(),
            r@.len() == i,
            forall|j: int| 0 <= j < i ==> (#[trigger] r@[j]).0@ == t@[j].0@ && r@[j].1@ == t@[j].1@,
            rows_map(r@) == rows_map(t@.take(i as int)),
        decreases t.len() - i,
    {
        let name = t[i].0.clone();
        let paths = clone_texts(&t[i].1);
        let ghost prior = r@;
        r.push((name, paths));
        proof {
            assert(r@.drop_last() =~= prior);
            assert(t@.take(i + 1).drop_last() =~= t@.take(i as int));
            assert(t@.take(i + 1).last() == t@[i as int]);
        }
        i = i + 1;
    }
    assert(t@.take(t.len() as int) =~= t@);
    r
}

} // verus!
