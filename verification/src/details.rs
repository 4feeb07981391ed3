//! The detail pane: what is known about one selected process's file, the text
//! shown for it, and the small cache that keeps recent inspections.

use crate::knowledge::{describe, description_for, knowledge_table};
use crate::signature::signature_label;
use crate::text::{chars_of, decimal, decimal_chars, push_all, string_from_chars};
use vstd::prelude::*;

pub use crate::signature::SignatureState;

verus! {

/// How many inspected files the cache keeps.
pub const CACHE_LIMIT: usize = 64;

/// The identity of the selected process: its id and creation time.
#[derive(Clone, Copy, Debug, PartialEq, Eq, Structural, Hash)]
pub struct SelectionKey {
    pub pid: u32,
    pub created: u64,
}

/// A request to inspect the file of a selected process.
#[derive(Clone, Debug)]
pub struct DetailRequest {
    pub key: SelectionKey,
    pub name: String,
    pub path: String,
}

/// What was found about the file of a selected process.
#[derive(Clone, Debug)]
pub struct DetailResult {
    pub key: SelectionKey,
    pub name: String,
    pub path: String,
    pub file_size: Option<u64>,
    pub modified_unix_seconds: Option<u64>,
    pub signature: SignatureState,
    pub signer: Option<String>,
}

/// The text of an optional number, or "Unavailable".
pub open spec fn number_or_unavailable(n: Option<u64>, suffix: Seq<char>) -> Seq<char> {
    match n {
        Some(v) => decimal(v as nat) + suffix,
        None => "Unavailable"@,
    }
}

/// The text of an optional string, or "Unavailable".
pub open spec fn text_or_unavailable(s: Option<String>) -> Seq<char> {
    match s {
        Some(v) => v@,
        None => "Unavailable"@,
    }
}

/// The file line of the summary.
pub open spec fn file_part(r: DetailResult) -> Seq<char> {
    "File: "@ + if r.path@.len() == 0 {
        "Unavailable"@
    } else {
        r.path@
    }
}

/// The description paragraph of the summary, when there is a description.
pub open spec fn about_part(r: DetailResult) -> Seq<char> {
    match description_for(r.name@, knowledge_table()) {
        Some(text) => "\n\nAbout "@ + r.name@ + ": "@ + text,
        None => Seq::empty(),
    }
}

/// The summary text of a detail result.
pub open spec fn summary_text(r: DetailResult) -> Seq<char> {
    file_part(r) + ("\nSize: "@ + number_or_unavailable(r.file_size, " bytes"@)) + (
    "\nModified (Unix seconds): "@ + number_or_unavailable(r.modified_unix_seconds, Seq::empty()))
        + ("\nAuthenticode: "@ + signature_label(r.signature)) + ("\nSigner: "@
        + text_or_unavailable(r.signer)) + about_part(r)
}

/// The characters of a string slice.
fn text_chars(s: &str) -> (r: Vec<char>)
    ensures
        r@ == s@,
{
    chars_of(s)
}

/// A label followed by an optional number (with a suffix), or by
/// "Unavailable".
fn number_line(label: &str, n: Option<u64>, suffix: &str) -> (r: Vec<char>)
    ensures
        r@ == label@ + number_or_unavailable(n, suffix@),
{
    let mut out = text_chars(label);
    match n {
        Some(v) => {
            let d = decimal_chars(v);
            push_all(&mut out, &d);
            let sfx = text_chars(suffix);
            push_all(&mut out, &sfx);
            assert(out@ =~= label@ + (decimal(v as nat) + suffix@));
        },
        None => {
            let u = text_chars("Unavailable");
            push_all(&mut out, &u);
        },
    }
    out
}

/// Appends the characters of a string slice.
fn push_str_chars(dst: &mut Vec<char>, s: &str)
    ensures
        final(dst)@ == old(dst)@ + s@,
{
    let c = chars_of(s);
    push_all(dst, &c);
}

impl DetailResult {
    /// The file summary shown in the detail pane: path, size, modification
    /// time, signature state and signer, each "Unavailable" when unknown, and
    /// a description when the process is a component Windows ships.
    pub fn summary(&self) -> (r: String)
        ensures
            r@ == summary_text(*self),
    {
        let mut out = text_chars("File: ");
        if self.path.as_str().is_empty() {
            push_str_chars(&mut out, "Unavailable");
        } else {
            push_str_chars(&mut out, self.path.as_str());
        }
        let ghost a = out@;
        let size = number_line("\nSize: ", self.file_size, " bytes");
        push_all(&mut out, &size);
        let modified = number_line("\nModified (Unix seconds): ", self.modified_unix_seconds, "");
        push_all(&mut out, &modified);
        proof {
            reveal_strlit("");
            assert(""@ =~= Seq::<char>::empty());
        }
        let mut sig = text_chars("\nAuthenticode: ");
        push_str_chars(&mut sig, self.signature.label());
        push_all(&mut out, &sig);
        let mut signer = text_chars("\nSigner: ");
        match &self.signer {
            Some(s) => push_str_chars(&mut signer, s.as_str()),
            None => push_str_chars(&mut signer, "Unavailable"),
        }
        push_all(&mut out, &signer);
        let mut about: Vec<char> = Vec::new();
        match describe(self.name.as_str()) {
            Some(text) => {
                push_str_chars(&mut about, "\n\nAbout ");
                push_str_chars(&mut about, self.name.as_str());
                push_str_chars(&mut about, ": ");
                push_str_chars(&mut about, text);
            },
            None => {},
        }
        assert(about@ =~= about_part(*self));
        push_all(&mut out, &about);
        string_from_chars(out.as_slice())
    }

    /// A copy of this result.
    pub fn duplicate(&self) -> (r: DetailResult)
        ensures
            r == *self,
    {
        DetailResult {
            key: self.key,
            name: self.name.clone(),
            path: self.path.clone(),
            file_size: self.file_size,
            modified_unix_seconds: self.modified_unix_seconds,
            signature: self.signature,
            signer: match &self.signer {
                Some(s) => Some(s.clone()),
                None => None,
            },
        }
    }
}

/// Whether a finished inspection belongs to the process selected now, by
/// process id and creation time; anything else is stale and discarded.
pub fn is_current_selection(expected: Option<SelectionKey>, result: &DetailResult) -> (r: bool)
    ensures
        r == (expected == Some(result.key)),
{
    match expected {
        Some(key) => key == result.key,
        None => false,
    }
}

// ---------------------------------------------------------------------------
// The inspection cache
// ---------------------------------------------------------------------------

/// Recent inspections, least recently used first, at most `CACHE_LIMIT` of
/// them, one per selection key.
pub struct BoundedCache {
    entries: Vec<DetailResult>,
}

/// No key occurs twice.
pub open spec fn keys_distinct(s: Seq<DetailResult>) -> bool {
    forall|i: int, j: int| 0 <= i < j < s.len() ==> (#[trigger] s[i]).key != (#[trigger] s[j]).key
}

/// The entries with the one keyed `key`, if any, removed.
pub open spec fn without_key(s: Seq<DetailResult>, key: SelectionKey) -> Seq<DetailResult> {
    s.filter(|e: DetailResult| e.key != key)
}

/// The entries after storing `result` as the most recently used one and
/// evicting the least recently used while there are too many.
pub open spec fn stored(s: Seq<DetailResult>, result: DetailResult) -> Seq<DetailResult> {
    let t = without_key(s, result.key).push(result);
    if t.len() > CACHE_LIMIT {
        t.drop_first()
    } else {
        t
    }
}

impl View for BoundedCache {
    type V = Seq<DetailResult>;

    closed spec fn view(&self) -> Seq<DetailResult> {
        self.entries@
    }
}

impl Default for BoundedCache {
    /// An empty cache.
    fn default() -> (r: Self)
        ensures
            r@ == Seq::<DetailResult>::empty(),
            r.wf(),
    {
        BoundedCache { entries: Vec::new() }
    }
}

impl BoundedCache {
    /// At most `CACHE_LIMIT` entries, one per key.
    pub closed spec fn wf(&self) -> bool {
        self.entries@.len() <= CACHE_LIMIT && keys_distinct(self.entries@)
    }

    /// A well-formed cache holds at most `CACHE_LIMIT` entries, no two of
    /// them for the same key.
    pub proof fn lemma_wf_bounds(&self)
        requires
            self.wf(),
        ensures
            self@.len() <= CACHE_LIMIT,
            keys_distinct(self@),
    {
    }

    fn index_of(&self, key: SelectionKey) -> (r: Option<usize>)
        ensures
            match r {
                Some(i) => i < self@.len() && self@[i as int].key == key,
                None => forall|i: int| 0 <= i < self@.len() ==> self@[i].key != key,
            },
    {
        let mut i: usize = 0;
        while i < self.entries.len()
            invariant
                i <= self.entries.len(),
                forall|j: int| 0 <= j < i ==> self.entries@[j].key != key,
            decreases self.entries.len() - i,
        {
            if self.entries[i].key == key {
                return Some(i);
            }
            i = i + 1;
        }
        None
    }

    /// The cached inspection for `key`, which becomes the most recently used.
    pub fn get(&mut self, key: &SelectionKey) -> (r: Option<DetailResult>)
        requires
            old(self).wf(),
        ensures
            final(self).wf(),
            match r {
                Some(found) => {
                    &&& found.key == *key
                    &&& old(self)@.contains(found)
                    &&& final(self)@ == without_key(old(self)@, *key).push(found)
                },
                None => {
                    &&& forall|i: int| 0 <= i < old(self)@.len() ==> old(self)@[i].key != *key
                    &&& final(self)@ == old(self)@
                },
            },
    {
        match self.index_of(*key) {
            Some(i) => {
                let ghost before = self@;
                let found = self.entries.remove(i);
                let copy = found.duplicate();
                self.entries.push(found);
                proof {
                    lemma_without_key_is_remove(before, i as int);
                    assert(before.contains(copy)) by {
                        assert(before[i as int] == copy);
                    }
                    assert forall|a: int, b: int| 0 <= a < b < self@.len() implies (#[trigger] self@[
                        a
                    ]).key != (#[trigger] self@[b]).key by {
                        let r = before.remove(i as int);
                        if b == self@.len() - 1 {
                            let a0 = if a < i { a } else { a + 1 };
                            assert(self@[a] == before[a0]);
                        } else {
                            let a0 = if a < i { a } else { a + 1 };
                            let b0 = if b < i { b } else { b + 1 };
                            assert(self@[a] == before[a0] && self@[b] == before[b0]);
                        }
                    }
                }
                Some(copy)
            },
            None => None,
        }
    }

    /// Stores an inspection as the most recently used, replacing any for the
    /// same key and evicting the least recently used beyond `CACHE_LIMIT`.
    pub fn insert(&mut self, result: DetailResult)
        requires
            old(self).wf(),
        ensures
            final(self).wf(),
            final(self)@ == stored(old(self)@, result),
    {
        let ghost before = self@;
        let ghost key = result.key;
        match self.index_of(result.key) {
            Some(i) => {
                self.entries.remove(i);
                proof {
                    lemma_without_key_is_remove(before, i as int);
                }
            },
            None => {
                proof {
                    lemma_without_key_absent(before, key);
                }
            },
        }
        let ghost middle = self@;
        assert(middle == without_key(before, key));
        proof {
            lemma_filter_keeps_distinct(before, key);
        }
        self.entries.push(result);
        if self.entries.len() > CACHE_LIMIT {
            self.entries.remove(0);
            assert(self@ =~= middle.push(result).drop_first());
        }
        proof {
            let t = middle.push(result);
            assert forall|a: int, b: int| 0 <= a < b < t.len() implies (#[trigger] t[a]).key
                != (#[trigger] t[b]).key by {
                if b == t.len() - 1 {
                    assert(t[a] == middle[a]);
                    assert(middle.contains(t[a]));
                } else {
                    assert(t[a] == middle[a] && t[b] == middle[b]);
                }
            }
            assert forall|a: int, b: int| 0 <= a < b < self@.len() implies (#[trigger] self@[
                a
            ]).key != (#[trigger] self@[b]).key by {
                if self@.len() < t.len() {
                    assert(self@[a] == t[a + 1] && self@[b] == t[b + 1]);
                } else {
                    assert(self@[a] == t[a] && self@[b] == t[b]);
                }
            }
        }
    }

    /// Number of cached inspections.
    pub fn len(&self) -> (r: usize)
        ensures
            r == self@.len(),
    {
        self.entries.len()
    }

    /// Whether an inspection for `key` is cached.
    pub fn contains(&self, key: &SelectionKey) -> (r: bool)
        ensures
            r == exists|i: int| 0 <= i < self@.len() && self@[i].key == *key,
    {
        match self.index_of(*key) {
            Some(i) => true,
            None => false,
        }
    }
}

/// With distinct keys, dropping the entry keyed like entry `i` is removing
/// entry `i`.
proof fn lemma_without_key_is_remove(s: Seq<DetailResult>, i: int)
    requires
        keys_distinct(s),
        0 <= i < s.len(),
    ensures
        without_key(s, s[i].key) == s.remove(i),
    decreases s.len(),
{
    let key = s[i].key;
    let f = |e: DetailResult| e.key != key;
    if i == s.len() - 1 {
        lemma_without_key_absent(s.drop_last(), key);
        assert(s.drop_last().filter(f) == s.drop_last());
        assert(s =~= s.drop_last().push(s.last()));
        s.drop_last().lemma_filter_push(s.last(), f);
        assert(s.remove(i) =~= s.drop_last());
    } else {
        let p = s.drop_last();
        assert(keys_distinct(p)) by {
            assert forall|a: int, b: int| 0 <= a < b < p.len() implies (#[trigger] p[a]).key
                != (#[trigger] p[b]).key by {
                assert(p[a] == s[a] && p[b] == s[b]);
            }
        }
        assert(p[i] == s[i]);
        lemma_without_key_is_remove(p, i);
        assert(s =~= p.push(s.last()));
        p.lemma_filter_push(s.last(), f);
        assert(s.last().key != key) by {
            assert(s[s.len() - 1] == s.last());
        }
        assert(s.remove(i) =~= p.remove(i).push(s.last()));
    }
}

/// Dropping a key nothing carries changes nothing.
proof fn lemma_without_key_absent(s: Seq<DetailResult>, key: SelectionKey)
    requires
        forall|i: int| 0 <= i < s.len() ==> s[i].key != key,
    ensures
        without_key(s, key) == s,
    decreases s.len(),
{
    let f = |e: DetailResult| e.key != key;
    if s.len() > 0 {
        let p = s.drop_last();
        lemma_without_key_absent(p, key);
        assert(s =~= p.push(s.last()));
        p.lemma_filter_push(s.last(), f);
        assert(s.last().key != key) by {
            assert(s[s.len() - 1] == s.last());
        }
    } else {
        assert(s.filter(f) =~= s);
    }
}

/// What is left after dropping a key has distinct keys, none of them `key`,
/// and is no longer than before.
proof fn lemma_filter_keeps_distinct(s: Seq<DetailResult>, key: SelectionKey)
    requires
        keys_distinct(s),
    ensures
        keys_distinct(without_key(s, key)),
        forall|i: int|
            0 <= i < without_key(s, key).len() ==> (#[trigger] without_key(s, key)[i]).key != key,
        without_key(s, key).len() <= s.len(),
        forall|e: DetailResult| #[trigger] without_key(s, key).contains(e) ==> s.contains(e),
    decreases s.len(),
{
    let f = |e: DetailResult| e.key != key;
    if s.len() > 0 {
        let p = s.drop_last();
        assert(keys_distinct(p)) by {
            assert forall|a: int, b: int| 0 <= a < b < p.len() implies (#[trigger] p[a]).key
                != (#[trigger] p[b]).key by {
                assert(p[a] == s[a] && p[b] == s[b]);
            }
        }
        lemma_filter_keeps_distinct(p, key);
        assert(s =~= p.push(s.last()));
        p.lemma_filter_push(s.last(), f);
        let w = without_key(p, key);
        if f(s.last()) {
            let t = w.push(s.last());
            assert forall|a: int, b: int| 0 <= a < b < t.len() implies (#[trigger] t[a]).key
                != (#[trigger] t[b]).key by {
                if b == t.len() - 1 {
                    assert(t[a] == w[a]);
                    assert(w.contains(w[a]));
                    assert(p.contains(w[a]));
                    let j = choose|j: int| 0 <= j < p.len() && p[j] == w[a];
                    assert(s[j] == p[j]);
                    assert(s[s.len() - 1] == s.last());
                } else {
                    assert(t[a] == w[a] && t[b] == w[b]);
                }
            }
            assert forall|e: DetailResult| #[trigger] t.contains(e) implies s.contains(e) by {
                if e == s.last() {
                    assert(s[s.len() - 1] == e);
                } else {
                    let j = choose|j: int| 0 <= j < t.len() && t[j] == e;
                    assert(w[j] == e);
                    assert(w.contains(e));
                    let q = choose|q: int| 0 <= q < p.len() && p[q] == e;
                    assert(s[q] == e);
                }
            }
            assert forall|i: int| 0 <= i < t.len() implies (#[trigger] t[i]).key != key by {
                if i < w.len() {
                    assert(t[i] == w[i]);
                }
            }
        } else {
            assert forall|e: DetailResult| #[trigger] w.contains(e) implies s.contains(e) by {
                let q = choose|q: int| 0 <= q < p.len() && p[q] == e;
                assert(s[q] == e);
            }
        }
    } else {
        assert(s.filter(f) =~= s);
    }
}

// ---------------------------------------------------------------------------
// Laws
// ---------------------------------------------------------------------------

/// The most recently used inspection survives storing one for another key:
/// eviction only ever takes the least recently used entry.
pub proof fn lemma_recent_entry_survives(s: Seq<DetailResult>, result: DetailResult)
    requires
        keys_distinct(s),
        s.len() <= CACHE_LIMIT,
        s.len() > 0,
        s.last().key != result.key,
    ensures
        stored(s, result).contains(s.last()),
{
    let f = |e: DetailResult| e.key != result.key;
    let p = s.drop_last();
    assert(s =~= p.push(s.last()));
    p.lemma_filter_push(s.last(), f);
    let w = without_key(p, result.key).push(s.last());
    assert(without_key(s, result.key) == w);
    let t = w.push(result);
    assert(t[w.len() - 1] == s.last());
    if t.len() > CACHE_LIMIT {
        assert(w.len() >= 2);
        assert(t.drop_first()[w.len() - 2] == s.last());
    }
}

/// The cache never holds more than `CACHE_LIMIT` inspections, and storing
/// one makes it retrievable.
pub proof fn lemma_stored_is_bounded_and_present(s: Seq<DetailResult>, result: DetailResult)
    requires
        keys_distinct(s),
        s.len() <= CACHE_LIMIT,
    ensures
        stored(s, result).len() <= CACHE_LIMIT,
        stored(s, result).last() == result,
{
    lemma_filter_keeps_distinct(s, result.key);
}

} // verus!
