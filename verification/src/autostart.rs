//! Index of executables configured to start on their own.
//!
//! "This process is running" and "this process would come back after a reboot"
//! are different facts, and the second is the one that decides whether an
//! unexpected binary is worth acting on.
//!
//! Matching is by exact executable path, with the same normalization the
//! baseline uses. A startup entry whose command line merely *mentions* a path
//! does not count as that path starting automatically.

use crate::paths::{normalize_path, normalized_path};
use crate::table::{distinct_texts, insert_text, position_of, text_set};
use vstd::prelude::*;

verus! {

/// The executables of the startup entries, normalized, each kept once.
#[derive(Clone, Debug)]
pub struct AutostartIndex {
    executables: Vec<String>,
}

impl View for AutostartIndex {
    type V = Set<Seq<char>>;

    closed spec fn view(&self) -> Set<Seq<char>> {
        text_set(self.executables@)
    }
}

impl AutostartIndex {
    /// Each executable is kept once.
    pub closed spec fn wf(&self) -> bool {
        distinct_texts(self.executables@)
    }

    /// An index with no entries.
    pub fn new() -> (r: AutostartIndex)
        ensures
            r.wf(),
            r@ == Set::<Seq<char>>::empty(),
    {
        AutostartIndex { executables: Vec::new() }
    }

    /// An index holding exactly the given executables (already normalized).
    pub fn from_executables(executables: Vec<String>) -> (r: AutostartIndex)
        ensures
            r.wf(),
            r@ == text_set(executables@),
    {
        let mut index = AutostartIndex::new();
        let mut i: usize = 0;
        while i < executables.len()
            invariant
                i <= executables.len(),
                index.wf(),
                index@ == text_set(executables@.take(i as int)),
            decreases executables.len() - i,
        {
            index.insert(executables[i].clone());
            assert(executables@.take(i + 1).drop_last() =~= executables@.take(i as int));
            i = i + 1;
        }
        assert(executables@.take(executables.len() as int) =~= executables@);
        index
    }

    /// Records the executable of one startup entry (already normalized).
    pub fn insert(&mut self, executable: String)
        requires
            old(self).wf(),
        ensures
            final(self).wf(),
            final(self)@ == old(self)@.insert(executable@),
    {
        insert_text(&mut self.executables, executable);
    }

    /// True when `path` is the exact executable of some startup entry.
    pub fn contains(&self, path: &str) -> (r: bool)
        ensures
            r == (normalized_path(path@).len() > 0 && self@.contains(normalized_path(path@))),
    {
        let normalized = normalize_path(path);
        if normalized.as_str().is_empty() {
            return false;
        }
        match position_of(&self.executables, normalized.as_str()) {
            Some(i) => {
                proof {
                    crate::table::lemma_text_set(self.executables@);
                }
                true
            },
            None => false,
        }
    }
}

} // verus!
