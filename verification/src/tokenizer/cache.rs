//! Memory of finished merges. The lock in front of it is never waited for:
//! a caller that finds it taken goes on without the cache and merges anew.
use vstd::hash_map::StringHashMap;
use vstd::prelude::*;
use crate::text::views_of;
use crate::tokenizer::merging::{bpe_pieces, piece_lengths};
use crate::vocab::bpe_vocab::PiecePair;

verus! {

/// Who else holds the lock of a cache when a caller arrives.
#[derive(Debug, PartialEq, Eq, Clone, Copy, Structural)]
pub enum LockState {
    /// Nobody: the caller may read and write.
    Free,
    /// Readers: the caller may read with them, and may not write.
    Shared,
    /// A writer: the caller may neither read nor write.
    Exclusive,
}

/// What the cache remembers of a text: its pieces and the number of
/// characters of each.
pub type Merged = (Vec<String>, Vec<usize>);

/// Finished merges by text, behind a lock that is only ever tried.
pub struct BpeCache {
    /// The merges that are remembered.
    pub entries: StringHashMap<Merged>,
    /// Who else holds the lock.
    pub lock: LockState,
}

impl BpeCache {
    /// Every remembered merge is the merge of its text under the given ranks.
    pub open spec fn holds_merges_of(&self, ranks: Map<PiecePair, i64>) -> bool {
        forall|text: Seq<char>| #[trigger]
            self.entries@.contains_key(text) ==> {
                &&& views_of(self.entries@[text].0@) == bpe_pieces(text, ranks)
                &&& self.entries@[text].1@ == piece_lengths(bpe_pieces(text, ranks))
            }
    }

    /// Whether a caller may read now.
    pub open spec fn readable(&self) -> bool {
        self.lock != LockState::Exclusive
    }

    /// Whether a caller may write now.
    pub open spec fn writable(&self) -> bool {
        self.lock == LockState::Free
    }

    /// An empty cache whose lock is free.
    pub fn new() -> (r: BpeCache)
        ensures
            r.lock == LockState::Free,
            r.entries@ == Map::<Seq<char>, Merged>::empty(),
            forall|ranks: Map<PiecePair, i64>| r.holds_merges_of(ranks),
    {
        BpeCache { entries: StringHashMap::new(), lock: LockState::Free }
    }

    /// Number of remembered merges.
    pub fn len(&self) -> (r: usize)
        ensures
            r == self.entries@.len(),
    {
        broadcast use vstd::hash_map::axiom_string_hash_map_spec_len;

        self.entries.len()
    }

    /// Puts the lock into another party's hands, or frees it.
    pub fn set_lock(&mut self, lock: LockState)
        ensures
            final(self).lock == lock,
            final(self).entries == old(self).entries,
    {
        self.lock = lock;
    }

    /// The remembered merge of a text, if the lock lets a reader in and the
    /// text has one. Never waits.
    pub fn try_get(&self, text: &str) -> (r: Option<&Merged>)
        ensures
            match r {
                Some(merged) => self.readable() && self.entries@.contains_key(text@)
                    && *merged == self.entries@[text@],
                None => !self.readable() || !self.entries@.contains_key(text@),
            },
    {
        match self.lock {
            LockState::Exclusive => None,
            _ => self.entries.get(text),
        }
    }

    /// Remembers the merge of a text if the lock lets a writer in, and says
    /// whether it did. Never waits.
    pub fn try_insert(&mut self, text: String, merged: Merged) -> (r: bool)
        ensures
            r == old(self).writable(),
            final(self).lock == old(self).lock,
            final(self).entries@ == if r {
                old(self).entries@.insert(text@, merged)
            } else {
                old(self).entries@
            },
    {
        match self.lock {
            LockState::Free => {
                self.entries.insert(text, merged);
                true
            },
            _ => false,
        }
    }
}

} // verus!
