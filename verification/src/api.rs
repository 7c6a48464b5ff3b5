//! The generic tree API.
//!
//! [`AbstractTree`] is the outward face of a multi-version key-value
//! store: callers read and write through it without knowing whether
//! values live inline or out of line.  Its contracts are stated over two
//! abstract per-key observations — the visible bytes and the winning
//! sequence number — which each implementation ties to its own state.

use vstd::prelude::*;
use crate::blob::BlobTree;
use crate::error::Error;
use crate::keys::lex_lt;
use crate::range::{Bound, in_bounds};

verus! {

/// Generic tree API: point reads and writes, deletes, ranged scans.
pub trait AbstractTree {
    /// The implementation's invariant, preserved by every operation.
    spec fn inv(&self) -> bool;

    /// The bytes a reader observes for key `k`, if any.
    spec fn visible_of(&self, k: Seq<u8>) -> Option<Seq<u8>>;

    /// The sequence number of the winning version of `k`, deleted or not.
    spec fn version_of(&self, k: Seq<u8>) -> Option<u64>;

    /// Retrieves the visible value of a key.
    fn get(&self, key: &Vec<u8>) -> (r: Result<Option<Vec<u8>>, Error>)
        requires
            self.inv(),
        ensures
            match r {
                Ok(Some(v)) => self.visible_of(key@) == Some(v@),
                Ok(None) => self.visible_of(key@) is None,
                Err(_) => false,
            };

    /// Inserts a key-value pair; a version at least as young as the
    /// current winner overwrites it.  Returns the entry's size and the
    /// memtable's size after the write.
    fn insert(&mut self, key: &Vec<u8>, value: &Vec<u8>, seqno: u64) -> (r: (u32, u32))
        requires
            old(self).inv(),
        ensures
            final(self).inv(),
            forall|k: Seq<u8>| k != key@ ==> {
                &&& final(self).visible_of(k) == old(self).visible_of(k)
                &&& final(self).version_of(k) == old(self).version_of(k)
            },
            (match old(self).version_of(key@) {
                Some(s0) => if seqno >= s0 {
                    final(self).visible_of(key@) == Some(value@)
                        && final(self).version_of(key@) == Some(seqno)
                } else {
                    final(self).visible_of(key@) == old(self).visible_of(key@)
                        && final(self).version_of(key@) == old(self).version_of(key@)
                },
                None => final(self).visible_of(key@) == Some(value@)
                    && final(self).version_of(key@) == Some(seqno),
            });

    /// Removes a key; a tombstone at least as young as the current
    /// winner makes the key read as absent.
    fn remove(&mut self, key: &Vec<u8>, seqno: u64) -> (r: (u32, u32))
        requires
            old(self).inv(),
        ensures
            final(self).inv(),
            forall|k: Seq<u8>| k != key@ ==> {
                &&& final(self).visible_of(k) == old(self).visible_of(k)
                &&& final(self).version_of(k) == old(self).version_of(k)
            },
            (match old(self).version_of(key@) {
                Some(s0) => if seqno >= s0 {
                    final(self).visible_of(key@) is None
                        && final(self).version_of(key@) == Some(seqno)
                } else {
                    final(self).visible_of(key@) == old(self).visible_of(key@)
                        && final(self).version_of(key@) == old(self).version_of(key@)
                },
                None => final(self).visible_of(key@) is None
                    && final(self).version_of(key@) == Some(seqno),
            });

    /// Scans a range of keys in ascending order: strictly sorted, inside
    /// the bounds, and holding exactly the visible keys of the range.
    fn range(&self, lo: Bound, hi: Bound) -> (r: Vec<(Vec<u8>, Vec<u8>)>)
        requires
            self.inv(),
        ensures
            forall|i: int| 0 <= i < r@.len()
                ==> in_bounds((#[trigger] r@[i]).0@, lo, hi),
            forall|i: int| 0 <= i < r@.len()
                ==> self.visible_of((#[trigger] r@[i]).0@) == Some(r@[i].1@),
            forall|i: int, j: int| 0 <= i < j < r@.len()
                ==> lex_lt(r@[i].0@, r@[j].0@),
            forall|k: Seq<u8>| in_bounds(k, lo, hi) && self.visible_of(k) is Some
                ==> exists|i: int| 0 <= i < r@.len() && (#[trigger] r@[i]).0@ == k;

    /// Scans the entire tree in ascending key order.
    fn iter(&self) -> (r: Vec<(Vec<u8>, Vec<u8>)>)
        requires
            self.inv(),
        ensures
            forall|i: int| 0 <= i < r@.len()
                ==> self.visible_of((#[trigger] r@[i]).0@) == Some(r@[i].1@),
            forall|i: int, j: int| 0 <= i < j < r@.len()
                ==> lex_lt(r@[i].0@, r@[j].0@),
            forall|k: Seq<u8>| self.visible_of(k) is Some
                ==> exists|i: int| 0 <= i < r@.len() && (#[trigger] r@[i]).0@ == k;

    /// Scans the entire tree, returning the number of visible items:
    /// the length of any full, sorted, duplicate-free listing.  O(n).
    fn len(&self) -> (r: usize)
        requires
            self.inv(),
        ensures
            exists|s: Seq<(Seq<u8>, Seq<u8>)>| {
                &&& r == s.len()
                &&& forall|i: int| 0 <= i < s.len()
                    ==> self.visible_of((#[trigger] s[i]).0) == Some(s[i].1)
                &&& forall|i: int, j: int| 0 <= i < j < s.len() ==> lex_lt(s[i].0, s[j].0)
                &&& forall|k: Seq<u8>| self.visible_of(k) is Some
                    ==> exists|i: int| 0 <= i < s.len() && (#[trigger] s[i]).0 == k
            };
}

impl AbstractTree for BlobTree {
    open spec fn inv(&self) -> bool {
        self.wf()
    }

    open spec fn visible_of(&self, k: Seq<u8>) -> Option<Seq<u8>> {
        self.visible(k)
    }

    open spec fn version_of(&self, k: Seq<u8>) -> Option<u64> {
        self.version(k)
    }

    fn get(&self, key: &Vec<u8>) -> (r: Result<Option<Vec<u8>>, Error>) {
        BlobTree::get(self, key)
    }

    fn insert(&mut self, key: &Vec<u8>, value: &Vec<u8>, seqno: u64) -> (r: (u32, u32)) {
        BlobTree::insert(self, key, value, seqno)
    }

    fn remove(&mut self, key: &Vec<u8>, seqno: u64) -> (r: (u32, u32)) {
        BlobTree::remove(self, key, seqno)
    }

    fn range(&self, lo: Bound, hi: Bound) -> (r: Vec<(Vec<u8>, Vec<u8>)>) {
        BlobTree::range(self, lo, hi)
    }

    fn iter(&self) -> (r: Vec<(Vec<u8>, Vec<u8>)>) {
        BlobTree::iter(self)
    }

    fn len(&self) -> (r: usize) {
        BlobTree::len(self)
    }
}

} // verus!
