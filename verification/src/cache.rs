//! The File Cache: least-recently-used bookkeeping of open file
//! handles, keyed by absolute path, with per-entry dirty flags and an
//! open-handle ceiling. The cache decides which handle to open, close
//! or flush; the runner performs the syscalls.
use vstd::prelude::*;

use crate::fs::bytes_eq;

verus! {

/// Bookkeeping for one open handle.
pub struct CacheEntry {
    /// Absolute path of the open file.
    pub path: Vec<u8>,
    /// The handle has unflushed writes.
    pub dirty: bool,
    /// Pre-allocation was already attempted for this file.
    pub allocated: bool,
}

/// An LRU set of open file handles bounded by a configured capacity.
pub struct FileCache {
    /// Entries in recency order: the front is the least recently used.
    pub entries: Vec<CacheEntry>,
    /// Open-handle ceiling.
    pub capacity: usize,
}

impl FileCache {
    /// The handle count respects the ceiling and paths are distinct.
    pub open spec fn wf(self) -> bool {
        &&& self.capacity >= 1
        &&& self.entries.len() <= self.capacity
        &&& forall|i: int, j: int|
            0 <= i < j < self.entries.len() ==> self.entries[i].path@ != self.entries[j].path@
    }

    /// An open handle exists for `path`.
    pub open spec fn has_entry(self, path: Seq<u8>) -> bool {
        exists|i: int| 0 <= i < self.entries.len() && self.entries[i].path@ == path
    }

    /// Index of the entry for `path`.
    pub open spec fn index_of(self, path: Seq<u8>) -> int {
        choose|i: int| 0 <= i < self.entries.len() && self.entries[i].path@ == path
    }

    /// The entry for `path`.
    pub open spec fn entry_at(self, path: Seq<u8>) -> CacheEntry {
        self.entries[self.index_of(path)]
    }

    /// The open-handle count never exceeds the configured capacity.
    pub proof fn lemma_handle_count_bounded(self)
        requires
            self.wf(),
        ensures
            self.entries.len() <= self.capacity,
    {
    }

    /// In a well-formed cache the entry found at index `i` is the one
    /// `has_entry`/`entry_at` speak of.
    pub proof fn lemma_at(self, i: int)
        requires
            self.wf(),
            0 <= i < self.entries.len(),
        ensures
            self.has_entry(self.entries[i].path@),
            self.index_of(self.entries[i].path@) == i,
            self.entry_at(self.entries[i].path@) == self.entries[i],
    {
        let p = self.entries[i].path@;
        assert(self.has_entry(p));
        let j = self.index_of(p);
        assert(0 <= j < self.entries.len() && self.entries[j].path@ == p);
        if i != j {
            assert(false);
        }
    }

    /// An empty cache with the given open-handle ceiling.
    pub fn new(capacity: usize) -> (r: FileCache)
        requires
            capacity >= 1,
        ensures
            r.wf(),
            r.capacity == capacity,
            forall|p: Seq<u8>| !r.has_entry(p),
    {
        FileCache { entries: Vec::new(), capacity }
    }

    fn find_idx(&self, path: &Vec<u8>) -> (r: Option<usize>)
        ensures
            match r {
                Some(i) => i < self.entries.len() && self.entries[i as int].path@ == path@,
                None => forall|i: int|
                    0 <= i < self.entries.len() ==> self.entries[i].path@ != path@,
            },
    {
        let mut i: usize = 0;
        while i < self.entries.len()
            invariant
                i <= self.entries.len(),
                forall|j: int| 0 <= j < i ==> self.entries[j].path@ != path@,
            decreases self.entries.len() - i,
        {
            if bytes_eq(&self.entries[i].path, path) {
                return Some(i);
            }
            i = i + 1;
        }
        None
    }

    /// Touches `path` for a read or a write: refreshes its recency,
    /// opens an entry if none exists, and when the cache is full evicts
    /// the least recently used handle, returning it so the runner can
    /// flush (if dirty) and close it.
    pub fn touch(&mut self, path: &Vec<u8>, write: bool) -> (evicted: Option<CacheEntry>)
        requires
            old(self).wf(),
        ensures
            final(self).wf(),
            final(self).capacity == old(self).capacity,
            final(self).has_entry(path@),
            // the touched entry moves to the most recent slot
            final(self).entries.len() > 0 && final(self).entries[final(self).entries.len()
                - 1].path@ == path@,
            final(self).entry_at(path@).dirty == (write || (old(self).has_entry(path@) && old(
                self,
            ).entry_at(path@).dirty)),
            // eviction happens exactly when a new entry would overflow
            match evicted {
                Some(e) => !old(self).has_entry(path@) && old(self).entries.len() == old(
                    self,
                ).capacity && e == old(self).entries[0] && !final(self).has_entry(e.path@),
                None => old(self).has_entry(path@) || old(self).entries.len() < old(
                    self,
                ).capacity,
            },
            // every other handle survives, with its flags unchanged
            forall|p: Seq<u8>|
                p != path@ && (match evicted {
                    Some(e) => p != e.path@,
                    None => true,
                }) ==> final(self).has_entry(p) == old(self).has_entry(p),
            forall|p: Seq<u8>|
                p != path@ && (match evicted {
                    Some(e) => p != e.path@,
                    None => true,
                }) && old(self).has_entry(p) ==> final(self).entry_at(p) == old(self).entry_at(p),
    {
        let found = self.find_idx(path);
        let ghost pre = *self;
        match found {
            Some(i) => {
                proof {
                    self.lemma_at(i as int);
                }
                let mut e = self.entries.remove(i);
                let ghost mid = *self;
                e.dirty = e.dirty || write;
                let ghost moved = e;
                self.entries.push(e);
                proof {
                    let n = mid.entries.len() as int;
                    assert(self.entries[n] == moved);
                    assert(forall|k: int| 0 <= k < n ==> self.entries[k] == mid.entries[k]);
                    assert(forall|k: int|
                        0 <= k < n ==> #[trigger] mid.entries[k] == (if k < i {
                            pre.entries[k]
                        } else {
                            pre.entries[k + 1]
                        }));
                    assert(self.wf());
                    self.lemma_at(n);
                    assert forall|p: Seq<u8>| p != path@ implies final(self).has_entry(p) == pre
                        .has_entry(p) && (pre.has_entry(p) ==> final(self).entry_at(p) == pre
                        .entry_at(p)) by {
                        if pre.has_entry(p) {
                            let j = pre.index_of(p);
                            assert(0 <= j < pre.entries.len() && pre.entries[j].path@ == p);
                            assert(j != i);
                            let j2 = if j < i {
                                j
                            } else {
                                j - 1
                            };
                            assert(self.entries[j2] == pre.entries[j]);
                            self.lemma_at(j2);
                            pre.lemma_at(j);
                        }
                        if self.has_entry(p) {
                            let j = self.index_of(p);
                            assert(0 <= j < self.entries.len() && self.entries[j].path@ == p);
                            assert(j != n);
                            let j2 = if j < i {
                                j
                            } else {
                                j + 1
                            };
                            assert(pre.entries[j2] == self.entries[j]);
                            pre.lemma_at(j2);
                        }
                    }
                }
                None
            },
            None => {
                proof {
                    if self.has_entry(path@) {
                        let i = choose|i: int|
                            0 <= i < self.entries.len() && self.entries[i].path@ == path@;
                        assert(false);
                    }
                }
                let evicted: Option<CacheEntry> = if self.entries.len() >= self.capacity {
                    proof {
                        self.lemma_at(0);
                    }
                    Some(self.entries.remove(0))
                } else {
                    None
                };
                let ghost mid = *self;
                self.entries.push(CacheEntry { path: path.clone(), dirty: write, allocated: false });
                proof {
                    let n = mid.entries.len() as int;
                    assert(self.entries[n].path@ =~= path@);
                    assert(forall|k: int| 0 <= k < n ==> self.entries[k] == mid.entries[k]);
                    assert(forall|k: int|
                        0 <= k < n ==> #[trigger] mid.entries[k] == (match evicted {
                            Some(_) => pre.entries[k + 1],
                            None => pre.entries[k],
                        }));
                    assert(self.wf());
                    self.lemma_at(n);
                    if evicted is Some {
                        let e = evicted->Some_0;
                        if self.has_entry(e.path@) {
                            let j = self.index_of(e.path@);
                            assert(0 <= j < self.entries.len() && self.entries[j].path@
                                == e.path@);
                            assert(j != n);
                            assert(pre.entries[j + 1].path@ == e.path@ && pre.entries[0].path@
                                == e.path@);
                            assert(false);
                        }
                    }
                    assert forall|p: Seq<u8>|
                        p != path@ && (match evicted {
                            Some(e) => p != e.path@,
                            None => true,
                        }) implies final(self).has_entry(p) == pre.has_entry(p) && (pre.has_entry(
                        p,
                    ) ==> final(self).entry_at(p) == pre.entry_at(p)) by {
                        if pre.has_entry(p) {
                            let j = pre.index_of(p);
                            assert(0 <= j < pre.entries.len() && pre.entries[j].path@ == p);
                            let j2 = match evicted {
                                Some(_) => j - 1,
                                None => j,
                            };
                            assert(self.entries[j2] == pre.entries[j]);
                            self.lemma_at(j2);
                            pre.lemma_at(j);
                        }
                        if self.has_entry(p) {
                            let j = self.index_of(p);
                            assert(0 <= j < self.entries.len() && self.entries[j].path@ == p);
                            assert(j != n);
                            let j2 = match evicted {
                                Some(_) => j + 1,
                                None => j,
                            };
                            assert(pre.entries[j2] == self.entries[j]);
                            pre.lemma_at(j2);
                        }
                    }
                }
                evicted
            },
        }
    }

    /// Whether pre-allocation was already attempted for `path`'s file.
    pub fn is_allocated(&self, path: &Vec<u8>) -> (r: bool)
        requires
            self.wf(),
        ensures
            r == (self.has_entry(path@) && self.entry_at(path@).allocated),
    {
        match self.find_idx(path) {
            Some(i) => {
                proof {
                    self.lemma_at(i as int);
                }
                self.entries[i].allocated
            },
            None => {
                proof {
                    if self.has_entry(path@) {
                        let i = choose|i: int|
                            0 <= i < self.entries.len() && self.entries[i].path@ == path@;
                        assert(false);
                    }
                }
                false
            },
        }
    }

    /// Records that pre-allocation was attempted for `path`'s file, so
    /// it is not tried again while the handle stays open.
    pub fn note_allocated(&mut self, path: &Vec<u8>)
        requires
            old(self).wf(),
        ensures
            final(self).wf(),
            final(self).capacity == old(self).capacity,
            final(self).has_entry(path@) == old(self).has_entry(path@),
            final(self).has_entry(path@) ==> final(self).entry_at(path@).allocated,
            forall|p: Seq<u8>|
                p != path@ ==> final(self).has_entry(p) == old(self).has_entry(p),
            forall|p: Seq<u8>|
                p != path@ && old(self).has_entry(p) ==> final(self).entry_at(p) == old(
                    self,
                ).entry_at(p),
    {
        let ghost pre = *self;
        match self.find_idx(path) {
            Some(i) => {
                proof {
                    self.lemma_at(i as int);
                }
                let mut e = self.entries.remove(i);
                e.allocated = true;
                self.entries.insert(i, e);
                proof {
                    assert(forall|k: int|
                        0 <= k < self.entries.len() && k != i ==> self.entries[k]
                            == pre.entries[k]);
                    assert(self.entries[i as int].path@ == path@);
                    assert(self.wf());
                    self.lemma_at(i as int);
                    assert forall|p: Seq<u8>| p != path@ implies final(self).has_entry(p) == pre
                        .has_entry(p) && (pre.has_entry(p) ==> final(self).entry_at(p) == pre
                        .entry_at(p)) by {
                        if pre.has_entry(p) {
                            let j = pre.index_of(p);
                            assert(0 <= j < pre.entries.len() && pre.entries[j].path@ == p);
                            assert(j != i);
                            assert(self.entries[j] == pre.entries[j]);
                            self.lemma_at(j);
                            pre.lemma_at(j);
                        }
                        if self.has_entry(p) {
                            let j = self.index_of(p);
                            assert(0 <= j < self.entries.len() && self.entries[j].path@ == p);
                            assert(j != i);
                            assert(pre.entries[j] == self.entries[j]);
                            pre.lemma_at(j);
                        }
                    }
                }
            },
            None => {
                proof {
                    if self.has_entry(path@) {
                        let i = choose|i: int|
                            0 <= i < self.entries.len() && self.entries[i].path@ == path@;
                        assert(false);
                    }
                }
            },
        }
    }

    /// Clears the dirty flag of `path`'s entry; the runner flushes the
    /// handle. Returns whether the entry existed and was dirty.
    pub fn flush_file(&mut self, path: &Vec<u8>) -> (was_dirty: bool)
        requires
            old(self).wf(),
        ensures
            final(self).wf(),
            final(self).capacity == old(self).capacity,
            was_dirty == (old(self).has_entry(path@) && old(self).entry_at(path@).dirty),
            final(self).has_entry(path@) == old(self).has_entry(path@),
            final(self).has_entry(path@) ==> !final(self).entry_at(path@).dirty,
            forall|p: Seq<u8>|
                p != path@ ==> final(self).has_entry(p) == old(self).has_entry(p),
            forall|p: Seq<u8>|
                p != path@ && old(self).has_entry(p) ==> final(self).entry_at(p) == old(
                    self,
                ).entry_at(p),
    {
        let ghost pre = *self;
        match self.find_idx(path) {
            Some(i) => {
                proof {
                    self.lemma_at(i as int);
                }
                let was = self.entries[i].dirty;
                let mut e = self.entries.remove(i);
                e.dirty = false;
                self.entries.insert(i, e);
                proof {
                    assert(forall|k: int|
                        0 <= k < self.entries.len() && k != i ==> self.entries[k]
                            == pre.entries[k]);
                    assert(self.entries[i as int].path@ == path@);
                    assert(self.wf());
                    self.lemma_at(i as int);
                    assert forall|p: Seq<u8>| p != path@ implies final(self).has_entry(p) == pre
                        .has_entry(p) && (pre.has_entry(p) ==> final(self).entry_at(p) == pre
                        .entry_at(p)) by {
                        if pre.has_entry(p) {
                            let j = pre.index_of(p);
                            assert(0 <= j < pre.entries.len() && pre.entries[j].path@ == p);
                            assert(j != i);
                            assert(self.entries[j] == pre.entries[j]);
                            self.lemma_at(j);
                            pre.lemma_at(j);
                        }
                        if self.has_entry(p) {
                            let j = self.index_of(p);
                            assert(0 <= j < self.entries.len() && self.entries[j].path@ == p);
                            assert(j != i);
                            assert(pre.entries[j] == self.entries[j]);
                            pre.lemma_at(j);
                        }
                    }
                }
                was
            },
            None => {
                proof {
                    if self.has_entry(path@) {
                        let i = choose|i: int|
                            0 <= i < self.entries.len() && self.entries[i].path@ == path@;
                        assert(false);
                    }
                }
                false
            },
        }
    }

    /// Evicts the entry for `path`, returning it so the runner can
    /// close (and flush) the handle. The file itself is untouched.
    pub fn remove_file(&mut self, path: &Vec<u8>) -> (removed: Option<CacheEntry>)
        requires
            old(self).wf(),
        ensures
            final(self).wf(),
            final(self).capacity == old(self).capacity,
            !final(self).has_entry(path@),
            match removed {
                Some(e) => old(self).has_entry(path@) && e == old(self).entry_at(path@),
                None => !old(self).has_entry(path@),
            },
            forall|p: Seq<u8>|
                p != path@ ==> final(self).has_entry(p) == old(self).has_entry(p),
            forall|p: Seq<u8>|
                p != path@ && old(self).has_entry(p) ==> final(self).entry_at(p) == old(
                    self,
                ).entry_at(p),
    {
        let ghost pre = *self;
        match self.find_idx(path) {
            Some(i) => {
                proof {
                    self.lemma_at(i as int);
                }
                let e = self.entries.remove(i);
                proof {
                    assert(forall|k: int|
                        0 <= k < self.entries.len() ==> #[trigger] self.entries[k] == (if k < i {
                            pre.entries[k]
                        } else {
                            pre.entries[k + 1]
                        }));
                    assert(self.wf());
                    if self.has_entry(path@) {
                        let j = self.index_of(path@);
                        assert(0 <= j < self.entries.len() && self.entries[j].path@ == path@);
                        assert(false);
                    }
                    assert forall|p: Seq<u8>| p != path@ implies final(self).has_entry(p) == pre
                        .has_entry(p) && (pre.has_entry(p) ==> final(self).entry_at(p) == pre
                        .entry_at(p)) by {
                        if pre.has_entry(p) {
                            let j = pre.index_of(p);
                            assert(0 <= j < pre.entries.len() && pre.entries[j].path@ == p);
                            assert(j != i);
                            let j2 = if j < i {
                                j
                            } else {
                                j - 1
                            };
                            assert(self.entries[j2] == pre.entries[j]);
                            self.lemma_at(j2);
                            pre.lemma_at(j);
                        }
                        if self.has_entry(p) {
                            let j = self.index_of(p);
                            assert(0 <= j < self.entries.len() && self.entries[j].path@ == p);
                            let j2 = if j < i {
                                j
                            } else {
                                j + 1
                            };
                            assert(pre.entries[j2] == self.entries[j]);
                            pre.lemma_at(j2);
                        }
                    }
                }
                Some(e)
            },
            None => {
                proof {
                    if self.has_entry(path@) {
                        let i = choose|i: int|
                            0 <= i < self.entries.len() && self.entries[i].path@ == path@;
                        assert(false);
                    }
                }
                None
            },
        }
    }
}

} // verus!
