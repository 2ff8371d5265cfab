//! The filesystem as the engine sees it: a flat store of files keyed by
//! absolute path. This model gives the write, read, rename and remove
//! operations the executor is verified against; an unverified runner
//! mirrors them onto the real filesystem.
use vstd::prelude::*;

verus! {

/// Failure taxonomy surfaced to the control plane.
#[derive(Clone, Copy, PartialEq, Eq, Structural, Debug)]
pub enum IoKind {
    /// Out of disk space.
    NoSpace,
    /// Generic filesystem failure.
    Io,
    /// Path does not exist.
    NotFound,
    /// Rename across filesystems.
    CrossDevice,
    /// Filesystem statistics unavailable.
    Stat,
}

/// What one pre-allocation attempt observed from the kernel.
#[derive(Debug, Clone, Copy, PartialEq, Eq, Structural)]
pub enum AllocEvent {
    /// The space was allocated.
    Allocated,
    /// The filesystem does not support allocation.
    Unsupported,
    /// The kernel lacks the call.
    NoSys,
    /// The disk is full.
    NoSpace,
    /// The call was interrupted.
    Interrupted,
    /// Any other failure.
    Failed,
}

/// The next step of best-effort pre-allocation.
#[derive(Debug, Clone, Copy, PartialEq, Eq, Structural)]
pub enum AllocAction {
    /// The file is fully allocated.
    Done,
    /// Extend the file's length instead of allocating.
    FallbackSetLen,
    /// Try the call again.
    Retry,
    /// Surface the failure.
    Fail(IoKind),
}

/// How pre-allocation answers each kernel outcome: unsupported
/// filesystems fall back to a plain length extension, a full disk is
/// surfaced as `NoSpace`, an interrupted call is retried, and any
/// other failure is surfaced.
pub fn alloc_decision(ev: &AllocEvent) -> (r: AllocAction)
    ensures
        r == (match *ev {
            AllocEvent::Allocated => AllocAction::Done,
            AllocEvent::Unsupported => AllocAction::FallbackSetLen,
            AllocEvent::NoSys => AllocAction::FallbackSetLen,
            AllocEvent::NoSpace => AllocAction::Fail(IoKind::NoSpace),
            AllocEvent::Interrupted => AllocAction::Retry,
            AllocEvent::Failed => AllocAction::Fail(IoKind::Io),
        }),
{
    match *ev {
        AllocEvent::Allocated => AllocAction::Done,
        AllocEvent::Unsupported | AllocEvent::NoSys => AllocAction::FallbackSetLen,
        AllocEvent::NoSpace => AllocAction::Fail(IoKind::NoSpace),
        AllocEvent::Interrupted => AllocAction::Retry,
        AllocEvent::Failed => AllocAction::Fail(IoKind::Io),
    }
}

/// One file of the model store.
pub struct MemFile {
    /// Absolute path.
    pub path: Vec<u8>,
    /// Contents.
    pub data: Vec<u8>,
}

/// An in-memory filesystem: a flat set of files with distinct paths.
pub struct MemFs {
    /// The files, in no particular order.
    pub files: Vec<MemFile>,
}

/// `n` zero bytes.
pub open spec fn zeros(n: int) -> Seq<u8> {
    Seq::new(n as nat, |i: int| 0u8)
}

/// Contents of a file after writing `data` at `offset`: the file is
/// zero-extended to cover the write, bytes outside it are untouched.
pub open spec fn write_spec(content: Seq<u8>, offset: int, data: Seq<u8>) -> Seq<u8> {
    Seq::new(
        vstd::math::max(content.len() as int, offset + data.len()) as nat,
        |i: int|
            if offset <= i < offset + data.len() {
                data[i - offset]
            } else if i < content.len() {
                content[i]
            } else {
                0u8
            },
    )
}

/// A write to one range of a file leaves the bytes of every disjoint
/// range in place: a later `Write` does not disturb what an earlier
/// one laid down elsewhere in the same file.
pub proof fn lemma_write_disjoint_range_preserved(
    content: Seq<u8>,
    offset: int,
    data: Seq<u8>,
    lo: int,
    hi: int,
)
    requires
        0 <= lo <= hi <= content.len(),
        offset >= 0,
        hi <= offset || offset + data.len() <= lo,
    ensures
        write_spec(content, offset, data).subrange(lo, hi) == content.subrange(lo, hi),
{
    assert(write_spec(content, offset, data).subrange(lo, hi) =~= content.subrange(lo, hi));
}

/// Byte-wise equality of two paths.
pub fn bytes_eq(a: &Vec<u8>, b: &Vec<u8>) -> (r: bool)
    ensures
        r == (a@ == b@),
{
    if a.len() != b.len() {
        assert(a@ != b@);
        return false;
    }
    let mut i: usize = 0;
    while i < a.len()
        invariant
            i <= a@.len(),
            a@.len() == b@.len(),
            forall|j: int| 0 <= j < i ==> a@[j] == b@[j],
        decreases a@.len() - i,
    {
        if a[i] != b[i] {
            assert(a@ != b@);
            return false;
        }
        i = i + 1;
    }
    assert(a@ =~= b@);
    true
}

impl MemFs {
    /// Paths are distinct: for any path, at most one file.
    pub open spec fn wf(self) -> bool {
        forall|i: int, j: int|
            0 <= i < j < self.files.len() ==> self.files[i].path@ != self.files[j].path@
    }

    /// A file exists at `path`.
    pub open spec fn has_file(self, path: Seq<u8>) -> bool {
        exists|i: int| 0 <= i < self.files.len() && self.files[i].path@ == path
    }

    /// Index of the file at `path`.
    pub open spec fn index_of(self, path: Seq<u8>) -> int {
        choose|i: int| 0 <= i < self.files.len() && self.files[i].path@ == path
    }

    /// Contents of the file at `path`.
    pub open spec fn data_at(self, path: Seq<u8>) -> Seq<u8> {
        self.files[self.index_of(path)].data@
    }

    /// In a well-formed store, the file found at index `i` is the file
    /// `has_file`/`data_at` speak of.
    pub proof fn lemma_at(self, i: int)
        requires
            self.wf(),
            0 <= i < self.files.len(),
        ensures
            self.has_file(self.files[i].path@),
            self.index_of(self.files[i].path@) == i,
            self.data_at(self.files[i].path@) == self.files[i].data@,
    {
        let p = self.files[i].path@;
        assert(self.has_file(p));
        let j = self.index_of(p);
        assert(0 <= j < self.files.len() && self.files[j].path@ == p);
        if i != j {
            assert(false);
        }
    }

    /// An empty store.
    pub fn new() -> (r: MemFs)
        ensures
            r.wf(),
            forall|p: Seq<u8>| !r.has_file(p),
    {
        MemFs { files: Vec::new() }
    }

    fn find_idx(&self, path: &Vec<u8>) -> (r: Option<usize>)
        ensures
            match r {
                Some(i) => i < self.files.len() && self.files[i as int].path@ == path@,
                None => forall|i: int|
                    0 <= i < self.files.len() ==> self.files[i].path@ != path@,
            },
    {
        let mut i: usize = 0;
        while i < self.files.len()
            invariant
                i <= self.files.len(),
                forall|j: int| 0 <= j < i ==> self.files[j].path@ != path@,
            decreases self.files.len() - i,
        {
            if bytes_eq(&self.files[i].path, path) {
                return Some(i);
            }
            i = i + 1;
        }
        None
    }

    /// A file exists at `path`.
    pub fn exists_file(&self, path: &Vec<u8>) -> (r: bool)
        ensures
            r == self.has_file(path@),
    {
        match self.find_idx(path) {
            Some(i) => {
                proof {
                    assert(self.has_file(path@));
                }
                true
            },
            None => {
                proof {
                    if self.has_file(path@) {
                        let i = choose|i: int|
                            0 <= i < self.files.len() && self.files[i].path@ == path@;
                        assert(false);
                    }
                }
                false
            },
        }
    }

    /// Writes `data` at `offset` of the file at `path`, creating it if
    /// absent. A newly created file starts as `len_hint` zero bytes
    /// when `allocate` asks for pre-allocation, else empty.
    pub fn write_range(
        &mut self,
        path: &Vec<u8>,
        allocate: bool,
        len_hint: u64,
        offset: u64,
        data: &[u8],
    )
        requires
            old(self).wf(),
            offset + data@.len() <= usize::MAX,
            allocate ==> len_hint <= usize::MAX,
        ensures
            final(self).wf(),
            final(self).has_file(path@),
            final(self).data_at(path@) == write_spec(
                old(self).init_content(path@, allocate, len_hint),
                offset as int,
                data@,
            ),
            forall|p: Seq<u8>|
                p != path@ ==> final(self).has_file(p) == old(self).has_file(p),
            forall|p: Seq<u8>|
                p != path@ && old(self).has_file(p) ==> final(self).data_at(p) == old(
                    self,
                ).data_at(p),
    {
        let found = self.find_idx(path);
        let mut content: Vec<u8>;
        let idx: usize;
        match found {
            Some(i) => {
                proof {
                    self.lemma_at(i as int);
                }
                content = self.files[i].data.clone();
                proof {
                    assert(content@ =~= self.files[i as int].data@);
                }
                idx = i;
            },
            None => {
                proof {
                    if self.has_file(path@) {
                        let i = choose|i: int|
                            0 <= i < self.files.len() && self.files[i].path@ == path@;
                        assert(false);
                    }
                }
                content = Vec::new();
                if allocate {
                    content.resize(len_hint as usize, 0u8);
                    assert(content@ =~= zeros(len_hint as int));
                }
                idx = self.files.len();
                self.files.push(MemFile { path: path.clone(), data: Vec::new() });
                proof {
                    assert(self.files[idx as int].path@ =~= path@);
                    assert(forall|k: int|
                        0 <= k < idx ==> self.files[k] == old(self).files[k]);
                }
            },
        }
        let ghost init = old(self).init_content(path@, allocate, len_hint);
        assert(content@ == init);
        // zero-extend to cover the write, then lay the bytes down
        let end = offset as usize + data.len();
        if content.len() < end {
            content.resize(end, 0u8);
        }
        let mut k: usize = 0;
        while k < data.len()
            invariant
                k <= data@.len(),
                offset + data@.len() <= usize::MAX,
                content@.len() == vstd::math::max(init.len() as int, offset + data@.len()),
                offset + data@.len() <= content@.len(),
                forall|i: int|
                    0 <= i < content@.len() && !(offset <= i < offset + data@.len())
                        ==> content@[i] == write_spec(init, offset as int, data@)[i],
                forall|i: int| offset <= i < offset + k ==> content@[i] == data@[i - offset],
            decreases data@.len() - k,
        {
            content[offset as usize + k] = data[k];
            k = k + 1;
        }
        assert(content@ =~= write_spec(init, offset as int, data@));
        self.files[idx] = MemFile { path: path.clone(), data: content };
        proof {
            assert(self.files[idx as int].path@ =~= path@);
            assert(self.wf());
            self.lemma_at(idx as int);
            assert forall|p: Seq<u8>| p != path@ implies final(self).has_file(p) == old(
                self,
            ).has_file(p) && (old(self).has_file(p) ==> final(self).data_at(p) == old(
                self,
            ).data_at(p)) by {
                if old(self).has_file(p) {
                    let i = old(self).index_of(p);
                    assert(0 <= i < old(self).files.len() && old(self).files[i].path@ == p);
                    assert(self.files[i].path@ == p && self.files[i].data@ == old(
                        self,
                    ).files[i].data@);
                    self.lemma_at(i);
                    old(self).lemma_at(i);
                }
                if self.has_file(p) {
                    let i = self.index_of(p);
                    assert(0 <= i < self.files.len() && self.files[i].path@ == p);
                    assert(i != idx);
                    assert(old(self).has_file(p));
                }
            }
        }
    }

    /// What a write starts from: the current contents, or for a new
    /// file `len_hint` zeros under pre-allocation, else nothing.
    pub open spec fn init_content(self, path: Seq<u8>, allocate: bool, len_hint: u64) -> Seq<u8> {
        if self.has_file(path) {
            self.data_at(path)
        } else if allocate {
            zeros(len_hint as int)
        } else {
            Seq::empty()
        }
    }

    /// Reads `len` bytes at `offset` of the file at `path`. Succeeds
    /// exactly when the file exists and the range lies inside it.
    pub fn read_range(&self, path: &Vec<u8>, offset: u64, len: usize) -> (r: Result<
        Vec<u8>,
        IoKind,
    >)
        requires
            self.wf(),
        ensures
            match r {
                Ok(v) => self.has_file(path@) && offset + len <= self.data_at(path@).len() && v@
                    == self.data_at(path@).subrange(offset as int, offset + len),
                Err(e) => (e == IoKind::NotFound && !self.has_file(path@)) || (e == IoKind::Io
                    && self.has_file(path@) && offset + len > self.data_at(path@).len()),
            },
    {
        match self.find_idx(path) {
            Some(i) => {
                proof {
                    self.lemma_at(i as int);
                }
                let f = &self.files[i];
                let dlen: usize = f.data.len();
                if offset > u64::MAX - (len as u64) || (offset + len as u64) > dlen as u64 {
                    return Err(IoKind::Io);
                }
                let off = offset as usize;
                let mut out: Vec<u8> = Vec::new();
                let mut k: usize = 0;
                while k < len
                    invariant
                        k <= len,
                        off + len <= usize::MAX,
                        off + len <= self.files[i as int].data@.len(),
                        i < self.files.len(),
                        out@ =~= self.files[i as int].data@.subrange(
                            off as int,
                            off + k as int,
                        ),
                    decreases len - k,
                {
                    out.push(self.files[i].data[off + k]);
                    assert(out@ =~= self.files[i as int].data@.subrange(
                        off as int,
                        off + k + 1 as int,
                    ));
                    k = k + 1;
                }
                Ok(out)
            },
            None => {
                proof {
                    if self.has_file(path@) {
                        let i = choose|i: int|
                            0 <= i < self.files.len() && self.files[i].path@ == path@;
                        assert(false);
                    }
                }
                Err(IoKind::NotFound)
            },
        }
    }

    /// Removes the file at `path`. Succeeds exactly when it exists.
    pub fn remove_file(&mut self, path: &Vec<u8>) -> (r: Result<(), IoKind>)
        requires
            old(self).wf(),
        ensures
            final(self).wf(),
            r is Ok <==> old(self).has_file(path@),
            !final(self).has_file(path@),
            forall|p: Seq<u8>|
                p != path@ ==> final(self).has_file(p) == old(self).has_file(p),
            forall|p: Seq<u8>|
                p != path@ && old(self).has_file(p) ==> final(self).data_at(p) == old(
                    self,
                ).data_at(p),
            r is Err ==> *final(self) == *old(self) && r == Err::<(), IoKind>(IoKind::NotFound),
    {
        match self.find_idx(path) {
            Some(i) => {
                proof {
                    self.lemma_at(i as int);
                }
                let _ = self.files.swap_remove(i);
                proof {
                    let pre = old(self);
                    assert forall|p: Seq<u8>| p != path@ implies self.has_file(p) == pre.has_file(
                        p,
                    ) && (pre.has_file(p) ==> self.has_file(p) && self.data_at(p) == pre.data_at(
                        p,
                    )) by {
                        if pre.has_file(p) {
                            let j = pre.index_of(p);
                            assert(0 <= j < pre.files.len() && pre.files[j].path@ == p);
                            assert(j != i);
                            if j < self.files.len() {
                                assert(self.files[j].path@ == p || j == i);
                                if self.files[j].path@ == p {
                                    self.lemma_at(j);
                                    pre.lemma_at(j);
                                } else {
                                    assert(false);
                                }
                            } else {
                                // j was the last slot, now living at i
                                assert(j == pre.files.len() - 1);
                                assert(self.files[i as int].path@ == p);
                                self.lemma_at(i as int);
                                pre.lemma_at(j);
                            }
                        }
                        if self.has_file(p) {
                            let j = self.index_of(p);
                            assert(0 <= j < self.files.len() && self.files[j].path@ == p);
                            if j == i {
                                assert(pre.files[pre.files.len() - 1].path@ == p);
                                assert(pre.has_file(p));
                            } else {
                                assert(pre.files[j].path@ == p);
                                assert(pre.has_file(p));
                            }
                        }
                    }
                    if self.has_file(path@) {
                        let j = self.index_of(path@);
                        assert(0 <= j < self.files.len() && self.files[j].path@ == path@);
                        if j == i {
                            assert(old(self).files[old(self).files.len() - 1].path@ == path@);
                            assert(false);
                        } else {
                            assert(false);
                        }
                    }
                }
                Ok(())
            },
            None => {
                proof {
                    if self.has_file(path@) {
                        let i = choose|i: int|
                            0 <= i < self.files.len() && self.files[i].path@ == path@;
                        assert(false);
                    }
                }
                Err(IoKind::NotFound)
            },
        }
    }

    /// Renames the file at `from` to `to`, replacing any file already
    /// there. Succeeds exactly when `from` exists.
    pub fn rename(&mut self, from: &Vec<u8>, to: &Vec<u8>) -> (r: Result<(), IoKind>)
        requires
            old(self).wf(),
            from@ != to@,
        ensures
            final(self).wf(),
            r is Ok <==> old(self).has_file(from@),
            r is Ok ==> {
                &&& !final(self).has_file(from@)
                &&& final(self).has_file(to@)
                &&& final(self).data_at(to@) == old(self).data_at(from@)
            },
            forall|p: Seq<u8>|
                p != from@ && p != to@ ==> final(self).has_file(p) == old(self).has_file(p),
            forall|p: Seq<u8>|
                p != from@ && p != to@ && old(self).has_file(p) ==> final(self).data_at(p) == old(
                    self,
                ).data_at(p),
            r is Err ==> *final(self) == *old(self) && r == Err::<(), IoKind>(IoKind::NotFound),
    {
        match self.find_idx(from) {
            Some(i) => {
                proof {
                    self.lemma_at(i as int);
                }
                let data = self.files[i].data.clone();
                proof {
                    assert(data@ =~= self.files[i as int].data@);
                }
                let ghost mid0 = *self;
                let r1 = self.remove_file(from);
                let ghost mid = *self;
                let _ = self.remove_file(to);
                let ghost mid2 = *self;
                self.files.push(MemFile { path: to.clone(), data });
                proof {
                    let n = mid2.files.len() as int;
                    assert(self.files[n].path@ =~= to@);
                    assert(forall|k: int| 0 <= k < n ==> self.files[k] == mid2.files[k]);
                    assert forall|k: int| 0 <= k < n implies self.files[k].path@ != to@ by {
                        mid2.lemma_at(k);
                    }
                    assert(self.wf());
                    self.lemma_at(n);
                    assert(self.data_at(to@) == old(self).data_at(from@));
                    assert forall|p: Seq<u8>| p != to@ implies self.has_file(p) == mid2.has_file(
                        p,
                    ) && (mid2.has_file(p) ==> self.data_at(p) == mid2.data_at(p)) by {
                        if mid2.has_file(p) {
                            let j = mid2.index_of(p);
                            assert(0 <= j < mid2.files.len() && mid2.files[j].path@ == p);
                            self.lemma_at(j);
                            mid2.lemma_at(j);
                        }
                        if self.has_file(p) {
                            let j = self.index_of(p);
                            assert(0 <= j < self.files.len() && self.files[j].path@ == p);
                            assert(j != n);
                            assert(mid2.has_file(p));
                        }
                    }
                    assert(!self.has_file(from@));
                }
                Ok(())
            },
            None => {
                proof {
                    if self.has_file(from@) {
                        let i = choose|i: int|
                            0 <= i < self.files.len() && self.files[i].path@ == from@;
                        assert(false);
                    }
                }
                Err(IoKind::NotFound)
            },
        }
    }
}


/// `pre` is a prefix of `p`.
pub open spec fn is_prefix(pre: Seq<u8>, p: Seq<u8>) -> bool {
    pre.len() <= p.len() && p.take(pre.len() as int) == pre
}

/// `p` is the entry `dir` itself or a path inside that directory.
pub open spec fn under_dir(dir: Seq<u8>, p: Seq<u8>) -> bool {
    p == dir || is_prefix(dir + seq![47u8], p)
}

fn in_dir(p: &Vec<u8>, dir: &Vec<u8>) -> (r: bool)
    ensures
        r == under_dir(dir@, p@),
{
    if bytes_eq(p, dir) {
        return true;
    }
    if p.len() <= dir.len() {
        proof {
            assert(!is_prefix(dir@ + seq![47u8], p@));
        }
        return false;
    }
    if p[dir.len()] != 47u8 {
        proof {
            if is_prefix(dir@ + seq![47u8], p@) {
                assert(p@.take(dir@.len() as int + 1)[dir@.len() as int] == 47u8);
            }
        }
        return false;
    }
    let mut i: usize = 0;
    while i < dir.len()
        invariant
            i <= dir@.len() < p@.len(),
            p@[dir@.len() as int] == 47u8,
            forall|j: int| 0 <= j < i ==> p@[j] == dir@[j],
        decreases dir@.len() - i,
    {
        if p[i] != dir[i] {
            proof {
                if is_prefix(dir@ + seq![47u8], p@) {
                    assert(p@.take(dir@.len() as int + 1)[i as int] == dir@[i as int]);
                }
            }
            return false;
        }
        i = i + 1;
    }
    proof {
        assert(p@.take(dir@.len() as int + 1) =~= dir@ + seq![47u8]);
    }
    true
}

/// The entries are the same or one lies inside the other.
pub fn paths_nested(a: &Vec<u8>, b: &Vec<u8>) -> (r: bool)
    ensures
        r == (under_dir(a@, b@) || under_dir(b@, a@)),
{
    in_dir(b, a) || in_dir(a, b)
}

impl MemFs {
    /// Some file lives at or under the directory `dir`.
    pub fn occupied_under(&self, dir: &Vec<u8>) -> (r: bool)
        ensures
            r == exists|p: Seq<u8>| self.has_file(p) && #[trigger] under_dir(dir@, p),
    {
        let mut i: usize = 0;
        while i < self.files.len()
            invariant
                i <= self.files.len(),
                forall|k: int| 0 <= k < i ==> !under_dir(dir@, (#[trigger] self.files[k]).path@),
            decreases self.files.len() - i,
        {
            if in_dir(&self.files[i].path, dir) {
                proof {
                    assert(self.has_file(self.files[i as int].path@));
                }
                return true;
            }
            i = i + 1;
        }
        proof {
            if exists|p: Seq<u8>| self.has_file(p) && #[trigger] under_dir(dir@, p) {
                let p = choose|p: Seq<u8>| self.has_file(p) && #[trigger] under_dir(dir@, p);
                let k = choose|k: int| 0 <= k < self.files.len() && self.files[k].path@ == p;
                assert(false);
            }
        }
        false
    }

    /// Moves every file under the directory `from` to the matching
    /// path under `to`: contents are untouched, nothing stays behind,
    /// and nothing else changes. Succeeds exactly when something
    /// lives under `from`. The destination must be clean and neither
    /// root may lie under the other.
    #[verifier::rlimit(100)]
    #[verifier::spinoff_prover]
    pub fn rename_tree(&mut self, from: &Vec<u8>, to: &Vec<u8>) -> (r: Result<(), IoKind>)
        requires
            old(self).wf(),
            forall|p: Seq<u8>| old(self).has_file(p) ==> !under_dir(to@, p),
            !under_dir(from@, to@),
            !under_dir(to@, from@),
        ensures
            final(self).wf(),
            r is Ok <==> exists|p: Seq<u8>| old(self).has_file(p) && #[trigger] under_dir(
                from@,
                p,
            ),
            forall|p: Seq<u8>|
                old(self).has_file(p) && #[trigger] under_dir(from@, p) ==> {
                    &&& !final(self).has_file(p)
                    &&& final(self).has_file(to@ + p.skip(from@.len() as int))
                    &&& final(self).data_at(to@ + p.skip(from@.len() as int)) == old(
                        self,
                    ).data_at(p)
                },
            forall|p: Seq<u8>|
                !under_dir(from@, p) && !under_dir(to@, p) ==> final(self).has_file(p) == old(
                    self,
                ).has_file(p) && (old(self).has_file(p) ==> final(self).data_at(p) == old(
                    self,
                ).data_at(p)),
            r is Err ==> final(self).files@ == old(self).files@ && r == Err::<(), IoKind>(
                IoKind::NotFound,
            ),
    {
        let ghost pre = *self;
        let mut moved = false;
        let mut i: usize = 0;
        while i < self.files.len()
            invariant
                pre.wf(),
                forall|p: Seq<u8>| pre.has_file(p) ==> !under_dir(to@, p),
                !under_dir(from@, to@),
                !under_dir(to@, from@),
                i <= self.files.len(),
                self.files.len() == pre.files.len(),
                forall|k: int| i <= k < self.files.len() ==> self.files[k] == pre.files[k],
                forall|k: int|
                    0 <= k < i && !under_dir(from@, pre.files[k].path@)
                        ==> #[trigger] self.files[k] == pre.files[k],
                forall|k: int|
                    0 <= k < i ==> #[trigger] self.files[k].data@ == pre.files[k].data@,
                forall|k: int|
                    0 <= k < i && under_dir(from@, pre.files[k].path@)
                        ==> #[trigger] self.files[k].path@ == to@ + pre.files[k].path@.skip(
                        from@.len() as int,
                    ),
                moved == exists|k: int|
                    0 <= k < i && #[trigger] under_dir(from@, pre.files[k].path@),
            decreases self.files.len() - i,
        {
            if in_dir(&self.files[i].path, from) {
                proof {
                    assert(self.files[i as int] == pre.files[i as int]);
                    assert(under_dir(from@, pre.files[i as int].path@));
                }
                let mut npath = to.clone();
                let mut suffix: Vec<u8> = Vec::new();
                let flen = self.files[i].path.len();
                let mut k: usize = from.len();
                while k < flen
                    invariant
                        i < self.files.len(),
                        from@.len() <= k <= flen,
                        flen == self.files[i as int].path@.len(),
                        suffix@ == self.files[i as int].path@.subrange(
                            from@.len() as int,
                            k as int,
                        ),
                    decreases flen - k,
                {
                    suffix.push(self.files[i].path[k]);
                    proof {
                        assert(suffix@ =~= self.files[i as int].path@.subrange(
                            from@.len() as int,
                            k + 1,
                        ));
                    }
                    k = k + 1;
                }
                proof {
                    assert(npath@ =~= to@);
                    assert(suffix@ =~= self.files[i as int].path@.skip(from@.len() as int));
                }
                npath.append(&mut suffix);
                let data = self.files[i].data.clone();
                proof {
                    assert(data@ =~= self.files[i as int].data@);
                }
                self.files[i] = MemFile { path: npath, data };
                moved = true;
                proof {
                    assert(self.files[i as int].path@ =~= to@ + pre.files[i as int].path@.skip(
                        from@.len() as int,
                    ));
                    assert(forall|k: int|
                        0 <= k < i && under_dir(from@, pre.files[k].path@)
                            ==> #[trigger] self.files[k].path@ == to@
                            + pre.files[k].path@.skip(from@.len() as int));
                }
            } else {
                proof {
                    assert(self.files[i as int] == pre.files[i as int]);
                    assert(!under_dir(from@, pre.files[i as int].path@));
                }
            }
            i = i + 1;
        }
        proof {
            // a moved path lands under the destination; an unmoved one
            // cannot lie there
            assert forall|k: int|
                0 <= k < self.files.len() && under_dir(
                    from@,
                    pre.files[k].path@,
                ) implies #[trigger] under_dir(to@, self.files[k].path@) by {
                let p = pre.files[k].path@;
                if p == from@ {
                    assert(p.skip(from@.len() as int) =~= Seq::<u8>::empty());
                    assert(self.files[k].path@ =~= to@);
                } else {
                    assert(is_prefix(from@ + seq![47u8], p));
                    assert(p[from@.len() as int] == 47u8) by {
                        assert(p.take(from@.len() as int + 1)[from@.len() as int] == 47u8);
                    }
                    assert(self.files[k].path@.take(to@.len() as int + 1) =~= to@ + seq![47u8]);
                }
            }
            assert forall|k: int|
                0 <= k < self.files.len() && !under_dir(
                    from@,
                    pre.files[k].path@,
                ) implies !(#[trigger] under_dir(to@, self.files[k].path@)) by {
                pre.lemma_at(k);
            }
            // distinctness survives the renaming
            assert forall|k1: int, k2: int|
                0 <= k1 < k2 < self.files.len() implies self.files[k1].path@
                != self.files[k2].path@ by {
                let p1 = pre.files[k1].path@;
                let p2 = pre.files[k2].path@;
                if under_dir(from@, p1) && under_dir(from@, p2) {
                    if self.files[k1].path@ == self.files[k2].path@ {
                        let n = to@.len() as int;
                        let m = from@.len() as int;
                        assert(p1.skip(m) =~= self.files[k1].path@.skip(n));
                        assert(p2.skip(m) =~= self.files[k2].path@.skip(n));
                        assert(p1 =~= p1.take(m) + p1.skip(m));
                        assert(p2 =~= p2.take(m) + p2.skip(m));
                        assert(p1 == p2);
                        assert(false);
                    }
                } else if under_dir(from@, p1) {
                    assert(under_dir(to@, self.files[k1].path@));
                    assert(!under_dir(to@, self.files[k2].path@));
                } else if under_dir(from@, p2) {
                    assert(under_dir(to@, self.files[k2].path@));
                    assert(!under_dir(to@, self.files[k1].path@));
                } else {
                    assert(self.files[k1] == pre.files[k1]);
                    assert(self.files[k2] == pre.files[k2]);
                }
            }
            assert(self.wf());
        }
        if !moved {
            proof {
                assert forall|p: Seq<u8>|
                    pre.has_file(p) implies !(#[trigger] under_dir(from@, p)) by {
                    if pre.has_file(p) {
                        let k = pre.index_of(p);
                        assert(0 <= k < pre.files.len() && pre.files[k].path@ == p);
                    }
                }
                assert(self.files@ =~= pre.files@);
            }
            return Err(IoKind::NotFound);
        }
        proof {
            let k0 = choose|k: int|
                0 <= k < pre.files.len() && #[trigger] under_dir(from@, pre.files[k].path@);
            pre.lemma_at(k0);
            assert(pre.has_file(pre.files[k0].path@) && under_dir(from@, pre.files[k0].path@));
            assert forall|p: Seq<u8>|
                pre.has_file(p) && #[trigger] under_dir(from@, p) implies {
                &&& !self.has_file(p)
                &&& self.has_file(to@ + p.skip(from@.len() as int))
                &&& self.data_at(to@ + p.skip(from@.len() as int)) == pre.data_at(p)
            } by {
                let k = pre.index_of(p);
                assert(0 <= k < pre.files.len() && pre.files[k].path@ == p);
                pre.lemma_at(k);
                assert(self.files[k].path@ == to@ + p.skip(from@.len() as int));
                self.lemma_at(k);
                if self.has_file(p) {
                    let j = self.index_of(p);
                    assert(0 <= j < self.files.len() && self.files[j].path@ == p);
                    if under_dir(from@, pre.files[j].path@) {
                        assert(under_dir(to@, self.files[j].path@));
                        assert(!under_dir(to@, p));
                        assert(false);
                    } else {
                        assert(pre.files[j].path@ == p);
                        pre.lemma_at(j);
                        assert(j == k);
                        assert(false);
                    }
                }
            }
            assert forall|p: Seq<u8>|
                !under_dir(from@, p) && !under_dir(to@, p) implies self.has_file(p)
                == pre.has_file(p) && (pre.has_file(p) ==> self.data_at(p) == pre.data_at(
                p,
            )) by {
                if pre.has_file(p) {
                    let k = pre.index_of(p);
                    assert(0 <= k < pre.files.len() && pre.files[k].path@ == p);
                    pre.lemma_at(k);
                    assert(self.files[k] == pre.files[k]);
                    self.lemma_at(k);
                }
                if self.has_file(p) {
                    let j = self.index_of(p);
                    assert(0 <= j < self.files.len() && self.files[j].path@ == p);
                    if under_dir(from@, pre.files[j].path@) {
                        assert(under_dir(to@, self.files[j].path@));
                        assert(false);
                    }
                    assert(pre.files[j].path@ == p);
                    assert(pre.has_file(p));
                }
            }
        }
        Ok(())
    }
}

} // verus!