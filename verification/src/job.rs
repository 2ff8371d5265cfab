//! Requests, responses and the job executor: every disk demand enters
//! as a [`Request`], is executed against the file store up to a time
//! slice, and leaves as a [`JobRes`].
use vstd::prelude::*;

use std::sync::Arc;

use crate::cache::FileCache;
use crate::download::DownloadState;
use crate::encdec::hex_of;
use crate::fs::{under_dir, IoKind, MemFs};
use crate::hashing::hash_to_id;
use crate::info::Info;
use crate::location::Location;

verus! {

/// The two path roots the engine works under.
pub struct Config {
    /// Directory holding serialised session metadata.
    pub session: Vec<u8>,
    /// Default directory holding torrent data.
    pub directory: Vec<u8>,
}

/// Identifies the peer request a `Read` answers.
#[derive(Debug, Clone, Copy)]
pub struct Ctx {
    /// Peer id.
    pub pid: usize,
    /// Torrent id.
    pub tid: usize,
    /// Piece index.
    pub idx: u32,
    /// Offset within the piece.
    pub begin: u32,
    /// Length of the block.
    pub length: u32,
}

impl Ctx {
    /// Bundles the identifiers of a peer block request.
    pub fn new(pid: usize, tid: usize, idx: u32, begin: u32, length: u32) -> (r: Ctx)
        ensures
            r.pid == pid && r.tid == tid && r.idx == idx && r.begin == begin && r.length == length,
    {
        Ctx { pid, tid, idx, begin, length }
    }
}

/// A demand on the disk engine.
#[derive(Debug)]
pub enum Request {
    /// Lay a piece buffer down at its locations.
    Write {
        /// Torrent id.
        tid: usize,
        /// The piece bytes.
        data: Vec<u8>,
        /// Where the bytes live on disk.
        locations: Vec<Location>,
        /// Overrides the configured data directory.
        path: Option<Vec<u8>>,
    },
    /// Fill a buffer from the locations and hand it back.
    Read {
        /// Identifies the peer block request.
        context: Ctx,
        /// Buffer to fill; sized to the block.
        data: Vec<u8>,
        /// Where the bytes live on disk.
        locations: Vec<Location>,
        /// Overrides the configured data directory.
        path: Option<Vec<u8>>,
    },
    /// Persist torrent metadata atomically under its hex hash name.
    Serialize {
        /// Torrent id.
        tid: usize,
        /// Serialised metadata.
        data: Vec<u8>,
        /// The torrent's 20-byte info hash.
        hash: Vec<u8>,
    },
    /// Drop session metadata and, on demand, the torrent's files.
    Delete {
        /// Torrent id.
        tid: usize,
        /// The torrent's 20-byte info hash.
        hash: Vec<u8>,
        /// The torrent's files, relative to the data directory.
        files: Vec<Vec<u8>>,
        /// Overrides the configured data directory.
        path: Option<Vec<u8>>,
        /// Also delete the files on disk.
        artifacts: bool,
    },
    /// Move a torrent's directory to another root.
    Move {
        /// Torrent id.
        tid: usize,
        /// Current root directory.
        from: Vec<u8>,
        /// New root directory.
        to: Vec<u8>,
        /// Name of the entry to move.
        target: Vec<u8>,
    },
    /// Hash-verify a whole torrent, one time slice at a time.
    Validate {
        /// Torrent id.
        tid: usize,
        /// The torrent's metadata.
        info: Arc<Info>,
        /// Overrides the configured data directory.
        path: Option<Vec<u8>>,
        /// Next piece to verify.
        idx: u32,
        /// Pieces found invalid so far.
        invalid: Vec<u32>,
    },
    /// Hash-verify a single piece.
    ValidatePiece {
        /// Torrent id.
        tid: usize,
        /// The torrent's metadata.
        info: Arc<Info>,
        /// Overrides the configured data directory.
        path: Option<Vec<u8>>,
        /// The piece to verify.
        piece: u32,
    },
    /// Write an arbitrary file atomically; failures are logged only.
    WriteFile {
        /// Contents.
        data: Vec<u8>,
        /// Absolute destination path.
        path: Vec<u8>,
    },
    /// Stream a completed file over HTTP to a client socket.
    Download {
        /// Reactor id of the client socket.
        client: usize,
        /// The streaming state machine.
        state: DownloadState,
    },
    /// Report the free space under the download directory.
    FreeSpace,
    /// Liveness probe.
    Ping,
    /// Drain the queue and stop the worker.
    Shutdown,
}

/// An answer the engine sends back to the control plane.
#[derive(Debug)]
pub enum Response {
    /// The block a `Read` asked for.
    Read {
        /// Identifies the peer block request.
        context: Ctx,
        /// The piece bytes, shareable between recipients.
        data: Arc<Vec<u8>>,
    },
    /// A whole-torrent validation finished.
    ValidationComplete {
        /// Torrent id.
        tid: usize,
        /// The pieces whose digests did not match.
        invalid: Vec<u32>,
    },
    /// A single piece was verified.
    PieceValidated {
        /// Torrent id.
        tid: usize,
        /// The piece.
        piece: u32,
        /// Its digest matched.
        valid: bool,
    },
    /// Progress of a running validation: `done` of `total` pieces.
    ValidationUpdate {
        /// Torrent id.
        tid: usize,
        /// Pieces verified so far.
        done: u32,
        /// Piece count.
        total: u32,
    },
    /// A `Move` finished.
    Moved {
        /// Torrent id.
        tid: usize,
        /// The new root directory.
        path: Vec<u8>,
    },
    /// Free space under the download directory, in bytes.
    FreeSpace(u64),
    /// A request failed.
    Error {
        /// Torrent id.
        tid: usize,
        /// What failed.
        err: IoKind,
    },
}

/// What executing one request yields.
#[derive(Debug)]
pub enum JobRes {
    /// Work complete; emit the response.
    Resp(Response),
    /// Work incomplete; re-queue the request and emit the progress
    /// response.
    Update(Request, Response),
    /// Work complete; nothing to emit.
    Done,
    /// Time slice exhausted; re-queue for another slice.
    Paused(Request),
    /// The socket would block; re-queue and await writability of the
    /// given reactor id.
    Blocked((usize, Request)),
}

/// `base` and `rel` joined by the path separator.
pub open spec fn join_spec(base: Seq<u8>, rel: Seq<u8>) -> Seq<u8> {
    base + seq![47u8] + rel
}

/// Joins a directory and a relative path.
pub fn join_path(base: &Vec<u8>, rel: &Vec<u8>) -> (r: Vec<u8>)
    ensures
        r@ == join_spec(base@, rel@),
{
    let mut r = base.clone();
    proof {
        assert(r@ =~= base@);
    }
    r.push(47u8);
    let mut tail = rel.clone();
    proof {
        assert(tail@ =~= rel@);
    }
    r.append(&mut tail);
    proof {
        assert(r@ =~= join_spec(base@, rel@));
    }
    r
}

/// The suffix marking a half-written file: `.temp`.
pub open spec fn temp_suffix() -> Seq<u8> {
    seq![46u8, 116u8, 101u8, 109u8, 112u8]
}

/// The suffix of stored metainfo files: `.torrent`.
pub open spec fn torrent_suffix() -> Seq<u8> {
    seq![46u8, 116u8, 111u8, 114u8, 114u8, 101u8, 110u8, 116u8]
}

/// Appends `.temp` to a path: the name a file carries until its
/// rename makes it visible.
pub fn with_temp(p: &Vec<u8>) -> (r: Vec<u8>)
    ensures
        r@ == p@ + temp_suffix(),
{
    let mut r = p.clone();
    proof {
        assert(r@ =~= p@);
    }
    r.push(46u8);
    r.push(116u8);
    r.push(101u8);
    r.push(109u8);
    r.push(112u8);
    proof {
        assert(r@ =~= p@ + temp_suffix());
    }
    r
}

/// Appends `.torrent` to a path.
pub fn with_torrent(p: &Vec<u8>) -> (r: Vec<u8>)
    ensures
        r@ == p@ + torrent_suffix(),
{
    let mut r = p.clone();
    proof {
        assert(r@ =~= p@);
    }
    r.push(46u8);
    r.push(116u8);
    r.push(111u8);
    r.push(114u8);
    r.push(114u8);
    r.push(101u8);
    r.push(110u8);
    r.push(116u8);
    proof {
        assert(r@ =~= p@ + torrent_suffix());
    }
    r
}

/// Where a torrent's serialised metadata lives: the session directory
/// joined with the lower-case hex of its hash.
pub open spec fn session_path_spec(session: Seq<u8>, hash: Seq<u8>) -> Seq<u8> {
    join_spec(session, hex_of(hash))
}

/// Computes the session metadata path for `hash`.
pub fn session_path(session: &Vec<u8>, hash: &Vec<u8>) -> (r: Vec<u8>)
    ensures
        r@ == session_path_spec(session@, hash@),
{
    let id = hash_to_id(hash.as_slice());
    join_path(session, &id)
}

impl Request {
    /// A `Write` of `data` at `locations`.
    pub fn write(tid: usize, data: Vec<u8>, locations: Vec<Location>, path: Option<Vec<u8>>) -> (r:
        Request)
        ensures
            r == (Request::Write { tid, data, locations, path }),
    {
        Request::Write { tid, data, locations, path }
    }

    /// A `Read` into `data` from `locations`.
    pub fn read(context: Ctx, data: Vec<u8>, locations: Vec<Location>, path: Option<Vec<u8>>) -> (r:
        Request)
        ensures
            r == (Request::Read { context, data, locations, path }),
    {
        Request::Read { context, data, locations, path }
    }

    /// A `Serialize` of `data` under `hash`.
    pub fn serialize(tid: usize, data: Vec<u8>, hash: Vec<u8>) -> (r: Request)
        ensures
            r == (Request::Serialize { tid, data, hash }),
    {
        Request::Serialize { tid, data, hash }
    }

    /// A whole-torrent `Validate`, starting at the first piece.
    pub fn validate(tid: usize, info: Arc<Info>, path: Option<Vec<u8>>) -> (r: Request)
        ensures
            r matches Request::Validate { tid: rtid, info: rinfo, path: rpath, idx, invalid }
                && rtid == tid && rinfo == info && rpath == path && idx == 0 && invalid@
                =~= Seq::<u32>::empty(),
    {
        Request::Validate { tid, info, path, idx: 0, invalid: Vec::new() }
    }

    /// A single-piece `ValidatePiece`.
    pub fn validate_piece(tid: usize, info: Arc<Info>, path: Option<Vec<u8>>, piece: u32) -> (r:
        Request)
        ensures
            r == (Request::ValidatePiece { tid, info, path, piece }),
    {
        Request::ValidatePiece { tid, info, path, piece }
    }

    /// A `Delete` of the torrent under `hash`.
    pub fn delete(
        tid: usize,
        hash: Vec<u8>,
        files: Vec<Vec<u8>>,
        path: Option<Vec<u8>>,
        artifacts: bool,
    ) -> (r: Request)
        ensures
            r == (Request::Delete { tid, hash, files, path, artifacts }),
    {
        Request::Delete { tid, hash, files, path, artifacts }
    }

    /// A `Shutdown`.
    pub fn shutdown() -> (r: Request)
        ensures
            r == (Request::Shutdown {  }),
    {
        Request::Shutdown
    }

    /// Whether the request may run beside others of the same torrent.
    /// Whole-torrent validations may not: two validations of one
    /// torrent must never interleave.
    pub fn concurrent(&self) -> (r: bool)
        ensures
            r == !(self is Validate),
    {
        match self {
            Request::Validate { .. } => false,
            _ => true,
        }
    }

    /// The torrent a request belongs to, where one does.
    pub fn tid(&self) -> (r: Option<usize>)
        ensures
            match *self {
                Request::Read { ref context, .. } => r == Some(context.tid),
                Request::Serialize { tid, .. } => r == Some(tid),
                Request::Validate { tid, .. } => r == Some(tid),
                Request::ValidatePiece { tid, .. } => r == Some(tid),
                Request::Delete { tid, .. } => r == Some(tid),
                Request::Move { tid, .. } => r == Some(tid),
                Request::Write { tid, .. } => r == Some(tid),
                _ => r is None,
            },
    {
        match *self {
            Request::Read { ref context, .. } => Some(context.tid),
            Request::Serialize { tid, .. }
            | Request::Validate { tid, .. }
            | Request::ValidatePiece { tid, .. }
            | Request::Delete { tid, .. }
            | Request::Move { tid, .. }
            | Request::Write { tid, .. } => Some(tid),
            Request::WriteFile { .. }
            | Request::Download { .. }
            | Request::Shutdown
            | Request::Ping
            | Request::FreeSpace => None,
        }
    }
}

impl Response {
    /// The block a `Read` asked for.
    pub fn read(context: Ctx, data: Arc<Vec<u8>>) -> (r: Response)
        ensures
            r == (Response::Read { context, data }),
    {
        Response::Read { context, data }
    }

    /// A request failed.
    pub fn error(tid: usize, err: IoKind) -> (r: Response)
        ensures
            r == (Response::Error { tid, err }),
    {
        Response::Error { tid, err }
    }

    /// A `Move` finished.
    pub fn moved(tid: usize, path: Vec<u8>) -> (r: Response)
        ensures
            r == (Response::Moved { tid, path }),
    {
        Response::Moved { tid, path }
    }

    /// A whole-torrent validation finished.
    pub fn validation_complete(tid: usize, invalid: Vec<u32>) -> (r: Response)
        ensures
            r == (Response::ValidationComplete { tid, invalid }),
    {
        Response::ValidationComplete { tid, invalid }
    }

    /// The torrent a response belongs to. `FreeSpace` answers belong
    /// to no torrent and may not ask.
    pub fn tid(&self) -> (r: usize)
        requires
            !(*self is FreeSpace),
        ensures
            match *self {
                Response::Read { ref context, .. } => r == context.tid,
                Response::ValidationComplete { tid, .. } => r == tid,
                Response::Moved { tid, .. } => r == tid,
                Response::ValidationUpdate { tid, .. } => r == tid,
                Response::PieceValidated { tid, .. } => r == tid,
                Response::Error { tid, .. } => r == tid,
                _ => true,
            },
    {
        match *self {
            Response::Read { ref context, .. } => context.tid,
            Response::ValidationComplete { tid, .. }
            | Response::Moved { tid, .. }
            | Response::ValidationUpdate { tid, .. }
            | Response::PieceValidated { tid, .. }
            | Response::Error { tid, .. } => tid,
            Response::FreeSpace(_) => 0,
        }
    }
}

/// The absolute path of a location under `base`.
pub open spec fn loc_path(base: Seq<u8>, loc: Location) -> Seq<u8> {
    join_spec(base, loc.path@)
}

/// What the executor trusts of a location list handed in with a
/// `Write` or `Read`: slices are well-formed, lie inside `data_len`
/// bytes of buffer, fit the machine, and name distinct files.
pub open spec fn locs_ok(data_len: int, locs: Seq<Location>) -> bool {
    &&& forall|i: int| 0 <= i < locs.len() ==> (#[trigger] locs[i]).wf()
    &&& forall|i: int| 0 <= i < locs.len() ==> (#[trigger] locs[i]).end <= data_len
    &&& forall|i: int|
        0 <= i < locs.len() ==> (#[trigger] locs[i]).offset + (locs[i].end - locs[i].start)
            <= usize::MAX
    &&& forall|i: int|
        0 <= i < locs.len() ==> ((#[trigger] locs[i]).allocate ==> locs[i].file_len
            <= usize::MAX)
    &&& forall|i: int, j: int|
        0 <= i < j < locs.len() ==> locs[i].path@ != locs[j].path@
}

/// Joining distinct relative paths under one base gives distinct
/// absolute paths.
pub proof fn lemma_join_injective(base: Seq<u8>, a: Seq<u8>, b: Seq<u8>)
    requires
        a != b,
    ensures
        join_spec(base, a) != join_spec(base, b),
{
    if join_spec(base, a) == join_spec(base, b) {
        assert(join_spec(base, a).len() == base.len() + 1 + a.len());
        assert(join_spec(base, b).len() == base.len() + 1 + b.len());
        assert(a.len() == b.len());
        assert forall|i: int| 0 <= i < a.len() implies a[i] == b[i] by {
            assert(join_spec(base, a)[base.len() + 1 + i] == a[i]);
            assert(join_spec(base, b)[base.len() + 1 + i] == b[i]);
        }
        assert(a =~= b);
    }
}

/// A location's bytes can be read under `base`: its file exists and
/// covers the slice.
pub open spec fn loc_readable(fs: MemFs, base: Seq<u8>, loc: Location) -> bool {
    &&& fs.has_file(loc_path(base, loc))
    &&& loc.offset + (loc.end - loc.start) <= fs.data_at(loc_path(base, loc)).len()
}

/// The bytes a location holds under `base`.
pub open spec fn loc_bytes(fs: MemFs, base: Seq<u8>, loc: Location) -> Seq<u8> {
    fs.data_at(loc_path(base, loc)).subrange(
        loc.offset as int,
        loc.offset + (loc.end - loc.start),
    )
}

/// After a `Write`, each location's file holds exactly its prior (or
/// freshly pre-allocated) contents with the matching slice of the
/// piece buffer laid over it — bytes outside the written range are
/// untouched — and no other file changed.
pub open spec fn write_post(
    pre: MemFs,
    post: MemFs,
    base: Seq<u8>,
    locs: Seq<Location>,
    data: Seq<u8>,
) -> bool {
    &&& post.wf()
    &&& forall|i: int|
        0 <= i < locs.len() ==> loc_readable(post, base, #[trigger] locs[i]) && loc_bytes(
            post,
            base,
            locs[i],
        ) == data.subrange(locs[i].start as int, locs[i].end as int)
    &&& forall|i: int|
        0 <= i < locs.len() ==> post.data_at(loc_path(base, #[trigger] locs[i]))
            == crate::fs::write_spec(
            pre.init_content(loc_path(base, locs[i]), locs[i].allocate, locs[i].file_len),
            locs[i].offset as int,
            data.subrange(locs[i].start as int, locs[i].end as int),
        )
    &&& forall|p: Seq<u8>|
        (forall|i: int| 0 <= i < locs.len() ==> p != loc_path(base, #[trigger] locs[i]))
            ==> post.has_file(p) == pre.has_file(p) && (pre.has_file(p) ==> post.data_at(p)
            == pre.data_at(p))
}

/// Writes each location's slice of `data` to its file, pre-allocating
/// on first touch where the location asks for it, and flushing any
/// file whose slice is shorter than a full 16 KiB block (the final
/// sub-block of that file's share of the piece).
#[verifier::rlimit(100)]
#[verifier::spinoff_prover]
pub fn do_write(
    fs: &mut MemFs,
    fc: &mut FileCache,
    data: &Vec<u8>,
    locs: &Vec<Location>,
    base: &Vec<u8>,
) -> (r: Result<(), IoKind>)
    requires
        old(fs).wf(),
        old(fc).wf(),
        locs_ok(data@.len() as int, locs@),
    ensures
        final(fs).wf(),
        final(fc).wf(),
        final(fc).capacity == old(fc).capacity,
        r is Ok,
        write_post(*old(fs), *final(fs), base@, locs@, data@),
{
    let mut i: usize = 0;
    while i < locs.len()
        invariant
            fs.wf(),
            fc.wf(),
            fc.capacity == old(fc).capacity,
            locs_ok(data@.len() as int, locs@),
            i <= locs@.len(),
            forall|k: int|
                0 <= k < i ==> loc_readable(*fs, base@, #[trigger] locs@[k]) && loc_bytes(
                    *fs,
                    base@,
                    locs@[k],
                ) == data@.subrange(locs@[k].start as int, locs@[k].end as int),
            forall|k: int|
                0 <= k < i ==> fs.data_at(loc_path(base@, #[trigger] locs@[k]))
                    == crate::fs::write_spec(
                    old(fs).init_content(
                        loc_path(base@, locs@[k]),
                        locs@[k].allocate,
                        locs@[k].file_len,
                    ),
                    locs@[k].offset as int,
                    data@.subrange(locs@[k].start as int, locs@[k].end as int),
                ),
            forall|p: Seq<u8>|
                (forall|k: int| 0 <= k < i ==> p != loc_path(base@, #[trigger] locs@[k]))
                    ==> fs.has_file(p) == old(fs).has_file(p) && (old(fs).has_file(p)
                    ==> fs.data_at(p) == old(fs).data_at(p)),
        decreases locs@.len() - i,
    {
        let loc = &locs[i];
        let pb = join_path(base, &loc.path);
        let _evicted = fc.touch(&pb, true);
        if loc.allocate {
            fc.note_allocated(&pb);
        }
        let seg = vstd::slice::slice_subrange(data.as_slice(), loc.start, loc.end);
        let ghost fs_before = *fs;
        fs.write_range(&pb, loc.allocate, loc.file_len, loc.offset, seg);
        proof {
            let wl = locs@[i as int];
            let init = fs_before.init_content(pb@, wl.allocate, wl.file_len);
            assert(fs.data_at(pb@) == crate::fs::write_spec(init, wl.offset as int, seg@));
            assert(loc_bytes(*fs, base@, wl) =~= data@.subrange(
                wl.start as int,
                wl.end as int,
            ));
            assert forall|k: int| 0 <= k < i implies loc_path(base@, #[trigger] locs@[k])
                != pb@ by {
                lemma_join_injective(base@, locs@[k].path@, locs@[i as int].path@);
            }
        }
        if loc.needs_flush() {
            let _ = fc.flush_file(&pb);
        }
        i = i + 1;
    }
    Ok(())
}

/// After an atomic write of `data` to `path`: the file holds exactly
/// the bytes, no `.temp` file remains, and nothing else changed.
pub open spec fn atomic_write_post(pre: MemFs, post: MemFs, path: Seq<u8>, data: Seq<u8>) -> bool {
    let temp = path + temp_suffix();
    &&& post.wf()
    &&& post.has_file(path)
    &&& post.data_at(path) == data
    &&& !post.has_file(temp)
    &&& forall|p: Seq<u8>|
        p != path && p != temp ==> post.has_file(p) == pre.has_file(p) && (pre.has_file(p)
            ==> post.data_at(p) == pre.data_at(p))
}

/// Writes `data` to `path` atomically: any stale `.temp` left by an
/// interrupted earlier write is dropped, the bytes go to the `.temp`
/// name in full, then a rename makes them visible. The final name is
/// never written directly, so a reader sees the old file, the new
/// file, or none, never a half-written one.
pub fn atomic_write_file(fs: &mut MemFs, path: &Vec<u8>, data: &Vec<u8>)
    requires
        old(fs).wf(),
    ensures
        final(fs).wf(),
        atomic_write_post(*old(fs), *final(fs), path@, data@),
{
    let temp = with_temp(path);
    let n: usize = data.len();
    proof {
        assert(temp@.len() == path@.len() + 5);
        assert(data@.len() == n <= usize::MAX);
    }
    let _ = fs.remove_file(&temp);
    let ghost cleared = *fs;
    fs.write_range(&temp, false, 0, 0, data.as_slice());
    let _ = fs.rename(&temp, path);
    proof {
        let tp = path@ + temp_suffix();
        assert(cleared.init_content(tp, false, 0) =~= Seq::<u8>::empty());
        assert(crate::fs::write_spec(Seq::<u8>::empty(), 0, data@) =~= data@);
    }
}

/// After a `Serialize` of `data` under `hash`: the metadata file
/// `<session>/<hex(hash)>` holds exactly the bytes, no `.temp` file
/// remains, and nothing else changed.
pub open spec fn serialize_post(
    pre: MemFs,
    post: MemFs,
    session: Seq<u8>,
    hash: Seq<u8>,
    data: Seq<u8>,
) -> bool {
    atomic_write_post(pre, post, session_path_spec(session, hash), data)
}

/// Persists torrent metadata atomically under its hex hash name.
pub fn do_serialize(fs: &mut MemFs, session: &Vec<u8>, data: &Vec<u8>, hash: &Vec<u8>) -> (r:
    Result<(), IoKind>)
    requires
        old(fs).wf(),
    ensures
        final(fs).wf(),
        r is Ok,
        serialize_post(*old(fs), *final(fs), session@, hash@, data@),
{
    let actual = session_path(session, hash);
    atomic_write_file(fs, &actual, data);
    Ok(())
}

/// After a `Delete`: the session metadata and metainfo files are gone;
/// with `artifacts`, so is every listed file; nothing else changed.
pub open spec fn delete_post(
    pre: MemFs,
    post: MemFs,
    session: Seq<u8>,
    base: Seq<u8>,
    hash: Seq<u8>,
    files: Seq<Vec<u8>>,
    artifacts: bool,
) -> bool {
    let sp = session_path_spec(session, hash);
    let tp = sp + torrent_suffix();
    &&& post.wf()
    &&& !post.has_file(sp)
    &&& !post.has_file(tp)
    &&& artifacts ==> forall|i: int|
        0 <= i < files.len() ==> !post.has_file(join_spec(base, (#[trigger] files[i])@))
    &&& forall|p: Seq<u8>|
        p != sp && p != tp && (artifacts ==> forall|i: int|
            0 <= i < files.len() ==> p != join_spec(base, (#[trigger] files[i])@)) ==> post.has_file(
            p,
        ) == pre.has_file(p) && (pre.has_file(p) ==> post.data_at(p) == pre.data_at(p))
}

/// Removes the torrent's session metadata (ignoring absence), evicts
/// every listed file from the cache, and with `artifacts` deletes the
/// files themselves.
pub fn do_delete(
    fs: &mut MemFs,
    fc: &mut FileCache,
    session: &Vec<u8>,
    base: &Vec<u8>,
    hash: &Vec<u8>,
    files: &Vec<Vec<u8>>,
    artifacts: bool,
)
    requires
        old(fs).wf(),
        old(fc).wf(),
    ensures
        final(fs).wf(),
        final(fc).wf(),
        final(fc).capacity == old(fc).capacity,
        delete_post(*old(fs), *final(fs), session@, base@, hash@, files@, artifacts),
        forall|i: int|
            0 <= i < files@.len() ==> !final(fc).has_entry(join_spec(base@, (#[trigger] files@[i])@)),
    {
    let sp = session_path(session, hash);
    let _ = fs.remove_file(&sp);
    let tp = with_torrent(&sp);
    let _ = fs.remove_file(&tp);
    proof {
        assert(tp@.len() == sp@.len() + 8);
    }
    let mut i: usize = 0;
    while i < files.len()
        invariant
            fs.wf(),
            fc.wf(),
            fc.capacity == old(fc).capacity,
            i <= files@.len(),
            !fs.has_file(session_path_spec(session@, hash@)),
            !fs.has_file(session_path_spec(session@, hash@) + torrent_suffix()),
            artifacts ==> forall|k: int|
                0 <= k < i ==> !fs.has_file(join_spec(base@, (#[trigger] files@[k])@)),
            forall|k: int|
                0 <= k < i ==> !fc.has_entry(join_spec(base@, (#[trigger] files@[k])@)),
            forall|p: Seq<u8>|
                p != session_path_spec(session@, hash@) && p != session_path_spec(
                    session@,
                    hash@,
                ) + torrent_suffix() && (artifacts ==> forall|k: int|
                    0 <= k < i ==> p != join_spec(base@, (#[trigger] files@[k])@)) ==> fs.has_file(
                    p,
                ) == old(fs).has_file(p) && (old(fs).has_file(p) ==> fs.data_at(p) == old(
                    fs,
                ).data_at(p)),
        decreases files@.len() - i,
    {
        let pb = join_path(base, &files[i]);
        let _ = fc.remove_file(&pb);
        if artifacts {
            let _ = fs.remove_file(&pb);
        }
        proof {
            assert(forall|k: int|
                0 <= k < i ==> join_spec(base@, (#[trigger] files@[k])@) != pb@ || !fc.has_entry(
                    join_spec(base@, files@[k]@),
                ));
        }
        i = i + 1;
    }
}

/// Buffer position `j` falls inside one of the locations' slices.
pub open spec fn covered(locs: Seq<Location>, j: int) -> bool {
    exists|i: int| 0 <= i < locs.len() && (#[trigger] locs[i]).start <= j < locs[i].end
}

/// Slices of distinct locations do not overlap in the buffer.
pub open spec fn locs_disjoint(locs: Seq<Location>) -> bool {
    forall|i: int, j: int|
        0 <= i < j < locs.len() ==> (#[trigger] locs[i]).end <= (#[trigger] locs[j]).start
            || locs[j].end <= locs[i].start
}

/// After a successful `Read`: each location's slice of the buffer
/// holds its file bytes, and the rest of the buffer is untouched.
pub open spec fn read_ok_post(
    fs: MemFs,
    base: Seq<u8>,
    locs: Seq<Location>,
    data_in: Seq<u8>,
    out: Seq<u8>,
) -> bool {
    &&& out.len() == data_in.len()
    &&& forall|i: int|
        0 <= i < locs.len() ==> out.subrange(
            (#[trigger] locs[i]).start as int,
            locs[i].end as int,
        ) == loc_bytes(fs, base, locs[i])
    &&& forall|j: int| 0 <= j < data_in.len() && !covered(locs, j) ==> out[j] == data_in[j]
}

/// A failed `Read` reports the first unreadable location: absence as
/// `NotFound`, a slice past the end of its file as `Io`.
pub open spec fn read_err_post(fs: MemFs, base: Seq<u8>, locs: Seq<Location>, e: IoKind) -> bool {
    exists|i: int|
        {
            &&& 0 <= i < locs.len()
            &&& !loc_readable(fs, base, #[trigger] locs[i])
            &&& forall|k: int| 0 <= k < i ==> loc_readable(fs, base, #[trigger] locs[k])
            &&& e == (if !fs.has_file(loc_path(base, locs[i])) {
                IoKind::NotFound
            } else {
                IoKind::Io
            })
        }
}

/// Fills each location's slice of `data` from its file. Succeeds
/// exactly when every location is readable; on the first unreadable
/// location the read stops with its failure.
pub fn do_read(
    fs: &MemFs,
    fc: &mut FileCache,
    data: Vec<u8>,
    locs: &Vec<Location>,
    base: &Vec<u8>,
) -> (r: Result<Vec<u8>, IoKind>)
    requires
        fs.wf(),
        old(fc).wf(),
        locs_ok(data@.len() as int, locs@),
        locs_disjoint(locs@),
    ensures
        final(fc).wf(),
        final(fc).capacity == old(fc).capacity,
        (r is Ok) <==> locs_readable(*fs, base@, locs@),
        r matches Ok(out) ==> read_ok_post(*fs, base@, locs@, data@, out@),
        r matches Err(e) ==> read_err_post(*fs, base@, locs@, e),
{
    let ghost data0 = data@;
    let mut data = data;
    let mut i: usize = 0;
    while i < locs.len()
        invariant
            fs.wf(),
            fc.wf(),
            fc.capacity == old(fc).capacity,
            locs_ok(data@.len() as int, locs@),
            locs_disjoint(locs@),
            i <= locs@.len(),
            data@.len() == data0.len(),
            forall|k: int| 0 <= k < i ==> loc_readable(*fs, base@, #[trigger] locs@[k]),
            forall|k: int|
                0 <= k < i ==> data@.subrange(
                    (#[trigger] locs@[k]).start as int,
                    locs@[k].end as int,
                ) == loc_bytes(*fs, base@, locs@[k]),
            forall|j: int|
                0 <= j < data@.len() && !covered(locs@.take(i as int), j) ==> data@[j]
                    == data0[j],
        decreases locs@.len() - i,
    {
        let loc = &locs[i];
        let pb = join_path(base, &loc.path);
        let _evicted = fc.touch(&pb, false);
        match fs.read_range(&pb, loc.offset, loc.end - loc.start) {
            Ok(seg) => {
                let ghost data_pre = data@;
                let mut k: usize = 0;
                while k < seg.len()
                    invariant
                        k <= seg@.len(),
                        i < locs@.len(),
                        seg@.len() == locs@[i as int].end - locs@[i as int].start,
                        locs@[i as int].end <= data@.len(),
                        data@.len() == data_pre.len(),
                        forall|m: int|
                            0 <= m < k ==> data@[locs@[i as int].start + m] == seg@[m],
                        forall|j: int|
                            0 <= j < data@.len() && !(locs@[i as int].start <= j
                                < locs@[i as int].start + k) ==> data@[j] == data_pre[j],
                    decreases seg@.len() - k,
                {
                    let pos = locs[i].start + k;
                    data[pos] = seg[k];
                    k = k + 1;
                }
                proof {
                    let li = locs@[i as int];
                    assert(data@.subrange(li.start as int, li.end as int) =~= loc_bytes(
                        *fs,
                        base@,
                        li,
                    ));
                    assert forall|kk: int|
                        0 <= kk < i implies data@.subrange(
                        (#[trigger] locs@[kk]).start as int,
                        locs@[kk].end as int,
                    ) == loc_bytes(*fs, base@, locs@[kk]) by {
                        assert(data_pre.subrange(locs@[kk].start as int, locs@[kk].end as int)
                            == loc_bytes(*fs, base@, locs@[kk]));
                        assert(data@.subrange(locs@[kk].start as int, locs@[kk].end as int)
                            =~= data_pre.subrange(locs@[kk].start as int, locs@[kk].end as int));
                    }
                    assert forall|j: int|
                        0 <= j < data@.len() && !covered(locs@.take(i + 1), j) implies data@[j]
                        == data0[j] by {
                        assert(locs@.take(i + 1)[i as int] == li);
                        assert(!(li.start <= j < li.end));
                        assert(data@[j] == data_pre[j]);
                        if covered(locs@.take(i as int), j) {
                            let k = choose|k: int|
                                0 <= k < locs@.take(i as int).len() && (#[trigger] locs@.take(
                                    i as int,
                                )[k]).start <= j < locs@.take(i as int)[k].end;
                            assert(locs@.take(i + 1)[k] == locs@.take(i as int)[k]);
                            assert(covered(locs@.take(i + 1), j));
                            assert(false);
                        }
                        assert(data_pre[j] == data0[j]);
                    }
                }
                i = i + 1;
            },
            Err(e) => {
                proof {
                    assert(!loc_readable(*fs, base@, locs@[i as int]));
                }
                return Err(e);
            },
        }
    }
    proof {
        assert(locs@.take(locs@.len() as int) =~= locs@);
    }
    Ok(data)
}

/// Bytes of a piece assembled location by location, in order.
pub open spec fn cat_locs(fs: MemFs, base: Seq<u8>, locs: Seq<Location>) -> Seq<u8>
    decreases locs.len(),
{
    if locs.len() == 0 {
        Seq::empty()
    } else {
        cat_locs(fs, base, locs.drop_last()) + loc_bytes(fs, base, locs.last())
    }
}

/// Every location of the list is readable.
pub open spec fn locs_readable(fs: MemFs, base: Seq<u8>, locs: Seq<Location>) -> bool {
    forall|i: int| 0 <= i < locs.len() ==> loc_readable(fs, base, #[trigger] locs[i])
}

/// A piece checks out: every location of its tiling is readable and
/// the SHA-1 of the assembled bytes equals the stored digest.
pub open spec fn piece_check(
    fs: MemFs,
    base: Seq<u8>,
    info: Info,
    piece: u32,
    locs: Seq<Location>,
) -> bool {
    locs_readable(fs, base, locs) && crate::hashing::sha1_of(cat_locs(fs, base, locs))
        == info.hashes[piece as int]@
}

/// Hash-verifies one piece: assembles its bytes from disk and compares
/// their SHA-1 against the stored digest. A failed read makes the
/// piece invalid.
#[verifier::rlimit(60)]
pub fn check_piece(
    fs: &MemFs,
    fc: &mut FileCache,
    info: &Info,
    base: &Vec<u8>,
    piece: u32,
) -> (valid: bool)
    requires
        fs.wf(),
        old(fc).wf(),
        info.wf(),
        piece < info.num_pieces(),
    ensures
        final(fc).wf(),
        final(fc).capacity == old(fc).capacity,
        valid == piece_valid(*fs, base@, *info, piece),
{
    let locs = Info::piece_disk_locs(info, piece);
    let ghost locs_g = locs@;
    let mut buf: Vec<u8> = Vec::new();
    let mut i: usize = 0;
    while i < locs.len()
        invariant
            fs.wf(),
            fc.wf(),
            fc.capacity == old(fc).capacity,
            i <= locs@.len(),
            info.wf(),
            piece < info.num_pieces(),
            locs@ == locs_g,
            info.locs_for(piece, locs_g),
            forall|k: int| 0 <= k < i ==> loc_readable(*fs, base@, #[trigger] locs_g[k]),
            buf@ == cat_locs(*fs, base@, locs_g.take(i as int)),
        decreases locs@.len() - i,
    {
        let loc = &locs[i];
        let pb = join_path(base, &loc.path);
        let _evicted = fc.touch(&pb, false);
        match fs.read_range(&pb, loc.offset, loc.end - loc.start) {
            Ok(mut seg) => {
                buf.append(&mut seg);
                proof {
                    assert(locs_g.take(i + 1).drop_last() =~= locs_g.take(i as int));
                    assert(locs_g.take(i + 1).last() == locs_g[i as int]);
                    assert(buf@ =~= cat_locs(*fs, base@, locs_g.take(i + 1)));
                }
                i = i + 1;
            },
            Err(_) => {
                proof {
                    assert(!loc_readable(*fs, base@, locs_g[i as int]));
                    assert(!piece_check(*fs, base@, *info, piece, locs_g));
                    lemma_piece_valid_iff(*fs, base@, *info, piece, locs_g);
                }
                return false;
            },
        }
    }
    proof {
        assert(locs_g.take(locs_g.len() as int) =~= locs_g);
    }
    let digest = crate::hashing::sha1(buf.as_slice());
    let valid = info.digest_matches(piece, &digest);
    proof {
        assert(valid <==> piece_check(*fs, base@, *info, piece, locs_g));
        lemma_piece_valid_iff(*fs, base@, *info, piece, locs_g);
    }
    valid
}

/// Piece `q` checks out: the locations of its tiling (unique, by
/// `Info::lemma_locs_for_unique`) are all readable and the SHA-1 of
/// the assembled bytes equals the stored digest.
pub open spec fn piece_valid(fs: MemFs, base: Seq<u8>, info: Info, q: u32) -> bool {
    let locs = choose|locs: Seq<Location>| info.locs_for(q, locs);
    piece_check(fs, base, info, q, locs)
}

/// `piece_check` reads only the fields tilings are unique in.
proof fn lemma_cat_locs_congruent(fs: MemFs, base: Seq<u8>, a: Seq<Location>, b: Seq<Location>)
    requires
        a.len() == b.len(),
        forall|j: int| 0 <= j < a.len() ==> #[trigger] crate::info::loc_core_eq(a[j], b[j]),
    ensures
        cat_locs(fs, base, a) == cat_locs(fs, base, b),
    decreases a.len(),
{
    if a.len() > 0 {
        lemma_cat_locs_congruent(fs, base, a.drop_last(), b.drop_last());
        assert(crate::info::loc_core_eq(a[a.len() - 1], b[b.len() - 1]));
        assert(loc_bytes(fs, base, a.last()) == loc_bytes(fs, base, b.last()));
    }
}

/// On any tiling the producer's contract accepts, the per-tiling check
/// coincides with `piece_valid`.
pub proof fn lemma_piece_valid_iff(
    fs: MemFs,
    base: Seq<u8>,
    info: Info,
    piece: u32,
    locs: Seq<Location>,
)
    requires
        info.wf(),
        piece < info.num_pieces(),
        info.locs_for(piece, locs),
    ensures
        piece_valid(fs, base, info, piece) == piece_check(fs, base, info, piece, locs),
{
    let c = choose|l: Seq<Location>| info.locs_for(piece, l);
    assert(info.locs_for(piece, c));
    info.lemma_locs_for_unique(piece, locs, c);
    lemma_cat_locs_congruent(fs, base, locs, c);
    assert forall|j: int| 0 <= j < locs.len() implies loc_readable(fs, base, #[trigger] locs[j])
        == loc_readable(fs, base, c[j]) by {
        assert(crate::info::loc_core_eq(locs[j], c[j]));
    }
    if locs_readable(fs, base, locs) {
        assert forall|j: int| 0 <= j < c.len() implies loc_readable(
            fs,
            base,
            #[trigger] c[j],
        ) by {
            assert(crate::info::loc_core_eq(locs[j], c[j]));
            assert(loc_readable(fs, base, locs[j]));
        }
    }
    if locs_readable(fs, base, c) {
        assert forall|j: int| 0 <= j < locs.len() implies loc_readable(
            fs,
            base,
            #[trigger] locs[j],
        ) by {
            assert(crate::info::loc_core_eq(locs[j], c[j]));
            assert(loc_readable(fs, base, c[j]));
        }
    }
}

/// `post` extends `pre` with exactly the pieces of `[lo, hi)` that
/// fail verification, in increasing order.
pub open spec fn invalid_extended(
    fs: MemFs,
    base: Seq<u8>,
    info: Info,
    lo: int,
    hi: int,
    pre: Seq<u32>,
    post: Seq<u32>,
) -> bool {
    &&& post.len() >= pre.len()
    &&& post.take(pre.len() as int) == pre
    &&& forall|j: int| pre.len() <= j < post.len() ==> lo <= (#[trigger] post[j]) < hi
    &&& forall|j1: int, j2: int|
        pre.len() <= j1 < j2 < post.len() ==> post[j1] < post[j2]
    &&& forall|j: int|
        pre.len() <= j < post.len() ==> !piece_valid(fs, base, info, (#[trigger] post[j]))
    &&& forall|q: u32|
        lo <= q < hi ==> #[trigger] piece_valid(fs, base, info, q) || exists|j: int|
            pre.len() <= j < post.len() && post[j] == q
}

/// One time slice of a whole-torrent validation: hash-verifies up to
/// `budget` pieces starting at `idx`, extending `invalid` with every
/// piece that fails. Finishing the last piece yields the terminal
/// `ValidationComplete`; otherwise the job re-queues itself behind a
/// progress update whose fraction `done` of `total` never decreases.
pub fn do_validate(
    fs: &MemFs,
    fc: &mut FileCache,
    tid: usize,
    info: Arc<Info>,
    path: Option<Vec<u8>>,
    idx: u32,
    invalid: Vec<u32>,
    base: &Vec<u8>,
    budget: u32,
) -> (r: JobRes)
    requires
        fs.wf(),
        old(fc).wf(),
        info.wf(),
        idx <= info.num_pieces(),
        budget >= 1,
    ensures
        final(fc).wf(),
        final(fc).capacity == old(fc).capacity,
        ({
            let total = info.num_pieces();
            let idx2 = vstd::math::min(idx + budget, total);
            match r {
                JobRes::Resp(resp) => {
                    &&& idx2 == total
                    &&& resp matches Response::ValidationComplete { tid: t, invalid: inv }
                        && t == tid && invalid_extended(
                        *fs,
                        base@,
                        *info,
                        idx as int,
                        total,
                        invalid@,
                        inv@,
                    )
                },
                JobRes::Update(req, resp) => {
                    &&& idx2 < total
                    &&& req matches Request::Validate {
                        tid: t,
                        info: i2,
                        path: p2,
                        idx: nidx,
                        invalid: inv,
                    } && t == tid && i2 == info && p2 == path && nidx == idx2
                        && invalid_extended(
                        *fs,
                        base@,
                        *info,
                        idx as int,
                        idx2 as int,
                        invalid@,
                        inv@,
                    )
                    &&& resp matches Response::ValidationUpdate { tid: t2, done, total: tot }
                        && t2 == tid && done == idx2 && tot == total
                },
                _ => false,
            }
        }),
{
    let total = info.pieces();
    let target: u32 = if budget >= total - idx {
        total
    } else {
        idx + budget
    };
    let mut cur = idx;
    let mut invalid = invalid;
    let ghost inv0 = invalid@;
    proof {
        assert(invalid@.take(inv0.len() as int) =~= inv0);
    }
    while cur < target
        invariant
            fs.wf(),
            fc.wf(),
            fc.capacity == old(fc).capacity,
            info.wf(),
            idx <= cur <= target <= total,
            total == info.num_pieces(),
            invalid_extended(*fs, base@, *info, idx as int, cur as int, inv0, invalid@),
        decreases target - cur,
    {
        let valid = check_piece(fs, fc, &*info, base, cur);
        let ghost inv_pre = invalid@;
        if !valid {
            invalid.push(cur);
        }
        proof {
            if !valid {
                assert(invalid@.take(inv_pre.len() as int) =~= inv_pre);
                assert(invalid@.take(inv0.len() as int) =~= inv0);
            }
            assert forall|q: u32| idx <= q < cur + 1 implies #[trigger] piece_valid(
                *fs,
                base@,
                *info,
                q,
            ) || exists|j: int| inv0.len() <= j < invalid@.len() && invalid@[j] == q by {
                if q < cur {
                    if !piece_valid(*fs, base@, *info, q) {
                        let j = choose|j: int|
                            inv0.len() <= j < inv_pre.len() && inv_pre[j] == q;
                        assert(invalid@[j] == q);
                    }
                } else {
                    if !valid {
                        assert(invalid@[invalid@.len() - 1] == q);
                    }
                }
            }
        }
        cur = cur + 1;
    }
    if cur == total {
        JobRes::Resp(Response::validation_complete(tid, invalid))
    } else {
        JobRes::Update(
            Request::Validate { tid, info, path, idx: cur, invalid },
            Response::ValidationUpdate { tid, done: cur, total },
        )
    }
}

/// What a `Move` has observed from the filesystem so far.
#[derive(Debug, Clone, Copy)]
pub enum MoveEvent {
    /// The rename of the target succeeded.
    RenameOk,
    /// The rename failed with the given kind.
    RenameErr(IoKind),
    /// The recursive copy to the destination succeeded.
    CopyOk,
    /// The recursive copy failed.
    CopyErr,
    /// The source tree was removed after a successful copy.
    RemoveSrcOk,
    /// Removing the source tree failed with the given kind.
    RemoveSrcErr(IoKind),
}

/// The next step a `Move` takes.
#[derive(Debug, Clone, Copy)]
pub enum MoveAction {
    /// The move is complete: answer `Moved` with the new root.
    Finish,
    /// The rename crossed filesystems: copy the tree instead.
    TryCopy,
    /// The copy landed: remove the source tree.
    RemoveSrc,
    /// The copy failed: remove the partial destination and fail.
    RemoveDstAndFail,
    /// Surface the failure.
    Fail(IoKind),
}

/// How a `Move` responds to each filesystem outcome: a plain rename
/// finishes it; a cross-filesystem rename falls back to copy-then-
/// remove-source; a failed copy cleans up the partial destination.
/// The source is never removed before a rename or copy has succeeded.
pub fn move_decision(ev: &MoveEvent) -> (r: MoveAction)
    ensures
        r == (match *ev {
            MoveEvent::RenameOk => MoveAction::Finish,
            MoveEvent::RenameErr(e) => {
                if e == IoKind::CrossDevice {
                    MoveAction::TryCopy
                } else {
                    MoveAction::Fail(e)
                }
            },
            MoveEvent::CopyOk => MoveAction::RemoveSrc,
            MoveEvent::CopyErr => MoveAction::RemoveDstAndFail,
            MoveEvent::RemoveSrcOk => MoveAction::Finish,
            MoveEvent::RemoveSrcErr(e) => MoveAction::Fail(e),
        }),
{
    match *ev {
        MoveEvent::RenameOk => MoveAction::Finish,
        MoveEvent::RenameErr(e) => {
            if e == IoKind::CrossDevice {
                MoveAction::TryCopy
            } else {
                MoveAction::Fail(e)
            }
        },
        MoveEvent::CopyOk => MoveAction::RemoveSrc,
        MoveEvent::CopyErr => MoveAction::RemoveDstAndFail,
        MoveEvent::RemoveSrcOk => MoveAction::Finish,
        MoveEvent::RemoveSrcErr(e) => MoveAction::Fail(e),
    }
}

/// Free space implied by filesystem statistics: fragment size times
/// available blocks.
pub fn free_space_bytes(fragment_size: u64, blocks_available: u64) -> (r: u64)
    requires
        fragment_size * blocks_available <= u64::MAX,
    ensures
        r == fragment_size * blocks_available,
{
    fragment_size * blocks_available
}


/// The data directory a request works under: its override, or the
/// configured default.
pub open spec fn base_spec(path: Option<Vec<u8>>, cfg: Config) -> Seq<u8> {
    match path {
        Some(p) => p@,
        None => cfg.directory@,
    }
}

impl Request {
    /// Prepares a `Download` request streaming the completed file at
    /// `path` to the client socket with reactor id `client`. Yields
    /// nothing when the response header would overflow the bounce
    /// buffer.
    pub fn download(
        client: usize,
        path: Vec<u8>,
        ranges: Vec<crate::download::HttpRange>,
        ranged: bool,
        len: u64,
    ) -> (r: Option<Request>)
        requires
            ranged ==> ranges@.len() >= 1,
            forall|i: int|
                0 <= i < ranges@.len() ==> (#[trigger] ranges@[i]).start + ranges@[i].length
                    <= len,
            ranged ==> forall|i: int|
                0 <= i < ranges@.len() ==> (#[trigger] ranges@[i]).length >= 1,
            !ranged ==> path@.len() >= 1 && path@[path@.len() - 1] != 47,
        ensures
            r is Some <==> crate::download::header_bytes(path@, ranges@, ranged, len as int).len()
                <= 16384,
            ranged ==> r is Some,
            r matches Some(req) ==> req matches Request::Download { client: c2, state }
                && c2 == client && state.wf() && state.path@ == path@ && state.file_len == len
                && state.writing && state.buf_idx == 0 && state.range_idx == 0 && state.ranged == (
            ranged && ranges@.len() > 1) && state.ranges@ == (if ranged && ranges@.len() > 1 {
                seq![crate::download::HttpRange { start: 0u64, length: 0u64 }] + ranges@
            } else {
                ranges@
            }) && state.buf_max == crate::download::header_bytes(
                path@,
                ranges@,
                ranged,
                len as int,
            ).len() && state.buf@.subrange(0, state.buf_max as int)
                == crate::download::header_bytes(path@, ranges@, ranged, len as int)
                && forall|file: Seq<u8>|
                #[trigger] state.pending_bytes(file) == crate::download::response_spec(
                    file,
                    path@,
                    ranges@,
                    ranged,
                    len as int,
                ),
    {
        match DownloadState::new(path, ranges, ranged, len) {
            Some(state) => Some(Request::Download { client, state }),
            None => None,
        }
    }

    /// Whether the executor accepts the request as handed in: the
    /// location producer's guarantees for `Write`/`Read`, a
    /// well-formed torrent for the validations, distinct roots for
    /// `Move`, a consistent streaming state for `Download`. `Shutdown`
    /// is drained by the queue and never executed.
    pub open spec fn req_wf(self) -> bool {
        match self {
            Request::Write { data, locations, .. } => locs_ok(data@.len() as int, locations@)
                && locs_disjoint(locations@),
            Request::Read { data, locations, .. } => locs_ok(data@.len() as int, locations@)
                && locs_disjoint(locations@),
            Request::Validate { info, idx, .. } => (*info).wf() && idx <= (*info).num_pieces(),
            Request::ValidatePiece { info, piece, .. } => (*info).wf() && piece
                < (*info).num_pieces(),
            Request::Download { state, .. } => state.wf(),
            Request::Shutdown => false,
            _ => true,
        }
    }

    /// Executes one request against the file store, up to `budget`
    /// units of work for the time-sliced jobs (`Validate` hashes one
    /// piece per unit, `Download` takes one buffer step per unit);
    /// every other request runs to completion. `net` stands for the
    /// download client socket, which in the model accepts every byte.
    /// The model store has no block device, so `FreeSpace` answers
    /// with a `Stat` failure; a runner against the real filesystem
    /// answers it from filesystem statistics via [`free_space_bytes`].
    #[verifier::rlimit(60)]
    pub fn execute(
        self,
        fc: &mut FileCache,
        fs: &mut MemFs,
        cfg: &Config,
        budget: u32,
        net: &mut Vec<u8>,
    ) -> (r: Result<JobRes, IoKind>)
        requires
            old(fc).wf(),
            old(fs).wf(),
            self.req_wf(),
            budget >= 1,
            self matches Request::Download { state, .. } ==> old(fs).has_file(state.path@)
                && old(fs).data_at(state.path@).len() == state.file_len,
        ensures
            final(fc).wf(),
            final(fc).capacity == old(fc).capacity,
            final(fs).wf(),
            match self {
                Request::Ping => r == Ok::<JobRes, IoKind>(JobRes::Done) && *final(fs) == *old(
                    fs,
                ) && final(net)@ == old(net)@,
                Request::FreeSpace => r == Err::<JobRes, IoKind>(IoKind::Stat) && *final(fs)
                    == *old(fs),
                Request::WriteFile { data, path } => r == Ok::<JobRes, IoKind>(JobRes::Done)
                    && atomic_write_post(*old(fs), *final(fs), path@, data@),
                Request::Serialize { data, hash, .. } => r == Ok::<JobRes, IoKind>(JobRes::Done)
                    && serialize_post(*old(fs), *final(fs), cfg.session@, hash@, data@),
                Request::Write { data, locations, path, .. } => r == Ok::<JobRes, IoKind>(
                    JobRes::Done,
                ) && write_post(*old(fs), *final(fs), base_spec(path, *cfg), locations@, data@),
                Request::Read { context, data, locations, path } => *final(fs) == *old(fs)
                    && (match r {
                    Ok(jr) => {
                        &&& locs_readable(*old(fs), base_spec(path, *cfg), locations@)
                        &&& jr matches JobRes::Resp(resp) && resp matches Response::Read {
                            context: c2,
                            data: out,
                        } && c2 == context && read_ok_post(
                            *old(fs),
                            base_spec(path, *cfg),
                            locations@,
                            data@,
                            out@,
                        )
                    },
                    Err(e) => read_err_post(*old(fs), base_spec(path, *cfg), locations@, e),
                }),
                Request::Delete { hash, files, path, artifacts, .. } => r == Ok::<
                    JobRes,
                    IoKind,
                >(JobRes::Done) && delete_post(
                    *old(fs),
                    *final(fs),
                    cfg.session@,
                    base_spec(path, *cfg),
                    hash@,
                    files@,
                    artifacts,
                ) && forall|i: int|
                    0 <= i < files@.len() ==> !final(fc).has_entry(
                        join_spec(base_spec(path, *cfg), (#[trigger] files@[i])@),
                    ),
                Request::Move { tid, from, to, target } => ({
                    let fp = join_spec(from@, target@);
                    let tp = join_spec(to@, target@);
                    let blocked = (exists|p: Seq<u8>|
                        old(fs).has_file(p) && #[trigger] under_dir(tp, p)) || under_dir(fp, tp)
                        || under_dir(tp, fp);
                    let movable = exists|p: Seq<u8>|
                        old(fs).has_file(p) && #[trigger] under_dir(fp, p);
                    match r {
                        Ok(jr) => {
                            &&& !blocked
                            &&& movable
                            &&& jr == JobRes::Resp(Response::Moved { tid, path: to })
                            &&& forall|p: Seq<u8>|
                                old(fs).has_file(p) && #[trigger] under_dir(fp, p)
                                    ==> (!final(fs).has_file(p)
                                    && final(fs).has_file(tp + p.skip(fp.len() as int))
                                    && final(fs).data_at(tp + p.skip(fp.len() as int))
                                    == old(fs).data_at(p))
                            &&& forall|p: Seq<u8>|
                                !under_dir(fp, p) && !under_dir(tp, p)
                                    ==> final(fs).has_file(p) == old(fs).has_file(p)
                                    && (old(fs).has_file(p)
                                    ==> final(fs).data_at(p) == old(fs).data_at(p))
                        },
                        Err(e) => final(fs).files@ == old(fs).files@ && ((e == IoKind::Io
                            && blocked) || (e == IoKind::NotFound && !blocked && !movable)),
                    }
                }),
                Request::ValidatePiece { tid, info, path, piece } => *final(fs) == *old(fs) && (
                r matches Ok(jr) && jr matches JobRes::Resp(resp) && resp
                    matches Response::PieceValidated { tid: t2, piece: p2, valid } && t2 == tid
                    && p2 == piece && valid == piece_valid(
                    *old(fs),
                    base_spec(path, *cfg),
                    *info,
                    piece,
                )),
                Request::Validate { tid, info, path, idx, invalid } => *final(fs) == *old(fs)
                    && (r matches Ok(jr) && {
                    let total = (*info).num_pieces();
                    let idx2 = vstd::math::min(idx + budget, total);
                    match jr {
                        JobRes::Resp(resp) => {
                            &&& idx2 == total
                            &&& resp matches Response::ValidationComplete { tid: t, invalid: inv }
                                && t == tid && invalid_extended(
                                *old(fs),
                                base_spec(path, *cfg),
                                *info,
                                idx as int,
                                total,
                                invalid@,
                                inv@,
                            )
                        },
                        JobRes::Update(req, resp) => {
                            &&& idx2 < total
                            &&& req matches Request::Validate {
                                tid: t,
                                info: i2,
                                path: p2,
                                idx: nidx,
                                invalid: inv,
                            } && t == tid && i2 == info && p2 == path && nidx == idx2
                                && invalid_extended(
                                *old(fs),
                                base_spec(path, *cfg),
                                *info,
                                idx as int,
                                idx2 as int,
                                invalid@,
                                inv@,
                            )
                            &&& resp matches Response::ValidationUpdate {
                                tid: t2,
                                done,
                                total: tot,
                            } && t2 == tid && done == idx2 && tot == total
                        },
                        _ => false,
                    }
                }),
                Request::Download { client, state } => *final(fs) == *old(fs) && (match r {
                    Ok(jr) => match jr {
                        JobRes::Done => final(net)@ == old(net)@ + state.pending_bytes(
                            old(fs).data_at(state.path@),
                        ),
                        JobRes::Paused(req) => req matches Request::Download {
                            client: c2,
                            state: st2,
                        } && c2 == client && st2.wf() && st2.path@ == state.path@
                            && st2.file_len == state.file_len && st2.steps() == state.steps()
                            - budget && final(net)@ + st2.pending_bytes(
                            old(fs).data_at(state.path@),
                        ) == old(net)@ + state.pending_bytes(old(fs).data_at(state.path@)),
                        _ => false,
                    },
                    Err(_) => false,
                }),
                Request::Shutdown => false,
            },
    {
        match self {
            Request::Ping => Ok(JobRes::Done),
            Request::FreeSpace => Err(IoKind::Stat),
            Request::WriteFile { data, path } => {
                atomic_write_file(fs, &path, &data);
                Ok(JobRes::Done)
            },
            Request::Serialize { data, hash, .. } => {
                let _ = do_serialize(fs, &cfg.session, &data, &hash);
                Ok(JobRes::Done)
            },
            Request::Write { data, locations, path, .. } => {
                let base = match &path {
                    Some(p) => p.clone(),
                    None => cfg.directory.clone(),
                };
                proof {
                    assert(base@ =~= base_spec(path, *cfg));
                }
                let _ = do_write(fs, fc, &data, &locations, &base);
                Ok(JobRes::Done)
            },
            Request::Read { context, data, locations, path } => {
                let base = match &path {
                    Some(p) => p.clone(),
                    None => cfg.directory.clone(),
                };
                proof {
                    assert(base@ =~= base_spec(path, *cfg));
                }
                match do_read(fs, fc, data, &locations, &base) {
                    Ok(out) => Ok(JobRes::Resp(Response::read(context, Arc::new(out)))),
                    Err(e) => Err(e),
                }
            },
            Request::Delete { hash, files, path, artifacts, .. } => {
                let base = match &path {
                    Some(p) => p.clone(),
                    None => cfg.directory.clone(),
                };
                proof {
                    assert(base@ =~= base_spec(path, *cfg));
                }
                do_delete(fs, fc, &cfg.session, &base, &hash, &files, artifacts);
                Ok(JobRes::Done)
            },
            Request::Move { tid, from, to, target } => {
                let fp = join_path(&from, &target);
                let tp = join_path(&to, &target);
                // an occupied destination or nested roots cannot be
                // renamed; surface the failure instead of moving
                let occupied = fs.occupied_under(&tp);
                let nested = crate::fs::paths_nested(&fp, &tp);
                if occupied || nested {
                    proof {
                        assert(fs.files@ == old(fs).files@);
                        assert((exists|p: Seq<u8>|
                            old(fs).has_file(p) && #[trigger] under_dir(tp@, p)) || under_dir(
                            fp@,
                            tp@,
                        ) || under_dir(tp@, fp@));
                    }
                    return Err(IoKind::Io);
                }
                match fs.rename_tree(&fp, &tp) {
                    Ok(_) => Ok(JobRes::Resp(Response::moved(tid, to))),
                    Err(e) => Err(e),
                }
            },
            Request::ValidatePiece { tid, info, path, piece } => {
                let base = match &path {
                    Some(p) => p.clone(),
                    None => cfg.directory.clone(),
                };
                proof {
                    assert(base@ =~= base_spec(path, *cfg));
                }
                let valid = check_piece(fs, fc, &*info, &base, piece);
                Ok(JobRes::Resp(Response::PieceValidated { tid, piece, valid }))
            },
            Request::Validate { tid, info, path, idx, invalid } => {
                let base = match &path {
                    Some(p) => p.clone(),
                    None => cfg.directory.clone(),
                };
                proof {
                    assert(base@ =~= base_spec(path, *cfg));
                }
                Ok(do_validate(fs, fc, tid, info, path, idx, invalid, &base, budget))
            },
            Request::Download { client, state } => {
                let (st2, done) = crate::download::run_download(fs, fc, state, net, budget);
                if done {
                    Ok(JobRes::Done)
                } else {
                    Ok(JobRes::Paused(Request::Download { client, state: st2 }))
                }
            },
            Request::Shutdown => {
                proof {
                    assert(false);
                }
                Ok(JobRes::Done)
            },
        }
    }
}


/// A write then a read at the same location list hand back the bytes
/// written: after a `Write` of `data` at `locs`, every location is
/// readable, and a successful `Read` at `locs` fills each slice of
/// its buffer with the matching slice of `data`.
pub proof fn lemma_write_then_read(
    fs0: MemFs,
    fs1: MemFs,
    base: Seq<u8>,
    locs: Seq<Location>,
    data: Seq<u8>,
    buf0: Seq<u8>,
    out: Seq<u8>,
)
    requires
        locs_ok(data.len() as int, locs),
        write_post(fs0, fs1, base, locs, data),
        read_ok_post(fs1, base, locs, buf0, out),
    ensures
        locs_readable(fs1, base, locs),
        forall|i: int|
            0 <= i < locs.len() ==> out.subrange(
                (#[trigger] locs[i]).start as int,
                locs[i].end as int,
            ) == data.subrange(locs[i].start as int, locs[i].end as int),
{
}

/// Serialized metadata reads back exactly as written, whatever the
/// prior state held, and no `.temp` file remains beside it.
pub proof fn lemma_serialize_round_trip(
    pre: MemFs,
    post: MemFs,
    session: Seq<u8>,
    hash: Seq<u8>,
    data: Seq<u8>,
)
    requires
        serialize_post(pre, post, session, hash, data),
    ensures
        post.has_file(session_path_spec(session, hash)),
        post.data_at(session_path_spec(session, hash)) == data,
        !post.has_file(session_path_spec(session, hash) + temp_suffix()),
{
}

/// Validation slices compose: verifying `[lo, mid)` and then
/// `[mid, hi)` collects exactly the invalid pieces of `[lo, hi)`, so
/// the final list does not depend on how the work was spread across
/// time slices.
pub proof fn lemma_validate_slices_compose(
    fs: MemFs,
    base: Seq<u8>,
    info: Info,
    lo: int,
    mid: int,
    hi: int,
    a: Seq<u32>,
    b: Seq<u32>,
    c: Seq<u32>,
)
    requires
        lo <= mid <= hi,
        invalid_extended(fs, base, info, lo, mid, a, b),
        invalid_extended(fs, base, info, mid, hi, b, c),
    ensures
        invalid_extended(fs, base, info, lo, hi, a, c),
{
    assert(c.take(a.len() as int) =~= b.take(a.len() as int));
    assert forall|j: int| a.len() <= j < c.len() implies lo <= (#[trigger] c[j]) < hi by {
        if j < b.len() {
            assert(b.take(b.len() as int) =~= b);
            assert(c.take(b.len() as int)[j] == c[j]);
            assert(b[j] == c[j]);
        }
    }
    assert forall|j: int| a.len() <= j < c.len() implies !piece_valid(
        fs,
        base,
        info,
        (#[trigger] c[j]),
    ) by {
        if j < b.len() {
            assert(c.take(b.len() as int)[j] == c[j]);
            assert(b[j] == c[j]);
        }
    }
    assert forall|j1: int, j2: int| a.len() <= j1 < j2 < c.len() implies c[j1] < c[j2] by {
        if j2 < b.len() {
            assert(c.take(b.len() as int)[j1] == c[j1]);
            assert(c.take(b.len() as int)[j2] == c[j2]);
            assert(b[j1] == c[j1] && b[j2] == c[j2]);
        } else if j1 < b.len() && j2 >= b.len() {
            assert(c.take(b.len() as int)[j1] == c[j1]);
            assert(b[j1] == c[j1]);
            assert(lo <= b[j1] < mid);
            assert(mid <= c[j2] < hi);
        }
    }
    assert forall|q: u32| lo <= q < hi implies #[trigger] piece_valid(fs, base, info, q)
        || exists|j: int| a.len() <= j < c.len() && c[j] == q by {
        if !piece_valid(fs, base, info, q) {
            if q < mid {
                let j = choose|j: int| a.len() <= j < b.len() && b[j] == q;
                assert(c.take(b.len() as int)[j] == c[j]);
                assert(c[j] == q);
            } else {
                let j = choose|j: int| b.len() <= j < c.len() && c[j] == q;
                assert(c[j] == q);
            }
        }
    }
}

} // verus!\n