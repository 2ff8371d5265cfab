//! The immutable torrent metadata the engine consumes: piece size,
//! per-piece SHA-1 digests, and the file table, together with the
//! producer of piece-to-file locations.
use vstd::prelude::*;

use crate::location::Location;

verus! {

/// One entry of a torrent's file table.
#[derive(Debug)]
pub struct FileEntry {
    /// Path of the file, relative to the torrent's directory.
    pub path: Vec<u8>,
    /// Logical length of the file in bytes.
    pub length: u64,
}

/// Immutable torrent metadata: shared by every job that touches the
/// torrent's data.
#[derive(Debug)]
pub struct Info {
    /// Nominal piece length; every piece but possibly the last has
    /// exactly this many bytes.
    pub piece_len: u32,
    /// Total length of the torrent's content in bytes.
    pub total_len: u64,
    /// The 20-byte SHA-1 digest of each piece.
    pub hashes: Vec<Vec<u8>>,
    /// The torrent's file table, in on-disk order.
    pub files: Vec<FileEntry>,
}

impl Info {
    /// Byte offset, within the torrent's whole content, at which file
    /// `i` begins: the sum of the lengths of the files before it.
    pub open spec fn file_start(self, i: int) -> int
        decreases i,
    {
        if i <= 0 {
            0
        } else {
            self.file_start(i - 1) + self.files[i - 1].length
        }
    }

    /// Well-formedness: sizes agree, digests are 20 bytes, paths are
    /// distinct, and the digest table covers the content.
    pub open spec fn wf(self) -> bool {
        &&& self.piece_len > 0
        &&& self.total_len == self.file_start(self.files.len() as int)
        &&& self.hashes.len() == (self.total_len + self.piece_len - 1) / (self.piece_len as int)
        &&& self.hashes.len() <= u32::MAX
        &&& forall|i: int| 0 <= i < self.hashes.len() ==> self.hashes[i]@.len() == 20
        &&& forall|i: int, j: int|
            0 <= i < j < self.files.len() ==> self.files[i].path@ != self.files[j].path@
    }

    /// Number of pieces the torrent is divided into.
    pub open spec fn num_pieces(self) -> int {
        self.hashes.len() as int
    }

    /// Byte offset of piece `piece` within the whole content.
    pub open spec fn piece_start(self, piece: u32) -> int {
        piece * self.piece_len
    }

    /// Length of piece `piece`: the nominal piece length, except that
    /// the final piece is cut short at the end of the content.
    pub open spec fn plen(self, piece: u32) -> int {
        vstd::math::min(self.piece_len as int, self.total_len - self.piece_start(piece))
    }

    /// Number of pieces.
    pub fn pieces(&self) -> (r: u32)
        requires
            self.wf(),
        ensures
            r == self.num_pieces(),
    {
        self.hashes.len() as u32
    }

    /// Partial sums of file lengths are non-negative.
    pub proof fn lemma_file_start_nonneg(self, i: int)
        ensures
            self.file_start(i) >= 0,
        decreases i,
    {
        if i > 0 {
            self.lemma_file_start_nonneg(i - 1);
        }
    }

    /// Partial sums of file lengths never exceed the total.
    pub proof fn lemma_file_start_bounds(self, i: int)
        requires
            self.wf(),
            0 <= i <= self.files.len(),
        ensures
            0 <= self.file_start(i) <= self.total_len,
        decreases self.files.len() - i,
    {
        self.lemma_file_start_nonneg(i);
        if i < self.files.len() {
            self.lemma_file_start_bounds(i + 1);
        }
    }

    /// Every piece index below the count starts strictly inside the content.
    pub proof fn lemma_piece_start_in_range(self, piece: u32)
        requires
            self.wf(),
            piece < self.num_pieces(),
        ensures
            0 <= self.piece_start(piece) < self.total_len,
            self.plen(piece) > 0,
            self.piece_start(piece) + self.plen(piece) <= self.total_len,
    {
        let pl = self.piece_len as int;
        let tot = self.total_len as int;
        assert(self.num_pieces() == (tot + pl - 1) / pl);
        assert(piece < (tot + pl - 1) / pl);
        assert(piece * pl < tot) by (nonlinear_arith)
            requires
                pl > 0,
                tot >= 0,
                0 <= piece < (tot + pl - 1) / pl,
        ;
    }

    /// Partial sums of file lengths grow with the index.
    pub proof fn lemma_file_start_monotone(self, i: int, j: int)
        requires
            0 <= i <= j,
        ensures
            self.file_start(i) <= self.file_start(j),
        decreases j - i,
    {
        if i < j {
            self.lemma_file_start_monotone(i, j - 1);
        }
    }

    /// The stored digest of piece `piece` equals `digest`.
    pub fn digest_matches(&self, piece: u32, digest: &Vec<u8>) -> (r: bool)
        requires
            self.wf(),
            piece < self.num_pieces(),
        ensures
            r == (digest@ == self.hashes[piece as int]@),
    {
        crate::fs::bytes_eq(digest, &self.hashes[piece as usize])
    }

    /// Length of piece `piece`.
    pub fn piece_len_at(&self, piece: u32) -> (r: u32)
        requires
            self.wf(),
            piece < self.num_pieces(),
        ensures
            r == self.plen(piece),
    {
        proof {
            self.lemma_piece_start_in_range(piece);
        }
        let start: u64 = (piece as u64) * (self.piece_len as u64);
        if (self.piece_len as u64) <= self.total_len - start {
            self.piece_len
        } else {
            (self.total_len - start) as u32
        }
    }

    /// The locations produced for piece `piece` map it onto the file
    /// table: they tile `[0, plen)` of the piece contiguously, in file
    /// order, each slice lying inside its file at the matching offset
    /// within the whole content.
    pub open spec fn locs_for(self, piece: u32, locs: Seq<Location>) -> bool {
        &&& forall|i: int| 0 <= i < locs.len() ==> (#[trigger] locs[i]).valid_for(self)
        &&& forall|i: int|
            0 <= i < locs.len() ==> self.file_start((#[trigger] locs[i]).file as int)
                + locs[i].offset == self.piece_start(piece) + locs[i].start
        &&& forall|i: int| 0 <= i < locs.len() ==> (#[trigger] locs[i]).start < locs[i].end
        &&& forall|i: int| 0 < i < locs.len() ==> (#[trigger] locs[i]).start == locs[i - 1].end
        &&& forall|i: int| 0 < i < locs.len() ==> locs[i - 1].file < (#[trigger] locs[i]).file
        &&& locs.len() > 0
        &&& locs[0].start == 0
        &&& locs[locs.len() - 1].end == self.plen(piece)
    }

    /// Produces the locations of piece `piece`: the lazy location
    /// sequence the executor walks when writing, reading or hashing
    /// the piece.
    #[verifier::rlimit(60)]
    pub fn piece_disk_locs(info: &Info, piece: u32) -> (r: Vec<Location>)
        requires
            info.wf(),
            piece < info.num_pieces(),
        ensures
            info.locs_for(piece, r@),
    {
        proof {
            info.lemma_piece_start_in_range(piece);
        }
        let piece_start: u64 = (piece as u64) * (info.piece_len as u64);
        let plen: u64 = if (info.piece_len as u64) <= info.total_len - piece_start {
            info.piece_len as u64
        } else {
            info.total_len - piece_start
        };
        let piece_end: u64 = piece_start + plen;
        let mut fidx: usize = 0;
        let mut fstart: u64 = 0;
        let mut pos: u64 = piece_start;
        let mut out: Vec<Location> = Vec::new();
        while pos < piece_end
            invariant
                info.wf(),
                piece < info.num_pieces(),
                piece_start == info.piece_start(piece),
                plen == info.plen(piece),
                piece_end == piece_start + plen,
                piece_end <= info.total_len,
                fidx <= info.files.len(),
                fstart == info.file_start(fidx as int),
                fstart <= pos,
                piece_start <= pos <= piece_end,
                forall|i: int| 0 <= i < out@.len() ==> (#[trigger] out@[i]).valid_for(*info),
                forall|i: int|
                    0 <= i < out@.len() ==> info.file_start((#[trigger] out@[i]).file as int)
                        + out@[i].offset == info.piece_start(piece) + out@[i].start,
                forall|i: int| 0 <= i < out@.len() ==> (#[trigger] out@[i]).start < out@[i].end,
                forall|i: int|
                    0 < i < out@.len() ==> (#[trigger] out@[i]).start == out@[i - 1].end,
                forall|i: int|
                    0 < i < out@.len() ==> out@[i - 1].file < (#[trigger] out@[i]).file,
                out@.len() == 0 ==> pos == piece_start,
                out@.len() > 0 ==> out@[0].start == 0,
                out@.len() > 0 ==> out@[out@.len() - 1].end == pos - piece_start,
                out@.len() > 0 ==> info.file_start(out@[out@.len() - 1].file + 1) <= pos
                    || pos == piece_end,
            decreases piece_end - pos,
        {
            while fidx < info.files.len() && info.files[fidx].length <= pos - fstart
                invariant
                    info.wf(),
                    fidx <= info.files.len(),
                    fstart == info.file_start(fidx as int),
                    fstart <= pos,
                    pos < piece_end <= info.total_len,
                decreases info.files.len() - fidx,
            {
                proof {
                    info.lemma_file_start_bounds(fidx as int + 1);
                }
                fstart = fstart + info.files[fidx].length;
                fidx = fidx + 1;
            }
            proof {
                if fidx == info.files.len() {
                    assert(fstart == info.total_len);
                    assert(false);
                }
            }
            let flen: u64 = info.files[fidx].length;
            proof {
                info.lemma_file_start_bounds(fidx as int + 1);
            }
            let file_end: u64 = fstart + flen;
            let amt: u64 = if file_end - pos <= piece_end - pos {
                file_end - pos
            } else {
                piece_end - pos
            };
            let ghost prev = out@;
            proof {
                assert(info.file_start(fidx as int + 1) == info.file_start(fidx as int)
                    + info.files[fidx as int].length);
                assert(info.file_start(fidx as int + 1) == file_end);
                assert(file_end > pos);
                if out@.len() > 0 {
                    let last = out@[out@.len() - 1];
                    if last.file >= fidx {
                        info.lemma_file_start_monotone(fidx as int + 1, last.file + 1);
                        assert(info.file_start(last.file + 1) <= pos);
                        assert(false);
                    }
                    assert(last.file < fidx);
                }
            }
            let loc = Location::new(
                fidx,
                flen,
                pos - fstart,
                pos - piece_start,
                pos - piece_start + amt,
                info,
                true,
            );
            out.push(loc);
            pos = pos + amt;
            proof {
                assert(forall|i: int|
                    0 <= i < prev.len() ==> out@[i] == #[trigger] prev[i]);
            }
        }
        out
    }
}


/// The fields of a location the engine reads agree.
pub open spec fn loc_core_eq(x: Location, y: Location) -> bool {
    &&& x.file == y.file
    &&& x.file_len == y.file_len
    &&& x.offset == y.offset
    &&& x.start == y.start
    &&& x.end == y.end
    &&& x.path@ == y.path@
}

impl Info {
    /// A location of a tiling covers the content position of its
    /// start: that position falls inside its file's range.
    proof fn lemma_loc_contains(self, piece: u32, locs: Seq<Location>, k: int)
        requires
            self.wf(),
            self.locs_for(piece, locs),
            0 <= k < locs.len(),
        ensures
            self.file_start(locs[k].file as int) <= self.piece_start(piece) + locs[k].start
                < self.file_start(locs[k].file + 1),
    {
        let loc = locs[k];
        let pos = self.piece_start(piece) + loc.start;
        assert(loc.valid_for(self));
        assert(self.file_start(loc.file as int) + loc.offset == pos);
        assert(loc.offset + (loc.end - loc.start) <= loc.file_len);
        assert(loc.start < loc.end);
        assert(self.file_start(loc.file + 1) == self.file_start(loc.file as int)
            + self.files[loc.file as int].length);
    }

    /// At most one file contains a content position.
    proof fn lemma_file_unique(self, f1: int, f2: int, pos: int)
        requires
            self.wf(),
            0 <= f1 < self.files.len(),
            0 <= f2 < self.files.len(),
            self.file_start(f1) <= pos < self.file_start(f1 + 1),
            self.file_start(f2) <= pos < self.file_start(f2 + 1),
        ensures
            f1 == f2,
    {
        if f1 < f2 {
            self.lemma_file_start_monotone(f1 + 1, f2);
            assert(false);
        }
        if f2 < f1 {
            self.lemma_file_start_monotone(f2 + 1, f1);
            assert(false);
        }
    }

    /// A location that another follows ends exactly at its file's end.
    proof fn lemma_loc_end(self, piece: u32, locs: Seq<Location>, k: int)
        requires
            self.wf(),
            piece < self.num_pieces(),
            self.locs_for(piece, locs),
            0 <= k < locs.len() - 1,
        ensures
            self.piece_start(piece) + locs[k].end == self.file_start(locs[k].file + 1),
    {
        let loc = locs[k];
        let nxt = locs[k + 1];
        assert(loc.valid_for(self) && nxt.valid_for(self));
        assert(nxt.start == loc.end);
        // the slice fits its file
        assert(self.file_start(loc.file as int) + loc.offset == self.piece_start(piece)
            + loc.start);
        assert(self.file_start(loc.file + 1) == self.file_start(loc.file as int)
            + self.files[loc.file as int].length);
        assert(self.piece_start(piece) + loc.end <= self.file_start(loc.file + 1));
        // the next location starts at or past this file's end
        assert(self.file_start(nxt.file as int) + nxt.offset == self.piece_start(piece)
            + nxt.start);
        self.lemma_file_start_monotone(loc.file + 1, nxt.file as int);
        assert(self.piece_start(piece) + loc.end >= self.file_start(loc.file + 1));
    }

    /// Two tilings that agree before index `j` agree at `j`.
    proof fn lemma_locs_index_eq(self, piece: u32, a: Seq<Location>, b: Seq<Location>, j: int)
        requires
            self.wf(),
            piece < self.num_pieces(),
            self.locs_for(piece, a),
            self.locs_for(piece, b),
            0 <= j < a.len(),
            j < b.len(),
            j > 0 ==> loc_core_eq(a[j - 1], b[j - 1]),
        ensures
            loc_core_eq(a[j], b[j]),
    {
        let x = a[j];
        let y = b[j];
        assert(x.valid_for(self) && y.valid_for(self));
        assert(x.start == y.start);
        let pos = self.piece_start(piece) + x.start;
        self.lemma_loc_contains(piece, a, j);
        self.lemma_loc_contains(piece, b, j);
        self.lemma_file_unique(x.file as int, y.file as int, pos);
        assert(x.file == y.file);
        assert(x.offset == y.offset);
        assert(x.file_len == y.file_len);
        assert(x.path@ == y.path@);
        assert(x.end == y.end) by {
            if j < a.len() - 1 && j < b.len() - 1 {
                self.lemma_loc_end(piece, a, j);
                self.lemma_loc_end(piece, b, j);
            } else if j == a.len() - 1 && j == b.len() - 1 {
                assert(x.end == self.plen(piece) && y.end == self.plen(piece));
            } else if j == a.len() - 1 && j < b.len() - 1 {
                self.lemma_loc_end(piece, b, j);
                assert(x.end == self.plen(piece));
                assert(self.piece_start(piece) + x.end <= self.file_start(x.file + 1));
                assert(b[j + 1].start == y.end && b[j + 1].start < b[j + 1].end);
                self.lemma_locs_end_bounded(piece, b, j + 1);
                assert(y.end < self.plen(piece));
                assert(false);
            } else {
                self.lemma_loc_end(piece, a, j);
                assert(y.end == self.plen(piece));
                assert(self.piece_start(piece) + y.end <= self.file_start(y.file + 1));
                assert(a[j + 1].start == x.end && a[j + 1].start < a[j + 1].end);
                self.lemma_locs_end_bounded(piece, a, j + 1);
                assert(x.end < self.plen(piece));
                assert(false);
            }
        }
    }

    /// The tilings of a piece agree on a common prefix.
    #[verifier::rlimit(100)]
    proof fn lemma_locs_prefix_eq(self, piece: u32, a: Seq<Location>, b: Seq<Location>, k: int)
        requires
            self.wf(),
            piece < self.num_pieces(),
            self.locs_for(piece, a),
            self.locs_for(piece, b),
            0 <= k <= a.len(),
            k <= b.len(),
        ensures
            forall|j: int| 0 <= j < k ==> #[trigger] loc_core_eq(a[j], b[j]),
        decreases k,
    {
        if k > 0 {
            self.lemma_locs_prefix_eq(piece, a, b, k - 1);
            self.lemma_locs_index_eq(piece, a, b, k - 1);
        }
    }

    /// A piece has exactly one tiling: any two location lists the
    /// producer's contract accepts agree in every field the engine
    /// reads.
    pub proof fn lemma_locs_for_unique(self, piece: u32, a: Seq<Location>, b: Seq<Location>)
        requires
            self.wf(),
            piece < self.num_pieces(),
            self.locs_for(piece, a),
            self.locs_for(piece, b),
        ensures
            a.len() == b.len(),
            forall|j: int| 0 <= j < a.len() ==> #[trigger] loc_core_eq(a[j], b[j]),
    {
        let n = vstd::math::min(a.len() as int, b.len() as int);
        self.lemma_locs_prefix_eq(piece, a, b, n);
        if a.len() < b.len() {
            let j = a.len() - 1;
            assert(loc_core_eq(a[j], b[j]));
            assert(a[j].end == self.plen(piece));
            assert(b[j + 1].start == b[j].end && b[j + 1].start < b[j + 1].end);
            assert(b[j + 1].end <= self.plen(piece)) by {
                if j + 1 < b.len() - 1 {
                    assert(forall|i: int|
                        0 < i < b.len() ==> (#[trigger] b[i]).start == b[i - 1].end);
                    self.lemma_locs_end_bounded(piece, b, j + 1);
                } else {
                    assert(b[j + 1].end == self.plen(piece));
                }
            }
            assert(false);
        }
        if b.len() < a.len() {
            let j = b.len() - 1;
            assert(loc_core_eq(a[j], b[j]));
            assert(b[j].end == self.plen(piece));
            assert(a[j + 1].start == a[j].end && a[j + 1].start < a[j + 1].end);
            assert(a[j + 1].end <= self.plen(piece)) by {
                if j + 1 < a.len() - 1 {
                    self.lemma_locs_end_bounded(piece, a, j + 1);
                } else {
                    assert(a[j + 1].end == self.plen(piece));
                }
            }
            assert(false);
        }
    }

    /// Every slice of a tiling ends at or before the piece's end.
    proof fn lemma_locs_end_bounded(self, piece: u32, locs: Seq<Location>, k: int)
        requires
            self.wf(),
            piece < self.num_pieces(),
            self.locs_for(piece, locs),
            0 <= k < locs.len(),
        ensures
            locs[k].end <= self.plen(piece),
        decreases locs.len() - k,
    {
        if k == locs.len() - 1 {
        } else {
            self.lemma_locs_end_bounded(piece, locs, k + 1);
            assert(locs[k + 1].start == locs[k].end);
            assert(locs[k].end < locs[k + 1].end);
        }
    }
}

} // verus!
