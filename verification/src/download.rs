//! The Download job: streams a completed file as an HTTP/1.1 response,
//! with single-range and multipart/byteranges support, through a
//! 16 KiB bounce buffer that alternates between filling from the file
//! and draining to the client socket.
use vstd::prelude::*;
use vstd::string::StrSliceExecFns;
use vstd::string::StringSliceAdditionalSpecFns;

use crate::encdec::{dec_of, push_dec, push_str_bytes};
use crate::fs::MemFs;
use crate::cache::FileCache;

verus! {

/// One requested byte range of the file: `length` bytes from `start`.
#[derive(Debug, Clone, Copy)]
pub struct HttpRange {
    /// First byte offset.
    pub start: u64,
    /// Number of bytes.
    pub length: u64,
}

/// State a Download job carries between time slices.
#[derive(Debug)]
pub struct DownloadState {
    /// Absolute path of the file being streamed.
    pub path: Vec<u8>,
    /// The ranges still to serve; the range being served has its
    /// `start`/`length` advanced as its bytes move through the buffer.
    pub ranges: Vec<HttpRange>,
    /// Index of the range being served.
    pub range_idx: usize,
    /// The response is multipart (more than one range was asked).
    pub ranged: bool,
    /// The bounce buffer holds bytes waiting for the socket.
    pub writing: bool,
    /// Next byte of the bounce buffer to send.
    pub buf_idx: usize,
    /// End of the pending bytes in the bounce buffer.
    pub buf_max: usize,
    /// The bounce buffer.
    pub buf: Vec<u8>,
    /// Length of the file being streamed.
    pub file_len: u64,
}

/// The fixed multipart boundary literal.
pub open spec fn boundary() -> Seq<u8> {
    ("qxyllcqgNchqyob").spec_bytes()
}

/// The `Content-Range` header line: `bytes S-E/L` with inclusive end.
pub open spec fn content_range_line(start: int, length: int, flen: int) -> Seq<u8> {
    ("Content-Range: bytes ").spec_bytes() + dec_of(start as nat) + ("-").spec_bytes() + dec_of(
        (start + length - 1) as nat,
    ) + ("/").spec_bytes() + dec_of(flen as nat)
}

/// Header of a single-range `206 Partial Content` response.
pub open spec fn single_range_header(start: int, length: int, flen: int) -> Seq<u8> {
    ("HTTP/1.1 206 Partial Content\r\nContent-Length: ").spec_bytes() + dec_of(length as nat) + (
    "\r\n").spec_bytes() + content_range_line(start, length, flen) + (
    "\r\nAccept-Ranges: bytes\r\nContent-Type: application/octet-stream;\r\nConnection: Close\r\n\r\n").spec_bytes()
}

/// Header of a multipart/byteranges `206 Partial Content` response.
pub open spec fn multipart_header() -> Seq<u8> {
    (
    "HTTP/1.1 206 Partial Content\r\nAccept-Ranges: bytes\r\nContent-Type: multipart/byteranges; boundary=qxyllcqgNchqyob\r\nConnection: Close\r\n\r\n").spec_bytes()
}

/// The file name: everything after the last path separator.
pub open spec fn basename(path: Seq<u8>) -> Seq<u8>
    decreases path.len(),
{
    if path.len() == 0 {
        Seq::empty()
    } else if path.last() == 47u8 {
        Seq::empty()
    } else {
        basename(path.drop_last()) + seq![path.last()]
    }
}

/// Header of a whole-file `200 OK` response.
pub open spec fn plain_header(flen: int, path: Seq<u8>) -> Seq<u8> {
    ("HTTP/1.1 200 OK\r\nAccept-Ranges: bytes\r\nContent-Length: ").spec_bytes() + dec_of(
        flen as nat,
    ) + ("\r\nContent-Type: application/octet-stream\r\nContent-Disposition: attachment; filename=\"").spec_bytes()
        + basename(path) + ("\"\r\nConnection: Close\r\n\r\n").spec_bytes()
}

/// The prefix announcing one part of a multipart response.
pub open spec fn part_header(start: int, length: int, flen: int) -> Seq<u8> {
    ("\r\n--qxyllcqgNchqyob\r\nContent-Type: application/octet-stream\r\n").spec_bytes()
        + content_range_line(start, length, flen) + ("\r\n\r\n").spec_bytes()
}

/// The closing boundary of a multipart response.
pub open spec fn closer() -> Seq<u8> {
    ("\r\n--qxyllcqgNchqyob--").spec_bytes()
}

/// The bytes still owed for ranges `i` onward: each range's remaining
/// file slice, each later range announced by its part header when the
/// response is multipart, and the closing boundary at the end.
pub open spec fn tail_bytes(file: Seq<u8>, ranges: Seq<HttpRange>, i: int, ranged: bool, flen: int) -> Seq<u8>
    decreases ranges.len() - i,
{
    if i >= ranges.len() {
        Seq::empty()
    } else {
        let r = ranges[i];
        let chunk = file.subrange(r.start as int, r.start + r.length);
        let trans: Seq<u8> = if i + 1 == ranges.len() {
            if ranged {
                closer()
            } else {
                Seq::empty()
            }
        } else {
            if ranged {
                part_header(
                    ranges[i + 1].start as int,
                    ranges[i + 1].length as int,
                    flen,
                )
            } else {
                Seq::empty()
            }
        };
        chunk + trans + tail_bytes(file, ranges, i + 1, ranged, flen)
    }
}

/// The whole response a download serves: header, then the framed
/// range bytes. `ranges` and `ranged` are as the client asked; a
/// single asked range collapses to the single-range form.
pub open spec fn response_spec(
    file: Seq<u8>,
    path: Seq<u8>,
    ranges: Seq<HttpRange>,
    ranged: bool,
    flen: int,
) -> Seq<u8> {
    if ranged && ranges.len() == 1 {
        single_range_header(ranges[0].start as int, ranges[0].length as int, flen) + tail_bytes(
            file,
            ranges,
            0,
            false,
            flen,
        )
    } else if ranged {
        multipart_header() + part_header(ranges[0].start as int, ranges[0].length as int, flen)
            + tail_bytes(file, ranges, 0, true, flen)
    } else {
        plain_header(flen, path) + tail_bytes(file, ranges, 0, false, flen)
    }
}

/// The header block a download stages first: the single-range form
/// when exactly one range was asked, the multipart form for several,
/// the whole-file form otherwise.
pub open spec fn header_bytes(
    path: Seq<u8>,
    ranges: Seq<HttpRange>,
    ranged: bool,
    flen: int,
) -> Seq<u8> {
    if ranged && ranges.len() == 1 {
        single_range_header(ranges[0].start as int, ranges[0].length as int, flen)
    } else if ranged {
        multipart_header()
    } else {
        plain_header(flen, path)
    }
}

/// A single-range header is far smaller than the bounce buffer.
pub proof fn lemma_single_range_header_len(start: u64, length: u64, flen: u64)
    requires
        length >= 1,
        start + length <= u64::MAX,
    ensures
        single_range_header(start as int, length as int, flen as int).len() <= 400,
{
    reveal_strlit("HTTP/1.1 206 Partial Content\r\nContent-Length: ");
    vstd::string::is_ascii_spec_bytes("HTTP/1.1 206 Partial Content\r\nContent-Length: ");
    reveal_strlit("\r\n");
    vstd::string::is_ascii_spec_bytes("\r\n");
    reveal_strlit("Content-Range: bytes ");
    vstd::string::is_ascii_spec_bytes("Content-Range: bytes ");
    reveal_strlit("-");
    vstd::string::is_ascii_spec_bytes("-");
    reveal_strlit("/");
    vstd::string::is_ascii_spec_bytes("/");
    reveal_strlit(
        "\r\nAccept-Ranges: bytes\r\nContent-Type: application/octet-stream;\r\nConnection: Close\r\n\r\n",
    );
    vstd::string::is_ascii_spec_bytes(
        "\r\nAccept-Ranges: bytes\r\nContent-Type: application/octet-stream;\r\nConnection: Close\r\n\r\n",
    );
    lemma_dec_of_len20(length);
    lemma_dec_of_len20(start);
    lemma_dec_of_len20((start + length - 1) as u64);
    lemma_dec_of_len20(flen);
}

/// The multipart header is a fixed block far smaller than the buffer.
pub proof fn lemma_multipart_header_len()
    ensures
        multipart_header().len() <= 200,
{
    reveal_strlit(
        "HTTP/1.1 206 Partial Content\r\nAccept-Ranges: bytes\r\nContent-Type: multipart/byteranges; boundary=qxyllcqgNchqyob\r\nConnection: Close\r\n\r\n",
    );
    vstd::string::is_ascii_spec_bytes(
        "HTTP/1.1 206 Partial Content\r\nAccept-Ranges: bytes\r\nContent-Type: multipart/byteranges; boundary=qxyllcqgNchqyob\r\nConnection: Close\r\n\r\n",
    );
}

impl DownloadState {
    /// The state is internally consistent and its remaining ranges lie
    /// inside the file.
    pub open spec fn wf(self) -> bool {
        &&& self.buf@.len() == 16384
        &&& self.buf_idx <= self.buf_max <= 16384
        &&& self.range_idx <= self.ranges.len()
        &&& forall|i: int|
            self.range_idx <= i < self.ranges.len() ==> (#[trigger] self.ranges[i]).start
                + self.ranges[i].length <= self.file_len
        &&& self.ranged ==> forall|i: int|
            self.range_idx < i < self.ranges.len() ==> (#[trigger] self.ranges[i]).length >= 1
    }

    /// Everything this download still owes the socket: the pending
    /// slice of the bounce buffer, then the remaining framed ranges.
    pub open spec fn pending_bytes(self, file: Seq<u8>) -> Seq<u8> {
        (if self.writing {
            self.buf@.subrange(self.buf_idx as int, self.buf_max as int)
        } else {
            Seq::empty()
        }) + tail_bytes(
            file,
            self.ranges@,
            self.range_idx as int,
            self.ranged,
            self.file_len as int,
        )
    }

    /// The download is finished: nothing pending, nothing left.
    pub open spec fn finished(self) -> bool {
        !self.writing && self.range_idx == self.ranges.len()
    }

    /// Loop steps this download still needs before it finishes: one
    /// to drain whatever the bounce buffer holds, then the steps of
    /// the remaining ranges.
    pub open spec fn steps(self) -> int {
        (if self.writing {
            1int
        } else {
            0int
        }) + tail_steps(self.ranges@, self.range_idx as int, self.ranged)
    }
}

/// Buffer fills a range of the given remaining length still needs:
/// one per 16 KiB chunk.
pub open spec fn chunk_steps(length: int) -> int {
    (length + 16383) / 16384
}

/// Loop steps owed from range `i` on: a fill and a drain per chunk,
/// one advance per range, and one drain per multipart frame (part
/// header or closing boundary).
pub open spec fn tail_steps(ranges: Seq<HttpRange>, i: int, ranged: bool) -> int
    decreases ranges.len() - i,
{
    if i >= ranges.len() {
        0
    } else {
        2 * chunk_steps(ranges[i].length as int) + 1 + (if ranged {
            1int
        } else {
            0int
        }) + tail_steps(ranges, i + 1, ranged)
    }
}

/// `tail_steps` reads only the ranges from `i` onward.
proof fn lemma_tail_steps_congruence(a: Seq<HttpRange>, b: Seq<HttpRange>, i: int, ranged: bool)
    requires
        a.len() == b.len(),
        forall|k: int| i <= k < a.len() ==> a[k] == b[k],
    ensures
        tail_steps(a, i, ranged) == tail_steps(b, i, ranged),
    decreases a.len() - i,
{
    if i < a.len() {
        lemma_tail_steps_congruence(a, b, i + 1, ranged);
    }
}

/// An exhausted range needs no fills.
proof fn lemma_chunk_steps_zero()
    ensures
        chunk_steps(0) == 0,
{
    assert((0int + 16383) / 16384 == 0) by (nonlinear_arith);
}

/// Consuming one chunk of a range takes one fill off its count.
proof fn lemma_chunk_steps_dec(length: int)
    requires
        length >= 1,
    ensures
        chunk_steps(length) == 1 + chunk_steps(
            if length <= 16384 {
                0int
            } else {
                length - 16384
            },
        ),
{
    if length <= 16384 {
        assert((length + 16383) / 16384 == 1) by (nonlinear_arith)
            requires
                1 <= length <= 16384,
        ;
        assert((0int + 16383) / 16384 == 0) by (nonlinear_arith);
    } else {
        assert((length + 16383) / 16384 == 1 + (length - 16384 + 16383) / 16384)
            by (nonlinear_arith)
            requires
                length > 16384,
        ;
    }
}

/// Prefixing a range list shifts the owed bytes by one index.
proof fn lemma_tail_shift(
    file: Seq<u8>,
    a: Seq<HttpRange>,
    b: Seq<HttpRange>,
    j: int,
    ranged: bool,
    flen: int,
)
    requires
        b.len() == a.len() + 1,
        forall|k: int| 0 <= k < a.len() ==> b[k + 1] == a[k],
        0 <= j <= a.len(),
    ensures
        tail_bytes(file, b, j + 1, ranged, flen) == tail_bytes(file, a, j, ranged, flen),
    decreases a.len() - j,
{
    if j < a.len() {
        lemma_tail_shift(file, a, b, j + 1, ranged, flen);
    }
}

/// `tail_bytes` reads only the ranges from `i` onward.
proof fn lemma_tail_congruence(
    file: Seq<u8>,
    a: Seq<HttpRange>,
    b: Seq<HttpRange>,
    i: int,
    ranged: bool,
    flen: int,
)
    requires
        a.len() == b.len(),
        forall|k: int| i <= k < a.len() ==> a[k] == b[k],
    ensures
        tail_bytes(file, a, i, ranged, flen) == tail_bytes(file, b, i, ranged, flen),
    decreases a.len() - i,
{
    if i < a.len() {
        lemma_tail_congruence(file, a, b, i + 1, ranged, flen);
    }
}

/// Appends `Content-Range: bytes S-E/L` with inclusive end `E`.
fn push_content_range(out: &mut Vec<u8>, start: u64, length: u64, flen: u64)
    requires
        length >= 1,
        start + length <= u64::MAX,
    ensures
        final(out)@ == old(out)@ + content_range_line(start as int, length as int, flen as int),
{
    push_str_bytes(out, "Content-Range: bytes ");
    push_dec(out, start);
    push_str_bytes(out, "-");
    push_dec(out, start + length - 1);
    push_str_bytes(out, "/");
    push_dec(out, flen);
}

/// Builds the bytes of one multipart part header.
pub fn build_part_header(start: u64, length: u64, flen: u64) -> (r: Vec<u8>)
    requires
        length >= 1,
        start + length <= u64::MAX,
    ensures
        r@ == part_header(start as int, length as int, flen as int),
{
    let mut out: Vec<u8> = Vec::new();
    push_str_bytes(&mut out, "\r\n--qxyllcqgNchqyob\r\nContent-Type: application/octet-stream\r\n");
    push_content_range(&mut out, start, length, flen);
    push_str_bytes(&mut out, "\r\n\r\n");
    out
}

/// `n` has at most twenty decimal digits.
proof fn lemma_dec_of_len20(n: u64)
    ensures
        dec_of(n as nat).len() <= 20,
{
    lemma_u64_below_pow10_20(n);
    lemma_dec_of_len_bound(n as nat, 20);
}

spec fn pow10(k: nat) -> nat
    decreases k,
{
    if k == 0 {
        1
    } else {
        10 * pow10((k - 1) as nat)
    }
}

proof fn lemma_dec_of_len_bound(n: nat, k: nat)
    requires
        k >= 1,
        n < pow10(k),
    ensures
        dec_of(n).len() <= k,
    decreases n,
{
    if n < 10 {
    } else {
        assert(pow10(k) == 10 * pow10((k - 1) as nat));
        assert(n / 10 < pow10((k - 1) as nat)) by (nonlinear_arith)
            requires
                n < 10 * pow10((k - 1) as nat),
                n >= 10,
        ;
        assert(k >= 2) by {
            if k == 1 {
                assert(pow10(1nat) == 10);
            }
        }
        lemma_dec_of_len_bound(n / 10, (k - 1) as nat);
    }
}

proof fn lemma_u64_below_pow10_20(n: u64)
    ensures
        (n as nat) < pow10(20),
{
    assert(pow10(20) == 0x56BC75E2D63100000) by {
        reveal_with_fuel(pow10, 21);
    }
}

/// The closing boundary fits the bounce buffer with room to spare.
pub fn build_closer() -> (r: Vec<u8>)
    ensures
        r@ == closer(),
        r@.len() <= 32,
{
    let mut out: Vec<u8> = Vec::new();
    push_str_bytes(&mut out, "\r\n--qxyllcqgNchqyob--");
    proof {
        reveal_strlit("\r\n--qxyllcqgNchqyob--");
        vstd::string::is_ascii_spec_bytes("\r\n--qxyllcqgNchqyob--");
    }
    out
}

/// Lays `src` into the front of the 16 KiB bounce buffer.
fn fill_buf(buf: &mut Vec<u8>, src: &Vec<u8>)
    requires
        old(buf)@.len() == 16384,
        src@.len() <= 16384,
    ensures
        final(buf)@.len() == 16384,
        final(buf)@.subrange(0, src@.len() as int) == src@,
{
    let mut k: usize = 0;
    while k < src.len()
        invariant
            k <= src@.len(),
            src@.len() <= 16384,
            buf@.len() == 16384,
            forall|m: int| 0 <= m < k ==> buf@[m] == src@[m],
        decreases src@.len() - k,
    {
        buf[k] = src[k];
        k = k + 1;
    }
    proof {
        assert(buf@.subrange(0, src@.len() as int) =~= src@);
    }
}

impl DownloadState {
    /// Prepares a download: encodes the response header into the
    /// bounce buffer, collapsing a single asked range to the
    /// single-range form and prefixing multipart range lists with a
    /// spent sentinel range so the first part header is emitted by the
    /// ordinary range-advance step. Yields nothing when the header
    /// (whose length the file name enters) would overflow the buffer.
    pub fn new(path: Vec<u8>, ranges: Vec<HttpRange>, ranged: bool, len: u64) -> (r: Option<
        DownloadState,
    >)
        requires
            ranged ==> ranges@.len() >= 1,
            forall|i: int|
                0 <= i < ranges@.len() ==> (#[trigger] ranges@[i]).start + ranges@[i].length
                    <= len,
            ranged ==> forall|i: int|
                0 <= i < ranges@.len() ==> (#[trigger] ranges@[i]).length >= 1,
            !ranged ==> path@.len() >= 1 && path@[path@.len() - 1] != 47,
        ensures
            r is Some <==> header_bytes(path@, ranges@, ranged, len as int).len() <= 16384,
            ranged ==> r is Some,
            r matches Some(st) ==> {
                &&& st.wf()
                &&& st.path@ == path@
                &&& st.file_len == len
                &&& st.writing
                &&& st.buf_idx == 0
                &&& st.range_idx == 0
                &&& st.ranged == (ranged && ranges@.len() > 1)
                &&& st.ranges@ == (if ranged && ranges@.len() > 1 {
                    seq![HttpRange { start: 0u64, length: 0u64 }] + ranges@
                } else {
                    ranges@
                })
                &&& st.buf_max == header_bytes(path@, ranges@, ranged, len as int).len()
                &&& st.buf@.subrange(0, st.buf_max as int) == header_bytes(
                    path@,
                    ranges@,
                    ranged,
                    len as int,
                )
                &&& forall|file: Seq<u8>|
                    #[trigger] st.pending_bytes(file) == response_spec(
                        file,
                        path@,
                        ranges@,
                        ranged,
                        len as int,
                    )
            },
    {
        let mut header: Vec<u8> = Vec::new();
        let mut ranges = ranges;
        let mut ranged = ranged;
        let ghost asked = ranges@;
        let ghost asked_ranged = ranged;
        if ranged && ranges.len() == 1 {
            ranged = false;
            push_str_bytes(&mut header, "HTTP/1.1 206 Partial Content\r\nContent-Length: ");
            push_dec(&mut header, ranges[0].length);
            push_str_bytes(&mut header, "\r\n");
            push_content_range(&mut header, ranges[0].start, ranges[0].length, len);
            push_str_bytes(
                &mut header,
                "\r\nAccept-Ranges: bytes\r\nContent-Type: application/octet-stream;\r\nConnection: Close\r\n\r\n",
            );
        } else if ranged {
            push_str_bytes(
                &mut header,
                "HTTP/1.1 206 Partial Content\r\nAccept-Ranges: bytes\r\nContent-Type: multipart/byteranges; boundary=qxyllcqgNchqyob\r\nConnection: Close\r\n\r\n",
            );
            // a spent range so the first part header is emitted by the
            // ordinary advance step
            ranges.insert(0, HttpRange { start: 0, length: 0 });
        } else {
            push_str_bytes(&mut header, "HTTP/1.1 200 OK\r\nAccept-Ranges: bytes\r\nContent-Length: ");
            push_dec(&mut header, len);
            push_str_bytes(
                &mut header,
                "\r\nContent-Type: application/octet-stream\r\nContent-Disposition: attachment; filename=\"",
            );
            push_basename(&mut header, &path);
            push_str_bytes(&mut header, "\"\r\nConnection: Close\r\n\r\n");
        }
        proof {
            if asked_ranged && asked.len() == 1 {
                assert(header@ =~= single_range_header(
                    asked[0].start as int,
                    asked[0].length as int,
                    len as int,
                ));
            } else if asked_ranged {
                assert(header@ =~= multipart_header());
            } else {
                assert(header@ =~= plain_header(len as int, path@));
            }
            assert(header@ == header_bytes(path@, asked, asked_ranged, len as int));
        }
        let hlen = header.len();
        if hlen > 16384 {
            proof {
                if asked_ranged {
                    if asked.len() == 1 {
                        lemma_single_range_header_len(asked[0].start, asked[0].length, len);
                    } else {
                        lemma_multipart_header_len();
                    }
                    assert(false);
                }
            }
            return None;
        }
        let mut buf: Vec<u8> = Vec::new();
        buf.resize(16384, 0u8);
        fill_buf(&mut buf, &header);
        let st = DownloadState {
            path,
            ranges,
            range_idx: 0,
            ranged,
            writing: true,
            buf_idx: 0,
            buf_max: hlen,
            buf,
            file_len: len,
        };
        proof {
            let ghost p = st.path@;
            assert(st.buf@.subrange(0, hlen as int) == header@);
            if asked_ranged && asked.len() != 1 {
                assert(st.ranges@ =~= seq![HttpRange { start: 0u64, length: 0u64 }] + asked);
            }
            assert(st.buf@.len() == 16384);
            assert(st.buf_idx <= st.buf_max <= 16384);
            if asked_ranged && asked.len() != 1 {
                assert(st.ranges@ == asked.insert(0, HttpRange { start: 0, length: 0 }));
                assert forall|i: int|
                    0 <= i < st.ranges@.len() implies (#[trigger] st.ranges@[i]).start
                    + st.ranges@[i].length <= st.file_len by {
                    if i > 0 {
                        assert(st.ranges@[i] == asked[i - 1]);
                    }
                }
                assert forall|i: int|
                    0 < i < st.ranges@.len() implies (#[trigger] st.ranges@[i]).length >= 1 by {
                    assert(st.ranges@[i] == asked[i - 1]);
                }
            }
            assert(st.wf());
            assert forall|file: Seq<u8>| #[trigger]
                st.pending_bytes(file) == response_spec(
                    file,
                    p,
                    asked,
                    asked_ranged,
                    len as int,
                ) by {
                if asked_ranged && asked.len() == 1 {
                    assert(header@ =~= single_range_header(
                        asked[0].start as int,
                        asked[0].length as int,
                        len as int,
                    ));
                    assert(st.pending_bytes(file) =~= response_spec(
                        file,
                        p,
                        asked,
                        asked_ranged,
                        len as int,
                    ));
                } else if asked_ranged {
                    assert(header@ =~= multipart_header());
                    assert(st.ranges@.len() == asked.len() + 1);
                    assert(forall|k: int| 0 <= k < asked.len() ==> st.ranges@[k + 1] == asked[k]);
                    lemma_tail_shift(file, asked, st.ranges@, 0, true, len as int);
                    assert(file.subrange(0, 0) =~= Seq::<u8>::empty());
                    assert(tail_bytes(file, st.ranges@, 0, true, len as int) =~= part_header(
                        asked[0].start as int,
                        asked[0].length as int,
                        len as int,
                    ) + tail_bytes(file, asked, 0, true, len as int));
                    assert(st.pending_bytes(file) =~= response_spec(
                        file,
                        p,
                        asked,
                        asked_ranged,
                        len as int,
                    ));
                } else {
                    assert(header@ =~= plain_header(len as int, p));
                    assert(st.pending_bytes(file) =~= response_spec(
                        file,
                        p,
                        asked,
                        asked_ranged,
                        len as int,
                    ));
                }
            }
        }
        Some(st)
    }
}

impl DownloadState {
    /// Stages one chunk read from the file: the bytes enter the bounce
    /// buffer for the socket and the range being served advances past
    /// them.
    pub fn stage_chunk(&mut self, seg: &Vec<u8>)
        requires
            old(self).wf(),
            old(self).range_idx < old(self).ranges.len(),
            old(self).ranges[old(self).range_idx as int].length >= 1,
            seg@.len() == vstd::math::min(
                old(self).ranges[old(self).range_idx as int].length as int,
                16384,
            ),
        ensures
            final(self).wf(),
            final(self).writing,
            final(self).buf_idx == 0,
            final(self).buf_max == seg@.len(),
            final(self).buf@.subrange(0, seg@.len() as int) == seg@,
            final(self).path@ == old(self).path@,
            final(self).file_len == old(self).file_len,
            final(self).ranged == old(self).ranged,
            final(self).range_idx == old(self).range_idx,
            final(self).ranges@.len() == old(self).ranges@.len(),
            final(self).ranges@[old(self).range_idx as int].start == old(self).ranges[old(
                self,
            ).range_idx as int].start + seg@.len(),
            final(self).ranges@[old(self).range_idx as int].length == old(self).ranges[old(
                self,
            ).range_idx as int].length - seg@.len(),
            forall|k: int|
                0 <= k < old(self).ranges@.len() && k != old(self).range_idx
                    ==> final(self).ranges@[k] == old(self).ranges@[k],
    {
        let ri = self.range_idx;
        let r = self.ranges[ri];
        fill_buf(&mut self.buf, seg);
        let amnt = seg.len();
        self.ranges[ri] = HttpRange {
            start: r.start + amnt as u64,
            length: r.length - amnt as u64,
        };
        self.buf_idx = 0;
        self.buf_max = amnt;
        self.writing = true;
    }
}

/// Finds the last path separator and appends what follows it.
fn push_basename(out: &mut Vec<u8>, path: &Vec<u8>)
    requires
        path@.len() >= 1,
        path@[path@.len() - 1] != 47,
    ensures
        final(out)@ == old(out)@ + basename(path@),
{
    let mut i: usize = path.len();
    while i > 0
        invariant
            i <= path@.len(),
            out@ == old(out)@,
            forall|j: int| i <= j < path@.len() ==> path@[j] != 47,
        decreases i,
    {
        if path[i - 1] == 47 {
            proof {
                lemma_basename_skip(path@, i as int);
            }
            let mut k: usize = i;
            proof {
                assert(out@ =~= old(out)@ + path@.subrange(i as int, i as int));
            }
            while k < path.len()
                invariant
                    i <= k <= path@.len(),
                    out@ == old(out)@ + path@.subrange(i as int, k as int),
                decreases path@.len() - k,
            {
                out.push(path[k]);
                proof {
                    assert(out@ =~= old(out)@ + path@.subrange(i as int, k + 1));
                }
                k = k + 1;
            }
            proof {
                assert(path@.subrange(i as int, path@.len() as int) =~= path@.skip(i as int));
            }
            return ;
        }
        i = i - 1;
    }
    proof {
        lemma_basename_skip(path@, 0);
        assert(path@.skip(0) =~= path@);
    }
    let mut tail = path.clone();
    proof {
        assert(tail@ =~= path@);
    }
    out.append(&mut tail);
}

/// A part header is far smaller than the bounce buffer.
proof fn lemma_part_header_len(start: u64, length: u64, flen: u64)
    requires
        length >= 1,
        start + length <= u64::MAX,
    ensures
        part_header(start as int, length as int, flen as int).len() <= 200,
{
    reveal_strlit("\r\n--qxyllcqgNchqyob\r\nContent-Type: application/octet-stream\r\n");
    vstd::string::is_ascii_spec_bytes("\r\n--qxyllcqgNchqyob\r\nContent-Type: application/octet-stream\r\n");
    reveal_strlit("Content-Range: bytes ");
    vstd::string::is_ascii_spec_bytes("Content-Range: bytes ");
    reveal_strlit("-");
    vstd::string::is_ascii_spec_bytes("-");
    reveal_strlit("/");
    vstd::string::is_ascii_spec_bytes("/");
    reveal_strlit("\r\n\r\n");
    vstd::string::is_ascii_spec_bytes("\r\n\r\n");
    lemma_dec_of_len20(start);
    lemma_dec_of_len20((start + length - 1) as u64);
    lemma_dec_of_len20(flen);
}

/// Runs a download for up to `budget` steps against the model store,
/// whose client socket accepts every byte: each step drains the
/// bounce buffer into `sink`, advances past a spent range (framing
/// the next one), or refills the buffer from the file. The bytes
/// that reached the sink and the bytes still owed always add up to
/// the same response; when the run reports completion the sink holds
/// everything the state owed.
#[verifier::rlimit(100)]
pub fn run_download(
    fs: &MemFs,
    fc: &mut FileCache,
    st: DownloadState,
    sink: &mut Vec<u8>,
    budget: u32,
) -> (res: (DownloadState, bool))
    requires
        fs.wf(),
        old(fc).wf(),
        st.wf(),
        budget >= 1,
        fs.has_file(st.path@),
        fs.data_at(st.path@).len() == st.file_len,
    ensures
        final(fc).wf(),
        final(fc).capacity == old(fc).capacity,
        res.0.wf(),
        res.0.path@ == st.path@,
        res.0.file_len == st.file_len,
        final(sink)@ + res.0.pending_bytes(fs.data_at(st.path@)) == old(sink)@
            + st.pending_bytes(fs.data_at(st.path@)),
        res.1 == res.0.finished(),
        res.1 ==> final(sink)@ == old(sink)@ + st.pending_bytes(fs.data_at(st.path@)),
        res.1 ==> res.0.steps() == 0,
        !res.1 ==> res.0.steps() == st.steps() - budget,
{
    let ghost file = fs.data_at(st.path@);
    let ghost sink0 = sink@;
    let ghost owed = st.pending_bytes(file);
    let mut cur = st;
    let mut steps: u32 = 0;
    let _evicted = fc.touch(&cur.path, false);
    while steps < budget
        invariant
            fs.wf(),
            fc.wf(),
            fc.capacity == old(fc).capacity,
            cur.wf(),
            steps <= budget,
            cur.path@ == st.path@,
            cur.file_len == st.file_len,
            file == fs.data_at(st.path@),
            file.len() == cur.file_len,
            fs.has_file(st.path@),
            sink@ + cur.pending_bytes(file) == sink0 + owed,
            sink0 == old(sink)@,
            owed == st.pending_bytes(file),
            cur.steps() == st.steps() - steps,
        decreases budget - steps,
    {
        let ghost pre = cur;
        if cur.writing {
            let seg = vstd::slice::slice_to_vec(
                vstd::slice::slice_subrange(cur.buf.as_slice(), cur.buf_idx, cur.buf_max),
            );
            let mut seg = seg;
            sink.append(&mut seg);
            cur.writing = false;
            proof {
                assert(cur.steps() == pre.steps() - 1);
                assert(cur.pending_bytes(file) =~= tail_bytes(
                    file,
                    cur.ranges@,
                    cur.range_idx as int,
                    cur.ranged,
                    cur.file_len as int,
                ));
                assert(sink@ + cur.pending_bytes(file) =~= sink0 + owed);
            }
        } else if cur.range_idx == cur.ranges.len() {
            proof {
                assert(cur.pending_bytes(file) =~= Seq::<u8>::empty());
                assert(sink@ =~= sink0 + owed);
            }
            return (cur, true);
        } else if cur.ranges[cur.range_idx].length == 0 {
            proof {
                assert(file.subrange(
                    cur.ranges@[cur.range_idx as int].start as int,
                    cur.ranges@[cur.range_idx as int].start
                        + cur.ranges@[cur.range_idx as int].length,
                ) =~= Seq::<u8>::empty());
            }
            proof {
                lemma_chunk_steps_zero();
            }
            cur.range_idx = cur.range_idx + 1;
            if cur.range_idx == cur.ranges.len() {
                if cur.ranged {
                    let c = build_closer();
                    fill_buf(&mut cur.buf, &c);
                    cur.buf_idx = 0;
                    cur.buf_max = c.len();
                    cur.writing = true;
                    proof {
                        assert(cur.buf@.subrange(0, cur.buf_max as int) == c@);
                        assert(cur.pending_bytes(file) =~= closer());
                        assert(pre.pending_bytes(file) =~= closer());
                        assert(sink@ + cur.pending_bytes(file) =~= sink0 + owed);
                        assert(cur.steps() == pre.steps() - 1);
                    }
                } else {
                    proof {
                        assert(cur.pending_bytes(file) =~= Seq::<u8>::empty());
                        assert(pre.pending_bytes(file) =~= Seq::<u8>::empty());
                        assert(cur.steps() == pre.steps() - 1);
                    }
                }
            } else {
                if cur.ranged {
                    let r = cur.ranges[cur.range_idx];
                    proof {
                        lemma_part_header_len(r.start, r.length, cur.file_len);
                    }
                    let h = build_part_header(r.start, r.length, cur.file_len);
                    fill_buf(&mut cur.buf, &h);
                    cur.buf_idx = 0;
                    cur.buf_max = h.len();
                    cur.writing = true;
                    proof {
                        assert(cur.buf@.subrange(0, cur.buf_max as int) == h@);
                        assert(cur.pending_bytes(file) =~= pre.pending_bytes(file));
                        assert(sink@ + cur.pending_bytes(file) =~= sink0 + owed);
                        assert(cur.steps() == pre.steps() - 1);
                    }
                } else {
                    proof {
                        assert(cur.pending_bytes(file) =~= pre.pending_bytes(file));
                        assert(sink@ + cur.pending_bytes(file) =~= sink0 + owed);
                        assert(cur.steps() == pre.steps() - 1);
                    }
                }
            }
        } else {
            let r = cur.ranges[cur.range_idx];
            let amnt: u64 = if r.length <= 16384 {
                r.length
            } else {
                16384
            };
            match fs.read_range(&cur.path, r.start, amnt as usize) {
                Ok(seg) => {
                    let ghost ranges_pre = cur.ranges@;
                    let ri = cur.range_idx;
                    cur.stage_chunk(&seg);
                    proof {
                        assert(cur.ranges@ =~= ranges_pre.update(
                            ri as int,
                            HttpRange { start: (r.start + amnt) as u64, length: (r.length - amnt) as u64 },
                        ));
                        lemma_tail_congruence(
                            file,
                            ranges_pre,
                            cur.ranges@,
                            ri + 1,
                            cur.ranged,
                            cur.file_len as int,
                        );
                        assert(cur.buf@.subrange(0, cur.buf_max as int) == seg@);
                        assert(seg@ == file.subrange(r.start as int, r.start + amnt));
                        assert(file.subrange(r.start as int, r.start + r.length) =~= file.subrange(
                            r.start as int,
                            r.start + amnt,
                        ) + file.subrange(r.start + amnt, r.start + r.length));
                        assert(cur.pending_bytes(file) =~= pre.pending_bytes(file));
                        assert(sink@ + cur.pending_bytes(file) =~= sink0 + owed);
                        lemma_tail_steps_congruence(ranges_pre, cur.ranges@, ri + 1, cur.ranged);
                        lemma_chunk_steps_dec(r.length as int);
                        assert(cur.steps() == pre.steps() - 1);
                    }
                },
                Err(_) => {
                    proof {
                        assert(false);
                    }
                    return (cur, false);
                },
            }
        }
        steps = steps + 1;
    }
    if !cur.writing && cur.range_idx == cur.ranges.len() {
        proof {
            assert(cur.pending_bytes(file) =~= Seq::<u8>::empty());
            assert(sink@ =~= sink0 + owed);
        }
        (cur, true)
    } else {
        (cur, false)
    }
}

/// Where no separator follows position `cut`, the basename is the
/// suffix from `cut`.
proof fn lemma_basename_skip(path: Seq<u8>, cut: int)
    requires
        0 <= cut <= path.len(),
        cut > 0 ==> path[cut - 1] == 47,
        forall|j: int| cut <= j < path.len() ==> path[j] != 47,
    ensures
        basename(path) == path.skip(cut),
    decreases path.len(),
{
    if path.len() == 0 {
        assert(path.skip(0) =~= Seq::<u8>::empty());
    } else if path.last() == 47 {
        assert(cut == path.len());
        assert(path.skip(cut) =~= Seq::<u8>::empty());
    } else {
        assert(cut < path.len());
        lemma_basename_skip(path.drop_last(), cut);
        assert(path.skip(cut) =~= path.drop_last().skip(cut) + seq![path.last()]);
    }
}

} // verus!
