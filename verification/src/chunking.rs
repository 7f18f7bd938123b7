//! How a file is cut into parts: the chunk plan for uploads, the byte ranges
//! for downloads, the `Range` header for each, and the part counter of an
//! upload in progress.

use vstd::prelude::*;
use crate::error::TransferError;
use crate::text::{
    decimal, lemma_decimal_writes, lemma_decimal_writing_unique, push_decimal, writes_decimal,
};

verus! {

/// Size of every part but the last, in bytes (5 MiB).
pub const CHUNK_SIZE: usize = 1024 * 1024 * 5;

/// Most parts a multipart upload may have.
pub const MAX_CHUNKS: u64 = 10000;

/// `CHUNK_SIZE` as a mathematical integer.
pub open spec fn chunk() -> nat {
    CHUNK_SIZE as nat
}

/// Number of `CHUNK_SIZE` parts needed for `size` bytes (rounded up).
pub open spec fn chunk_count_of(size: nat) -> nat {
    if size % chunk() == 0 {
        size / chunk()
    } else {
        size / chunk() + 1
    }
}

/// Size of the last part of a non-empty file of `size` bytes.
pub open spec fn last_chunk_of(size: nat) -> nat {
    if size % chunk() == 0 {
        chunk()
    } else {
        size % chunk()
    }
}

/// How a file of `file_size` bytes is cut into parts.
#[derive(Debug, Clone, Copy, PartialEq, Eq)]
pub struct ChunkPlan {
    pub file_size: u64,
    pub chunk_count: u64,
    pub last_chunk_size: u64,
}

/// Cuts a file of `file_size` bytes into `CHUNK_SIZE` parts. An empty file is
/// refused first, then a file that would need more than `MAX_CHUNKS` parts.
pub fn plan_chunks(file_size: u64) -> (r: Result<ChunkPlan, TransferError>)
    ensures
        file_size == 0 ==> r == Err::<ChunkPlan, TransferError>(TransferError::BadFileSize),
        file_size > 0 && chunk_count_of(file_size as nat) > MAX_CHUNKS ==> r == Err::<
            ChunkPlan,
            TransferError,
        >(TransferError::TooManyChunks),
        r is Ok <==> file_size > 0 && chunk_count_of(file_size as nat) <= MAX_CHUNKS,
        r matches Ok(p) ==> p.file_size == file_size && p.chunk_count == chunk_count_of(
            file_size as nat,
        ) && p.last_chunk_size == last_chunk_of(file_size as nat),
{
    let cs = CHUNK_SIZE as u64;
    assert(cs == 5242880);
    let mut chunk_count = (file_size / cs) + 1;
    let mut last_chunk_size = file_size % cs;
    if last_chunk_size == 0 {
        last_chunk_size = cs;
        chunk_count = chunk_count - 1;
    }
    if file_size == 0 {
        return Err(TransferError::BadFileSize);
    }
    if chunk_count > MAX_CHUNKS {
        return Err(TransferError::TooManyChunks);
    }
    Ok(ChunkPlan { file_size, chunk_count, last_chunk_size })
}

/// An inclusive range of byte offsets, `start..=end`.
#[derive(Debug, Clone, Copy, PartialEq, Eq)]
pub struct ByteRange {
    pub start: u64,
    pub end: u64,
}

/// The `i`-th part of a file of `size` bytes.
pub open spec fn range_at(size: u64, i: nat) -> ByteRange {
    let start = i * chunk();
    let end = if start + chunk() - 1 < size - 1 {
        start + chunk() - 1
    } else {
        size - 1
    };
    ByteRange { start: start as u64, end: end as u64 }
}

/// The parts of a file of `size` bytes, in order.
pub open spec fn range_plan(size: u64) -> Seq<ByteRange> {
    Seq::new(chunk_count_of(size as nat), |i: int| range_at(size, i as nat))
}

/// A non-empty file is cut into the fewest `CHUNK_SIZE` parts that hold
/// it: one part fewer would not hold it, and every part but the last is full,
/// the last holding the remaining `last_chunk_of(size)` bytes, at least one
/// and at most `CHUNK_SIZE`.
pub proof fn lemma_chunk_count_bounds(size: nat)
    requires
        size > 0,
    ensures
        chunk_count_of(size) >= 1,
        (chunk_count_of(size) - 1) * chunk() < size,
        size <= chunk_count_of(size) * chunk(),
        (chunk_count_of(size) - 1) * chunk() + last_chunk_of(size) == size,
        0 < last_chunk_of(size) <= chunk(),
{
    let c = chunk() as int;
    assert(c == 5242880);
    let q = size as int / c;
    let r = size as int % c;
    vstd::arithmetic::div_mod::lemma_fundamental_div_mod(size as int, c);
    assert(0 <= r < c);
    assert(q * c == c * q) by (nonlinear_arith);
    if r == 0 {
        assert(q >= 1);
        assert((q - 1) * c == q * c - c) by (nonlinear_arith);
    } else {
        assert((q + 1) * c == q * c + c) by (nonlinear_arith);
    }
}

/// The byte ranges of a file of `file_size` bytes, one per part.
pub fn byte_ranges(file_size: u64) -> (r: Vec<ByteRange>)
    requires
        file_size > 0,
        chunk_count_of(file_size as nat) <= MAX_CHUNKS,
    ensures
        r@ == range_plan(file_size),
{
    proof { lemma_chunk_count_bounds(file_size as nat); }
    let cs = CHUNK_SIZE as u64;
    assert(cs == 5242880);
    let ghost count = chunk_count_of(file_size as nat);
    let mut ranges: Vec<ByteRange> = Vec::new();
    let mut start: u64 = 0;
    let mut i: u64 = 0;
    assert(chunk() == 5242880);
    while start < file_size
        invariant
            cs == chunk(),
            count == chunk_count_of(file_size as nat),
            count <= MAX_CHUNKS,
            (count - 1) * chunk() < file_size,
            file_size <= count * chunk(),
            start == i * chunk(),
            i <= count,
            ranges@.len() == i,
            forall|j: int| 0 <= j < i ==> ranges@[j] == range_at(file_size, j as nat),
        decreases count - i,
    {
        assert(i < count) by {
            if i >= count {
                assert(i * chunk() >= count * chunk()) by (nonlinear_arith)
                    requires i >= count;
            }
        }
        assert(start + cs - 1 <= 10000 * 5242880) by (nonlinear_arith)
            requires start == i * 5242880, i < 10000, cs == 5242880;
        let end = if start + cs - 1 < file_size - 1 {
            start + cs - 1
        } else {
            file_size - 1
        };
        ranges.push(ByteRange { start, end });
        start = start + cs;
        i = i + 1;
    }
    assert(i >= count) by {
        if i < count {
            assert(i * chunk() <= (count - 1) * chunk()) by (nonlinear_arith)
                requires i <= count - 1;
        }
    }
    assert(ranges@ =~= range_plan(file_size));
    ranges
}


/// How an object is fetched: in one request, or by byte ranges.
#[derive(Debug, Clone, PartialEq, Eq)]
pub enum DownloadPlan {
    /// The object fits in one part and is fetched without a range.
    Single { file_size: u64 },
    /// The object is fetched part by part, one request per range.
    Ranged { file_size: u64, ranges: Vec<ByteRange> },
}

/// Plans the download of an object whose reported content length is
/// `content_length`. The length is taken as `u64` by a two's-complement cast.
pub fn plan_download(content_length: Option<i64>) -> (r: Result<DownloadPlan, TransferError>)
    ensures
        content_length is None ==> r == Err::<DownloadPlan, TransferError>(
            TransferError::MissingFileSize,
        ),
        content_length matches Some(len) ==> {
            let size = len as u64;
            &&& size == 0 ==> r == Err::<DownloadPlan, TransferError>(TransferError::BadFileSize)
            &&& size > 0 && chunk_count_of(size as nat) > MAX_CHUNKS ==> r == Err::<
                DownloadPlan,
                TransferError,
            >(TransferError::TooManyChunks)
            &&& size > 0 && chunk_count_of(size as nat) == 1 ==> r == Ok::<
                DownloadPlan,
                TransferError,
            >(DownloadPlan::Single { file_size: size })
            &&& size > 0 && 1 < chunk_count_of(size as nat) <= MAX_CHUNKS ==> (r matches Ok(
                DownloadPlan::Ranged { file_size, ranges },
            ) && file_size == size && ranges@ == range_plan(size))
        },
{
    let len = match content_length {
        Some(len) => len,
        None => {
            return Err(TransferError::MissingFileSize);
        },
    };
    let file_size = len as u64;
    let plan = match plan_chunks(file_size) {
        Ok(plan) => plan,
        Err(e) => {
            return Err(e);
        },
    };
    if plan.chunk_count == 1 {
        Ok(DownloadPlan::Single { file_size })
    } else {
        let ranges = byte_ranges(file_size);
        Ok(DownloadPlan::Ranged { file_size, ranges })
    }
}

/// The text of the HTTP `Range` header for `start..=end`.
pub open spec fn range_header_text(start: u64, end: u64) -> Seq<char> {
    seq!['b', 'y', 't', 'e', 's', '='] + decimal(start as nat) + seq!['-'] + decimal(end as nat)
}

/// The HTTP `Range` header value for a byte range, `bytes=<start>-<end>`.
pub fn range_header(range: ByteRange) -> (r: String)
    ensures
        r@ == range_header_text(range.start, range.end),
{
    let mut s = String::new();
    proof { reveal_strlit("bytes="); }
    s.append("bytes=");
    push_decimal(&mut s, range.start);
    proof { reveal_strlit("-"); }
    s.append("-");
    push_decimal(&mut s, range.end);
    assert(s@ =~= range_header_text(range.start, range.end));
    s
}

/// The `Range` header of a byte range reads back as that range: it is
/// `bytes=`, the decimal writing of the first byte, `-`, and the decimal
/// writing of the last byte, both bounds included (and each number has that
/// one decimal writing).
pub proof fn lemma_range_header_reads_back(start: u64, end: u64)
    ensures
        exists|a: Seq<char>, b: Seq<char>|
            #![trigger writes_decimal(a, start as nat), writes_decimal(b, end as nat)]
            writes_decimal(a, start as nat) && writes_decimal(b, end as nat),
        forall|a: Seq<char>, b: Seq<char>|
            #![trigger writes_decimal(a, start as nat), writes_decimal(b, end as nat)]
            writes_decimal(a, start as nat) && writes_decimal(b, end as nat) ==> range_header_text(
                start,
                end,
            ) == seq!['b', 'y', 't', 'e', 's', '='] + a + seq!['-'] + b,
{
    lemma_decimal_writes(start as nat);
    lemma_decimal_writes(end as nat);
    let da = decimal(start as nat);
    let db = decimal(end as nat);
    assert(writes_decimal(da, start as nat) && writes_decimal(db, end as nat));
    assert forall|a: Seq<char>, b: Seq<char>|
        writes_decimal(a, start as nat) && writes_decimal(b, end as nat) implies range_header_text(
        start,
        end,
    ) == seq!['b', 'y', 't', 'e', 's', '='] + a + seq!['-'] + b by {
        lemma_decimal_writing_unique(a, da, start as nat);
        lemma_decimal_writing_unique(b, db, end as nat);
    }
}

/// The parts of a file tile it: they start at 0, each begins just after the
/// previous one ends, the last ends at the final byte, and none is longer than
/// `CHUNK_SIZE`.
pub proof fn lemma_ranges_tile(size: u64)
    requires
        size > 0,
    ensures
        range_plan(size).len() == chunk_count_of(size as nat),
        range_plan(size).len() >= 1,
        range_plan(size)[0].start == 0,
        range_plan(size).last().end == size - 1,
        forall|i: int|
            0 <= i < range_plan(size).len() - 1 ==> #[trigger] range_plan(size)[i + 1].start
                == range_plan(size)[i].end + 1,
        forall|i: int|
            0 <= i < range_plan(size).len() ==> range_plan(size)[i].start <= #[trigger] range_plan(
                size,
            )[i].end && range_plan(size)[i].end - range_plan(size)[i].start < chunk(),
{
    lemma_chunk_count_bounds(size as nat);
    let n = chunk_count_of(size as nat);
    let p = range_plan(size);
    assert(chunk() == 5242880);
    assert forall|i: int| 0 <= i < n implies #[trigger] (i * chunk()) < size by {
        assert(i * chunk() <= (n - 1) * chunk()) by (nonlinear_arith)
            requires 0 <= i <= n - 1;
    }
    assert(p[0].start == 0);
    assert forall|i: int| 0 <= i < p.len() - 1 implies #[trigger] p[i + 1].start == p[i].end + 1 by {
        assert((i + 1) * chunk() == i * chunk() + chunk()) by (nonlinear_arith);
        assert((i + 1) * chunk() < size);
    }
    assert forall|i: int| 0 <= i < p.len() implies p[i].start <= #[trigger] p[i].end
        && p[i].end - p[i].start < chunk() by {
        assert(i * chunk() < size);
    }
    let k = n - 1;
    assert(k * chunk() < size);
    assert(size <= k * chunk() + chunk()) by (nonlinear_arith)
        requires size <= n * chunk(), k == n - 1;
}


/// Reading a file of `size` bytes chunk by chunk gives the part lengths of
/// its ranges: `CHUNK_SIZE` for every part but the last, and `last_chunk_of`
/// for the last, which is shorter than `CHUNK_SIZE` exactly when the size is
/// not a multiple of it.
pub proof fn lemma_part_lengths(size: u64)
    requires
        size > 0,
    ensures
        forall|i: int|
            0 <= i < range_plan(size).len() - 1 ==> #[trigger] range_plan(size)[i].end
                - range_plan(size)[i].start + 1 == chunk(),
        range_plan(size).last().end - range_plan(size).last().start + 1 == last_chunk_of(
            size as nat,
        ),
        (last_chunk_of(size as nat) < chunk()) == ((size as nat) % chunk() != 0),
{
    lemma_ranges_tile(size);
    lemma_chunk_count_bounds(size as nat);
    let n = chunk_count_of(size as nat);
    let p = range_plan(size);
    assert(chunk() == 5242880);
    assert forall|i: int| 0 <= i < p.len() - 1 implies #[trigger] p[i].end - p[i].start + 1
        == chunk() by {
        assert(i * chunk() + chunk() <= (n - 1) * chunk()) by (nonlinear_arith)
            requires 0 <= i < n - 1;
    }
    let c = chunk() as int;
    let q = size as int / c;
    let r = size as int % c;
    vstd::arithmetic::div_mod::lemma_fundamental_div_mod(size as int, c);
    let k = n - 1;
    if r == 0 {
        assert(k == q - 1);
        assert(k * c + c == q * c) by (nonlinear_arith)
            requires k == q - 1;
    } else {
        assert(k == q);
    }
    assert(k * c == c * k) by (nonlinear_arith);
}

/// What recording a chunk of `len` bytes does to an unfinished upload that
/// has recorded `parts` parts: the parts recorded after it, whether the upload
/// is finished, and whether the chunk was refused. A chunk with data becomes
/// the next part and finishes the upload when it is shorter than
/// `CHUNK_SIZE`; an empty chunk is the end of the file once a part has been
/// recorded, and is refused before that.
pub open spec fn chunk_step(parts: nat, len: nat) -> (nat, bool, bool) {
    if len == 0 {
        if parts == 0 {
            (0, false, true)
        } else {
            (parts, true, false)
        }
    } else {
        (parts + 1, len < chunk(), false)
    }
}

/// Where an upload stands after the chunks of lengths `reads` were recorded in
/// turn: parts recorded, finished, refused. Once finished or refused, nothing
/// more is read.
pub open spec fn progress_after(reads: Seq<nat>) -> (nat, bool, bool)
    decreases reads.len(),
{
    if reads.len() == 0 {
        (0, false, false)
    } else {
        let prev = progress_after(reads.drop_last());
        if prev.1 || prev.2 {
            prev
        } else {
            chunk_step(prev.0, reads.last())
        }
    }
}

/// The lengths of the chunks that reading a file of `size` bytes gives, in
/// order: the lengths of its ranges.
pub open spec fn part_lengths(size: u64) -> Seq<nat> {
    range_plan(size).map_values(|r: ByteRange| (r.end - r.start + 1) as nat)
}

/// Uploading a file of `size` bytes read chunk by chunk, followed by the
/// empty read at its end, sends its `chunk_count_of(size)` ranges as parts
/// 1, 2, ... in order (chunk `i` is read while `i` parts are recorded and the
/// upload is unfinished, and holds data) and ends with all of them recorded
/// and nothing refused. The last chunk ends the upload by itself exactly when
/// the size is not a multiple of `CHUNK_SIZE`.
pub proof fn lemma_upload_of_file(size: u64)
    requires
        size > 0,
    ensures
        part_lengths(size).len() == chunk_count_of(size as nat),
        forall|i: int|
            0 <= i < part_lengths(size).len() ==> 0 < part_lengths(size)[i] <= chunk()
                && #[trigger] progress_after(part_lengths(size).take(i)) == (i as nat, false, false),
        progress_after(part_lengths(size)).1 == ((size as nat) % chunk() != 0),
        progress_after(part_lengths(size).push(0)) == (chunk_count_of(size as nat), true, false),
{
    lemma_ranges_tile(size);
    lemma_part_lengths(size);
    let n = chunk_count_of(size as nat) as int;
    let lens = part_lengths(size);
    let p = range_plan(size);
    assert forall|i: int| 0 <= i <= n implies #[trigger] progress_after(lens.take(i)) == (
        i as nat,
        i == n && (size as nat) % chunk() != 0,
        false,
    ) by {
        lemma_progress_prefix(size, i);
    }
    assert(progress_after(lens.take(n)) == (n as nat, (size as nat) % chunk() != 0, false));
    assert(lens.take(n) =~= lens);
    assert(lens.push(0).drop_last() =~= lens);
    assert(n >= 1);
    assert forall|i: int| 0 <= i < lens.len() implies 0 < #[trigger] lens[i] <= chunk() by {
        assert(p[i].start <= p[i].end && p[i].end - p[i].start < chunk());
    }
}

proof fn lemma_progress_prefix(size: u64, i: int)
    requires
        size > 0,
        0 <= i <= chunk_count_of(size as nat),
    ensures
        progress_after(part_lengths(size).take(i)) == (
            i as nat,
            i == chunk_count_of(size as nat) && (size as nat) % chunk() != 0,
            false,
        ),
    decreases i,
{
    lemma_ranges_tile(size);
    lemma_part_lengths(size);
    let n = chunk_count_of(size as nat) as int;
    let lens = part_lengths(size);
    let p = range_plan(size);
    if i == 0 {
        assert(lens.take(0) =~= Seq::<nat>::empty());
    } else {
        lemma_progress_prefix(size, i - 1);
        assert(lens.take(i).drop_last() =~= lens.take(i - 1));
        assert(lens.take(i).last() == lens[i - 1]);
        if i - 1 < n - 1 {
            assert(p[i - 1].end - p[i - 1].start + 1 == chunk());
        } else {
            assert(p.last().end - p.last().start + 1 == last_chunk_of(size as nat));
        }
    }
}

/// The part counter of a multipart upload that reads its source one chunk at
/// a time: parts are numbered from 1, and the upload ends after a chunk
/// shorter than `CHUNK_SIZE`, or at the empty read that follows the last full
/// one.
#[derive(Debug, Clone, Copy, PartialEq, Eq)]
pub struct UploadProgress {
    next_part: i32,
    finished: bool,
}

impl UploadProgress {
    #[verifier::type_invariant]
    spec fn numbered_from_one(self) -> bool {
        self.next_part >= 1
    }

    /// The part number the next chunk gets.
    pub closed spec fn spec_next_part(self) -> i32 {
        self.next_part
    }

    /// The number of parts recorded so far.
    pub closed spec fn spec_parts(self) -> nat {
        if self.next_part >= 1 {
            (self.next_part - 1) as nat
        } else {
            0
        }
    }

    /// Whether the upload has read its last chunk.
    pub closed spec fn spec_finished(self) -> bool {
        self.finished
    }

    /// Nothing read yet: the first chunk is part 1.
    pub fn new() -> (r: Self)
        ensures
            r.spec_next_part() == 1,
            r.spec_parts() == 0,
            !r.spec_finished(),
    {
        UploadProgress { next_part: 1, finished: false }
    }

    /// The part number the next chunk gets.
    pub fn next_part(&self) -> (r: i32)
        ensures
            r == self.spec_next_part(),
    {
        self.next_part
    }

    /// Whether the upload has read its last chunk.
    pub fn is_finished(&self) -> (r: bool)
        ensures
            r == self.spec_finished(),
    {
        self.finished
    }

    /// Records a chunk of `chunk_len` bytes just read from the source. A chunk
    /// with data gets the next part number, which is returned; an empty chunk
    /// gets none and ends the upload once a part has been recorded, and is
    /// refused, changing nothing, before that (see `chunk_step`).
    pub fn record_chunk(&mut self, chunk_len: usize) -> (r: Result<Option<i32>, TransferError>)
        requires
            !old(self).spec_finished(),
            old(self).spec_next_part() < i32::MAX,
        ensures
            chunk_step(old(self).spec_parts(), chunk_len as nat) == (
                final(self).spec_parts(),
                final(self).spec_finished(),
                r is Err,
            ),
            final(self).spec_next_part() == final(self).spec_parts() + 1,
            r is Err ==> r == Err::<Option<i32>, TransferError>(TransferError::EmptyChunk)
                && *final(self) == *old(self),
            chunk_len > 0 ==> r == Ok::<Option<i32>, TransferError>(
                Some(old(self).spec_next_part()),
            ),
            chunk_len == 0 && r is Ok ==> r == Ok::<Option<i32>, TransferError>(None),
    {
        proof { use_type_invariant(&*self); }
        if chunk_len == 0 {
            if self.next_part == 1 {
                return Err(TransferError::EmptyChunk);
            }
            self.finished = true;
            return Ok(None);
        }
        let part = self.next_part;
        self.next_part = self.next_part + 1;
        self.finished = chunk_len < CHUNK_SIZE;
        Ok(Some(part))
    }
}

} // verus!
