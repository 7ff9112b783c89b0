//! Streaming of a planned body: cutting it into chunks, reading file chunks
//! ahead within a bounded window, and sending everything in order.

use crate::range::ByteRange;
use crate::response_plan::{BodyPlan, BodyView};
use crate::{range, response_plan};
use std::collections::HashMap;
use vstd::prelude::*;

verus! {

/// One ordered unit of the response body: either bytes we already have
/// (multipart framing) or a file range still to be read.
#[derive(Debug)]
pub enum Chunk {
    Inline(Vec<u8>),
    File { offset: u64, len: usize },
}

/// What a [`Chunk`] says.
pub enum Piece {
    Inline(Seq<u8>),
    File { offset: u64, len: usize },
}

impl View for Chunk {
    type V = Piece;

    open spec fn view(&self) -> Piece {
        match self {
            Chunk::Inline(bytes) => Piece::Inline(bytes@),
            Chunk::File { offset, len } => Piece::File { offset: *offset, len: *len },
        }
    }
}

/// A list of chunks as pieces.
pub open spec fn piece_views(chunks: Seq<Chunk>) -> Seq<Piece> {
    chunks.map_values(|c: Chunk| c@)
}

/// The bytes that a piece stands for, given the contents of the file.
pub open spec fn piece_bytes(piece: Piece, file: Seq<u8>) -> Seq<u8> {
    match piece {
        Piece::Inline(bytes) => bytes,
        Piece::File { offset, len } => file.subrange(offset as int, offset + len),
    }
}

/// The bytes that a list of pieces stands for.
pub open spec fn stream_bytes(pieces: Seq<Piece>, file: Seq<u8>) -> Seq<u8>
    decreases pieces.len(),
{
    if pieces.len() == 0 {
        seq![]
    } else {
        stream_bytes(pieces.drop_last(), file) + piece_bytes(pieces.last(), file)
    }
}

/// The smaller of two numbers.
pub open spec fn smaller(a: int, b: int) -> int {
    if a < b {
        a
    } else {
        b
    }
}

/// A run of file bytes in pieces of at most `size` bytes.
pub open spec fn file_pieces(start: int, len: int, size: int) -> Seq<Piece>
    decreases len,
{
    if len <= 0 || size <= 0 {
        seq![]
    } else {
        let this = smaller(len, size);
        seq![Piece::File { offset: start as u64, len: this as usize }] + file_pieces(
            start + this,
            len - this,
            size,
        )
    }
}

/// The pieces of several ranges, one after the other.
pub open spec fn range_pieces(ranges: Seq<ByteRange>, size: int) -> Seq<Piece>
    decreases ranges.len(),
{
    if ranges.len() == 0 {
        seq![]
    } else {
        range_pieces(ranges.drop_last(), size) + file_pieces(
            ranges.last().start as int,
            ranges.last().spec_len(),
            size,
        )
    }
}

/// The pieces of multipart parts, each with its header first.
pub open spec fn part_pieces(parts: Seq<(ByteRange, Seq<u8>)>, size: int) -> Seq<Piece>
    decreases parts.len(),
{
    if parts.len() == 0 {
        seq![]
    } else {
        part_pieces(parts.drop_last(), size) + seq![Piece::Inline(parts.last().1)] + file_pieces(
            parts.last().0.start as int,
            parts.last().0.spec_len(),
            size,
        )
    }
}

/// The pieces of a planned body, with file chunks of at most `size` bytes.
pub open spec fn body_pieces(body: BodyView, size: int) -> Seq<Piece> {
    match body {
        BodyView::Empty => seq![],
        BodyView::Whole { len } => file_pieces(0, len as int, size),
        BodyView::Segments(ranges) => range_pieces(ranges, size),
        BodyView::Multipart { parts, terminator, .. } => part_pieces(parts, size).push(
            Piece::Inline(terminator),
        ),
    }
}

/// Whether the ranges of a body are not empty and end before the last byte
/// that 64 bits can number.
pub open spec fn body_addressable(body: BodyView) -> bool {
    match body {
        BodyView::Segments(ranges) => forall|i: int|
            0 <= i < ranges.len() ==> range_addressable(#[trigger] ranges[i]),
        BodyView::Multipart { parts, .. } => forall|i: int|
            0 <= i < parts.len() ==> range_addressable((#[trigger] parts[i]).0),
        _ => true,
    }
}

/// Whether a range is not empty and its end can be counted.
pub open spec fn range_addressable(range: ByteRange) -> bool {
    range.start <= range.end < u64::MAX
}

/// Appends a run of file bytes in chunks of at most `chunk_size` bytes.
fn push_file_chunks(chunks: &mut Vec<Chunk>, start: u64, len: u64, chunk_size: usize)
    requires
        start + len <= u64::MAX,
        chunk_size > 0,
    ensures
        piece_views(final(chunks)@) == piece_views(old(chunks)@) + file_pieces(
            start as int,
            len as int,
            chunk_size as int,
        ),
{
    let ghost before = piece_views(chunks@);
    let end: u64 = start + len;
    let mut offset: u64 = start;
    assert(before + file_pieces(start as int, 0, chunk_size as int) =~= before);
    while offset < end
        invariant
            start <= offset <= end,
            end == start + len,
            chunk_size > 0,
            piece_views(chunks@) + file_pieces(offset as int, end - offset, chunk_size as int)
                == before + file_pieces(start as int, len as int, chunk_size as int),
        decreases end - offset,
    {
        let ghost so_far = piece_views(chunks@);
        let this: u64 = if end - offset < chunk_size as u64 {
            end - offset
        } else {
            chunk_size as u64
        };
        chunks.push(Chunk::File { offset, len: this as usize });
        proof {
            let piece = Piece::File { offset, len: this as usize };
            let rest = file_pieces(offset + this, end - (offset + this), chunk_size as int);
            assert(piece_views(chunks@) =~= so_far.push(piece));
            assert(file_pieces(offset as int, end - offset, chunk_size as int) == seq![piece]
                + rest);
            assert(so_far.push(piece) + rest =~= so_far + (seq![piece] + rest));
        }
        offset = offset + this;
    }
    assert(piece_views(chunks@) + file_pieces(offset as int, 0, chunk_size as int)
        =~= piece_views(chunks@));
}

/// Cuts a planned body into chunks.
pub fn body_chunks(body: BodyPlan, chunk_size: usize) -> (res: Vec<Chunk>)
    requires
        body_addressable(body@),
        chunk_size > 0,
    ensures
        piece_views(res@) == body_pieces(body@, chunk_size as int),
{
    let mut chunks: Vec<Chunk> = Vec::new();
    let ghost size = chunk_size as int;
    assert(piece_views(chunks@) =~= seq![]);
    match body {
        BodyPlan::Empty => {},
        BodyPlan::Whole { len } => {
            push_file_chunks(&mut chunks, 0, len, chunk_size);
            assert(piece_views(chunks@) =~= body_pieces(body@, size));
        },
        BodyPlan::Segments(ranges) => {
            assert(body_addressable(BodyView::Segments(ranges@)));
            assert(ranges@.take(0) =~= seq![]);
            let mut i: usize = 0;
            while i < ranges.len()
                invariant
                    0 <= i <= ranges.len(),
                    chunk_size > 0,
                    size == chunk_size,
                    forall|j: int|
                        0 <= j < ranges@.len() ==> range_addressable(#[trigger] ranges@[j]),
                    piece_views(chunks@) == range_pieces(ranges@.take(i as int), size),
                decreases ranges.len() - i,
            {
                let range = ranges[i];
                assert(range_addressable(ranges@[i as int]));
                push_file_chunks(&mut chunks, range.start, range.end - range.start + 1, chunk_size);
                proof {
                    assert(ranges@.take(i + 1).drop_last() =~= ranges@.take(i as int));
                    assert(ranges@.take(i + 1).last() == range);
                }
                i += 1;
            }
            assert(ranges@.take(i as int) =~= ranges@);
        },
        BodyPlan::Multipart { parts, terminator, content_length } => {
            let ghost given = parts@;
            let ghost views = response_plan::part_views(given);
            assert(body_addressable(
                BodyView::Multipart { parts: views, terminator: terminator@, content_length },
            ));
            assert(views.take(0) =~= seq![]);
            for part in it: parts
                invariant
                    it.seq() == given,
                    views == response_plan::part_views(given),
                    chunk_size > 0,
                    size == chunk_size,
                    forall|j: int|
                        0 <= j < views.len() ==> range_addressable((#[trigger] views[j]).0),
                    piece_views(chunks@) == part_pieces(views.take(it.index() as int), size),
            {
                let ghost i = it.index() as int;
                let ghost before = piece_views(chunks@);
                let range = part.range;
                proof {
                    assert(part == given[i]);
                    assert(views[i] == (range, part.header@));
                    assert(views.take(i + 1).drop_last() =~= views.take(i));
                    assert(views.take(i + 1).last() == views[i]);
                }
                chunks.push(Chunk::Inline(part.header));
                assert(piece_views(chunks@) =~= before + seq![Piece::Inline(part.header@)]);
                push_file_chunks(&mut chunks, range.start, range.end - range.start + 1, chunk_size);
            }
            assert(views.take(given.len() as int) =~= views);
            let ghost before = piece_views(chunks@);
            chunks.push(Chunk::Inline(terminator));
            assert(piece_views(chunks@) =~= before.push(Piece::Inline(terminator@)));
        },
    }
    chunks
}

/// The bytes of a planned body, given the contents of the file.
pub open spec fn body_bytes(body: BodyView, file: Seq<u8>) -> Seq<u8> {
    match body {
        BodyView::Empty => seq![],
        BodyView::Whole { len } => file.take(len as int),
        BodyView::Segments(ranges) => ranges_bytes(ranges, file),
        BodyView::Multipart { parts, terminator, .. } => parts_bytes(parts, file) + terminator,
    }
}

/// The file bytes of several ranges, one after the other.
pub open spec fn ranges_bytes(ranges: Seq<ByteRange>, file: Seq<u8>) -> Seq<u8>
    decreases ranges.len(),
{
    if ranges.len() == 0 {
        seq![]
    } else {
        ranges_bytes(ranges.drop_last(), file) + file.subrange(
            ranges.last().start as int,
            ranges.last().end + 1,
        )
    }
}

/// The headers and file bytes of multipart parts.
pub open spec fn parts_bytes(parts: Seq<(ByteRange, Seq<u8>)>, file: Seq<u8>) -> Seq<u8>
    decreases parts.len(),
{
    if parts.len() == 0 {
        seq![]
    } else {
        parts_bytes(parts.drop_last(), file) + parts.last().1 + file.subrange(
            parts.last().0.start as int,
            parts.last().0.end + 1,
        )
    }
}

/// Whether a body names no file bytes beyond the first `len`.
pub open spec fn body_within(body: BodyView, len: int) -> bool {
    match body {
        BodyView::Empty => true,
        BodyView::Whole { len: whole } => whole <= len,
        BodyView::Segments(ranges) => forall|i: int|
            0 <= i < ranges.len() ==> (#[trigger] ranges[i]).start <= ranges[i].end < len,
        BodyView::Multipart { parts, .. } => forall|i: int|
            0 <= i < parts.len() ==> (#[trigger] parts[i]).0.start <= parts[i].0.end < len,
    }
}

proof fn lemma_stream_bytes_append(a: Seq<Piece>, b: Seq<Piece>, file: Seq<u8>)
    ensures
        stream_bytes(a + b, file) == stream_bytes(a, file) + stream_bytes(b, file),
    decreases b.len(),
{
    if b.len() == 0 {
        assert(a + b =~= a);
        assert(stream_bytes(a, file) + stream_bytes(b, file) =~= stream_bytes(a, file));
    } else {
        lemma_stream_bytes_append(a, b.drop_last(), file);
        assert((a + b).drop_last() =~= a + b.drop_last());
        assert((a + b).last() == b.last());
        assert(stream_bytes(a + b, file) =~= stream_bytes(a, file) + stream_bytes(b, file));
    }
}

proof fn lemma_stream_bytes_one(piece: Piece, file: Seq<u8>)
    ensures
        stream_bytes(seq![piece], file) == piece_bytes(piece, file),
{
    let one = seq![piece];
    assert(one.drop_last() =~= seq![]);
    assert(stream_bytes(one.drop_last(), file) =~= seq![]);
    assert(one.last() == piece);
    assert(stream_bytes(one, file) =~= piece_bytes(piece, file));
}

proof fn lemma_file_pieces_bytes(start: int, len: int, size: int, file: Seq<u8>)
    requires
        0 <= start,
        0 <= len,
        start + len <= file.len(),
        start + len <= u64::MAX,
        0 < size <= usize::MAX,
    ensures
        stream_bytes(file_pieces(start, len, size), file) == file.subrange(start, start + len),
    decreases len,
{
    if len > 0 {
        let this = smaller(len, size);
        let piece = Piece::File { offset: start as u64, len: this as usize };
        let rest = file_pieces(start + this, len - this, size);
        lemma_file_pieces_bytes(start + this, len - this, size, file);
        lemma_stream_bytes_append(seq![piece], rest, file);
        lemma_stream_bytes_one(piece, file);
        assert(file.subrange(start, start + this) + file.subrange(start + this, start + len)
            =~= file.subrange(start, start + len));
    } else {
        assert(file.subrange(start, start + len) =~= seq![]);
    }
}

proof fn lemma_range_pieces_bytes(ranges: Seq<ByteRange>, size: int, file: Seq<u8>)
    requires
        0 < size <= usize::MAX,
        file.len() <= u64::MAX,
        forall|i: int|
            0 <= i < ranges.len() ==> (#[trigger] ranges[i]).start <= ranges[i].end < file.len(),
    ensures
        stream_bytes(range_pieces(ranges, size), file) == ranges_bytes(ranges, file),
    decreases ranges.len(),
{
    if ranges.len() > 0 {
        let before = ranges.drop_last();
        let last = ranges.last();
        assert(ranges[ranges.len() - 1] == last);
        assert forall|i: int| 0 <= i < before.len() implies (#[trigger] before[i]).start
            <= before[i].end < file.len() by {
            assert(before[i] == ranges[i]);
        }
        lemma_range_pieces_bytes(before, size, file);
        lemma_file_pieces_bytes(last.start as int, last.spec_len(), size, file);
        lemma_stream_bytes_append(
            range_pieces(before, size),
            file_pieces(last.start as int, last.spec_len(), size),
            file,
        );
    }
}

proof fn lemma_part_pieces_bytes(parts: Seq<(ByteRange, Seq<u8>)>, size: int, file: Seq<u8>)
    requires
        0 < size <= usize::MAX,
        file.len() <= u64::MAX,
        forall|i: int|
            0 <= i < parts.len() ==> (#[trigger] parts[i]).0.start <= parts[i].0.end < file.len(),
    ensures
        stream_bytes(part_pieces(parts, size), file) == parts_bytes(parts, file),
    decreases parts.len(),
{
    if parts.len() > 0 {
        let before = parts.drop_last();
        let (range, header) = parts.last();
        assert(parts[parts.len() - 1] == parts.last());
        assert forall|i: int| 0 <= i < before.len() implies (#[trigger] before[i]).0.start
            <= before[i].0.end < file.len() by {
            assert(before[i] == parts[i]);
        }
        lemma_part_pieces_bytes(before, size, file);
        lemma_file_pieces_bytes(range.start as int, range.spec_len(), size, file);
        let head = part_pieces(before, size) + seq![Piece::Inline(header)];
        lemma_stream_bytes_append(part_pieces(before, size), seq![Piece::Inline(header)], file);
        lemma_stream_bytes_one(Piece::Inline(header), file);
        lemma_stream_bytes_append(
            head,
            file_pieces(range.start as int, range.spec_len(), size),
            file,
        );
    }
}

/// The chunks of a planned body, one after the other, are exactly the body.
pub proof fn law_chunks_make_up_the_body(body: BodyView, size: int, file: Seq<u8>)
    requires
        0 < size <= usize::MAX,
        file.len() <= u64::MAX,
        body_within(body, file.len() as int),
    ensures
        stream_bytes(body_pieces(body, size), file) == body_bytes(body, file),
{
    match body {
        BodyView::Empty => {},
        BodyView::Whole { len } => {
            lemma_file_pieces_bytes(0, len as int, size, file);
            assert(file.subrange(0, len as int) =~= file.take(len as int));
        },
        BodyView::Segments(ranges) => {
            lemma_range_pieces_bytes(ranges, size, file);
        },
        BodyView::Multipart { parts, terminator, .. } => {
            lemma_part_pieces_bytes(parts, size, file);
            let all = body_pieces(body, size);
            assert(all.drop_last() =~= part_pieces(parts, size));
            assert(all.last() == Piece::Inline(terminator));
        },
    }
}

proof fn lemma_file_pieces_small(start: int, len: int, size: int)
    requires
        0 < size <= usize::MAX,
    ensures
        forall|i: int|
            0 <= i < file_pieces(start, len, size).len() ==> (#[trigger] file_pieces(
                start,
                len,
                size,
            )[i] matches Piece::File { len: n, .. } && n <= size),
    decreases len,
{
    if len > 0 {
        let this = smaller(len, size);
        lemma_file_pieces_small(start + this, len - this, size);
        let all = file_pieces(start, len, size);
        let rest = file_pieces(start + this, len - this, size);
        assert forall|i: int| 0 <= i < all.len() implies (#[trigger] all[i] matches Piece::File {
            len: n,
            ..
        } && n <= size) by {
            if i > 0 {
                assert(all[i] == rest[i - 1]);
            }
        }
    }
}

/// Whether no file piece is longer than `size`.
pub open spec fn pieces_small(pieces: Seq<Piece>, size: int) -> bool {
    forall|i: int|
        0 <= i < pieces.len() ==> ((#[trigger] pieces[i]) matches Piece::File { len, .. } ==> len
            <= size)
}

proof fn lemma_pieces_small_append(a: Seq<Piece>, b: Seq<Piece>, size: int)
    requires
        pieces_small(a, size),
        pieces_small(b, size),
    ensures
        pieces_small(a + b, size),
{
    assert forall|i: int| 0 <= i < (a + b).len() implies ((#[trigger] (a + b)[i]) matches Piece::File {
        len,
        ..
    } ==> len <= size) by {
        if i < a.len() {
            assert((a + b)[i] == a[i]);
        } else {
            assert((a + b)[i] == b[i - a.len()]);
        }
    }
}

proof fn lemma_range_pieces_small(ranges: Seq<ByteRange>, size: int)
    requires
        0 < size <= usize::MAX,
    ensures
        pieces_small(range_pieces(ranges, size), size),
    decreases ranges.len(),
{
    if ranges.len() > 0 {
        let last = ranges.last();
        lemma_range_pieces_small(ranges.drop_last(), size);
        lemma_file_pieces_small(last.start as int, last.spec_len(), size);
        lemma_pieces_small_append(
            range_pieces(ranges.drop_last(), size),
            file_pieces(last.start as int, last.spec_len(), size),
            size,
        );
    }
}

proof fn lemma_part_pieces_small(parts: Seq<(ByteRange, Seq<u8>)>, size: int)
    requires
        0 < size <= usize::MAX,
    ensures
        pieces_small(part_pieces(parts, size), size),
    decreases parts.len(),
{
    if parts.len() > 0 {
        let (range, header) = parts.last();
        let before = part_pieces(parts.drop_last(), size);
        lemma_part_pieces_small(parts.drop_last(), size);
        lemma_file_pieces_small(range.start as int, range.spec_len(), size);
        lemma_pieces_small_append(before, seq![Piece::Inline(header)], size);
        lemma_pieces_small_append(
            before + seq![Piece::Inline(header)],
            file_pieces(range.start as int, range.spec_len(), size),
            size,
        );
    }
}

/// No file chunk is longer than the configured size.
pub proof fn law_file_chunks_are_bounded(body: BodyView, size: int)
    requires
        0 < size <= usize::MAX,
    ensures
        pieces_small(body_pieces(body, size), size),
{
    match body {
        BodyView::Empty => {},
        BodyView::Whole { len } => {
            lemma_file_pieces_small(0, len as int, size);
        },
        BodyView::Segments(ranges) => {
            lemma_range_pieces_small(ranges, size);
        },
        BodyView::Multipart { parts, terminator, .. } => {
            lemma_part_pieces_small(parts, size);
        },
    }
}

/// A file range to read for a chunk.
#[derive(Debug, Clone, Copy, PartialEq, Eq, Structural)]
pub struct ReadTask {
    /// The position of the chunk, by which the result is handed back.
    pub seq: usize,
    pub offset: u64,
    pub len: usize,
}

/// A response body on its way out.
pub struct Streaming {
    pub chunks: Vec<Chunk>,
    /// Bytes of chunks that have not been sent yet, by position.
    pub ready: HashMap<usize, Vec<u8>>,
    /// The next chunk to send.
    pub next_send: usize,
    /// The first chunk that has not been looked at for reading.
    pub issue_cursor: usize,
    /// File chunks whose reads have not come back.
    pub inflight: usize,
    /// File chunks that have been issued for reading and not been sent.
    pub window: usize,
    /// Downstream high/low watermark callbacks nest, so this is a depth
    /// counter, not a flag; streaming resumes only when it returns to zero.
    pub watermark_depth: usize,
}

/// The number of file chunks from `lo` up to `hi`.
pub open spec fn files_between(chunks: Seq<Chunk>, lo: int, hi: int) -> nat
    decreases hi - lo,
{
    if lo >= hi {
        0
    } else {
        files_between(chunks, lo, hi - 1) + if chunks[hi - 1] is File {
            1nat
        } else {
            0nat
        }
    }
}

/// The number of file chunks from `lo` up to `hi` that are not ready.
pub open spec fn missing_between(
    chunks: Seq<Chunk>,
    ready: Map<usize, Vec<u8>>,
    lo: int,
    hi: int,
) -> nat
    decreases hi - lo,
{
    if lo >= hi {
        0
    } else {
        missing_between(chunks, ready, lo, hi - 1) + if chunks[hi - 1] is File
            && !ready.contains_key((hi - 1) as usize) {
            1nat
        } else {
            0nat
        }
    }
}

/// The reads for the file chunks from `lo` up to `hi`.
pub open spec fn reads_between(chunks: Seq<Chunk>, lo: int, hi: int) -> Seq<ReadTask>
    decreases hi - lo,
{
    if lo >= hi {
        seq![]
    } else {
        let before = reads_between(chunks, lo, hi - 1);
        match chunks[hi - 1] {
            Chunk::File { offset, len } => before.push(
                ReadTask { seq: (hi - 1) as usize, offset, len },
            ),
            Chunk::Inline(_) => before,
        }
    }
}

/// Where issuing stops: at the end, or once `room` file chunks are passed.
pub open spec fn issue_end(chunks: Seq<Chunk>, cursor: int, room: int) -> int
    decreases chunks.len() - cursor,
{
    if cursor >= chunks.len() || room <= 0 {
        cursor
    } else if chunks[cursor] is File {
        issue_end(chunks, cursor + 1, room - 1)
    } else {
        issue_end(chunks, cursor + 1, room)
    }
}

impl Streaming {
    /// Every chunk before the cursor of sending has been sent; inline bytes
    /// are ready until then; every file chunk among those sent or ready has
    /// been issued; and the counters count what they say.
    pub open spec fn wf(self) -> bool {
        &&& self.next_send < self.chunks@.len()
        &&& self.issue_cursor <= self.chunks@.len()
        &&& forall|i: usize| #[trigger]
            self.ready@.contains_key(i) ==> self.next_send <= i < self.chunks@.len() && (
            self.chunks@[i as int] is File ==> i < self.issue_cursor)
        &&& forall|i: int|
            self.next_send <= i < self.chunks@.len() ==> match #[trigger] self.chunks@[i] {
                Chunk::Inline(bytes) => self.ready@.contains_key(i as usize)
                    && self.ready@[i as usize]@ == bytes@,
                Chunk::File { .. } => true,
            }
        &&& forall|i: int|
            self.issue_cursor <= i < self.next_send ==> (#[trigger] self.chunks@[i]) is Inline
        &&& self.window == files_between(
            self.chunks@,
            self.next_send as int,
            self.issue_cursor as int,
        )
        &&& self.inflight == missing_between(
            self.chunks@,
            self.ready@,
            self.next_send as int,
            self.issue_cursor as int,
        )
    }

    /// Whether the read of chunk `seq` is outstanding.
    pub open spec fn awaits(self, seq: usize) -> bool {
        &&& self.next_send <= seq < self.issue_cursor
        &&& self.chunks@[seq as int] is File
        &&& !self.ready@.contains_key(seq)
    }

    /// Whether the bytes that are ready are those of the file.
    pub open spec fn holds_bytes_of(self, file: Seq<u8>) -> bool {
        forall|i: usize| #[trigger]
            self.ready@.contains_key(i) ==> self.ready@[i]@ == piece_bytes(
                self.chunks@[i as int]@,
                file,
            )
    }

    /// The bytes that have been sent, given the contents of the file.
    pub open spec fn sent(self, file: Seq<u8>) -> Seq<u8> {
        stream_bytes(piece_views(self.chunks@).take(self.next_send as int), file)
    }

    /// Where issuing of reads goes on.
    pub open spec fn issue_start(self) -> int {
        if self.issue_cursor < self.next_send {
            self.next_send as int
        } else {
            self.issue_cursor as int
        }
    }
}

/// What taking the next chunk does to a stream: the bytes that were ready for
/// it continue what was sent.
pub open spec fn took(before: Streaming, bytes: Vec<u8>, last: bool, after: Streaming) -> bool {
    &&& before.watermark_depth == 0
    &&& before.ready@.contains_key(before.next_send)
    &&& bytes == before.ready@[before.next_send]
    &&& last == (before.next_send == before.chunks@.len() - 1)
    &&& after.chunks == before.chunks
    &&& after.ready@ == before.ready@.remove(before.next_send)
    &&& after.next_send == before.next_send + 1
    &&& after.issue_cursor == before.issue_cursor
    &&& after.inflight == before.inflight
    &&& after.window == before.window - if before.chunks@[before.next_send as int] is File {
        1int
    } else {
        0int
    }
    &&& after.watermark_depth == 0
    &&& !last ==> after.wf()
    &&& forall|file: Seq<u8>| #[trigger]
        before.holds_bytes_of(file) ==> after.holds_bytes_of(file) && after.sent(file)
            == before.sent(file) + bytes@
}

/// What handing in the bytes of an outstanding read does to a stream.
pub open spec fn accepted(
    before: Streaming,
    seq: usize,
    bytes: Vec<u8>,
    after: Streaming,
) -> bool {
    &&& after.wf()
    &&& after.chunks == before.chunks
    &&& after.ready@ == before.ready@.insert(seq, bytes)
    &&& after.next_send == before.next_send
    &&& after.issue_cursor == before.issue_cursor
    &&& after.inflight == before.inflight - 1
    &&& after.window == before.window
    &&& after.watermark_depth == before.watermark_depth
    &&& forall|file: Seq<u8>| #[trigger]
        before.holds_bytes_of(file) && bytes@ == piece_bytes(before.chunks@[seq as int]@, file)
            ==> after.holds_bytes_of(file)
}

/// What issuing reads does to a stream: the file chunks from where issuing
/// left off are read, as many as the window of `max` has room for. While the
/// next chunk is missing, a read is outstanding.
pub open spec fn issued(
    before: Streaming,
    max: usize,
    tasks: Seq<ReadTask>,
    after: Streaming,
) -> bool {
    &&& after.wf()
    &&& after.issue_cursor == issue_end(
        before.chunks@,
        before.issue_start(),
        max - before.window,
    )
    &&& tasks == reads_between(before.chunks@, before.issue_start(), after.issue_cursor as int)
    &&& after.window == before.window + tasks.len()
    &&& after.inflight == before.inflight + tasks.len()
    &&& after.chunks == before.chunks
    &&& after.ready == before.ready
    &&& after.next_send == before.next_send
    &&& after.watermark_depth == before.watermark_depth
    &&& before.window <= max ==> after.window <= max
    &&& max > 0 && !after.ready@.contains_key(after.next_send) ==> after.inflight > 0
    &&& forall|file: Seq<u8>| #[trigger]
        before.holds_bytes_of(file) ==> after.holds_bytes_of(file)
}

proof fn lemma_files_from(chunks: Seq<Chunk>, lo: int, hi: int)
    requires
        lo < hi,
    ensures
        files_between(chunks, lo, hi) == files_between(chunks, lo + 1, hi) + if chunks[lo] is File {
            1nat
        } else {
            0nat
        },
    decreases hi - lo,
{
    if lo + 1 < hi {
        lemma_files_from(chunks, lo, hi - 1);
    } else {
        assert(files_between(chunks, lo, lo) == 0);
    }
}

proof fn lemma_missing_from(chunks: Seq<Chunk>, ready: Map<usize, Vec<u8>>, lo: int, hi: int)
    requires
        lo < hi,
    ensures
        missing_between(chunks, ready, lo, hi) == missing_between(chunks, ready, lo + 1, hi)
            + if chunks[lo] is File && !ready.contains_key(lo as usize) {
            1nat
        } else {
            0nat
        },
    decreases hi - lo,
{
    if lo + 1 < hi {
        lemma_missing_from(chunks, ready, lo, hi - 1);
    } else {
        assert(missing_between(chunks, ready, lo, lo) == 0);
    }
}

proof fn lemma_missing_same(
    chunks: Seq<Chunk>,
    a: Map<usize, Vec<u8>>,
    b: Map<usize, Vec<u8>>,
    lo: int,
    hi: int,
)
    requires
        0 <= lo,
        hi <= usize::MAX,
        forall|i: usize| lo <= i < hi ==> (#[trigger] a.contains_key(i) == b.contains_key(i)),
    ensures
        missing_between(chunks, a, lo, hi) == missing_between(chunks, b, lo, hi),
    decreases hi - lo,
{
    if lo < hi {
        lemma_missing_same(chunks, a, b, lo, hi - 1);
        assert(a.contains_key((hi - 1) as usize) == b.contains_key((hi - 1) as usize));
    }
}

proof fn lemma_missing_insert(
    chunks: Seq<Chunk>,
    ready: Map<usize, Vec<u8>>,
    seq: usize,
    bytes: Vec<u8>,
    lo: int,
    hi: int,
)
    requires
        0 <= lo <= seq < hi <= usize::MAX,
        chunks[seq as int] is File,
        !ready.contains_key(seq),
    ensures
        missing_between(chunks, ready, lo, hi) == missing_between(
            chunks,
            ready.insert(seq, bytes),
            lo,
            hi,
        ) + 1,
    decreases hi - lo,
{
    let after = ready.insert(seq, bytes);
    if seq == hi - 1 {
        assert forall|i: usize| lo <= i < hi - 1 implies (#[trigger] ready.contains_key(i)
            == after.contains_key(i)) by {}
        lemma_missing_same(chunks, ready, after, lo, hi - 1);
    } else {
        lemma_missing_insert(chunks, ready, seq, bytes, lo, hi - 1);
        assert(after.contains_key((hi - 1) as usize) == ready.contains_key((hi - 1) as usize));
    }
}

proof fn lemma_missing_le_files(
    chunks: Seq<Chunk>,
    ready: Map<usize, Vec<u8>>,
    lo: int,
    hi: int,
)
    ensures
        missing_between(chunks, ready, lo, hi) <= files_between(chunks, lo, hi),
        lo <= hi ==> files_between(chunks, lo, hi) <= hi - lo,
    decreases hi - lo,
{
    if lo < hi {
        lemma_missing_le_files(chunks, ready, lo, hi - 1);
    }
}

impl Streaming {
    /// Starts streaming the chunks. Chunk 0 is seeded from the prefetch when
    /// it exactly covers that file chunk, so it is sent without a read.
    /// `None` when there is nothing to stream.
    pub fn begin(chunks: Vec<Chunk>, prefetch: Vec<u8>) -> (res: Option<Streaming>)
        ensures
            res is None <==> chunks@.len() == 0,
            res matches Some(stream) ==> started(stream, seeded(piece_views(chunks@), prefetch@)),
    {
        let mut chunks = chunks;
        if chunks.len() == 0 {
            return None;
        }
        let ghost given = chunks@;
        let covered = match &chunks[0] {
            Chunk::File { offset, len } => *offset == 0 && prefetch.len() == *len,
            Chunk::Inline(_) => false,
        };
        if covered {
            chunks.set(0, Chunk::Inline(prefetch));
        }
        assert(piece_views(chunks@) =~= seeded(piece_views(given), prefetch@));
        let mut ready: HashMap<usize, Vec<u8>> = HashMap::new();
        let mut i: usize = 0;
        while i < chunks.len()
            invariant
                0 <= i <= chunks.len(),
                piece_views(chunks@) == seeded(piece_views(given), prefetch@),
                forall|j: usize| #[trigger]
                    ready@.contains_key(j) ==> j < i && chunks@[j as int] is Inline,
                forall|j: int|
                    0 <= j < i ==> match #[trigger] chunks@[j] {
                        Chunk::Inline(bytes) => ready@.contains_key(j as usize)
                            && ready@[j as usize]@ == bytes@,
                        Chunk::File { .. } => true,
                    },
            decreases chunks.len() - i,
        {
            broadcast use vstd::std_specs::hash::group_hash_axioms;

            if let Chunk::Inline(bytes) = &chunks[i] {
                let copy = vstd::slice::slice_to_vec(bytes.as_slice());
                ready.insert(i, copy);
            }
            i += 1;
        }
        let stream = Streaming {
            chunks,
            ready,
            next_send: 0,
            issue_cursor: 0,
            inflight: 0,
            window: 0,
            watermark_depth: 0,
        };
        assert(piece_views(stream.chunks@).take(0) =~= seq![]);
        Some(stream)
    }

    /// Takes the next chunk to send, unless the client is not taking more or
    /// the chunk is not there yet. The flag says that it is the last one.
    pub fn take_next(&mut self) -> (res: Option<(Vec<u8>, bool)>)
        requires
            old(self).wf(),
        ensures
            res is Some <==> old(self).watermark_depth == 0 && old(self).ready@.contains_key(
                old(self).next_send,
            ),
            res is None ==> *final(self) == *old(self),
            res matches Some((bytes, last)) ==> took(*old(self), bytes, last, *final(self)),
    {
        broadcast use vstd::std_specs::hash::group_hash_axioms;

        let at: usize = self.next_send;
        if self.watermark_depth != 0 || !self.ready.contains_key(&at) {
            return None;
        }
        let ghost before = *self;
        match self.ready.remove(&at) {
            None => None,
            Some(bytes) => {
                let last = at == self.chunks.len() - 1;
                let is_file = match &self.chunks[at] {
                    Chunk::File { .. } => true,
                    Chunk::Inline(_) => false,
                };
                proof {
                    let (lo, hi) = (at as int, before.issue_cursor as int);
                    if lo < hi {
                        lemma_files_from(before.chunks@, lo, hi);
                        lemma_missing_from(before.chunks@, before.ready@, lo, hi);
                        assert forall|i: usize| lo + 1 <= i < hi implies (
                        #[trigger] before.ready@.contains_key(i) == self.ready@.contains_key(
                            i,
                        )) by {}
                        lemma_missing_same(
                            before.chunks@,
                            before.ready@,
                            self.ready@,
                            lo + 1,
                            hi,
                        );
                    }
                }
                if is_file {
                    self.window = self.window - 1;
                }
                self.next_send = at + 1;
                proof {
                    let pieces = piece_views(before.chunks@);
                    assert(pieces.take(at + 1).drop_last() =~= pieces.take(at as int));
                    assert(pieces.take(at + 1).last() == before.chunks@[at as int]@);
                }
                Some((bytes, last))
            },
        }
    }

    /// Hands in the bytes of a chunk whose read is outstanding. Bytes that no
    /// read is outstanding for are dropped.
    pub fn accept(&mut self, seq: usize, bytes: Vec<u8>)
        requires
            old(self).wf(),
        ensures
            final(self).wf(),
            !old(self).awaits(seq) ==> *final(self) == *old(self),
            old(self).awaits(seq) ==> accepted(*old(self), seq, bytes, *final(self)),
    {
        broadcast use vstd::std_specs::hash::group_hash_axioms;

        if seq < self.next_send || seq >= self.issue_cursor || self.ready.contains_key(&seq) {
            return ;
        }
        let is_file = match &self.chunks[seq] {
            Chunk::File { .. } => true,
            Chunk::Inline(_) => false,
        };
        if !is_file {
            return ;
        }
        proof {
            lemma_missing_insert(
                self.chunks@,
                self.ready@,
                seq,
                bytes,
                self.next_send as int,
                self.issue_cursor as int,
            );
        }
        self.ready.insert(seq, bytes);
        self.inflight = self.inflight - 1;
    }

    /// Issues reads for upcoming file chunks, as far as the window of `max`
    /// chunks ahead of what has been sent allows.
    pub fn issue_reads(&mut self, max: usize) -> (res: Vec<ReadTask>)
        requires
            old(self).wf(),
        ensures
            issued(*old(self), max, res@, *final(self)),
    {
        let mut tasks: Vec<ReadTask> = Vec::new();
        let ghost before = *self;
        let ghost start = before.issue_start();
        if self.issue_cursor < self.next_send {
            proof {
                lemma_missing_le_files(
                    self.chunks@,
                    self.ready@,
                    self.next_send as int,
                    self.next_send as int,
                );
            }
            self.issue_cursor = self.next_send;
        }
        while self.window < max && self.issue_cursor < self.chunks.len()
            invariant
                self.wf(),
                before.issue_start() == start,
                start <= self.issue_cursor <= self.chunks@.len(),
                self.chunks == before.chunks,
                self.ready == before.ready,
                self.next_send == before.next_send,
                self.watermark_depth == before.watermark_depth,
                before.issue_cursor <= start,
                self.next_send <= start,
                tasks@ == reads_between(before.chunks@, start, self.issue_cursor as int),
                self.window == before.window + tasks@.len(),
                self.inflight == before.inflight + tasks@.len(),
                before.window <= max ==> self.window <= max,
                issue_end(before.chunks@, start, max - before.window) == issue_end(
                    before.chunks@,
                    self.issue_cursor as int,
                    max - self.window,
                ),
                forall|i: usize| #[trigger]
                    before.ready@.contains_key(i) && before.chunks@[i as int] is File ==> i
                        < before.issue_cursor,
            decreases self.chunks@.len() - self.issue_cursor,
        {
            let index: usize = self.issue_cursor;
            proof {
                lemma_missing_le_files(
                    self.chunks@,
                    self.ready@,
                    self.next_send as int,
                    index + 1,
                );
            }
            if let Chunk::File { offset, len } = &self.chunks[index] {
                tasks.push(ReadTask { seq: index, offset: *offset, len: *len });
                self.inflight = self.inflight + 1;
                self.window = self.window + 1;
            }
            self.issue_cursor = index + 1;
        }
        proof {
            let (lo, hi) = (self.next_send as int, self.issue_cursor as int);
            if max > 0 && !self.ready@.contains_key(self.next_send) {
                assert(self.chunks@[lo] is File);
                if lo >= hi {
                    assert(files_between(self.chunks@, lo, hi) == 0);
                }
                lemma_missing_from(self.chunks@, self.ready@, lo, hi);
            }
        }
        tasks
    }
}

/// The pieces with the first one replaced by prefetched bytes where those
/// cover it.
pub open spec fn seeded(pieces: Seq<Piece>, prefetch: Seq<u8>) -> Seq<Piece> {
    match pieces[0] {
        Piece::File { offset, len } if pieces.len() > 0 && offset == 0 && prefetch.len()
            == len => pieces.update(0, Piece::Inline(prefetch)),
        _ => pieces,
    }
}

/// Whether a stream has just been started with the given pieces.
pub open spec fn started(stream: Streaming, pieces: Seq<Piece>) -> bool {
    &&& stream.wf()
    &&& piece_views(stream.chunks@) == pieces
    &&& stream.next_send == 0
    &&& stream.issue_cursor == 0
    &&& stream.inflight == 0
    &&& stream.window == 0
    &&& stream.watermark_depth == 0
    &&& forall|file: Seq<u8>| #[trigger] stream.holds_bytes_of(file)
    &&& forall|file: Seq<u8>| #[trigger] stream.sent(file) == Seq::<u8>::empty()
}

/// The window covers every file chunk that is being read or held: no more
/// reads are outstanding than it counts.
pub proof fn law_window_covers_outstanding_reads(stream: Streaming)
    requires
        stream.wf(),
    ensures
        stream.inflight <= stream.window,
{
    lemma_missing_le_files(
        stream.chunks@,
        stream.ready@,
        stream.next_send as int,
        stream.issue_cursor as int,
    );
}

/// The bytes of the file chunks from `lo` up to `hi`.
pub open spec fn file_bytes_between(chunks: Seq<Chunk>, lo: int, hi: int) -> nat
    decreases hi - lo,
{
    if lo >= hi {
        0
    } else {
        file_bytes_between(chunks, lo, hi - 1) + match chunks[hi - 1] {
            Chunk::File { len, .. } => len as nat,
            Chunk::Inline(_) => 0nat,
        }
    }
}

proof fn lemma_file_bytes_bounded(chunks: Seq<Chunk>, lo: int, hi: int, size: int)
    requires
        0 <= lo,
        hi <= chunks.len(),
        0 <= size,
        pieces_small(piece_views(chunks), size),
    ensures
        file_bytes_between(chunks, lo, hi) <= files_between(chunks, lo, hi) * size,
    decreases hi - lo,
{
    if lo < hi {
        lemma_file_bytes_bounded(chunks, lo, hi - 1, size);
        assert(piece_views(chunks)[hi - 1] == chunks[hi - 1]@);
        let before = files_between(chunks, lo, hi - 1);
        assert((before + 1) * size == before * size + size) by (nonlinear_arith);
    }
}

/// What has been read from the file and not been sent, together with what is
/// being read, never exceeds the window times the chunk size.
pub proof fn law_buffering_is_bounded(stream: Streaming, size: int, max: int)
    requires
        stream.wf(),
        0 <= size,
        pieces_small(piece_views(stream.chunks@), size),
        stream.window <= max,
    ensures
        file_bytes_between(stream.chunks@, stream.next_send as int, stream.issue_cursor as int)
            <= max * size,
{
    lemma_file_bytes_bounded(
        stream.chunks@,
        stream.next_send as int,
        stream.issue_cursor as int,
        size,
    );
    assert(stream.window * size <= max * size) by (nonlinear_arith)
        requires
            stream.window <= max,
            0 <= size,
    ;
}

/// Each file chunk is read at most once: reads are issued for chunks from the
/// cursor on, and the cursor moves past them.
pub proof fn law_reads_are_issued_once(chunks: Seq<Chunk>, lo: int, hi: int)
    requires
        0 <= lo <= hi <= usize::MAX,
    ensures
        forall|i: int|
            0 <= i < reads_between(chunks, lo, hi).len() ==> lo <= (#[trigger] reads_between(
                chunks,
                lo,
                hi,
            )[i]).seq < hi,
        forall|i: int, j: int|
            #![trigger reads_between(chunks, lo, hi)[i], reads_between(chunks, lo, hi)[j]]
            0 <= i < j < reads_between(chunks, lo, hi).len() ==> reads_between(chunks, lo, hi)[i].seq
                < reads_between(chunks, lo, hi)[j].seq,
    decreases hi - lo,
{
    if lo < hi {
        law_reads_are_issued_once(chunks, lo, hi - 1);
        let before = reads_between(chunks, lo, hi - 1);
        let all = reads_between(chunks, lo, hi);
        assert forall|i: int| 0 <= i < all.len() implies lo <= (#[trigger] all[i]).seq < hi by {
            if i < before.len() {
                assert(all[i] == before[i]);
            }
        }
        assert forall|i: int, j: int| #![trigger all[i], all[j]]
            0 <= i < j < all.len() implies all[i].seq < all[j].seq by {
            assert(all[i] == before[i]);
            if j < before.len() {
                assert(all[j] == before[j]);
            }
        }
    }
}

proof fn lemma_stream_bytes_same(a: Seq<Piece>, b: Seq<Piece>, file: Seq<u8>)
    requires
        a.len() == b.len(),
        forall|i: int|
            0 <= i < a.len() ==> piece_bytes(#[trigger] a[i], file) == piece_bytes(b[i], file),
    ensures
        stream_bytes(a, file) == stream_bytes(b, file),
    decreases a.len(),
{
    if a.len() > 0 {
        let (x, y) = (a.drop_last(), b.drop_last());
        assert forall|i: int| 0 <= i < x.len() implies piece_bytes(#[trigger] x[i], file)
            == piece_bytes(y[i], file) by {
            assert(x[i] == a[i]);
        }
        lemma_stream_bytes_same(x, y, file);
        assert(piece_bytes(a[a.len() - 1], file) == piece_bytes(b[a.len() - 1], file));
    }
}

/// Bytes prefetched from the start of the file take the place of the first
/// chunk without changing the body.
pub proof fn law_prefetch_keeps_the_body(pieces: Seq<Piece>, prefetch: Seq<u8>, file: Seq<u8>)
    requires
        pieces.len() > 0,
        prefetch.len() <= file.len(),
        prefetch == file.take(prefetch.len() as int),
    ensures
        stream_bytes(seeded(pieces, prefetch), file) == stream_bytes(pieces, file),
{
    let a = seeded(pieces, prefetch);
    assert forall|i: int| 0 <= i < a.len() implies piece_bytes(#[trigger] a[i], file)
        == piece_bytes(pieces[i], file) by {
        if i == 0 {
            assert(file.take(prefetch.len() as int) =~= file.subrange(0, prefetch.len() as int));
        }
    }
    lemma_stream_bytes_same(a, pieces, file);
}

proof fn lemma_ranges_bytes_len(ranges: Seq<ByteRange>, file: Seq<u8>)
    requires
        forall|i: int|
            0 <= i < ranges.len() ==> (#[trigger] ranges[i]).start <= ranges[i].end < file.len(),
    ensures
        ranges_bytes(ranges, file).len() == range::ranges_len(ranges),
    decreases ranges.len(),
{
    if ranges.len() > 0 {
        let before = ranges.drop_last();
        assert forall|i: int| 0 <= i < before.len() implies (#[trigger] before[i]).start
            <= before[i].end < file.len() by {
            assert(before[i] == ranges[i]);
        }
        lemma_ranges_bytes_len(before, file);
        assert(ranges[ranges.len() - 1] == ranges.last());
    }
}

proof fn lemma_parts_bytes_len(parts: Seq<(ByteRange, Seq<u8>)>, file: Seq<u8>)
    requires
        forall|i: int|
            0 <= i < parts.len() ==> (#[trigger] parts[i]).0.start <= parts[i].0.end < file.len(),
    ensures
        parts_bytes(parts, file).len() == response_plan::framed_len(parts),
    decreases parts.len(),
{
    if parts.len() > 0 {
        let before = parts.drop_last();
        assert forall|i: int| 0 <= i < before.len() implies (#[trigger] before[i]).0.start
            <= before[i].0.end < file.len() by {
            assert(before[i] == parts[i]);
        }
        lemma_parts_bytes_len(before, file);
        assert(parts[parts.len() - 1] == parts.last());
    }
}

/// A planned body has as many bytes as the plan counts.
pub proof fn law_body_has_its_planned_length(body: BodyView, file: Seq<u8>)
    requires
        body_within(body, file.len() as int),
    ensures
        body_bytes(body, file).len() == response_plan::body_len(body),
{
    match body {
        BodyView::Segments(ranges) => lemma_ranges_bytes_len(ranges, file),
        BodyView::Multipart { parts, .. } => lemma_parts_bytes_len(parts, file),
        _ => {},
    }
}

/// Once the last chunk is sent, exactly the stream's bytes have been sent, in
/// order.
pub proof fn law_last_chunk_completes_the_body(stream: Streaming, file: Seq<u8>)
    requires
        stream.wf(),
        stream.holds_bytes_of(file),
        stream.next_send == stream.chunks@.len() - 1,
        stream.ready@.contains_key(stream.next_send),
    ensures
        stream.sent(file) + stream.ready@[stream.next_send]@ == stream_bytes(
            piece_views(stream.chunks@),
            file,
        ),
{
    let pieces = piece_views(stream.chunks@);
    assert(pieces.drop_last() =~= pieces.take(stream.next_send as int));
    assert(pieces.last() == stream.chunks@[stream.next_send as int]@);
}

proof fn lemma_stream_bytes_flatten(pieces: Seq<Piece>, file: Seq<u8>)
    ensures
        stream_bytes(pieces, file) == pieces.map_values(
            |p: Piece| piece_bytes(p, file),
        ).flatten(),
    decreases pieces.len(),
{
    let bytes = |p: Piece| piece_bytes(p, file);
    let all = pieces.map_values(bytes);
    if pieces.len() > 0 {
        lemma_stream_bytes_flatten(pieces.drop_last(), file);
        assert(all.drop_last() =~= pieces.drop_last().map_values(bytes));
        all.lemma_flatten_and_flatten_alt_are_equivalent();
        all.drop_last().lemma_flatten_and_flatten_alt_are_equivalent();
        assert(all.last() == bytes(pieces.last()));
    } else {
        assert(stream_bytes(pieces, file) =~= all.flatten());
    }
}

proof fn lemma_ranges_bytes_flatten(ranges: Seq<ByteRange>, file: Seq<u8>)
    ensures
        ranges_bytes(ranges, file) == ranges.map_values(
            |r: ByteRange| file.subrange(r.start as int, r.end + 1),
        ).flatten(),
    decreases ranges.len(),
{
    let bytes = |r: ByteRange| file.subrange(r.start as int, r.end + 1);
    let all = ranges.map_values(bytes);
    if ranges.len() > 0 {
        lemma_ranges_bytes_flatten(ranges.drop_last(), file);
        assert(all.drop_last() =~= ranges.drop_last().map_values(bytes));
        all.lemma_flatten_and_flatten_alt_are_equivalent();
        all.drop_last().lemma_flatten_and_flatten_alt_are_equivalent();
        assert(all.last() == bytes(ranges.last()));
    } else {
        assert(ranges_bytes(ranges, file) =~= all.flatten());
    }
}

proof fn lemma_parts_bytes_flatten(parts: Seq<(ByteRange, Seq<u8>)>, file: Seq<u8>)
    ensures
        parts_bytes(parts, file) == parts.map_values(
            |p: (ByteRange, Seq<u8>)| p.1 + file.subrange(p.0.start as int, p.0.end + 1),
        ).flatten(),
    decreases parts.len(),
{
    let bytes = |p: (ByteRange, Seq<u8>)| p.1 + file.subrange(p.0.start as int, p.0.end + 1);
    let all = parts.map_values(bytes);
    if parts.len() > 0 {
        lemma_parts_bytes_flatten(parts.drop_last(), file);
        assert(all.drop_last() =~= parts.drop_last().map_values(bytes));
        all.lemma_flatten_and_flatten_alt_are_equivalent();
        all.drop_last().lemma_flatten_and_flatten_alt_are_equivalent();
        assert(all.last() == bytes(parts.last()));
        assert(parts_bytes(parts, file) =~= all.drop_last().flatten() + all.last());
    } else {
        assert(parts_bytes(parts, file) =~= all.flatten());
    }
}

/// The bytes that are streamed for a body are those of the file that it names:
/// the whole file, the ranges one after the other, or the parts, each its header
/// and its range, and then the closing boundary.
pub proof fn law_streamed_bytes_are_those_of_the_file(
    body: BodyView,
    size: int,
    file: Seq<u8>,
)
    requires
        0 < size <= usize::MAX,
        file.len() <= u64::MAX,
        body_within(body, file.len() as int),
    ensures
        ({
            let streamed = body_pieces(body, size).map_values(
                |p: Piece|
                    match p {
                        Piece::Inline(bytes) => bytes,
                        Piece::File { offset, len } => file.subrange(offset as int, offset + len),
                    },
            ).flatten();
            match body {
                BodyView::Empty => streamed.len() == 0,
                BodyView::Whole { len } => streamed == file.take(len as int),
                BodyView::Segments(ranges) => streamed == ranges.map_values(
                    |r: ByteRange| file.subrange(r.start as int, r.end + 1),
                ).flatten(),
                BodyView::Multipart { parts, terminator, .. } => streamed == parts.map_values(
                    |p: (ByteRange, Seq<u8>)| p.1 + file.subrange(p.0.start as int, p.0.end + 1),
                ).flatten() + terminator,
            }
        }),
{
    let pieces = body_pieces(body, size);
    let bytes = |p: Piece| piece_bytes(p, file);
    let spelled = |p: Piece|
        match p {
            Piece::Inline(bytes) => bytes,
            Piece::File { offset, len } => file.subrange(offset as int, offset + len),
        };
    assert(pieces.map_values(bytes) =~= pieces.map_values(spelled));
    lemma_stream_bytes_flatten(pieces, file);
    law_chunks_make_up_the_body(body, size, file);
    match body {
        BodyView::Segments(ranges) => lemma_ranges_bytes_flatten(ranges, file),
        BodyView::Multipart { parts, .. } => lemma_parts_bytes_flatten(parts, file),
        _ => {},
    }
}

/// A run of file bytes is cut into chunks of the full size; only the last may be
/// smaller, and it is not empty.
pub proof fn law_runs_are_cut_into_full_chunks(start: int, len: int, size: int, i: int)
    requires
        0 <= start,
        0 <= len,
        start + len <= u64::MAX,
        0 < size <= usize::MAX,
        0 <= i < file_pieces(start, len, size).len(),
    ensures
        i * size < len,
        file_pieces(start, len, size)[i] == (Piece::File {
            offset: (start + i * size) as u64,
            len: if (i + 1) * size <= len {
                size as usize
            } else {
                (len - i * size) as usize
            },
        }),
        i == file_pieces(start, len, size).len() - 1 ==> len <= (i + 1) * size,
    decreases i,
{
    let this = smaller(len, size);
    let rest = file_pieces(start + this, len - this, size);
    let all = file_pieces(start, len, size);
    assert(len > 0);
    assert(all == seq![Piece::File { offset: start as u64, len: this as usize }] + rest);
    assert(0 * size == 0 && 1 * size == size) by (nonlinear_arith);
    if i > 0 {
        assert(rest.len() > 0);
        assert(len - this > 0);
        law_runs_are_cut_into_full_chunks(start + this, len - this, size, i - 1);
        assert((i - 1) * size == i * size - size && (i - 1 + 1) * size == i * size && (i + 1) * size
            == i * size + size) by (nonlinear_arith);
        assert(all[i] == rest[i - 1]);
    } else if all.len() == 1 {
        assert(rest.len() == 0);
        assert(len - this <= 0);
    }
}

/// Bytes that were read along with the open are not read again: they become the
/// first chunk where they are all of it.
pub proof fn law_prefetched_chunks_are_not_read_again(pieces: Seq<Piece>, prefetch: Seq<u8>)
    requires
        pieces.len() > 0,
        pieces[0] == (Piece::File { offset: 0, len: prefetch.len() as usize }),
        prefetch.len() <= usize::MAX,
    ensures
        seeded(pieces, prefetch)[0] == Piece::Inline(prefetch),
        seeded(pieces, prefetch).skip(1) == pieces.skip(1),
{
    assert(seeded(pieces, prefetch).skip(1) =~= pieces.skip(1));
}

/// Reading ahead goes as far as it may: until the room is used up or all file
/// chunks are being read.
pub proof fn law_reads_use_all_the_room(chunks: Seq<Chunk>, cursor: int, room: int)
    requires
        0 <= cursor <= chunks.len(),
        0 <= room,
    ensures
        ({
            let end = issue_end(chunks, cursor, room);
            &&& cursor <= end <= chunks.len()
            &&& files_between(chunks, cursor, end) <= room
            &&& files_between(chunks, cursor, end) == room || end == chunks.len()
        }),
    decreases chunks.len() - cursor,
{
    if cursor < chunks.len() && room > 0 {
        let less = if chunks[cursor] is File {
            room - 1
        } else {
            room
        };
        law_reads_use_all_the_room(chunks, cursor + 1, less);
        let end = issue_end(chunks, cursor, room);
        lemma_files_from(chunks, cursor, end);
    } else {
        assert(files_between(chunks, cursor, cursor) == 0);
    }
}

/// Every file chunk in a stretch is read, by its own offset and length, and
/// nothing else is.
pub proof fn law_reads_are_those_of_the_file_chunks(
    chunks: Seq<Chunk>,
    lo: int,
    hi: int,
    k: int,
)
    requires
        0 <= lo <= hi <= chunks.len() <= usize::MAX,
        lo <= k < hi,
    ensures
        chunks[k] matches Chunk::File { offset, len } ==> reads_between(chunks, lo, hi).contains(
            ReadTask { seq: k as usize, offset, len },
        ),
        reads_between(chunks, lo, hi).len() == files_between(chunks, lo, hi),
    decreases hi - lo,
{
    let all = reads_between(chunks, lo, hi);
    let before = reads_between(chunks, lo, hi - 1);
    if lo < hi - 1 {
        law_reads_are_those_of_the_file_chunks(
            chunks,
            lo,
            hi - 1,
            if k < hi - 1 {
                k
            } else {
                lo
            },
        );
    } else {
        assert(before.len() == 0);
        assert(files_between(chunks, lo, hi - 1) == 0);
    }
    if let Chunk::File { offset, len } = chunks[k] {
        let task = ReadTask { seq: k as usize, offset, len };
        if k == hi - 1 {
            assert(all.last() == task);
        } else {
            let i = choose|i: int| 0 <= i < before.len() && before[i] == task;
            assert(all[i] == task);
        }
    }
}

/// Taking the next chunk sends its bytes behind what was sent, and no others:
/// the other chunks stay as they are, and the last one is known as such.
pub proof fn law_chunks_are_sent_in_order(
    before: Streaming,
    bytes: Vec<u8>,
    last: bool,
    after: Streaming,
    file: Seq<u8>,
    i: usize,
)
    requires
        before.wf(),
        before.holds_bytes_of(file),
        took(before, bytes, last, after),
    ensures
        bytes@ == piece_bytes(before.chunks@[before.next_send as int]@, file),
        after.sent(file) == before.sent(file) + bytes@,
        after.holds_bytes_of(file),
        after.chunks == before.chunks,
        after.next_send == before.next_send + 1,
        last <==> after.next_send == after.chunks@.len(),
        last ==> after.sent(file) == stream_bytes(piece_views(before.chunks@), file),
        i != before.next_send ==> after.ready@.contains_key(i) == before.ready@.contains_key(i),
        i != before.next_send && before.ready@.contains_key(i) ==> after.ready@[i]
            == before.ready@[i],
        !last ==> after.wf(),
{
    if last {
        let pieces = piece_views(before.chunks@);
        assert(pieces.take(pieces.len() as int) =~= pieces);
    }
}

/// The bytes of a read become those of its chunk, and every other chunk stays as
/// it is. One read fewer is outstanding.
pub proof fn law_reads_fill_their_own_chunk(
    before: Streaming,
    seq: usize,
    bytes: Vec<u8>,
    after: Streaming,
    i: usize,
)
    requires
        before.wf(),
        before.awaits(seq),
        accepted(before, seq, bytes, after),
    ensures
        after.ready@.contains_key(seq) && after.ready@[seq] == bytes,
        !after.awaits(seq),
        i != seq ==> after.ready@.contains_key(i) == before.ready@.contains_key(i)
            && after.awaits(i) == before.awaits(i),
        i != seq && before.ready@.contains_key(i) ==> after.ready@[i] == before.ready@[i],
        after.inflight + 1 == before.inflight,
        after.chunks == before.chunks,
        after.next_send == before.next_send,
        after.wf(),
{
}

/// Reading ahead starts as many reads as the window has room for, of the file
/// chunks that come next, and changes nothing of what is ready or sent. It never
/// leaves a stream waiting with nothing under way.
pub proof fn law_reading_ahead_fills_the_window(
    before: Streaming,
    max: usize,
    tasks: Seq<ReadTask>,
    after: Streaming,
    k: int,
)
    requires
        before.wf(),
        0 < max,
        before.window <= max,
        issued(before, max, tasks, after),
    ensures
        after.wf(),
        after.window <= max,
        after.window == max || after.issue_cursor == after.chunks@.len(),
        after.window == before.window + tasks.len(),
        after.chunks == before.chunks && after.ready == before.ready && after.next_send
            == before.next_send,
        before.issue_start() <= k < after.issue_cursor ==> (before.chunks@[k] matches Chunk::File {
            offset,
            len,
        } ==> tasks.contains(ReadTask { seq: k as usize, offset, len })),
        after.ready@.contains_key(after.next_send) || after.inflight > 0,
        tasks.len() == files_between(
            before.chunks@,
            before.issue_start(),
            after.issue_cursor as int,
        ),
{
    let start = before.issue_start();
    let end = after.issue_cursor as int;
    assert(before.chunks@.len() == before.chunks.len());
    law_reads_use_all_the_room(before.chunks@, start, max - before.window);
    if start < end {
        law_reads_are_those_of_the_file_chunks(
            before.chunks@,
            start,
            end,
            if start <= k < end {
                k
            } else {
                start
            },
        );
    }
}

/// A stream that has just been started has its chunks before it: nothing is
/// sent, nothing is being read, and it is not held up.
pub proof fn law_streams_start_at_the_beginning(
    stream: Streaming,
    pieces: Seq<Piece>,
    file: Seq<u8>,
)
    requires
        started(stream, pieces),
    ensures
        stream.wf(),
        piece_views(stream.chunks@) == pieces,
        stream.sent(file).len() == 0,
        stream.holds_bytes_of(file),
        stream.window == 0 && stream.inflight == 0 && stream.watermark_depth == 0,
{
    assert(stream.sent(file) == Seq::<u8>::empty());
}

/// A stream that is held up once more.
pub open spec fn held_up(stream: Streaming) -> Streaming {
    Streaming {
        watermark_depth: if stream.watermark_depth < usize::MAX {
            (stream.watermark_depth + 1) as usize
        } else {
            stream.watermark_depth
        },
        ..stream
    }
}

/// A stream that is held up once less.
pub open spec fn let_go(stream: Streaming) -> Streaming {
    Streaming {
        watermark_depth: if stream.watermark_depth > 0 {
            (stream.watermark_depth - 1) as usize
        } else {
            0
        },
        ..stream
    }
}

/// A stream that is held up is so until it has been let go as often. Nothing
/// else of it changes.
pub proof fn law_streams_are_let_go_as_often_as_held_up(stream: Streaming)
    ensures
        held_up(stream).watermark_depth > 0,
        stream.watermark_depth < usize::MAX ==> let_go(held_up(stream)) == stream,
        let_go(stream).watermark_depth == 0 <==> stream.watermark_depth <= 1,
        stream.watermark_depth == 0 ==> let_go(stream) == stream,
        let_go(stream).watermark_depth <= stream.watermark_depth,
        held_up(stream).chunks == stream.chunks && held_up(stream).ready == stream.ready
            && held_up(stream).next_send == stream.next_send && held_up(stream).issue_cursor
            == stream.issue_cursor,
{
}

} // verus!
