//! Cutting a file into byte ranges that begin and end on record boundaries.
//!
//! A worker that is handed the nominal offset of a chunk reads a little before it
//! and up to the nominal end of the chunk, then trims what it read: the window
//! begins after the last newline before the offset and ends after the last newline
//! of what was read.

use vstd::prelude::*;

verus! {

/// The byte that ends a record.
pub const NEWLINE: u8 = 10;

/// Bytes of the file that one unit of work covers.
pub const CHUNK_SIZE: u64 = 16 * 1024 * 1024;

/// How far before a chunk's offset its read begins. It has to exceed the longest
/// line of the file.
pub const CHUNK_EXCESS: u64 = 64;

/// The nearest record boundary at or before `pos`: the greatest `s <= pos` that is
/// 0 or stands just behind a newline.
pub open spec fn line_start(data: Seq<u8>, pos: int) -> int
    decreases pos,
{
    if pos <= 0 {
        0
    } else if data[pos - 1] == NEWLINE {
        pos
    } else {
        line_start(data, pos - 1)
    }
}

/// `pos` is the first byte of a record, or the end of the data behind a complete
/// record.
pub open spec fn is_boundary(data: Seq<u8>, pos: int) -> bool {
    0 <= pos <= data.len() && (pos == 0 || data[pos - 1] == NEWLINE)
}

/// A newline stands among the `reach` bytes before `pos`.
pub open spec fn newline_before(data: Seq<u8>, pos: int, reach: int) -> bool {
    exists|j: int| pos - reach <= j < pos && #[trigger] data[j] == NEWLINE
}

/// Every position from `reach` on has a newline among the `reach` bytes before it:
/// no line, its newline counted, is longer than `reach`.
pub open spec fn lines_within(data: Seq<u8>, reach: int) -> bool {
    forall|p: int| reach <= p <= data.len() ==> #[trigger] newline_before(data, p, reach)
}

/// Where the read for the chunk at `offset` begins.
pub open spec fn region_start(offset: int, excess: int) -> int {
    if offset == 0 {
        0
    } else {
        offset - excess
    }
}

/// Where the read for the chunk at `offset` ends.
pub open spec fn region_end(offset: int, file_size: int, chunk_size: int) -> int {
    if offset + chunk_size <= file_size {
        offset + chunk_size
    } else {
        file_size
    }
}

/// The aligned window of the chunk at `offset`, in positions of the file: its first
/// byte and the position behind its last.
pub open spec fn window_of(data: Seq<u8>, offset: int, chunk_size: int, excess: int) -> (int, int) {
    let from = region_start(offset, excess);
    let to = region_end(offset, data.len() as int, chunk_size);
    let region = data.subrange(from, to);
    (from + line_start(region, offset - from), from + line_start(region, to - from))
}

/// What `line_start` finds is a boundary at or before `pos`, with no newline
/// between it and `pos`.
pub proof fn lemma_line_start(data: Seq<u8>, pos: int)
    requires
        0 <= pos <= data.len(),
    ensures
        is_boundary(data, line_start(data, pos)),
        line_start(data, pos) <= pos,
        forall|j: int| line_start(data, pos) <= j < pos ==> data[j] != NEWLINE,
    decreases pos,
{
    if pos > 0 && data[pos - 1] != NEWLINE {
        lemma_line_start(data, pos - 1);
    }
}

/// A boundary at or before `pos` with no newline up to `pos` is what `line_start`
/// finds.
pub proof fn lemma_line_start_unique(data: Seq<u8>, pos: int, s: int)
    requires
        0 <= s <= pos <= data.len(),
        is_boundary(data, s),
        forall|j: int| s <= j < pos ==> data[j] != NEWLINE,
    ensures
        line_start(data, pos) == s,
    decreases pos,
{
    if pos > s {
        lemma_line_start_unique(data, pos - 1, s);
    }
}

/// A later position has a later, or the same, boundary before it.
pub proof fn lemma_line_start_monotone(data: Seq<u8>, a: int, b: int)
    requires
        0 <= a <= b <= data.len(),
    ensures
        line_start(data, a) <= line_start(data, b),
    decreases b,
{
    lemma_line_start(data, a);
    if b > a && data[b - 1] != NEWLINE {
        lemma_line_start_monotone(data, a, b - 1);
    }
}

/// Within a part of the data that holds a newline before `pos`, the boundary found
/// is the one found in the whole.
pub proof fn lemma_line_start_in_region(data: Seq<u8>, from: int, to: int, pos: int)
    requires
        0 <= from <= pos <= to <= data.len(),
        from == 0 || exists|j: int| from <= j < pos && data[j] == NEWLINE,
    ensures
        from + line_start(data.subrange(from, to), pos - from) == line_start(data, pos),
    decreases pos,
{
    let region = data.subrange(from, to);
    if pos > from {
        assert(region[pos - from - 1] == data[pos - 1]);
        if data[pos - 1] != NEWLINE {
            lemma_line_start_in_region(data, from, to, pos - 1);
        }
    }
}

/// Alignment in terms of the whole file. Where no line is longer than
/// `excess`, the window of the chunk at `offset` begins at the record boundary
/// before `offset` and ends at the record boundary before the chunk's nominal end:
/// it never begins or ends inside a record, and the chunk at 0 begins at 0.
pub proof fn lemma_window_aligned(data: Seq<u8>, offset: int, chunk_size: int, excess: int)
    requires
        chunk_size > 0,
        excess > 0,
        offset == 0 || offset >= excess,
        offset <= data.len(),
        lines_within(data, excess),
    ensures
        window_of(data, offset, chunk_size, excess).0 == line_start(data, offset),
        window_of(data, offset, chunk_size, excess).1 == line_start(
            data,
            region_end(offset, data.len() as int, chunk_size),
        ),
        is_boundary(data, window_of(data, offset, chunk_size, excess).0),
        is_boundary(data, window_of(data, offset, chunk_size, excess).1),
        offset == 0 ==> window_of(data, offset, chunk_size, excess).0 == 0,
{
    let from = region_start(offset, excess);
    let to = region_end(offset, data.len() as int, chunk_size);
    if offset != 0 {
        assert(newline_before(data, offset, excess));
        let j = choose|j: int| offset - excess <= j < offset && #[trigger] data[j] == NEWLINE;
        assert(from <= j < offset && data[j] == NEWLINE);
        assert(from <= j < to && data[j] == NEWLINE);
    }
    lemma_line_start_in_region(data, from, to, offset);
    lemma_line_start_in_region(data, from, to, to);
    lemma_line_start(data, offset);
    lemma_line_start(data, to);
}

/// The windows tile the file. Where no line is longer than `excess`, the window of
/// a chunk ends where the window of the next chunk begins, and the window of the
/// last chunk of a file that ends in a newline ends with the file: no byte is
/// covered twice and none is left out.
pub proof fn lemma_windows_tile(data: Seq<u8>, offset: int, chunk_size: int, excess: int)
    requires
        chunk_size >= excess > 0,
        offset == 0 || offset >= excess,
        offset <= data.len(),
        lines_within(data, excess),
    ensures
        offset + chunk_size <= data.len() ==> window_of(data, offset, chunk_size, excess).1
            == window_of(data, offset + chunk_size, chunk_size, excess).0,
        offset + chunk_size > data.len() && is_boundary(data, data.len() as int) ==> window_of(
            data,
            offset,
            chunk_size,
            excess,
        ).1 == data.len(),
{
    lemma_window_aligned(data, offset, chunk_size, excess);
    if offset + chunk_size <= data.len() {
        lemma_window_aligned(data, offset + chunk_size, chunk_size, excess);
    }
}

/// Where to read for one chunk: `len` bytes from file position `read_from`; the
/// chunk's nominal start is `head` bytes into what was read.
#[derive(Clone, Copy, Debug)]
pub struct ReadPlan {
    pub read_from: u64,
    pub len: u64,
    pub head: u64,
}

/// Plans the read for the chunk at `offset`, or reports that the file is exhausted.
///
/// The read begins `excess` bytes before the offset, or at 0 for the first chunk,
/// and ends at the chunk's nominal end or at the end of the file.
pub fn plan_read(offset: u64, file_size: u64, chunk_size: u64, excess: u64) -> (plan: Option<
    ReadPlan,
>)
    requires
        offset == 0 || offset >= excess,
    ensures
        offset > file_size <==> plan is None,
        plan matches Some(p) ==> {
            &&& p.read_from == region_start(offset as int, excess as int)
            &&& p.read_from + p.len == region_end(
                offset as int,
                file_size as int,
                chunk_size as int,
            )
            &&& p.read_from + p.head == offset
        },
{
    if offset > file_size {
        return None;
    }
    let read_from: u64 = if offset == 0 { 0 } else { offset - excess };
    let end: u64 = if file_size - offset < chunk_size { file_size } else { offset + chunk_size };
    Some(ReadPlan { read_from, len: end - read_from, head: offset - read_from })
}

/// The record boundary at or before `pos`, found by stepping back to the nearest
/// newline.
fn scan_back(data: &[u8], pos: usize) -> (s: usize)
    requires
        pos <= data.len(),
    ensures
        s == line_start(data@, pos as int),
{
    let mut s: usize = pos;
    while s > 0 && data[s - 1] != NEWLINE
        invariant
            s <= pos <= data.len(),
            line_start(data@, s as int) == line_start(data@, pos as int),
        decreases s,
    {
        s -= 1;
    }
    s
}

/// Trims what was read for a chunk to whole records.
///
/// `head` is where the chunk nominally starts within `region`. The window returned,
/// as positions in `region`, begins at the record boundary at or before `head` and
/// ends behind the last newline of `region`; it is empty where no record ends
/// behind its start.
pub fn align(region: &[u8], head: usize) -> (w: (usize, usize))
    requires
        head <= region.len(),
    ensures
        w.0 == line_start(region@, head as int),
        w.1 == line_start(region@, region.len() as int),
        w.0 <= head,
        w.0 <= w.1 <= region.len(),
        is_boundary(region@, w.0 as int),
        is_boundary(region@, w.1 as int),
        forall|j: int| w.0 <= j < head ==> region[j] != NEWLINE,
        forall|j: int| w.1 <= j < region.len() ==> region[j] != NEWLINE,
{
    let start = scan_back(region, head);
    let end = scan_back(region, region.len());
    proof {
        lemma_line_start(region@, head as int);
        lemma_line_start(region@, region.len() as int);
        lemma_line_start_monotone(region@, head as int, region.len() as int);
    }
    (start, end)
}

/// Tells whether no line of `data`, its newline counted, is longer than `reach`:
/// whether `reach` will do as the excess for this data.
pub fn lines_fit(data: &[u8], reach: usize) -> (ok: bool)
    requires
        reach > 0,
    ensures
        ok == lines_within(data@, reach as int),
{
    let mut pos: usize = 0;
    let mut start: usize = 0;
    loop
        invariant
            reach > 0,
            pos <= data.len(),
            start == line_start(data@, pos as int),
            forall|p: int| reach <= p < pos ==> #[trigger] newline_before(data@, p, reach as int),
        decreases data.len() - pos,
    {
        proof {
            lemma_line_start(data@, pos as int);
        }
        if pos >= reach {
            if start == 0 || pos - start >= reach {
                proof {
                    assert(!newline_before(data@, pos as int, reach as int));
                }
                return false;
            }
            proof {
                assert(data@[start - 1] == NEWLINE);
            }
        }
        if pos == data.len() {
            return true;
        }
        if data[pos] == NEWLINE {
            start = pos + 1;
        }
        pos += 1;
    }
}

} // verus!
