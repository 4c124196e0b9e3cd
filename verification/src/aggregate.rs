//! Summarising a whole file that is held in memory, one chunk after the other, as
//! a pool of workers does with a file on disk.

use vstd::prelude::*;
use vstd::utf8::valid_utf8;
use crate::align::{
    align, is_boundary, lemma_line_start, lemma_line_start_monotone, lemma_window_aligned,
    line_start, lines_fit, lines_within, region_end, region_start, window_of,
};
use crate::chunk::{
    accumulate, chained, lemma_parse_concat, lemma_readings_fit, lemma_summarize_concat, summarize,
};
use crate::record::{parse_window, ParseError, Reading};
use crate::summary::{merge_in, merged, Summary};
use crate::stat::Tally;

verus! {

/// The part of a file that consists of whole records: all of it up to its last
/// newline.
pub open spec fn whole_records(data: Seq<u8>) -> Seq<u8> {
    data.take(line_start(data, data.len() as int))
}

/// Every key of the summary is well-formed UTF-8.
pub open spec fn keys_valid(m: Map<Seq<u8>, Tally>) -> bool {
    forall|k: Seq<u8>| m.contains_key(k) ==> valid_utf8(k)
}

/// What lies before a later boundary reads as what lies before an earlier one,
/// followed by what lies between them.
proof fn lemma_extend(data: Seq<u8>, c0: int, c1: int)
    requires
        is_boundary(data, c0),
        c0 <= c1 <= data.len(),
    ensures
        parse_window(data.take(c1)) == chained(
            parse_window(data.take(c0)),
            parse_window(data.subrange(c0, c1)),
        ),
{
    assert(data.take(c1) == data.take(c0) + data.subrange(c0, c1));
    lemma_parse_concat(data.take(c0), data.subrange(c0, c1));
}

/// `r` is what the whole records of `data` come to. It is a summary just when
/// every line reads as a record and every key is text, and then the summary of
/// all the readings, each counted once; a fault other than that of a key is the
/// first fault among the lines.
pub open spec fn aggregates_to(data: Seq<u8>, r: Result<Summary, ParseError>) -> bool {
    let whole = parse_window(whole_records(data));
    &&& r is Ok <==> whole is Ok && keys_valid(summarize(whole->Ok_0))
    &&& r matches Ok(s) ==> {
        &&& s.wf()
        &&& s@ == summarize(whole->Ok_0)
        &&& s.spec_total() == whole->Ok_0.len()
    }
    &&& r matches Err(e) ==> e == ParseError::InvalidKeyEncoding || whole == Err::<
        Seq<Reading>,
        ParseError,
    >(e)
}

/// The bytes of the aligned window of the chunk at `offset`.
pub open spec fn window_bytes(data: Seq<u8>, offset: int, chunk_size: int, excess: int) -> Seq<u8> {
    let w = window_of(data, offset, chunk_size, excess);
    data.subrange(w.0, w.1)
}

/// What one more chunk adds to what was read before it. Where no line is longer
/// than `excess` and all before the chunk read as `done`, the chunk's window
/// reaches from the boundary before its offset to the boundary before its end; a
/// fault in it is the fault of the whole; and where it reads, all up to its end
/// reads as `done` and then the window's readings, whose keys are keys of the
/// whole.
proof fn lemma_chunk_step(
    data: Seq<u8>,
    offset: int,
    chunk_size: int,
    excess: int,
    done: Seq<Reading>,
)
    requires
        0 < excess < chunk_size,
        lines_within(data, excess),
        0 <= offset <= data.len(),
        offset == 0 || offset >= chunk_size,
        parse_window(data.take(line_start(data, offset))) == Ok::<Seq<Reading>, ParseError>(done),
    ensures
        ({
            let w = window_of(data, offset, chunk_size, excess);
            let to = region_end(offset, data.len() as int, chunk_size);
            &&& w.0 == line_start(data, offset)
            &&& w.1 == line_start(data, to)
            &&& 0 <= w.0 <= w.1 <= data.len()
            &&& to == data.len() ==> data.take(w.1) == whole_records(data)
            &&& match parse_window(window_bytes(data, offset, chunk_size, excess)) {
                Err(e) => parse_window(whole_records(data)) == Err::<Seq<Reading>, ParseError>(e),
                Ok(found) => {
                    &&& parse_window(data.take(w.1)) == Ok::<Seq<Reading>, ParseError>(
                        done + found,
                    )
                    &&& summarize(done + found) == merged(summarize(done), summarize(found))
                    &&& parse_window(whole_records(data)) matches Ok(all) ==> forall|k: Seq<u8>|
                        summarize(found).contains_key(k) ==> summarize(all).contains_key(k)
                },
            }
        }),
{
    let n = data.len() as int;
    let last = line_start(data, n);
    let to = region_end(offset, n, chunk_size);
    let c0 = line_start(data, offset);
    let c1 = line_start(data, to);
    lemma_window_aligned(data, offset, chunk_size, excess);
    lemma_line_start(data, offset);
    lemma_line_start(data, to);
    lemma_line_start(data, n);
    lemma_line_start_monotone(data, offset, to);
    lemma_line_start_monotone(data, to, n);
    lemma_extend(data, c0, c1);
    lemma_extend(data, c1, last);
    if let Ok(found) = parse_window(data.subrange(c0, c1)) {
        lemma_summarize_concat(done, found);
        if let Ok(rest) = parse_window(data.subrange(c1, last)) {
            lemma_summarize_concat(done + found, rest);
        }
    }
}

/// Takes in the chunk at `offset` of a file held in memory: reads from `excess`
/// bytes before the offset to the chunk's end, aligns what was read, summarises
/// the window and merges the summary into `global`.
///
/// A fault leaves `global` as it was.
pub fn process_chunk(
    data: &[u8],
    offset: usize,
    chunk_size: usize,
    excess: usize,
    global: &mut Summary,
) -> (r: Result<(), ParseError>)
    requires
        old(global).wf(),
        chunk_size > 0,
        offset <= data.len(),
        offset == 0 || offset >= excess,
        old(global).spec_total() + window_bytes(
            data@,
            offset as int,
            chunk_size as int,
            excess as int,
        ).len() <= u64::MAX,
    ensures
        final(global).wf(),
        match parse_window(window_bytes(data@, offset as int, chunk_size as int, excess as int)) {
            Err(e) => r == Err::<(), ParseError>(e),
            Ok(found) => if keys_valid(summarize(found)) {
                &&& r is Ok
                &&& final(global)@ == merged(old(global)@, summarize(found))
                &&& final(global).spec_total() == old(global).spec_total() + found.len()
            } else {
                r == Err::<(), ParseError>(ParseError::InvalidKeyEncoding)
            },
        },
        r is Err ==> final(global)@ == old(global)@ && final(global).spec_total() == old(
            global,
        ).spec_total(),
{
    let n = data.len();
    let from: usize = if offset == 0 { 0 } else { offset - excess };
    let to: usize = if n - offset < chunk_size { n } else { offset + chunk_size };
    let region = vstd::slice::slice_subrange(data, from, to);
    let (s, e) = align(region, offset - from);
    let window = vstd::slice::slice_subrange(region, s, e);
    proof {
        assert(from == region_start(offset as int, excess as int));
        assert(to == region_end(offset as int, n as int, chunk_size as int));
        assert(window@ == window_bytes(data@, offset as int, chunk_size as int, excess as int));
    }
    match accumulate(window) {
        Err(e) => Err(e),
        Ok(local) => merge_in(global, &local),
    }
}

/// Summarises the whole records of `data`, taking it in chunks of `chunk_size`
/// bytes at the offsets 0, `chunk_size`, twice `chunk_size` and so on, each chunk
/// aligned with the help of the `excess` bytes before it, summarised by itself
/// and merged into the result.
///
/// No line of `data` may be longer than `excess`, which `lines_fit` tells. The
/// result is then that of reading the whole records in one piece, whatever the
/// chunk size: every reading is counted once. A trailing line without a newline is
/// left out.
pub fn aggregate(data: &[u8], chunk_size: usize, excess: usize) -> (r: Result<Summary, ParseError>)
    requires
        0 < excess < chunk_size,
        lines_within(data@, excess as int),
    ensures
        aggregates_to(data@, r),
{
    let n = data.len();
    let mut global = Summary::new();
    let mut offset: usize = 0;
    let ghost mut done: Seq<Reading> = Seq::empty();
    proof {
        assert(data@.take(0) =~= Seq::<u8>::empty());
    }
    loop
        invariant_except_break
            parse_window(data@.take(line_start(data@, offset as int))) == Ok::<
                Seq<Reading>,
                ParseError,
            >(done),
            done.len() <= line_start(data@, offset as int),
        invariant
            0 < excess < chunk_size,
            lines_within(data@, excess as int),
            n == data.len(),
            offset <= n,
            offset == 0 || offset >= chunk_size,
            global.wf(),
            global@ == summarize(done),
            keys_valid(global@),
            global.spec_total() == done.len(),
        ensures
            parse_window(whole_records(data@)) == Ok::<Seq<Reading>, ParseError>(done),
        decreases n - offset,
    {
        let at_end = n - offset < chunk_size;
        let ghost window = window_bytes(data@, offset as int, chunk_size as int, excess as int);
        proof {
            lemma_chunk_step(data@, offset as int, chunk_size as int, excess as int, done);
            if let Ok(found) = parse_window(window) {
                lemma_readings_fit(window, 0);
            }
        }
        match process_chunk(data, offset, chunk_size, excess, &mut global) {
            Err(e) => {
                return Err(e);
            },
            Ok(()) => {
                proof {
                    done = done + parse_window(window)->Ok_0;
                }
            },
        }
        if at_end {
            break;
        }
        offset = offset + chunk_size;
    }
    Ok(global)
}

/// Summarises the whole records of `data` in chunks, as `aggregate` does, where
/// `excess` is below `chunk_size` and no line is longer than `excess`; otherwise
/// does nothing.
pub fn aggregate_checked(data: &[u8], chunk_size: usize, excess: usize) -> (r: Option<
    Result<Summary, ParseError>,
>)
    ensures
        r is Some <==> 0 < excess < chunk_size && lines_within(data@, excess as int),
        r matches Some(outcome) ==> aggregates_to(data@, outcome),
{
    if excess == 0 || excess >= chunk_size {
        return None;
    }
    if !lines_fit(data, excess) {
        return None;
    }
    Some(aggregate(data, chunk_size, excess))
}

} // verus!
