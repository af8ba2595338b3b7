//! How the ranges of an image relate to the addresses that its chunks fill.

use crate::chunk::Chunk;
use crate::decoder::{data_records, decode, lemma_decode_sorts_records, Cursor};
use crate::image::{
    all_well_formed, byte_at, bytes_within, covered, first_covering, insert_pos, insert_sorted,
    lemma_first_covering, lemma_first_covering_is, lemma_insert_pos, lemma_ranges_of,
    lemma_sort_well_formed, range_bytes, range_covered, ranges_of, sort_by_addr, HexImage,
};
use crate::record::DecodeError;
use crate::range::AddrRange;
use vstd::prelude::*;

verus! {

/// An address that has a byte keeps it when a chunk is added at the end.
pub proof fn lemma_covered_push(chunks: Seq<Chunk>, c: Chunk, a: int)
    ensures
        covered(chunks.push(c), a) <==> covered(chunks, a) || c.covers(a),
{
    let more = chunks.push(c);
    if covered(chunks, a) {
        let i = choose|i: int| 0 <= i < chunks.len() && (#[trigger] chunks[i]).covers(a);
        assert(more[i] == chunks[i]);
    }
    if c.covers(a) {
        assert(more[chunks.len() as int] == c);
    }
    if covered(more, a) {
        let i = choose|i: int| 0 <= i < more.len() && (#[trigger] more[i]).covers(a);
        if i < chunks.len() {
            assert(more[i] == chunks[i]);
        }
    }
}

/// Every address of every range of an image has a byte.
pub proof fn lemma_ranges_covered(chunks: Seq<Chunk>)
    requires
        all_well_formed(chunks),
    ensures
        forall|i: int|
            0 <= i < ranges_of(chunks).len() ==> range_covered(
                chunks,
                #[trigger] ranges_of(chunks)[i],
            ),
    decreases chunks.len(),
{
    if chunks.len() > 0 {
        let init = chunks.drop_last();
        let c = chunks.last();
        let before = ranges_of(init);
        let ranges = ranges_of(chunks);
        assert(chunks =~= init.push(c));
        assert(c.well_formed());
        lemma_ranges_covered(init);
        lemma_ranges_of(init);
        assert forall|i: int| 0 <= i < ranges.len() implies range_covered(
            chunks,
            #[trigger] ranges[i],
        ) by {
            let r = ranges[i];
            assert forall|a: int| r.start <= a <= r.end implies #[trigger] covered(chunks, a) by {
                lemma_covered_push(init, c, a);
                if before.len() > 0 && c.addr == before.last().end + 1 {
                    if i < ranges.len() - 1 {
                        assert(r == before[i]);
                        assert(range_covered(init, before[i]));
                        assert(covered(init, a));
                    } else if a <= before.last().end {
                        assert(range_covered(init, before.last()));
                        assert(covered(init, a));
                    }
                } else {
                    if i < before.len() {
                        assert(r == before[i]);
                        assert(range_covered(init, before[i]));
                        assert(covered(init, a));
                    }
                }
            }
        }
    }
}

/// Every address of a part of a range of an image has a byte.
pub proof fn lemma_part_covered(chunks: Seq<Chunk>, i: int, part: AddrRange)
    requires
        all_well_formed(chunks),
        0 <= i < ranges_of(chunks).len(),
        ranges_of(chunks)[i].spec_contains_range(part),
    ensures
        range_covered(chunks, part),
{
    lemma_ranges_covered(chunks);
    let r = ranges_of(chunks)[i];
    assert(range_covered(chunks, r));
    assert forall|a: int| part.start <= a <= part.end implies #[trigger] covered(chunks, a) by {
        assert(r.start <= a <= r.end);
    }
}

/// No two chunks hold a byte for the same address.
pub open spec fn disjoint(chunks: Seq<Chunk>) -> bool {
    forall|i: int, j: int|
        0 <= i < chunks.len() && 0 <= j < chunks.len() && i != j ==> (#[trigger] chunks[i]).end()
            < (#[trigger] chunks[j]).addr || chunks[j].end() < chunks[i].addr
}

/// Each chunk ends before the next begins: the chunks are in ascending order
/// and no two of them hold a byte for the same address.
pub open spec fn apart(chunks: Seq<Chunk>) -> bool {
    forall|i: int, j: int|
        0 <= i < j < chunks.len() ==> (#[trigger] chunks[i]).end() < (#[trigger] chunks[j]).addr
}

/// One of `ranges` holds the address `a`.
pub open spec fn in_ranges(ranges: Seq<AddrRange>, a: int) -> bool {
    exists|i: int| 0 <= i < ranges.len() && (#[trigger] ranges[i]).start <= a <= ranges[i].end
}

/// Sorting neither adds nor drops a chunk.
pub proof fn lemma_sort_members(chunks: Seq<Chunk>)
    ensures
        forall|i: int|
            0 <= i < sort_by_addr(chunks).len() ==> chunks.contains(
                #[trigger] sort_by_addr(chunks)[i],
            ),
        forall|j: int|
            0 <= j < chunks.len() ==> sort_by_addr(chunks).contains(#[trigger] chunks[j]),
    decreases chunks.len(),
{
    if chunks.len() > 0 {
        let init = chunks.drop_last();
        let c = chunks.last();
        let before = sort_by_addr(init);
        let out = sort_by_addr(chunks);
        let p = insert_pos(before, c.addr);
        lemma_sort_members(init);
        lemma_insert_pos(before, c.addr);
        assert forall|i: int| 0 <= i < out.len() implies chunks.contains(#[trigger] out[i]) by {
            if i < p {
                assert(out[i] == before[i]);
                let j = choose|j: int| 0 <= j < init.len() && init[j] == before[i];
                assert(chunks[j] == init[j]);
            } else if i == p {
                assert(chunks[chunks.len() - 1] == c);
            } else {
                assert(out[i] == before[i - 1]);
                let j = choose|j: int| 0 <= j < init.len() && init[j] == before[i - 1];
                assert(chunks[j] == init[j]);
            }
        }
        assert forall|j: int| 0 <= j < chunks.len() implies out.contains(#[trigger] chunks[j]) by {
            if j < init.len() {
                assert(init[j] == chunks[j]);
                let i = choose|i: int| 0 <= i < before.len() && before[i] == init[j];
                if i < p {
                    assert(out[i] == before[i]);
                } else {
                    assert(out[i + 1] == before[i]);
                }
            } else {
                assert(out[p] == c);
            }
        }
    }
}

/// Sorting leaves every address with a byte that had one, and gives none to
/// another.
pub proof fn lemma_sort_covered(chunks: Seq<Chunk>, a: int)
    ensures
        covered(sort_by_addr(chunks), a) <==> covered(chunks, a),
{
    let out = sort_by_addr(chunks);
    lemma_sort_members(chunks);
    if covered(out, a) {
        let i = choose|i: int| 0 <= i < out.len() && (#[trigger] out[i]).covers(a);
        let j = choose|j: int| 0 <= j < chunks.len() && chunks[j] == out[i];
        assert(chunks[j].covers(a));
    }
    if covered(chunks, a) {
        let j = choose|j: int| 0 <= j < chunks.len() && (#[trigger] chunks[j]).covers(a);
        let i = choose|i: int| 0 <= i < out.len() && out[i] == chunks[j];
        assert(out[i].covers(a));
    }
}

/// A chunk that shares no address with the chunks of a sequence in which
/// each ends before the next begins, put in at its place, leaves each chunk
/// ending before the next begins.
pub proof fn lemma_insert_apart(before: Seq<Chunk>, c: Chunk)
    requires
        all_well_formed(before),
        c.well_formed(),
        apart(before),
        forall|k: int|
            0 <= k < before.len() ==> (#[trigger] before[k]).end() < c.addr || c.end()
                < before[k].addr,
    ensures
        apart(insert_sorted(before, c)),
{
    let out = insert_sorted(before, c);
    let p = insert_pos(before, c.addr);
    lemma_insert_pos(before, c.addr);
    assert forall|i: int, j: int| 0 <= i < j < out.len() implies (#[trigger] out[i]).end() < (
    #[trigger] out[j]).addr by {
        if j < p {
            assert(out[i] == before[i] && out[j] == before[j]);
        } else if i > p {
            assert(out[i] == before[i - 1] && out[j] == before[j - 1]);
        } else if i < p && j > p {
            assert(out[i] == before[i] && out[j] == before[j - 1]);
        } else if i == p {
            assert(out[j] == before[j - 1]);
            assert(before[j - 1].well_formed());
            assert(before[j - 1].addr > c.addr);
        } else {
            assert(out[i] == before[i]);
            assert(before[i].well_formed());
            assert(before[p - 1].well_formed());
            if i < p - 1 {
                assert(before[i].end() < before[p - 1].addr);
            }
            assert(before[p - 1].addr <= c.addr);
        }
    }
}

/// Well-formed chunks of which no two hold the same address are, once
/// sorted, each before the next.
pub proof fn lemma_sort_apart(chunks: Seq<Chunk>)
    requires
        all_well_formed(chunks),
        disjoint(chunks),
    ensures
        apart(sort_by_addr(chunks)),
        all_well_formed(sort_by_addr(chunks)),
    decreases chunks.len(),
{
    lemma_sort_well_formed(chunks);
    if chunks.len() > 0 {
        let init = chunks.drop_last();
        let c = chunks.last();
        let before = sort_by_addr(init);
        assert(c.well_formed());
        assert(all_well_formed(init)) by {
            assert forall|i: int| 0 <= i < init.len() implies (#[trigger] init[i]).well_formed() by {
                assert(init[i] == chunks[i]);
            }
        }
        assert(disjoint(init)) by {
            assert forall|i: int, j: int|
                0 <= i < init.len() && 0 <= j < init.len() && i != j implies (
            #[trigger] init[i]).end() < (#[trigger] init[j]).addr || init[j].end()
                < init[i].addr by {
                assert(init[i] == chunks[i]);
                assert(init[j] == chunks[j]);
            }
        }
        lemma_sort_apart(init);
        assert forall|k: int| 0 <= k < before.len() implies (#[trigger] before[k]).end() < c.addr
            || c.end() < before[k].addr by {
            lemma_sort_members(init);
            let j = choose|j: int| 0 <= j < init.len() && init[j] == before[k];
            assert(chunks[j] == init[j]);
            assert(chunks[chunks.len() - 1] == c);
        }
        lemma_insert_apart(before, c);
    }
}

/// The ranges of an image in which each chunk ends before the next begins
/// hold exactly the addresses that have a byte, stand in ascending order, and
/// leave an address without a byte between one and the next.
pub proof fn lemma_ranges_partition(chunks: Seq<Chunk>)
    requires
        all_well_formed(chunks),
        apart(chunks),
    ensures
        forall|a: int| in_ranges(ranges_of(chunks), a) <==> covered(chunks, a),
        forall|i: int, j: int|
            0 <= i < j < ranges_of(chunks).len() ==> (#[trigger] ranges_of(chunks)[i]).end + 1 < (
            #[trigger] ranges_of(chunks)[j]).start,
        forall|i: int|
            0 <= i < ranges_of(chunks).len() ==> (#[trigger] ranges_of(chunks)[i]).well_formed(),
    decreases chunks.len(),
{
    let ranges = ranges_of(chunks);
    lemma_ranges_of(chunks);
    if chunks.len() == 0 {
        assert forall|a: int| in_ranges(ranges, a) <==> covered(chunks, a) by {}
    } else {
        let init = chunks.drop_last();
        let c = chunks.last();
        let before = ranges_of(init);
        assert(chunks =~= init.push(c));
        assert(c.well_formed());
        assert forall|i: int| 0 <= i < init.len() implies (#[trigger] init[i]).well_formed() by {
            assert(init[i] == chunks[i]);
        }
        assert forall|i: int, j: int| 0 <= i < j < init.len() implies (#[trigger] init[i]).end() < (
        #[trigger] init[j]).addr by {
            assert(init[i] == chunks[i]);
            assert(init[j] == chunks[j]);
        }
        lemma_ranges_partition(init);
        lemma_ranges_of(init);
        if init.len() > 0 {
            assert(init.last() == chunks[chunks.len() - 2]);
            assert(chunks[chunks.len() - 2].end() < chunks[chunks.len() - 1].addr);
            assert(before.last().end < c.addr);
        }
        if before.len() > 0 && c.addr == before.last().end + 1 {
            let b = before.last();
            let joined = AddrRange { start: b.start, end: c.end() as u32 };
            assert(ranges == before.drop_last().push(joined));
            assert forall|a: int| in_ranges(ranges, a) <==> covered(chunks, a) by {
                lemma_covered_push(init, c, a);
                if in_ranges(ranges, a) {
                    let i = choose|i: int|
                        0 <= i < ranges.len() && (#[trigger] ranges[i]).start <= a <= ranges[i].end;
                    if i < ranges.len() - 1 {
                        assert(ranges[i] == before[i]);
                        assert(in_ranges(before, a));
                    } else if a <= b.end {
                        assert(before[before.len() - 1].start <= a <= b.end);
                        assert(in_ranges(before, a));
                    }
                }
                if covered(init, a) {
                    assert(in_ranges(before, a));
                    let i = choose|i: int|
                        0 <= i < before.len() && (#[trigger] before[i]).start <= a <= before[i].end;
                    if i < before.len() - 1 {
                        assert(ranges[i] == before[i]);
                    } else {
                        assert(ranges[ranges.len() - 1].start <= a <= ranges[ranges.len() - 1].end);
                    }
                }
                if c.covers(a) {
                    assert(ranges[ranges.len() - 1].start <= a <= ranges[ranges.len() - 1].end);
                }
            }
            assert forall|i: int, j: int| 0 <= i < j < ranges.len() implies (#[trigger] ranges[i]).end
                + 1 < (#[trigger] ranges[j]).start by {
                assert(ranges[i] == before[i]);
                if j < ranges.len() - 1 {
                    assert(ranges[j] == before[j]);
                } else {
                    assert(ranges[j].start == before[before.len() - 1].start);
                }
            }
        } else {
            assert(ranges == before.push(c.range()));
            assert forall|a: int| in_ranges(ranges, a) <==> covered(chunks, a) by {
                lemma_covered_push(init, c, a);
                if in_ranges(ranges, a) {
                    let i = choose|i: int|
                        0 <= i < ranges.len() && (#[trigger] ranges[i]).start <= a <= ranges[i].end;
                    if i < before.len() {
                        assert(ranges[i] == before[i]);
                        assert(in_ranges(before, a));
                    }
                }
                if covered(init, a) {
                    assert(in_ranges(before, a));
                    let i = choose|i: int|
                        0 <= i < before.len() && (#[trigger] before[i]).start <= a <= before[i].end;
                    assert(ranges[i] == before[i]);
                }
                if c.covers(a) {
                    assert(ranges[ranges.len() - 1].start <= a <= ranges[ranges.len() - 1].end);
                }
            }
            assert forall|i: int, j: int| 0 <= i < j < ranges.len() implies (#[trigger] ranges[i]).end
                + 1 < (#[trigger] ranges[j]).start by {
                assert(ranges[i] == before[i]);
                if j < before.len() {
                    assert(ranges[j] == before[j]);
                } else {
                    assert(before[i].well_formed());
                    assert(before[before.len() - 1].well_formed());
                    if i < before.len() - 1 {
                        assert(before[i].end + 1 < before[before.len() - 1].start);
                    }
                }
            }
        }
    }
}

/// The ranges of the sorted chunks of well-formed data records of which no
/// two hold the same address: together they hold exactly the addresses of
/// the records, and no two of them meet.
pub proof fn lemma_sorted_ranges_partition(records: Seq<Chunk>)
    requires
        all_well_formed(records),
        disjoint(records),
    ensures
        forall|a: int| in_ranges(ranges_of(sort_by_addr(records)), a) <==> covered(records, a),
        forall|i: int, j: int|
            0 <= i < j < ranges_of(sort_by_addr(records)).len() ==> (#[trigger] ranges_of(
                sort_by_addr(records),
            )[i]).end + 1 < (#[trigger] ranges_of(sort_by_addr(records))[j]).start,
{
    lemma_sort_apart(records);
    lemma_ranges_partition(sort_by_addr(records));
    assert forall|a: int| in_ranges(ranges_of(sort_by_addr(records)), a) <==> covered(
        records,
        a,
    ) by {
        lemma_sort_covered(records, a);
    }
}

/// The bytes of all chunks, chunk after chunk.
pub open spec fn all_bytes(chunks: Seq<Chunk>) -> Seq<u8>
    decreases chunks.len(),
{
    if chunks.len() == 0 {
        Seq::empty()
    } else {
        all_bytes(chunks.drop_last()) + chunks.last().bytes
    }
}

/// Where the chunks form one range, every chunk lies within a range that
/// holds it, and the chunks have one byte for each of its addresses.
pub proof fn lemma_single_run(chunks: Seq<Chunk>, range: AddrRange)
    requires
        all_well_formed(chunks),
        ranges_of(chunks).len() == 1,
        range.spec_contains_range(ranges_of(chunks)[0]),
    ensures
        bytes_within(chunks, range) == all_bytes(chunks),
        all_bytes(chunks).len() == ranges_of(chunks)[0].spec_size(),
        ranges_of(chunks)[0].start == chunks[0].addr,
    decreases chunks.len(),
{
    let init = chunks.drop_last();
    let c = chunks.last();
    let before = ranges_of(init);
    assert(chunks.len() > 0);
    assert(c.well_formed());
    assert forall|i: int| 0 <= i < init.len() implies (#[trigger] init[i]).well_formed() by {
        assert(init[i] == chunks[i]);
    }
    lemma_ranges_of(init);
    if init.len() == 0 {
        assert(all_bytes(init) =~= Seq::<u8>::empty());
        assert(bytes_within(init, range) =~= Seq::<u8>::empty());
        assert(all_bytes(chunks) =~= c.bytes);
        assert(bytes_within(chunks, range) =~= c.bytes);
    } else {
        assert(before.len() == 1);
        assert(c.addr == before.last().end + 1);
        lemma_single_run(init, range);
        assert(init[0] == chunks[0]);
    }
}

/// An image whose chunks form one range reads back whole: the bytes of the
/// chunks that lie within that range are the bytes of all chunks in their
/// order, one for each address of the range.
pub proof fn lemma_single_run_reads_back(chunks: Seq<Chunk>)
    requires
        all_well_formed(chunks),
        ranges_of(chunks).len() == 1,
    ensures
        bytes_within(chunks, ranges_of(chunks)[0]) == all_bytes(chunks),
        bytes_within(chunks, ranges_of(chunks)[0]).len() == ranges_of(chunks)[0].spec_size(),
{
    lemma_single_run(chunks, ranges_of(chunks)[0]);
}

/// `r` is a maximal run of addresses with a byte: each of its addresses has
/// one, and the address before it and the address behind it have none.
pub open spec fn is_run(chunks: Seq<Chunk>, r: AddrRange) -> bool {
    &&& r.well_formed()
    &&& forall|a: int| r.start <= a <= r.end ==> #[trigger] covered(chunks, a)
    &&& !covered(chunks, r.start - 1)
    &&& !covered(chunks, r.end + 1)
}

/// The ranges of an image in which each chunk ends before the next begins
/// are the maximal runs of addresses with a byte.
pub proof fn lemma_ranges_are_runs(chunks: Seq<Chunk>)
    requires
        all_well_formed(chunks),
        apart(chunks),
    ensures
        forall|r: AddrRange| ranges_of(chunks).contains(r) <==> is_run(chunks, r),
{
    let ranges = ranges_of(chunks);
    lemma_ranges_partition(chunks);
    assert forall|r: AddrRange| ranges.contains(r) implies is_run(chunks, r) by {
        lemma_range_is_run(chunks, r);
    }
    assert forall|r: AddrRange| is_run(chunks, r) implies ranges.contains(r) by {
        assert(covered(chunks, r.start as int));
        assert(in_ranges(ranges, r.start as int));
        let i = choose|i: int|
            0 <= i < ranges.len() && (#[trigger] ranges[i]).start <= r.start <= ranges[i].end;
        let x = ranges[i];
        assert(ranges.contains(x));
        lemma_range_is_run(chunks, x);
        if x.start < r.start {
            assert(covered(chunks, r.start - 1));
        }
        if x.end < r.end {
            assert(covered(chunks, x.end + 1));
        }
        if x.end > r.end {
            assert(covered(chunks, r.end + 1));
        }
        assert(x == r);
    }
}

/// A range of an image in which each chunk ends before the next begins is a
/// maximal run of addresses with a byte.
pub proof fn lemma_range_is_run(chunks: Seq<Chunk>, r: AddrRange)
    requires
        all_well_formed(chunks),
        apart(chunks),
        ranges_of(chunks).contains(r),
    ensures
        is_run(chunks, r),
{
    let ranges = ranges_of(chunks);
    lemma_ranges_partition(chunks);
    let i = choose|i: int| 0 <= i < ranges.len() && ranges[i] == r;
    assert(r.well_formed());
    assert forall|a: int| r.start <= a <= r.end implies #[trigger] covered(chunks, a) by {
        assert(ranges[i].start <= a <= ranges[i].end);
        assert(in_ranges(ranges, a));
    }
    if covered(chunks, r.start - 1) {
        assert(in_ranges(ranges, r.start - 1));
        let j = choose|j: int|
            0 <= j < ranges.len() && (#[trigger] ranges[j]).start <= r.start - 1 <= ranges[j].end;
        if j < i {
            assert(ranges[j].end + 1 < ranges[i].start);
        } else if j > i {
            assert(ranges[i].end + 1 < ranges[j].start);
        }
        assert(false);
    }
    if covered(chunks, r.end + 1) {
        assert(in_ranges(ranges, r.end + 1));
        let j = choose|j: int|
            0 <= j < ranges.len() && (#[trigger] ranges[j]).start <= r.end + 1 <= ranges[j].end;
        if j < i {
            assert(ranges[j].end + 1 < ranges[i].start);
            assert(ranges[j].well_formed());
        } else if j > i {
            assert(ranges[i].end + 1 < ranges[j].start);
        }
        assert(false);
    }
}

/// A chunk lies within a maximal run or shares no address with it.
pub proof fn lemma_chunk_in_or_out(chunks: Seq<Chunk>, r: AddrRange, k: int)
    requires
        all_well_formed(chunks),
        is_run(chunks, r),
        0 <= k < chunks.len(),
    ensures
        chunks[k].within(r) || chunks[k].end() < r.start || r.end < chunks[k].addr,
{
    let c = chunks[k];
    assert(c.well_formed());
    if c.addr <= r.end && r.start <= c.end() {
        if c.addr < r.start {
            assert(c.covers(r.start - 1));
            assert(covered(chunks, r.start - 1));
        }
        if r.end < c.end() {
            assert(c.covers(r.end + 1));
            assert(covered(chunks, r.end + 1));
        }
    }
}

/// The ranges of a decoded image hold exactly the addresses of the data
/// records of the text, and no two of them meet, where each record has a byte
/// and ends at a 32-bit address, and no two records hold the same address.
pub proof fn lemma_decoded_ranges_partition(text: Seq<u8>, image: HexImage)
    requires
        decode(text) == Ok::<HexImage, DecodeError>(image),
        all_well_formed(data_records(text)),
        disjoint(data_records(text)),
    ensures
        forall|a: int| in_ranges(ranges_of(image.chunks), a) <==> covered(data_records(text), a),
        forall|i: int, j: int|
            0 <= i < j < ranges_of(image.chunks).len() ==> (#[trigger] ranges_of(
                image.chunks,
            )[i]).end + 1 < (#[trigger] ranges_of(image.chunks)[j]).start,
{
    lemma_decode_sorts_records(Cursor::start(text), None, Seq::empty());
    lemma_sorted_ranges_partition(data_records(text));
}

/// The chunks of a decoded image are well-formed where the data records of
/// the text are: each has a byte and ends at a 32-bit address.
pub proof fn lemma_decoded_well_formed(text: Seq<u8>, image: HexImage)
    requires
        decode(text) == Ok::<HexImage, DecodeError>(image),
        all_well_formed(data_records(text)),
    ensures
        all_well_formed(image.chunks),
{
    lemma_decode_sorts_records(Cursor::start(text), None, Seq::empty());
    lemma_sort_well_formed(data_records(text));
}

/// The byte at an address after a chunk is added at the end: the byte that
/// was there, or else that of the new chunk.
pub proof fn lemma_byte_at_push(chunks: Seq<Chunk>, c: Chunk, a: int)
    ensures
        byte_at(chunks.push(c), a) == if covered(chunks, a) {
            byte_at(chunks, a)
        } else if c.covers(a) {
            Some(c.byte_at(a))
        } else {
            None
        },
{
    let more = chunks.push(c);
    let k = first_covering(chunks, a);
    lemma_first_covering(chunks, a);
    assert forall|i: int| 0 <= i < k implies !(#[trigger] more[i]).covers(a) by {
        assert(more[i] == chunks[i]);
    }
    if k < chunks.len() {
        assert(more[k] == chunks[k]);
        lemma_first_covering_is(more, a, k);
    } else if c.covers(a) {
        assert(more[k] == c);
        lemma_first_covering_is(more, a, k);
    } else {
        assert(more[k] == c);
        lemma_first_covering_is(more, a, k + 1);
    }
}

/// Two ranges that hold the same chunks give the same bytes.
pub proof fn lemma_bytes_within_same(chunks: Seq<Chunk>, r1: AddrRange, r2: AddrRange)
    requires
        forall|k: int|
            0 <= k < chunks.len() ==> (#[trigger] chunks[k]).within(r1) == chunks[k].within(r2),
    ensures
        bytes_within(chunks, r1) == bytes_within(chunks, r2),
    decreases chunks.len(),
{
    if chunks.len() > 0 {
        let init = chunks.drop_last();
        assert forall|k: int| 0 <= k < init.len() implies (#[trigger] init[k]).within(r1)
            == init[k].within(r2) by {
            assert(init[k] == chunks[k]);
        }
        lemma_bytes_within_same(init, r1, r2);
        assert(chunks[chunks.len() - 1].within(r1) == chunks[chunks.len() - 1].within(r2));
    }
}

/// A range that holds no chunk gives no bytes.
pub proof fn lemma_bytes_within_none(chunks: Seq<Chunk>, r: AddrRange)
    requires
        forall|k: int| 0 <= k < chunks.len() ==> !(#[trigger] chunks[k]).within(r),
    ensures
        bytes_within(chunks, r) == Seq::<u8>::empty(),
    decreases chunks.len(),
{
    if chunks.len() > 0 {
        let init = chunks.drop_last();
        assert forall|k: int| 0 <= k < init.len() implies !(#[trigger] init[k]).within(r) by {
            assert(init[k] == chunks[k]);
        }
        lemma_bytes_within_none(init, r);
        assert(!chunks[chunks.len() - 1].within(r));
    }
}

/// Where every address of a range has a byte and no chunk reaches over an end
/// of the range, the bytes of the chunks within the range are the bytes at
/// its addresses.
pub proof fn lemma_whole_chunks(chunks: Seq<Chunk>, r: AddrRange)
    requires
        all_well_formed(chunks),
        apart(chunks),
        r.well_formed(),
        range_covered(chunks, r),
        forall|k: int|
            0 <= k < chunks.len() ==> (#[trigger] chunks[k]).within(r) || chunks[k].end() < r.start
                || r.end < chunks[k].addr,
    ensures
        bytes_within(chunks, r) == range_bytes(chunks, r),
    decreases chunks.len(),
{
    assert(covered(chunks, r.start as int));
    let init = chunks.drop_last();
    let c = chunks.last();
    assert(chunks =~= init.push(c));
    assert(c.well_formed());
    assert(all_well_formed(init)) by {
        assert forall|i: int| 0 <= i < init.len() implies (#[trigger] init[i]).well_formed() by {
            assert(init[i] == chunks[i]);
        }
    }
    assert(apart(init)) by {
        assert forall|i: int, j: int| 0 <= i < j < init.len() implies (#[trigger] init[i]).end() < (
        #[trigger] init[j]).addr by {
            assert(init[i] == chunks[i] && init[j] == chunks[j]);
        }
    }
    assert forall|k: int| 0 <= k < init.len() implies (#[trigger] init[k]).end() < c.addr by {
        assert(init[k] == chunks[k]);
        assert(chunks[k].end() < chunks[chunks.len() - 1].addr);
    }
    assert forall|a: int| covered(init, a) implies a < c.addr by {
        let k = choose|k: int| 0 <= k < init.len() && (#[trigger] init[k]).covers(a);
    }
    assert forall|k: int| 0 <= k < init.len() implies (#[trigger] init[k]).within(r) || init[k].end()
        < r.start || r.end < init[k].addr by {
        assert(init[k] == chunks[k]);
    }
    assert(chunks[chunks.len() - 1] == c);
    if !c.within(r) {
        assert(r.end < c.addr) by {
            if c.end() < r.start {
                lemma_covered_push(init, c, r.start as int);
            }
        }
        assert forall|a: int| r.start <= a <= r.end implies #[trigger] covered(init, a) by {
            lemma_covered_push(init, c, a);
            assert(covered(chunks, a));
        }
        lemma_whole_chunks(init, r);
        assert(range_bytes(chunks, r) =~= range_bytes(init, r)) by {
            assert forall|a: int| r.start <= a <= r.end implies #[trigger] byte_at(chunks, a)
                == byte_at(init, a) by {
                assert(covered(init, a));
                lemma_byte_at_push(init, c, a);
            }
        }
    } else {
        assert(r.end == c.end()) by {
            if c.end() < r.end {
                lemma_covered_push(init, c, r.end as int);
                assert(covered(chunks, r.end as int));
            }
        }
        if c.addr == r.start {
            assert forall|k: int| 0 <= k < init.len() implies !(#[trigger] init[k]).within(r) by {
                assert(init[k].well_formed());
            }
            lemma_bytes_within_none(init, r);
            assert(bytes_within(chunks, r) =~= c.bytes);
            assert(range_bytes(chunks, r) =~= c.bytes) by {
                assert forall|a: int| r.start <= a <= r.end implies #[trigger] byte_at(chunks, a)
                    == Some(c.bytes[a - r.start]) by {
                    lemma_byte_at_push(init, c, a);
                }
            }
        } else {
            let low = AddrRange { start: r.start, end: (c.addr - 1) as u32 };
            assert forall|k: int| 0 <= k < init.len() implies (#[trigger] init[k]).within(r)
                == init[k].within(low) by {
                assert(init[k].well_formed());
            }
            lemma_bytes_within_same(init, r, low);
            assert forall|a: int| low.start <= a <= low.end implies #[trigger] covered(init, a) by {
                lemma_covered_push(init, c, a);
                assert(covered(chunks, a));
            }
            assert forall|k: int| 0 <= k < init.len() implies (#[trigger] init[k]).within(low)
                || init[k].end() < low.start || low.end < init[k].addr by {
                assert(init[k].well_formed());
            }
            lemma_whole_chunks(init, low);
            assert(range_bytes(chunks, r) =~= range_bytes(init, low) + c.bytes) by {
                assert forall|a: int| r.start <= a <= r.end implies #[trigger] byte_at(chunks, a)
                    == if a < c.addr {
                    byte_at(init, a)
                } else {
                    Some(c.bytes[a - c.addr])
                } by {
                    lemma_byte_at_push(init, c, a);
                    if a < c.addr {
                        assert(covered(init, a));
                    }
                }
            }
        }
    }
}

/// A range of an image in which each chunk ends before the next begins reads
/// the same in both ways: the bytes of the chunks within it are the bytes at
/// its addresses, one for each.
pub proof fn lemma_range_reads_whole_chunks(chunks: Seq<Chunk>, r: AddrRange)
    requires
        all_well_formed(chunks),
        apart(chunks),
        ranges_of(chunks).contains(r),
    ensures
        bytes_within(chunks, r) == range_bytes(chunks, r),
        bytes_within(chunks, r).len() == r.spec_size(),
{
    lemma_range_is_run(chunks, r);
    assert forall|k: int| 0 <= k < chunks.len() implies (#[trigger] chunks[k]).within(r)
        || chunks[k].end() < r.start || r.end < chunks[k].addr by {
        lemma_chunk_in_or_out(chunks, r, k);
    }
    lemma_whole_chunks(chunks, r);
}

} // verus!
