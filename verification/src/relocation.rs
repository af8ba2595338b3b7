//! What moving a range does to the ranges of an image.

use crate::chunk::Chunk;
use crate::coverage::{
    apart, disjoint, in_ranges, is_run, lemma_chunk_in_or_out, lemma_range_is_run,
    lemma_ranges_are_runs, lemma_ranges_partition, lemma_sort_apart, lemma_sort_covered,
};
use crate::image::{
    all_well_formed, covered, lemma_sort_by_addr, move_fits, ranges_of, relocate_all, sort_by_addr,
    transpose_of, HexImage, ModelError,
};
use crate::range::{first_where, lemma_first_where, AddrRange};
use vstd::prelude::*;

verus! {

/// The first range of the chunks that begins at `start`.
pub open spec fn range_at(chunks: Seq<Chunk>, start: u32) -> AddrRange
    recommends
        first_where(ranges_of(chunks), |r: AddrRange| r.start == start) < ranges_of(chunks).len(),
{
    ranges_of(chunks)[first_where(ranges_of(chunks), |r: AddrRange| r.start == start)]
}

/// The range that the range beginning at `start` fills once it is moved to
/// `dest`.
pub open spec fn target_of(chunks: Seq<Chunk>, start: u32, dest: u32) -> AddrRange {
    range_at(chunks, start).spec_transpose(dest)
}

/// No range of the chunks that begins elsewhere than at `start` ends at the
/// address before `target` or begins at the address behind it.
pub open spec fn abuts_no_other(chunks: Seq<Chunk>, start: u32, target: AddrRange) -> bool {
    forall|i: int|
        0 <= i < ranges_of(chunks).len() && (#[trigger] ranges_of(chunks)[i]).start != start
            ==> ranges_of(chunks)[i].end + 1 != target.start && target.end + 1 != ranges_of(
            chunks,
        )[i].start
}

/// No chunk holds a byte for an address of `target`.
pub open spec fn clear_of_chunks(chunks: Seq<Chunk>, target: AddrRange) -> bool {
    forall|k: int|
        0 <= k < chunks.len() ==> (#[trigger] chunks[k]).end() < target.start || target.end
            < chunks[k].addr
}

/// The range of an image that holds the first address of a chunk, with the
/// whole chunk in it.
proof fn lemma_range_of_chunk(chunks: Seq<Chunk>, k: int) -> (j: int)
    requires
        all_well_formed(chunks),
        apart(chunks),
        0 <= k < chunks.len(),
    ensures
        0 <= j < ranges_of(chunks).len(),
        chunks[k].within(ranges_of(chunks)[j]),
{
    let ranges = ranges_of(chunks);
    let c = chunks[k];
    lemma_ranges_partition(chunks);
    assert(c.well_formed());
    assert(c.covers(c.addr as int));
    assert(covered(chunks, c.addr as int));
    assert(in_ranges(ranges, c.addr as int));
    let j = choose|j: int|
        0 <= j < ranges.len() && (#[trigger] ranges[j]).start <= c.addr <= ranges[j].end;
    assert(ranges.contains(ranges[j]));
    lemma_range_is_run(chunks, ranges[j]);
    lemma_chunk_in_or_out(chunks, ranges[j], k);
    j
}

/// A target that shares no address with a range of the image shares none
/// with a chunk.
proof fn lemma_clear_of_chunks(chunks: Seq<Chunk>, target: AddrRange)
    requires
        all_well_formed(chunks),
        apart(chunks),
        forall|i: int|
            0 <= i < ranges_of(chunks).len() ==> !(#[trigger] ranges_of(chunks)[i]).spec_intersects(
                target,
            ),
    ensures
        clear_of_chunks(chunks, target),
{
    assert forall|k: int| 0 <= k < chunks.len() implies (#[trigger] chunks[k]).end() < target.start
        || target.end < chunks[k].addr by {
        let j = lemma_range_of_chunk(chunks, k);
        assert(!ranges_of(chunks)[j].spec_intersects(target));
    }
}

/// After a maximal run is moved to a target that holds no address of a chunk,
/// the chunks are well-formed, no two of them hold the same address, and the
/// addresses with a byte are those of the target and those that had one
/// outside the run.
proof fn lemma_relocated(chunks: Seq<Chunk>, src: AddrRange, dest: u32)
    requires
        all_well_formed(chunks),
        apart(chunks),
        is_run(chunks, src),
        move_fits(chunks, src, dest),
        clear_of_chunks(chunks, src.spec_transpose(dest)),
    ensures
        all_well_formed(relocate_all(chunks, src, dest)),
        disjoint(relocate_all(chunks, src, dest)),
        forall|a: int| #[trigger]
            covered(relocate_all(chunks, src, dest), a) <==> dest <= a <= src.spec_transpose(
                dest,
            ).end || (covered(chunks, a) && !(src.start <= a <= src.end)),
{
    let after = relocate_all(chunks, src, dest);
    let target = src.spec_transpose(dest);
    let shift = dest - src.start;
    assert forall|k: int| 0 <= k < chunks.len() implies ((#[trigger] chunks[k]).within(src)
        ==> after[k].addr == chunks[k].addr + shift && after[k].bytes == chunks[k].bytes
        && after[k].well_formed() && dest <= after[k].addr && after[k].end() <= target.end) && (
    !chunks[k].within(src) ==> after[k] == chunks[k] && (chunks[k].end() < src.start || src.end
        < chunks[k].addr)) by {
        lemma_chunk_in_or_out(chunks, src, k);
        assert(chunks[k].well_formed());
    }
    assert forall|k: int| 0 <= k < after.len() implies (#[trigger] after[k]).well_formed() by {
        assert(chunks[k].well_formed());
    }
    assert forall|i: int, j: int|
        0 <= i < after.len() && 0 <= j < after.len() && i != j implies (#[trigger] after[i]).end()
        < (#[trigger] after[j]).addr || after[j].end() < after[i].addr by {
        assert(chunks[i].well_formed() && chunks[j].well_formed());
        if i < j {
            assert(chunks[i].end() < chunks[j].addr);
        } else {
            assert(chunks[j].end() < chunks[i].addr);
        }
    }
    assert forall|a: int| #[trigger] covered(after, a) <==> dest <= a <= target.end || (covered(
        chunks,
        a,
    ) && !(src.start <= a <= src.end)) by {
        if dest <= a <= target.end {
            let b = a - shift;
            assert(src.start <= b <= src.end);
            assert(covered(chunks, b));
            let k = choose|k: int| 0 <= k < chunks.len() && (#[trigger] chunks[k]).covers(b);
            assert(chunks[k].within(src));
            assert(after[k].covers(a));
        }
        if covered(chunks, a) && !(src.start <= a <= src.end) {
            let k = choose|k: int| 0 <= k < chunks.len() && (#[trigger] chunks[k]).covers(a);
            assert(!chunks[k].within(src));
            assert(after[k].covers(a));
        }
        if covered(after, a) {
            let k = choose|k: int| 0 <= k < after.len() && (#[trigger] after[k]).covers(a);
            if !chunks[k].within(src) {
                assert(chunks[k].covers(a));
            }
        }
    }
}

/// A move leaves an image in order, and takes the range from its place.
///
/// In an image of well-formed chunks of which each ends before the next
/// begins, let the range that begins at `start` be moved to `dest`.  Then the
/// chunks are well-formed as before, and each ends before the next begins.  An
/// address has a byte exactly if it lies in the target or had one outside the
/// range that was moved.  So no range begins at `start`, and no range holds an
/// address of the range that was moved.
pub proof fn lemma_transpose_keeps_order(image: HexImage, start: u32, dest: u32, moved: HexImage)
    requires
        all_well_formed(image.chunks),
        apart(image.chunks),
        transpose_of(image, start, dest) == Ok::<HexImage, ModelError>(moved),
    ensures
        moved.start == image.start,
        moved.chunks.len() == image.chunks.len(),
        all_well_formed(moved.chunks),
        apart(moved.chunks),
        ranges_of(image.chunks).contains(range_at(image.chunks, start)),
        range_at(image.chunks, start).start == start,
        range_at(image.chunks, start).well_formed(),
        target_of(image.chunks, start, dest).well_formed(),
        target_of(image.chunks, start, dest).start == dest,
        target_of(image.chunks, start, dest).spec_size() == range_at(
            image.chunks,
            start,
        ).spec_size(),
        !target_of(image.chunks, start, dest).spec_intersects(range_at(image.chunks, start)),
        forall|a: int| #[trigger]
            covered(moved.chunks, a) <==> target_of(image.chunks, start, dest).start <= a
                <= target_of(image.chunks, start, dest).end || (covered(image.chunks, a) && !(
            range_at(image.chunks, start).start <= a <= range_at(image.chunks, start).end)),
        forall|i: int|
            0 <= i < ranges_of(moved.chunks).len() ==> (#[trigger] ranges_of(moved.chunks)[i]).start
                != start,
        forall|a: int|
            range_at(image.chunks, start).start <= a <= range_at(image.chunks, start).end
                ==> !in_ranges(ranges_of(moved.chunks), a),
{
    let chunks = image.chunks;
    let ranges = ranges_of(chunks);
    let at_start = |r: AddrRange| r.start == start;
    let i0 = first_where(ranges, at_start);
    lemma_first_where(ranges, at_start);
    let src = ranges[i0];
    let target = src.spec_transpose(dest);
    let meets = |r: AddrRange| r.spec_intersects(target);
    lemma_first_where(ranges, meets);
    assert(at_start(src));
    assert(ranges.contains(src));
    assert forall|i: int| 0 <= i < ranges.len() implies !(#[trigger] ranges[i]).spec_intersects(
        target,
    ) by {
        assert(!meets(ranges[i]));
    }
    assert(!src.spec_intersects(target));
    lemma_range_is_run(chunks, src);
    lemma_clear_of_chunks(chunks, target);
    lemma_relocated(chunks, src, dest);
    let after = relocate_all(chunks, src, dest);
    assert(moved.chunks == sort_by_addr(after));
    lemma_sort_apart(after);
    lemma_sort_by_addr(after);
    assert(src.well_formed());
    assert forall|a: int| #[trigger] covered(moved.chunks, a) <==> target.start <= a <= target.end
        || (covered(chunks, a) && !(src.start <= a <= src.end)) by {
        lemma_sort_covered(after, a);
        assert(covered(after, a) <==> dest <= a <= target.end || (covered(chunks, a) && !(src.start
            <= a <= src.end)));
    }
    lemma_ranges_partition(moved.chunks);
    assert forall|a: int| src.start <= a <= src.end implies !in_ranges(
        ranges_of(moved.chunks),
        a,
    ) by {
        assert(!covered(moved.chunks, a));
    }
    assert forall|i: int| 0 <= i < ranges_of(moved.chunks).len() implies (#[trigger] ranges_of(
        moved.chunks,
    )[i]).start != start by {
        let x = ranges_of(moved.chunks)[i];
        if x.start == start {
            assert(x.well_formed());
            assert(x.start <= start <= x.end);
            assert(in_ranges(ranges_of(moved.chunks), start as int));
        }
    }
}

/// A move lands the range at the target.
///
/// In an image of well-formed chunks of which each ends before the next
/// begins, let the range that begins at `start` be moved to `dest`, where no
/// other range ends right before the target or begins right behind it.  Then
/// the ranges of the image hold a range at `dest` of the size of the range
/// that was moved.  (Next to another range the two become one range.)
pub proof fn lemma_transpose_moves_range(image: HexImage, start: u32, dest: u32, moved: HexImage)
    requires
        all_well_formed(image.chunks),
        apart(image.chunks),
        transpose_of(image, start, dest) == Ok::<HexImage, ModelError>(moved),
        abuts_no_other(image.chunks, start, target_of(image.chunks, start, dest)),
    ensures
        ranges_of(moved.chunks).contains(target_of(image.chunks, start, dest)),
        target_of(image.chunks, start, dest).start == dest,
        target_of(image.chunks, start, dest).spec_size() == range_at(
            image.chunks,
            start,
        ).spec_size(),
{
    let chunks = image.chunks;
    let ranges = ranges_of(chunks);
    let src = range_at(chunks, start);
    let target = target_of(chunks, start, dest);
    lemma_transpose_keeps_order(image, start, dest, moved);
    lemma_ranges_partition(chunks);
    let meets = |r: AddrRange| r.spec_intersects(target);
    lemma_first_where(ranges, meets);
    assert(src.well_formed());
    assert(target.well_formed());
    lemma_edge_clear(chunks, start, target, target.start - 1);
    lemma_edge_clear(chunks, start, target, target.end + 1);
    assert(is_run(moved.chunks, target)) by {
        assert forall|a: int| target.start <= a <= target.end implies #[trigger] covered(
            moved.chunks,
            a,
        ) by {}
        assert(!covered(moved.chunks, target.start - 1));
        assert(!covered(moved.chunks, target.end + 1));
    }
    lemma_ranges_are_runs(moved.chunks);
}

/// An address next to a target that no range meets and no other range abuts
/// has no byte outside the range that begins at `start`.
proof fn lemma_edge_clear(chunks: Seq<Chunk>, start: u32, target: AddrRange, a: int)
    requires
        all_well_formed(chunks),
        apart(chunks),
        target.well_formed(),
        a == target.start - 1 || a == target.end + 1,
        first_where(ranges_of(chunks), |r: AddrRange| r.start == start) < ranges_of(chunks).len(),
        first_where(ranges_of(chunks), |r: AddrRange| r.spec_intersects(target)) >= ranges_of(
            chunks,
        ).len(),
        abuts_no_other(chunks, start, target),
    ensures
        covered(chunks, a) ==> range_at(chunks, start).start <= a <= range_at(chunks, start).end,
{
    let ranges = ranges_of(chunks);
    let at_start = |r: AddrRange| r.start == start;
    let i0 = first_where(ranges, at_start);
    lemma_first_where(ranges, at_start);
    let meets = |r: AddrRange| r.spec_intersects(target);
    lemma_first_where(ranges, meets);
    lemma_ranges_partition(chunks);
    assert(at_start(ranges[i0]));
    if covered(chunks, a) {
        assert(in_ranges(ranges, a));
        let j = choose|j: int|
            0 <= j < ranges.len() && (#[trigger] ranges[j]).start <= a <= ranges[j].end;
        assert(!meets(ranges[j]));
        if j < i0 {
            assert(ranges[j].end + 1 < ranges[i0].start);
        } else if j > i0 {
            assert(ranges[i0].end + 1 < ranges[j].start);
        }
        if j != i0 {
            assert(ranges[j].start != start);
            assert(false);
        }
    }
}

/// A move whose target shares an address with a range of the image is
/// refused: where a range begins at `start` and the move fits the address
/// space, the first range that shares an address with the target is
/// reported.  So is a move onto a range that lies within the target.
pub proof fn lemma_transpose_overlap_fails(image: HexImage, start: u32, dest: u32, k: int)
    requires
        first_where(ranges_of(image.chunks), |r: AddrRange| r.start == start) < ranges_of(
            image.chunks,
        ).len(),
        move_fits(image.chunks, range_at(image.chunks, start), dest),
        0 <= k < ranges_of(image.chunks).len(),
        ranges_of(image.chunks)[k].spec_intersects(target_of(image.chunks, start, dest)),
    ensures
        transpose_of(image, start, dest) matches Err(
            ModelError::OverlapsExistingRange { target, existing },
        ) && target == target_of(image.chunks, start, dest) && existing.spec_intersects(target)
            && ranges_of(image.chunks).contains(existing),
{
    let ranges = ranges_of(image.chunks);
    let target = target_of(image.chunks, start, dest);
    let meets = |r: AddrRange| r.spec_intersects(target);
    lemma_first_where(ranges, meets);
    let j = first_where(ranges, meets);
    if j >= ranges.len() {
        assert(!meets(ranges[k]));
    }
    assert(meets(ranges[j]));
}

/// A move succeeds exactly if a range begins at `start`, the move fits the
/// address space, and the target shares no address with a range of the
/// image.
pub proof fn lemma_transpose_succeeds_iff(image: HexImage, start: u32, dest: u32)
    ensures
        transpose_of(image, start, dest) is Ok <==> first_where(
            ranges_of(image.chunks),
            |r: AddrRange| r.start == start,
        ) < ranges_of(image.chunks).len() && move_fits(
            image.chunks,
            range_at(image.chunks, start),
            dest,
        ) && forall|i: int|
            0 <= i < ranges_of(image.chunks).len() ==> !(#[trigger] ranges_of(
                image.chunks,
            )[i]).spec_intersects(target_of(image.chunks, start, dest)),
{
    let ranges = ranges_of(image.chunks);
    let target = target_of(image.chunks, start, dest);
    let meets = |r: AddrRange| r.spec_intersects(target);
    lemma_first_where(ranges, meets);
    lemma_first_where(ranges, |r: AddrRange| r.start == start);
    let j = first_where(ranges, meets);
    if j < ranges.len() {
        assert(meets(ranges[j]));
    } else {
        assert forall|i: int| 0 <= i < ranges.len() implies !(#[trigger] ranges[i]).spec_intersects(
            target,
        ) by {
            assert(!meets(ranges[i]));
        }
    }
}

} // verus!
