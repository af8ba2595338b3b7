//! The address space of an image: its chunks in ascending address order.

use crate::chunk::{Chunk, Data, StartSegmentAddr};
use crate::coverage::apart;
use crate::range::{first_where, lemma_first_where_is, AddrRange};
use crate::relocation::lemma_transpose_keeps_order;
use vstd::prelude::*;

verus! {

/// What an image holds: the entry descriptor, if the text gave one, and the
/// chunks in the order in which they are kept.
pub struct HexImage {
    pub start: Option<StartSegmentAddr>,
    pub chunks: Seq<Chunk>,
}

/// The chunks that a sequence of data records stands for.
pub open spec fn views(data: Seq<Data>) -> Seq<Chunk> {
    data.map_values(|d: Data| d@)
}

/// The chunks are in ascending order of their addresses.
pub open spec fn sorted(chunks: Seq<Chunk>) -> bool {
    forall|i: int, j: int| 0 <= i <= j < chunks.len() ==> chunks[i].addr <= chunks[j].addr
}

/// Every chunk has an address range.
pub open spec fn all_well_formed(chunks: Seq<Chunk>) -> bool {
    forall|i: int| 0 <= i < chunks.len() ==> (#[trigger] chunks[i]).well_formed()
}

/// Where a chunk at `addr` goes into `chunks`: behind the last chunk whose
/// address is not greater.
pub open spec fn insert_pos(chunks: Seq<Chunk>, addr: u32) -> int
    decreases chunks.len(),
{
    if chunks.len() == 0 || chunks.last().addr <= addr {
        chunks.len() as int
    } else {
        insert_pos(chunks.drop_last(), addr)
    }
}

/// `chunks` with `c` put in at its place.
pub open spec fn insert_sorted(chunks: Seq<Chunk>, c: Chunk) -> Seq<Chunk> {
    chunks.insert(insert_pos(chunks, c.addr), c)
}

/// The chunks in ascending order of their addresses; chunks at the same
/// address keep the order that they had.
pub open spec fn sort_by_addr(chunks: Seq<Chunk>) -> Seq<Chunk>
    decreases chunks.len(),
{
    if chunks.len() == 0 {
        chunks
    } else {
        insert_sorted(sort_by_addr(chunks.drop_last()), chunks.last())
    }
}

/// The place found by `insert_pos` lies within the sequence, everything
/// behind it has a greater address, and what stands before it does not.
pub proof fn lemma_insert_pos(chunks: Seq<Chunk>, addr: u32)
    ensures
        0 <= insert_pos(chunks, addr) <= chunks.len(),
        forall|i: int| insert_pos(chunks, addr) <= i < chunks.len() ==> chunks[i].addr > addr,
        insert_pos(chunks, addr) > 0 ==> chunks[insert_pos(chunks, addr) - 1].addr <= addr,
    decreases chunks.len(),
{
    if chunks.len() == 0 || chunks.last().addr <= addr {
    } else {
        let init = chunks.drop_last();
        lemma_insert_pos(init, addr);
        assert forall|i: int| insert_pos(chunks, addr) <= i < chunks.len() implies chunks[i].addr
            > addr by {
            if i < init.len() {
                assert(init[i] == chunks[i]);
            }
        }
    }
}

/// Putting a chunk in at its place keeps an ascending sequence ascending.
pub proof fn lemma_insert_sorted(chunks: Seq<Chunk>, c: Chunk)
    requires
        sorted(chunks),
    ensures
        sorted(insert_sorted(chunks, c)),
        insert_sorted(chunks, c).len() == chunks.len() + 1,
        insert_sorted(chunks, c).to_multiset() == chunks.to_multiset().insert(c),
{
    lemma_insert_pos(chunks, c.addr);
    let p = insert_pos(chunks, c.addr);
    let out = insert_sorted(chunks, c);
    assert forall|i: int, j: int| 0 <= i <= j < out.len() implies out[i].addr <= out[j].addr by {
        if i < p && j > p {
            assert(chunks[i].addr <= chunks[p - 1].addr);
        }
    }
    vstd::seq_lib::to_multiset_insert(chunks, p, c);
}

/// Sorting gives an ascending sequence of the same chunks.
pub proof fn lemma_sort_by_addr(chunks: Seq<Chunk>)
    ensures
        sorted(sort_by_addr(chunks)),
        sort_by_addr(chunks).len() == chunks.len(),
        sort_by_addr(chunks).to_multiset() == chunks.to_multiset(),
    decreases chunks.len(),
{
    if chunks.len() == 0 {
    } else {
        lemma_sort_by_addr(chunks.drop_last());
        lemma_insert_sorted(sort_by_addr(chunks.drop_last()), chunks.last());
        assert(chunks.drop_last().push(chunks.last()) =~= chunks);
        vstd::seq_lib::to_multiset_build(chunks.drop_last(), chunks.last());
    }
}

/// An ascending sequence is its own sorted form.
pub proof fn lemma_sort_sorted(chunks: Seq<Chunk>)
    requires
        sorted(chunks),
    ensures
        sort_by_addr(chunks) == chunks,
    decreases chunks.len(),
{
    if chunks.len() > 0 {
        let init = chunks.drop_last();
        lemma_sort_sorted(init);
        assert(insert_pos(init, chunks.last().addr) == init.len()) by {
            if init.len() > 0 {
                assert(init.last() == chunks[chunks.len() - 2]);
            }
        }
        assert(init.insert(init.len() as int, chunks.last()) =~= chunks);
    }
}

/// The maximal runs of chunks in which each chunk begins at the address behind
/// the end of the chunk before it, each run as the range from the address of
/// its first chunk to the end of its last.
pub open spec fn ranges_of(chunks: Seq<Chunk>) -> Seq<AddrRange>
    decreases chunks.len(),
{
    if chunks.len() == 0 {
        Seq::empty()
    } else {
        let before = ranges_of(chunks.drop_last());
        let c = chunks.last();
        if before.len() > 0 && c.addr == before.last().end + 1 {
            before.drop_last().push(AddrRange { start: before.last().start, end: c.end() as u32 })
        } else {
            before.push(c.range())
        }
    }
}

/// The bytes of the chunks that lie within `range`, chunk after chunk.
pub open spec fn bytes_within(chunks: Seq<Chunk>, range: AddrRange) -> Seq<u8>
    decreases chunks.len(),
{
    if chunks.len() == 0 {
        Seq::empty()
    } else if chunks.last().within(range) {
        bytes_within(chunks.drop_last(), range) + chunks.last().bytes
    } else {
        bytes_within(chunks.drop_last(), range)
    }
}

/// The position of the first chunk that holds a byte for address `a`, or the
/// number of chunks if none does.
pub open spec fn first_covering(chunks: Seq<Chunk>, a: int) -> int
    decreases chunks.len(),
{
    if chunks.len() == 0 || chunks[0].covers(a) {
        0
    } else {
        1 + first_covering(chunks.drop_first(), a)
    }
}

/// A chunk holds a byte for address `a`.
pub open spec fn covered(chunks: Seq<Chunk>, a: int) -> bool {
    exists|i: int| 0 <= i < chunks.len() && (#[trigger] chunks[i]).covers(a)
}

/// The byte at address `a`: that of the first chunk that holds one for it.
pub open spec fn byte_at(chunks: Seq<Chunk>, a: int) -> Option<u8> {
    let k = first_covering(chunks, a);
    if k < chunks.len() {
        Some(chunks[k].byte_at(a))
    } else {
        None
    }
}

/// Every address of `range` has a byte.
pub open spec fn range_covered(chunks: Seq<Chunk>, range: AddrRange) -> bool {
    forall|a: int| range.start <= a <= range.end ==> #[trigger] covered(chunks, a)
}

/// The bytes at the addresses of `range`, in ascending order of the addresses.
pub open spec fn range_bytes(chunks: Seq<Chunk>, range: AddrRange) -> Seq<u8> {
    Seq::new(
        if range.start <= range.end {
            (range.end - range.start + 1) as nat
        } else {
            0
        },
        |i: int| byte_at(chunks, range.start + i).unwrap(),
    )
}

/// The first chunk with a byte for `a` stands at `first_covering`; no chunk
/// before it has one.
pub proof fn lemma_first_covering(chunks: Seq<Chunk>, a: int)
    ensures
        0 <= first_covering(chunks, a) <= chunks.len(),
        forall|i: int| 0 <= i < first_covering(chunks, a) ==> !(#[trigger] chunks[i]).covers(a),
        first_covering(chunks, a) < chunks.len() ==> chunks[first_covering(chunks, a)].covers(a),
        covered(chunks, a) <==> first_covering(chunks, a) < chunks.len(),
        covered(chunks, a) <==> byte_at(chunks, a) is Some,
    decreases chunks.len(),
{
    if chunks.len() == 0 || chunks[0].covers(a) {
    } else {
        let rest = chunks.drop_first();
        lemma_first_covering(rest, a);
        assert forall|i: int| 0 <= i < first_covering(chunks, a) implies !(#[trigger] chunks[i]).covers(
            a,
        ) by {
            if i > 0 {
                assert(rest[i - 1] == chunks[i]);
            }
        }
        let k = first_covering(rest, a);
        if k < rest.len() {
            assert(rest[k] == chunks[k + 1]);
        }
    }
}

/// A position whose chunk has a byte for `a`, while none before it has one, is
/// `first_covering`; so is the number of chunks if no chunk has one.
pub proof fn lemma_first_covering_is(chunks: Seq<Chunk>, a: int, k: int)
    requires
        0 <= k <= chunks.len(),
        forall|i: int| 0 <= i < k ==> !(#[trigger] chunks[i]).covers(a),
        k < chunks.len() ==> chunks[k].covers(a),
    ensures
        first_covering(chunks, a) == k,
    decreases chunks.len(),
{
    if chunks.len() == 0 {
    } else if chunks[0].covers(a) {
        assert(k == 0);
    } else {
        let rest = chunks.drop_first();
        assert forall|i: int| 0 <= i < k - 1 implies !(#[trigger] rest[i]).covers(a) by {
            assert(rest[i] == chunks[i + 1]);
        }
        lemma_first_covering_is(rest, a, k - 1);
    }
}

/// The ranges of well-formed chunks: there is one if there is a chunk, each
/// holds an address, and the last ends where the last chunk ends.
pub proof fn lemma_ranges_of(chunks: Seq<Chunk>)
    requires
        all_well_formed(chunks),
    ensures
        chunks.len() > 0 ==> ranges_of(chunks).len() > 0 && ranges_of(chunks).last().end
            == chunks.last().end(),
        ranges_of(chunks).len() <= chunks.len(),
        forall|i: int| 0 <= i < ranges_of(chunks).len() ==> (#[trigger] ranges_of(chunks)[i]).well_formed(),
    decreases chunks.len(),
{
    if chunks.len() > 0 {
        lemma_ranges_of(chunks.drop_last());
        assert(chunks.last().well_formed());
    }
}

/// Why an image could not be changed.
#[derive(Debug, Clone, Copy, PartialEq, Eq, Structural)]
pub enum ModelError {
    /// No range of the image begins at `start`.
    NoRangeAtAddress { start: u32 },
    /// Moved to `dest`, the range or one of its chunks would reach beyond the
    /// last 32-bit address.
    DestinationOutOfBounds { dest: u32 },
    /// The range `existing` of the image shares an address with `target`,
    /// the range that the move would fill.
    OverlapsExistingRange { target: AddrRange, existing: AddrRange },
}

/// The address of chunk `c` after the range `src` is moved to `dest`.
pub open spec fn moved_addr(c: Chunk, src: AddrRange, dest: u32) -> int {
    dest + (c.addr - src.start)
}

/// Chunk `c` after the range `src` is moved to `dest`: a chunk that begins in
/// `src` keeps its distance from the start of the range, any other chunk
/// stays.
pub open spec fn relocated(c: Chunk, src: AddrRange, dest: u32) -> Chunk {
    if src.spec_contains(c.addr) {
        c.at(moved_addr(c, src, dest) as u32)
    } else {
        c
    }
}

/// The chunks after the range `src` is moved to `dest`, each at its old
/// position in the sequence.
pub open spec fn relocate_all(chunks: Seq<Chunk>, src: AddrRange, dest: u32) -> Seq<Chunk> {
    chunks.map_values(|c: Chunk| relocated(c, src, dest))
}

/// Moved to `dest`, the range `src` and each chunk that begins in it end at a
/// 32-bit address.
pub open spec fn move_fits(chunks: Seq<Chunk>, src: AddrRange, dest: u32) -> bool {
    &&& dest + (src.end - src.start) <= u32::MAX
    &&& forall|i: int|
        0 <= i < chunks.len() && src.spec_contains((#[trigger] chunks[i]).addr) ==> moved_addr(
            chunks[i],
            src,
            dest,
        ) + chunks[i].bytes.len() - 1 <= u32::MAX
}

/// The image after the range that begins at `start` is moved to `dest`, or
/// the reason for which it cannot be moved.
///
/// The move is refused where the range that it would fill shares an address
/// with a range of the image, the range that is moved among them; the first
/// such range is reported.
pub open spec fn transpose_of(image: HexImage, start: u32, dest: u32) -> Result<
    HexImage,
    ModelError,
> {
    let ranges = ranges_of(image.chunks);
    let i = first_where(ranges, |r: AddrRange| r.start == start);
    if i >= ranges.len() {
        Err(ModelError::NoRangeAtAddress { start })
    } else if !move_fits(image.chunks, ranges[i], dest) {
        Err(ModelError::DestinationOutOfBounds { dest })
    } else {
        let target = ranges[i].spec_transpose(dest);
        let j = first_where(ranges, |r: AddrRange| r.spec_intersects(target));
        if j < ranges.len() {
            Err(ModelError::OverlapsExistingRange { target, existing: ranges[j] })
        } else {
            Ok(
                HexImage {
                    start: image.start,
                    chunks: sort_by_addr(relocate_all(image.chunks, ranges[i], dest)),
                },
            )
        }
    }
}

/// Putting a well-formed chunk in among well-formed chunks leaves all of them
/// well-formed.
pub proof fn lemma_insert_well_formed(chunks: Seq<Chunk>, c: Chunk)
    requires
        all_well_formed(chunks),
        c.well_formed(),
    ensures
        all_well_formed(insert_sorted(chunks, c)),
{
    lemma_insert_pos(chunks, c.addr);
}

/// Sorting well-formed chunks leaves them well-formed.
pub proof fn lemma_sort_well_formed(chunks: Seq<Chunk>)
    requires
        all_well_formed(chunks),
    ensures
        all_well_formed(sort_by_addr(chunks)),
    decreases chunks.len(),
{
    if chunks.len() > 0 {
        assert forall|i: int| 0 <= i < chunks.drop_last().len() implies (
        #[trigger] chunks.drop_last()[i]).well_formed() by {
            assert(chunks.drop_last()[i] == chunks[i]);
        }
        lemma_sort_well_formed(chunks.drop_last());
        assert(chunks.last().well_formed());
        lemma_insert_well_formed(sort_by_addr(chunks.drop_last()), chunks.last());
    }
}

/// Puts `d` into `data` behind the last chunk whose address is not greater.
fn insert_chunk(data: &mut Vec<Data>, d: Data)
    ensures
        views(final(data)@) == insert_sorted(views(old(data)@), d@),
{
    let ghost chunks = views(data@);
    let addr: u32 = d.addr();
    let mut pos: usize = data.len();
    proof {
        assert(chunks.take(pos as int) =~= chunks);
    }
    while pos > 0 && data[pos - 1].addr() > addr
        invariant
            pos <= data.len(),
            data@ == old(data)@,
            chunks == views(data@),
            insert_pos(chunks, addr) == insert_pos(chunks.take(pos as int), addr),
        decreases pos,
    {
        proof {
            assert(chunks.take(pos as int).drop_last() =~= chunks.take(pos as int - 1));
        }
        pos -= 1;
    }
    proof {
        assert(chunks.take(data.len() as int) =~= chunks);
        if pos > 0 {
            assert(chunks.take(pos as int).last() == chunks[pos as int - 1]);
        }
        assert(insert_pos(chunks, addr) == pos);
    }
    data.insert(pos, d);
    proof {
        assert(views(data@) =~= chunks.insert(pos as int, d@));
    }
}

/// An image: the chunks of its data records in ascending address order, and
/// the entry descriptor if there is one.
#[derive(Debug)]
pub struct HexFile {
    start: Option<StartSegmentAddr>,
    data: Vec<Data>,
}

impl View for HexFile {
    type V = HexImage;

    closed spec fn view(&self) -> HexImage {
        HexImage { start: self.start, chunks: views(self.data@) }
    }
}

impl HexFile {
    #[verifier::type_invariant]
    spec fn ascending(&self) -> bool {
        sorted(views(self.data@))
    }

    /// The image of the given chunks, which are put in ascending order of
    /// their addresses; chunks at the same address keep their order.
    pub fn from_records(start: Option<StartSegmentAddr>, records: Vec<Data>) -> (hex: HexFile)
        ensures
            hex@ == (HexImage { start, chunks: sort_by_addr(views(records@)) }),
    {
        let ghost all = views(records@);
        let mut data: Vec<Data> = Vec::new();
        proof {
            assert(all.take(0) =~= Seq::<Chunk>::empty());
            assert(views(data@) =~= Seq::<Chunk>::empty());
        }
        for d in it: records
            invariant
                all == views(records@),
                views(data@) == sort_by_addr(all.take(it.index() as int)),
        {
            proof {
                let n = it.index() as int;
                assert(all.take(n + 1).drop_last() =~= all.take(n));
                assert(all.take(n + 1).last() == d@);
            }
            insert_chunk(&mut data, d);
        }
        proof {
            assert(all.take(records@.len() as int) =~= all);
            lemma_sort_by_addr(all);
        }
        HexFile { start, data }
    }

    /// The chunks, in ascending order of their addresses.
    pub fn data(&self) -> (d: &[Data])
        ensures
            views(d@) == self@.chunks,
    {
        self.data.as_slice()
    }

    /// The chunk at position `idx`.
    pub fn data_at(&self, idx: usize) -> (d: &Data)
        requires
            idx < self@.chunks.len(),
        ensures
            d@ == self@.chunks[idx as int],
    {
        &self.data[idx]
    }

    /// The maximal contiguous address ranges of the image, in the order of its
    /// chunks: a new range begins wherever a chunk does not begin at the
    /// address behind the end of the chunk before it.
    pub fn address_ranges(&self) -> (ranges: Vec<AddrRange>)
        requires
            self@.chunks.len() > 0,
            all_well_formed(self@.chunks),
        ensures
            ranges@ == ranges_of(self@.chunks),
    {
        let ghost chunks = self@.chunks;
        let n: usize = self.data.len();
        let mut ranges: Vec<AddrRange> = Vec::new();
        assert(chunks[0] == self.data@[0]@ && chunks[0].well_formed());
        let mut start: u32 = self.data[0].addr();
        let mut end: u32 = self.data[0].addr_range().end;
        let mut i: usize = 1;
        proof {
            assert(chunks[0].well_formed());
            assert(chunks.take(1).drop_last() =~= Seq::<Chunk>::empty());
            assert(ranges_of(chunks.take(1).drop_last()) =~= Seq::<AddrRange>::empty());
            assert(ranges_of(chunks.take(1)) =~= ranges@.push(AddrRange { start, end }));
        }
        while i < n
            invariant
                1 <= i <= n,
                n == self.data@.len(),
                chunks == views(self.data@),
                all_well_formed(chunks),
                ranges@.push(AddrRange { start, end }) == ranges_of(chunks.take(i as int)),
            decreases n - i,
        {
            let d = &self.data[i];
            let ghost before = ranges_of(chunks.take(i as int));
            proof {
                assert(chunks[i as int].well_formed());
                assert(chunks.take(i as int + 1).drop_last() =~= chunks.take(i as int));
                assert(chunks.take(i as int + 1).last() == chunks[i as int]);
                assert(before.last() == (AddrRange { start, end }));
                assert(before.drop_last() =~= ranges@);
            }
            if end == u32::MAX || d.addr() != end + 1 {
                ranges.push(AddrRange { start, end });
                start = d.addr();
            }
            end = d.addr_range().end;
            i += 1;
        }
        proof {
            assert(chunks.take(n as int) =~= chunks);
        }
        ranges.push(AddrRange { start, end });
        ranges
    }

    /// The bytes of every chunk that lies within `range`, chunk after chunk.
    /// A chunk that reaches over an end of the range is left out.
    pub fn data_in_range(&self, range: AddrRange) -> (bytes: Vec<u8>)
        ensures
            bytes@ == bytes_within(self@.chunks, range),
    {
        let ghost chunks = self@.chunks;
        let n: usize = self.data.len();
        let mut bytes: Vec<u8> = Vec::new();
        let mut i: usize = 0;
        proof {
            assert(chunks.take(0) =~= Seq::<Chunk>::empty());
        }
        while i < n
            invariant
                i <= n,
                n == self.data@.len(),
                chunks == views(self.data@),
                bytes@ == bytes_within(chunks.take(i as int), range),
            decreases n - i,
        {
            let d = &self.data[i];
            proof {
                assert(chunks.take(i as int + 1).drop_last() =~= chunks.take(i as int));
                assert(chunks.take(i as int + 1).last() == chunks[i as int]);
            }
            if d.within(range) {
                let ghost so_far = bytes@;
                bytes.extend_from_slice(d.bytes());
                proof {
                    assert(bytes@ =~= so_far + d@.bytes);
                }
            }
            i += 1;
        }
        proof {
            assert(chunks.take(n as int) =~= chunks);
        }
        bytes
    }

    /// The position of the first chunk at or behind `from` that holds a byte
    /// for `addr`, or the number of chunks if none does.
    fn find_from(&self, addr: u32, from: usize) -> (k: usize)
        requires
            from <= self@.chunks.len(),
            forall|i: int| 0 <= i < from ==> !(#[trigger] self@.chunks[i]).covers(addr as int),
        ensures
            k == first_covering(self@.chunks, addr as int),
            from <= k <= self@.chunks.len(),
    {
        let n: usize = self.data.len();
        let mut k: usize = from;
        while k < n && !self.data[k].covers(addr)
            invariant
                from <= k <= n,
                n == self.data@.len(),
                forall|i: int| 0 <= i < k ==> !(#[trigger] self@.chunks[i]).covers(addr as int),
            decreases n - k,
        {
            k += 1;
        }
        proof {
            lemma_first_covering_is(self@.chunks, addr as int, k as int);
        }
        k
    }

    /// The byte at `addr`: that of the first chunk that holds one for it.
    pub fn read_byte(&self, addr: u32) -> (b: Option<u8>)
        ensures
            b == byte_at(self@.chunks, addr as int),
    {
        let k: usize = self.find_from(addr, 0);
        proof {
            lemma_first_covering(self@.chunks, addr as int);
        }
        if k < self.data.len() {
            assert(self@.chunks[k as int] == self.data@[k as int]@);
            Some(self.data[k].get_byte(addr))
        } else {
            None
        }
    }

    /// The bytes at the addresses of `range` in ascending order, if every
    /// address of the range has one.
    pub fn read_range(&self, range: AddrRange) -> (bytes: Option<Vec<u8>>)
        ensures
            bytes is Some <==> range_covered(self@.chunks, range),
            bytes matches Some(b) ==> b@ == range_bytes(self@.chunks, range),
    {
        let ghost chunks = self@.chunks;
        let mut out: Vec<u8> = Vec::new();
        if range.start > range.end {
            return Some(out);
        }
        proof {
            use_type_invariant(self);
        }
        let n: usize = self.data.len();
        let mut addr: u32 = range.start;
        let mut k: usize = 0;
        loop
            invariant_except_break
                out@.len() == addr - range.start,
            invariant
                range.start <= addr <= range.end,
                n == self.data@.len(),
                chunks == self@.chunks,
                chunks == views(self.data@),
                sorted(chunks),
                k <= n,
                forall|i: int| 0 <= i < k ==> !(#[trigger] chunks[i]).covers(addr as int),
                forall|a: int| range.start <= a < addr ==> #[trigger] covered(chunks, a),
                forall|j: int|
                    0 <= j < addr - range.start && j < out@.len() ==> out@[j] == (#[trigger] byte_at(
                        chunks,
                        range.start + j,
                    )).unwrap(),
            ensures
                addr == range.end,
                out@.len() == range.end - range.start + 1,
                covered(chunks, range.end as int),
                out@[range.end - range.start] == byte_at(chunks, range.end as int).unwrap(),
            decreases range.end - addr,
        {
            k = self.find_from(addr, k);
            proof {
                lemma_first_covering(chunks, addr as int);
            }
            if k == n {
                return None;
            }
            out.push(self.data[k].get_byte(addr));
            if addr == range.end {
                break ;
            }
            proof {
                assert forall|i: int| 0 <= i < k implies !(#[trigger] chunks[i]).covers(
                    addr as int + 1,
                ) by {
                    assert(chunks[i].addr <= chunks[k as int].addr);
                }
            }
            addr += 1;
        }
        proof {
            assert(out@ =~= range_bytes(chunks, range));
        }
        Some(out)
    }

    /// Every chunk of the image has an address range: it holds a byte, and its
    /// last byte lies at a 32-bit address.
    pub fn is_well_formed(&self) -> (b: bool)
        ensures
            b == all_well_formed(self@.chunks),
    {
        let n: usize = self.data.len();
        let mut i: usize = 0;
        while i < n
            invariant
                i <= n,
                n == self.data@.len(),
                forall|k: int| 0 <= k < i ==> (#[trigger] self@.chunks[k]).well_formed(),
            decreases n - i,
        {
            let d = &self.data[i];
            let len: usize = d.bytes().len();
            if len == 0 || len - 1 > (u32::MAX - d.addr()) as usize {
                assert(!self@.chunks[i as int].well_formed());
                return false;
            }
            i += 1;
        }
        true
    }

    /// Moves the range that begins at `start` to `dest`: each chunk that
    /// begins in the range keeps its distance from the start of the range, and
    /// the chunks are put in ascending order again.
    ///
    /// The move is refused where the range that it would fill shares an
    /// address with a range of the image.  The image stays as it is unless
    /// the move succeeds.
    pub fn transpose(&mut self, start: u32, dest: u32) -> (r: Result<(), ModelError>)
        requires
            all_well_formed(old(self)@.chunks),
        ensures
            match r {
                Ok(()) => transpose_of(old(self)@, start, dest) == Ok::<HexImage, ModelError>(
                    final(self)@,
                ),
                Err(e) => transpose_of(old(self)@, start, dest) == Err::<HexImage, ModelError>(e)
                    && final(self)@ == old(self)@,
            },
            all_well_formed(final(self)@.chunks),
            apart(old(self)@.chunks) ==> apart(final(self)@.chunks),
    {
        let ghost image = self@;
        let ghost chunks = self@.chunks;
        let ghost at_start = |r: AddrRange| r.start == start;
        if self.data.len() == 0 {
            proof {
                assert(ranges_of(chunks) =~= Seq::<AddrRange>::empty());
            }
            return Err(ModelError::NoRangeAtAddress { start });
        }
        let ranges: Vec<AddrRange> = self.address_ranges();
        proof {
            lemma_ranges_of(chunks);
        }
        let mut i: usize = 0;
        while i < ranges.len() && ranges[i].start != start
            invariant
                i <= ranges.len(),
                forall|k: int| 0 <= k < i ==> !at_start(#[trigger] ranges@[k]),
                at_start == (|r: AddrRange| r.start == start),
            decreases ranges.len() - i,
        {
            i += 1;
        }
        proof {
            lemma_first_where_is(ranges@, at_start, i as int);
        }
        if i == ranges.len() {
            return Err(ModelError::NoRangeAtAddress { start });
        }
        let src: AddrRange = ranges[i];
        assert(src.well_formed());
        if dest > u32::MAX - (src.end - src.start) {
            return Err(ModelError::DestinationOutOfBounds { dest });
        }
        let n: usize = self.data.len();
        let mut c: usize = 0;
        while c < n
            invariant
                c <= n,
                n == self.data@.len(),
                self@ == old(self)@,
                chunks == self@.chunks,
                chunks == views(self.data@),
                all_well_formed(chunks),
                ranges@ == ranges_of(chunks),
                i < ranges.len(),
                i == first_where(ranges@, |r: AddrRange| r.start == start),
                src == ranges@[i as int],
                src.well_formed(),
                dest + (src.end - src.start) <= u32::MAX,
                forall|k: int|
                    0 <= k < c && src.spec_contains((#[trigger] chunks[k]).addr) ==> moved_addr(
                        chunks[k],
                        src,
                        dest,
                    ) + chunks[k].bytes.len() - 1 <= u32::MAX,
            decreases n - c,
        {
            let d = &self.data[c];
            assert(chunks[c as int].well_formed());
            if src.contains(d.addr()) {
                let to: u32 = dest + (d.addr() - src.start);
                if d.bytes().len() - 1 > (u32::MAX - to) as usize {
                    assert(!move_fits(chunks, src, dest));
                    return Err(ModelError::DestinationOutOfBounds { dest });
                }
            }
            c += 1;
        }
        let target: AddrRange = src.transpose(dest);
        let ghost meets = |r: AddrRange| r.spec_intersects(target);
        let mut j: usize = 0;
        while j < ranges.len() && !ranges[j].intersects(target)
            invariant
                j <= ranges.len(),
                forall|k: int| 0 <= k < j ==> !meets(#[trigger] ranges@[k]),
                meets == (|r: AddrRange| r.spec_intersects(target)),
            decreases ranges.len() - j,
        {
            j += 1;
        }
        proof {
            lemma_first_where_is(ranges@, meets, j as int);
        }
        if j < ranges.len() {
            return Err(ModelError::OverlapsExistingRange { target, existing: ranges[j] });
        }
        let mut records: Vec<Data> = Vec::new();
        core::mem::swap(&mut self.data, &mut records);
        let ghost after = relocate_all(chunks, src, dest);
        let mut moved: Vec<Data> = Vec::new();
        proof {
            assert(views(moved@) =~= after.take(0));
        }
        for d in it: records
            invariant
                chunks == views(records@),
                after == relocate_all(chunks, src, dest),
                move_fits(chunks, src, dest),
                views(moved@) == after.take(it.index() as int),
        {
            let ghost so_far = views(moved@);
            let ghost k = it.index() as int;
            let mut d = d;
            proof {
                assert(chunks[k] == d@);
            }
            if src.contains(d.addr()) {
                let to: u32 = dest + (d.addr() - src.start);
                d.transpose(to);
            }
            moved.push(d);
            proof {
                assert(views(moved@) =~= so_far.push(after[k]));
                assert(after.take(k + 1) =~= after.take(k).push(after[k]));
            }
        }
        proof {
            assert(after.take(records@.len() as int) =~= after);
            assert forall|k: int| 0 <= k < after.len() implies (#[trigger] after[k]).well_formed() by {
                assert(chunks[k].well_formed());
            }
            lemma_sort_well_formed(after);
            if apart(chunks) {
                lemma_transpose_keeps_order(
                    image,
                    start,
                    dest,
                    HexImage { start: image.start, chunks: sort_by_addr(after) },
                );
            }
        }
        *self = HexFile::from_records(self.start, moved);
        Ok(())
    }

    /// The entry descriptor, if the text gave one.
    pub fn start(&self) -> (s: Option<StartSegmentAddr>)
        ensures
            s == self@.start,
    {
        self.start
    }

    /// The 32-bit entry address, if the image has an entry descriptor.
    pub fn start_addr(&self) -> (a: Option<u32>)
        ensures
            a == match self@.start {
                Some(s) => Some(s.spec_address()),
                None => None,
            },
    {
        match self.start {
            Some(s) => Some(s.address()),
            None => None,
        }
    }
}

} // verus!
