//! Choosing the addresses of an image that are to be shown or written out.

use crate::range::{first_where, lemma_first_where_is, AddrRange};
use vstd::prelude::*;

verus! {

/// A stretch of addresses to show: `start ..= end`, which lies in `range`.
#[derive(Debug, Clone, Copy, PartialEq, Eq, Structural)]
pub struct PrintSpan {
    pub range: AddrRange,
    pub start: u32,
    pub end: u32,
}

/// Why no stretch of an image can be written out.
#[derive(Debug, Clone, Copy, PartialEq, Eq, Structural)]
pub enum DumpError {
    /// No range of the image holds the address `start`.
    NotInAnyRange { start: u32 },
    /// With `len` bytes from its start, the stretch would end at `end`,
    /// behind the end of `range`.
    BeyondRange { len: u32, range: AddrRange, end: u64 },
}

/// Every range holds an address.
pub open spec fn all_ranges_well_formed(ranges: Seq<AddrRange>) -> bool {
    forall|i: int| 0 <= i < ranges.len() ==> (#[trigger] ranges[i]).well_formed()
}

/// The part of `range` to show from `offset` on, where at most `left` bytes
/// are to be shown if that is given.
pub open spec fn span_in(range: AddrRange, offset: u32, left: Option<u32>) -> PrintSpan {
    let start = if offset > range.start {
        offset
    } else {
        range.start
    };
    let end = match left {
        Some(n) => if start + n - 1 < range.end {
            (start + n - 1) as u32
        } else {
            range.end
        },
        None => range.end,
    };
    PrintSpan { range, start, end }
}

/// The number of bytes that are left to show behind `span`.
pub open spec fn left_after(span: PrintSpan, left: Option<u32>) -> Option<u32> {
    match left {
        Some(n) => Some((n - (span.end - span.start + 1)) as u32),
        None => None,
    }
}

/// The stretches to show from `offset` on: of each range that does not end
/// before `offset`, the part from `offset` on, until `left` bytes are shown
/// if that is given.
pub open spec fn spans_of(ranges: Seq<AddrRange>, offset: u32, left: Option<u32>) -> Seq<PrintSpan>
    decreases ranges.len(),
{
    if ranges.len() == 0 || left == Some(0u32) {
        Seq::empty()
    } else if ranges[0].spec_is_before(offset) {
        spans_of(ranges.drop_first(), offset, left)
    } else {
        seq![span_in(ranges[0], offset, left)] + spans_of(
            ranges.drop_first(),
            offset,
            left_after(span_in(ranges[0], offset, left), left),
        )
    }
}

/// The stretches of `ranges` to show from `offset` on, `len` bytes in all if
/// that is given.
pub fn print_spans(ranges: &[AddrRange], offset: u32, len: Option<u32>) -> (spans: Vec<PrintSpan>)
    requires
        all_ranges_well_formed(ranges@),
    ensures
        spans@ == spans_of(ranges@, offset, len),
{
    let mut spans: Vec<PrintSpan> = Vec::new();
    let mut left: Option<u32> = len;
    let n: usize = ranges.len();
    let mut i: usize = 0;
    proof {
        assert(ranges@.skip(0) =~= ranges@);
    }
    while i < n
        invariant
            i <= n,
            n == ranges@.len(),
            all_ranges_well_formed(ranges@),
            spans_of(ranges@, offset, len) == spans@ + spans_of(ranges@.skip(i as int), offset, left),
        ensures
            spans_of(ranges@, offset, len) == spans@,
        decreases n - i,
    {
        let ghost so_far = spans@;
        let ghost rest = ranges@.skip(i as int);
        proof {
            assert(rest[0] == ranges@[i as int]);
            assert(rest.drop_first() =~= ranges@.skip(i as int + 1));
            assert(ranges@[i as int].well_formed());
        }
        if let Some(0) = left {
            proof {
                assert(spans_of(rest, offset, left) =~= Seq::<PrintSpan>::empty());
                assert(so_far + Seq::<PrintSpan>::empty() =~= so_far);
            }
            break ;
        }
        let range: AddrRange = ranges[i];
        let ghost left_before = left;
        if !range.is_before(offset) {
            let start: u32 = if offset > range.start {
                offset
            } else {
                range.start
            };
            let end: u32 = match left {
                Some(count) => {
                    let last: u64 = start as u64 + count as u64 - 1;
                    if last < range.end as u64 {
                        last as u32
                    } else {
                        range.end
                    }
                },
                None => range.end,
            };
            let span = PrintSpan { range, start, end };
            assert(span == span_in(range, offset, left));
            spans.push(span);
            left =
            match left {
                Some(count) => Some(count - (end - start) - 1),
                None => None,
            };
            proof {
                assert(left == left_after(span, left_before));
                assert(spans@ + spans_of(ranges@.skip(i as int + 1), offset, left) =~= so_far
                    + spans_of(rest, offset, left_before));
            }
        }
        i += 1;
    }
    proof {
        if i == n {
            assert(spans_of(ranges@.skip(n as int), offset, left) =~= Seq::<PrintSpan>::empty());
            assert(spans@ + Seq::<PrintSpan>::empty() =~= spans@);
        }
    }
    spans
}

/// The stretch to write out from `start` on: up to the end of the first
/// range that holds `start`, or `len` bytes if that is given, which must not
/// reach beyond that range.  A stretch of no bytes is no stretch.
pub open spec fn dump_span_of(ranges: Seq<AddrRange>, start: u32, len: Option<u32>) -> Result<
    Option<AddrRange>,
    DumpError,
> {
    let i = first_where(ranges, |r: AddrRange| r.spec_contains(start));
    if i >= ranges.len() {
        Err(DumpError::NotInAnyRange { start })
    } else {
        match len {
            None => Ok(Some(AddrRange { start, end: ranges[i].end })),
            Some(n) => if n == 0 {
                Ok(None)
            } else if start + n - 1 > ranges[i].end {
                Err(DumpError::BeyondRange { len: n, range: ranges[i], end: (start + n - 1) as u64 })
            } else {
                Ok(Some(AddrRange { start, end: (start + n - 1) as u32 }))
            },
        }
    }
}

/// The stretch of `ranges` to write out from `start` on, `len` bytes long if
/// that is given.
pub fn dump_span(ranges: &[AddrRange], start: u32, len: Option<u32>) -> (r: Result<
    Option<AddrRange>,
    DumpError,
>)
    ensures
        r == dump_span_of(ranges@, start, len),
{
    let ghost holds = |r: AddrRange| r.spec_contains(start);
    let n: usize = ranges.len();
    let mut i: usize = 0;
    while i < n && !ranges[i].contains(start)
        invariant
            i <= n,
            n == ranges@.len(),
            holds == (|r: AddrRange| r.spec_contains(start)),
            forall|k: int| 0 <= k < i ==> !holds(#[trigger] ranges@[k]),
        decreases n - i,
    {
        i += 1;
    }
    proof {
        lemma_first_where_is(ranges@, holds, i as int);
    }
    if i == n {
        return Err(DumpError::NotInAnyRange { start });
    }
    let range: AddrRange = ranges[i];
    match len {
        None => Ok(Some(AddrRange { start, end: range.end })),
        Some(count) => {
            if count == 0 {
                return Ok(None);
            }
            let end: u64 = start as u64 + count as u64 - 1;
            if end > range.end as u64 {
                Err(DumpError::BeyondRange { len: count, range, end })
            } else {
                Ok(Some(AddrRange { start, end: end as u32 }))
            }
        },
    }
}

} // verus!
