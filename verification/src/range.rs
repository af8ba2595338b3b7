//! Inclusive ranges of 32-bit addresses.

use vstd::prelude::*;

verus! {

/// The addresses `start ..= end`.
///
/// Both ends belong to the range, so a range always holds at least one
/// address when `start <= end`; a value with `start > end` holds none.
#[derive(Debug, Clone, Copy, PartialEq, Eq, Structural)]
pub struct AddrRange {
    pub start: u32,
    pub end: u32,
}

impl AddrRange {
    /// The range holds at least one address.
    pub open spec fn well_formed(&self) -> bool {
        self.start <= self.end
    }

    /// The number of addresses in a well-formed range.
    pub open spec fn spec_size(&self) -> int {
        self.end - self.start + 1
    }

    /// The set of addresses in the range.
    pub open spec fn addrs(&self) -> Set<int> {
        Set::new(|a: int| self.start <= a <= self.end)
    }

    pub open spec fn spec_is_before(&self, addr: u32) -> bool {
        self.start < addr && self.end < addr
    }

    pub open spec fn spec_contains(&self, addr: u32) -> bool {
        self.start <= addr && addr <= self.end
    }

    pub open spec fn spec_contains_range(&self, range: AddrRange) -> bool {
        self.start <= range.start && range.end <= self.end
    }

    /// One of the two ends of `range` lies in `self`.
    pub open spec fn spec_overlaps_range(&self, range: AddrRange) -> bool {
        self.spec_contains(range.start) || self.spec_contains(range.end)
    }

    /// The two ranges share an address, where both hold one.
    pub open spec fn spec_intersects(&self, range: AddrRange) -> bool {
        self.start <= range.end && range.start <= self.end
    }

    /// `at` lies strictly between the ends of the range, so that the range can
    /// be cut there into two parts that each hold an address.
    pub open spec fn can_split(&self, at: u32) -> bool {
        self.start < at && at < self.end
    }

    /// The part before `at` and the part from `at` on.
    pub open spec fn spec_split(&self, at: u32) -> (AddrRange, AddrRange)
        recommends
            self.can_split(at),
    {
        (
            AddrRange { start: self.start, end: (at - 1) as u32 },
            AddrRange { start: at, end: self.end },
        )
    }

    /// The range of the same size that starts at `dest`.
    pub open spec fn spec_transpose(&self, dest: u32) -> AddrRange {
        AddrRange { start: dest, end: (dest + (self.end - self.start)) as u32 }
    }

    /// Both ends of the range lie below `addr`.
    #[verifier::when_used_as_spec(spec_is_before)]
    pub fn is_before(&self, addr: u32) -> (r: bool)
        ensures
            r == self.spec_is_before(addr),
    {
        self.start < addr && self.end < addr
    }

    /// `addr` is one of the addresses of the range.
    #[verifier::when_used_as_spec(spec_contains)]
    pub fn contains(&self, addr: u32) -> (r: bool)
        ensures
            r == self.spec_contains(addr),
    {
        self.start <= addr && self.end >= addr
    }

    /// Every address between the ends of `range` lies in `self`.
    #[verifier::when_used_as_spec(spec_contains_range)]
    pub fn contains_range(&self, range: AddrRange) -> (r: bool)
        ensures
            r == self.spec_contains_range(range),
    {
        self.start <= range.start && self.end >= range.end
    }

    /// The first or the last address of `range` lies in `self`.
    ///
    /// The test looks at the ends of `range` only: a `range` that reaches
    /// beyond `self` on both sides is not reported.
    #[verifier::when_used_as_spec(spec_overlaps_range)]
    pub fn overlaps_range(&self, range: AddrRange) -> (r: bool)
        ensures
            r == self.spec_overlaps_range(range),
    {
        self.contains(range.start) || self.contains(range.end)
    }

    /// Some address lies in both ranges.  For two ranges that each hold an
    /// address this is so exactly if they are not apart; it also finds a
    /// `range` that reaches beyond `self` on both sides.
    #[verifier::when_used_as_spec(spec_intersects)]
    pub fn intersects(&self, range: AddrRange) -> (r: bool)
        ensures
            r == self.spec_intersects(range),
    {
        self.start <= range.end && range.start <= self.end
    }

    /// Cuts the range in two at `at`, which becomes the first address of the
    /// second part.  Only an address strictly between the ends of the range
    /// is a place to cut: neither the first nor the last address is one.
    pub fn split(&self, at: u32) -> (parts: (AddrRange, AddrRange))
        requires
            self.can_split(at),
        ensures
            parts == self.spec_split(at),
            parts.0 == (AddrRange { start: self.start, end: (at - 1) as u32 }),
            parts.1 == (AddrRange { start: at, end: self.end }),
    {
        let before = AddrRange { start: self.start, end: at - 1 };
        let after = AddrRange { start: at, end: self.end };
        (before, after)
    }

    /// The number of addresses in the range.
    pub fn size(&self) -> (n: u32)
        requires
            self.well_formed(),
            self.spec_size() <= u32::MAX,
        ensures
            n == self.spec_size(),
    {
        self.end - self.start + 1
    }

    /// Moves the range so that it starts at `dest` and keeps its size.
    pub fn transpose(&self, dest: u32) -> (moved: AddrRange)
        requires
            self.well_formed(),
            dest + (self.end - self.start) <= u32::MAX,
        ensures
            moved == self.spec_transpose(dest),
            moved.start == dest,
            moved.spec_size() == self.spec_size(),
    {
        if dest >= self.start {
            let diff: u32 = dest - self.start;
            AddrRange { start: dest, end: self.end + diff }
        } else {
            let diff: u32 = self.start - dest;
            AddrRange { start: dest, end: self.end - diff }
        }
    }
}

/// Cutting a range at an address strictly between its ends gives two
/// well-formed ranges, the first up to the address before the cut and the
/// second from the cut on, that abut, hold the addresses of the whole between
/// them, and whose sizes add up to its size.
pub proof fn lemma_split_partitions(range: AddrRange, at: u32)
    requires
        range.can_split(at),
    ensures
        range.spec_split(at).0 == (AddrRange { start: range.start, end: (at - 1) as u32 }),
        range.spec_split(at).1 == (AddrRange { start: at, end: range.end }),
        range.spec_split(at).0.well_formed(),
        range.spec_split(at).1.well_formed(),
        range.spec_split(at).0.end + 1 == range.spec_split(at).1.start,
        range.spec_split(at).0.spec_size() + range.spec_split(at).1.spec_size()
            == range.spec_size(),
        range.spec_split(at).0.addrs().union(range.spec_split(at).1.addrs()) =~= range.addrs(),
        range.spec_split(at).0.addrs().disjoint(range.spec_split(at).1.addrs()),
{
}

/// No range can be cut at its first or at its last address, nor outside
/// itself: a cut is admitted strictly between the ends only.
pub proof fn lemma_no_split_at_ends(range: AddrRange, at: u32)
    ensures
        !range.can_split(range.start),
        !range.can_split(range.end),
        range.can_split(at) ==> range.spec_contains(at) && at != range.start && at != range.end,
        range.can_split(at) ==> range.spec_size() >= 3,
{
}

/// Two well-formed ranges intersect exactly if some address lies in both.  A
/// range that holds the first or the last address of another intersects it.
pub proof fn lemma_intersects(a: AddrRange, b: AddrRange)
    requires
        a.well_formed(),
        b.well_formed(),
    ensures
        a.spec_intersects(b) <==> exists|x: int| a.addrs().contains(x) && b.addrs().contains(x),
        a.spec_intersects(b) == b.spec_intersects(a),
        a.spec_overlaps_range(b) ==> a.spec_intersects(b),
{
    if a.spec_intersects(b) {
        let x: int = if a.start <= b.start {
            b.start as int
        } else {
            a.start as int
        };
        assert(a.addrs().contains(x) && b.addrs().contains(x));
    }
}

/// The position of the first range for which `p` holds, or the number of
/// ranges if it holds for none.
pub open spec fn first_where(ranges: Seq<AddrRange>, p: spec_fn(AddrRange) -> bool) -> int
    decreases ranges.len(),
{
    if ranges.len() == 0 || p(ranges[0]) {
        0
    } else {
        1 + first_where(ranges.drop_first(), p)
    }
}

/// `p` holds at `first_where` if that is a position, and at no position
/// before it.
pub proof fn lemma_first_where(ranges: Seq<AddrRange>, p: spec_fn(AddrRange) -> bool)
    ensures
        0 <= first_where(ranges, p) <= ranges.len(),
        forall|i: int| 0 <= i < first_where(ranges, p) ==> !p(#[trigger] ranges[i]),
        first_where(ranges, p) < ranges.len() ==> p(ranges[first_where(ranges, p)]),
    decreases ranges.len(),
{
    if ranges.len() == 0 || p(ranges[0]) {
    } else {
        let rest = ranges.drop_first();
        lemma_first_where(rest, p);
        assert forall|i: int| 0 <= i < first_where(ranges, p) implies !p(#[trigger] ranges[i]) by {
            if i > 0 {
                assert(rest[i - 1] == ranges[i]);
            }
        }
        let k = first_where(rest, p);
        if k < rest.len() {
            assert(rest[k] == ranges[k + 1]);
        }
    }
}

/// A position at which `p` holds, while it holds at none before it, is
/// `first_where`; so is the number of ranges if `p` holds nowhere.
pub proof fn lemma_first_where_is(ranges: Seq<AddrRange>, p: spec_fn(AddrRange) -> bool, k: int)
    requires
        0 <= k <= ranges.len(),
        forall|i: int| 0 <= i < k ==> !p(#[trigger] ranges[i]),
        k < ranges.len() ==> p(ranges[k]),
    ensures
        first_where(ranges, p) == k,
    decreases ranges.len(),
{
    if ranges.len() == 0 {
    } else if p(ranges[0]) {
        assert(k == 0);
    } else {
        let rest = ranges.drop_first();
        assert forall|i: int| 0 <= i < k - 1 implies !p(#[trigger] rest[i]) by {
            assert(rest[i] == ranges[i + 1]);
        }
        lemma_first_where_is(rest, p, k - 1);
    }
}

} // verus!
