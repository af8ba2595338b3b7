//! One run of bytes at an address.

use crate::range::AddrRange;
use vstd::prelude::*;

verus! {

/// The greatest number of bytes that a data record holds.
pub const MAX_RECORD_BYTES: usize = 255;

/// What a data record stands for: `bytes` at consecutive addresses from
/// `addr` upwards.
pub struct Chunk {
    pub addr: u32,
    pub bytes: Seq<u8>,
}

impl Chunk {
    /// The address of the last byte.
    pub open spec fn end(self) -> int {
        self.addr + self.bytes.len() - 1
    }

    /// The chunk holds at least one byte and lies within the 32-bit address
    /// space, so that it has an address range.
    pub open spec fn well_formed(self) -> bool {
        self.bytes.len() >= 1 && self.end() <= u32::MAX
    }

    /// The addresses of the chunk's bytes.
    pub open spec fn range(self) -> AddrRange
        recommends
            self.well_formed(),
    {
        AddrRange { start: self.addr, end: self.end() as u32 }
    }

    /// The chunk holds a byte for address `a`.
    pub open spec fn covers(self, a: int) -> bool {
        self.addr <= a <= self.end()
    }

    /// The byte that the chunk holds for address `a`.
    pub open spec fn byte_at(self, a: int) -> u8
        recommends
            self.covers(a),
    {
        self.bytes[a - self.addr]
    }

    /// Every byte of the chunk lies in `range`.
    pub open spec fn within(self, range: AddrRange) -> bool {
        range.start <= self.addr && self.end() <= range.end
    }

    /// The same bytes at `dest`.
    pub open spec fn at(self, dest: u32) -> Chunk {
        Chunk { addr: dest, bytes: self.bytes }
    }
}

/// The entry descriptor of a start-segment-address record.
#[derive(Debug, Clone, Copy, PartialEq, Eq, Structural)]
pub struct StartSegmentAddr {
    pub cs: u16,
    pub ip: u16,
}

impl StartSegmentAddr {
    /// The 32-bit entry address: the code segment in the upper half, the
    /// instruction pointer in the lower.
    pub open spec fn spec_address(self) -> u32 {
        (self.cs * 0x1_0000 + self.ip) as u32
    }

    /// The 32-bit entry address.
    pub fn address(&self) -> (a: u32)
        ensures
            a == self.spec_address(),
    {
        let cs: u32 = self.cs as u32;
        let ip: u32 = self.ip as u32;
        assert((cs << 16) | ip == cs * 0x1_0000 + ip) by (bit_vector)
            requires
                cs < 0x1_0000,
                ip < 0x1_0000,
        ;
        (cs << 16) | ip
    }
}

/// The bytes of one data record and the absolute address of the first.
#[derive(Debug, PartialEq, Eq)]
pub struct Data {
    data: Vec<u8>,
    addr: u32,
}

impl View for Data {
    type V = Chunk;

    closed spec fn view(&self) -> Chunk {
        Chunk { addr: self.addr, bytes: self.data@ }
    }
}

impl Data {
    #[verifier::type_invariant]
    spec fn fits_a_record(&self) -> bool {
        self.data@.len() <= MAX_RECORD_BYTES
    }

    /// A chunk of `data` at `addr`.
    pub fn new(addr: u32, data: Vec<u8>) -> (d: Data)
        requires
            data@.len() <= MAX_RECORD_BYTES,
        ensures
            d@ == (Chunk { addr, bytes: data@ }),
    {
        Data { data, addr }
    }

    /// The address of the first byte.
    pub fn addr(&self) -> (a: u32)
        ensures
            a == self@.addr,
    {
        self.addr
    }

    /// The bytes of the chunk, which are no more than a data record holds.
    pub fn bytes(&self) -> (b: &[u8])
        ensures
            b@ == self@.bytes,
            b@.len() <= MAX_RECORD_BYTES,
    {
        proof {
            use_type_invariant(self);
        }
        self.data.as_slice()
    }

    /// The range of addresses that the chunk fills.
    pub fn addr_range(&self) -> (r: AddrRange)
        requires
            self@.well_formed(),
        ensures
            r == self@.range(),
            r.well_formed(),
    {
        let last: u64 = self.addr as u64 + self.data.len() as u64 - 1;
        AddrRange { start: self.addr, end: last as u32 }
    }

    /// The chunk holds a byte for `addr`.
    pub fn covers(&self, addr: u32) -> (b: bool)
        ensures
            b == self@.covers(addr as int),
    {
        self.addr <= addr && ((addr - self.addr) as usize) < self.data.len()
    }

    /// Every byte of the chunk lies in `range`.  A chunk without bytes lies
    /// in every range that reaches from its address down to the address
    /// before it.
    pub fn within(&self, range: AddrRange) -> (b: bool)
        ensures
            b == self@.within(range),
    {
        let len: usize = self.data.len();
        if range.start > self.addr {
            false
        } else if len == 0 {
            self.addr == 0 || self.addr - 1 <= range.end
        } else {
            range.end >= self.addr && len - 1 <= (range.end - self.addr) as usize
        }
    }

    /// The byte at `addr`.
    pub fn get_byte(&self, addr: u32) -> (b: u8)
        requires
            self@.covers(addr as int),
        ensures
            b == self@.byte_at(addr as int),
    {
        self.data[(addr - self.addr) as usize]
    }

    /// Moves the chunk to `dest`; the bytes stay as they are.
    pub fn transpose(&mut self, dest: u32)
        ensures
            final(self)@ == old(self)@.at(dest),
    {
        proof {
            use_type_invariant(&*self);
        }
        self.addr = dest;
    }
}

} // verus!
