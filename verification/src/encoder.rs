//! Writing an image as Intel HEX text.
//!
//! Each chunk becomes a data record.  An extended-segment-address record
//! stands before a data record whose upper address bits differ from those in
//! force.  The entry descriptor, if there is one, and the end-of-file record
//! come last.

use crate::chunk::{Chunk, Data, MAX_RECORD_BYTES};
use crate::decoder::{
    KIND_DATA, KIND_EOF, KIND_EXTENDED_SEGMENT, KIND_START_SEGMENT, NEWLINE, RECORD_START,
};
use crate::digits::{push_upper2, push_upper4, upper2, upper4};
use crate::image::{views, HexFile, HexImage};
use vstd::prelude::*;

verus! {

/// The sum of `bytes`.
pub open spec fn byte_sum(bytes: Seq<u8>) -> int
    decreases bytes.len(),
{
    if bytes.len() == 0 {
        0
    } else {
        byte_sum(bytes.drop_last()) + bytes.last()
    }
}

/// The checksum of a record: the byte that makes the sum of all bytes of the
/// record a multiple of 256.
pub open spec fn checksum(count: u8, offset: u16, kind: u8, payload: Seq<u8>) -> u8 {
    ((0x100 - (count + offset / 0x100 + offset % 0x100 + kind + byte_sum(payload)) % 0x100)
        % 0x100) as u8
}

/// `bytes` in upper-case hexadecimal digits.
pub open spec fn upper_bytes(bytes: Seq<u8>) -> Seq<u8>
    decreases bytes.len(),
{
    if bytes.len() == 0 {
        Seq::empty()
    } else {
        upper_bytes(bytes.drop_last()) + upper2(bytes.last())
    }
}

/// The line of a record with its newline: `:`, the number of payload bytes,
/// the offset, the record type, the payload and the checksum.
#[verifier::opaque]
pub open spec fn record_text(offset: u16, kind: u8, payload: Seq<u8>) -> Seq<u8>
    recommends
        payload.len() <= MAX_RECORD_BYTES,
{
    seq![RECORD_START] + upper2(payload.len() as u8) + upper4(offset) + upper2(kind) + upper_bytes(
        payload,
    ) + upper2(checksum(payload.len() as u8, offset, kind, payload)) + seq![NEWLINE]
}

/// The two bytes of `x`, the upper first.
pub open spec fn be16(x: u16) -> Seq<u8> {
    seq![(x / 0x100) as u8, (x % 0x100) as u8]
}

/// The upper 16 bits of an address.
pub open spec fn high_half(addr: u32) -> u16 {
    (addr / 0x1_0000) as u16
}

/// The lower 16 bits of an address.
pub open spec fn low_half(addr: u32) -> u16 {
    (addr % 0x1_0000) as u16
}

/// A data record at `addr` needs an extended-segment-address record before
/// it: its upper address bits are not those in force, or none are in force
/// and they are not zero.
pub open spec fn needs_high(high: Option<u16>, addr: u32) -> bool {
    match high {
        Some(h) => h != high_half(addr),
        None => high_half(addr) != 0,
    }
}

/// The upper address bits in force behind the records of a chunk at `addr`.
pub open spec fn high_after(high: Option<u16>, addr: u32) -> Option<u16> {
    if needs_high(high, addr) {
        Some(high_half(addr))
    } else {
        high
    }
}

/// The records of a chunk: an extended-segment-address record, if it is
/// needed, and the data record.
pub open spec fn chunk_records(high: Option<u16>, c: Chunk) -> Seq<u8> {
    (if needs_high(high, c.addr) {
        record_text(0, KIND_EXTENDED_SEGMENT, be16(high_half(c.addr)))
    } else {
        Seq::empty()
    }) + record_text(low_half(c.addr), KIND_DATA, c.bytes)
}

/// The records of `chunks`, chunk after chunk, where `high` holds the upper
/// address bits in force before them.
pub open spec fn chunks_records(high: Option<u16>, chunks: Seq<Chunk>) -> Seq<u8>
    decreases chunks.len(),
{
    if chunks.len() == 0 {
        Seq::empty()
    } else {
        chunk_records(high, chunks[0]) + chunks_records(
            high_after(high, chunks[0].addr),
            chunks.drop_first(),
        )
    }
}

/// The Intel HEX text of an image: the records of its chunks, the
/// start-segment-address record if it has an entry descriptor, and the
/// end-of-file record.
pub open spec fn hex_text(image: HexImage) -> Seq<u8> {
    chunks_records(None, image.chunks) + (match image.start {
        Some(s) => record_text(0, KIND_START_SEGMENT, be16(s.cs) + be16(s.ip)),
        None => Seq::empty(),
    }) + record_text(0, KIND_EOF, Seq::empty())
}

/// Appends the line of a record.
fn push_record(out: &mut Vec<u8>, offset: u16, kind: u8, payload: &[u8])
    requires
        payload@.len() <= MAX_RECORD_BYTES,
    ensures
        final(out)@ == old(out)@ + record_text(offset, kind, payload@),
{
    let count: u8 = payload.len() as u8;
    out.push(RECORD_START);
    push_upper2(out, count);
    push_upper4(out, offset);
    push_upper2(out, kind);
    let ghost head = out@;
    let mut sum: u32 = count as u32 + (offset / 0x100) as u32 + (offset % 0x100) as u32 + kind as u32;
    let n: usize = payload.len();
    let mut i: usize = 0;
    proof {
        assert(payload@.take(0) =~= Seq::<u8>::empty());
        assert(out@ =~= head + upper_bytes(payload@.take(0)));
    }
    while i < n
        invariant
            i <= n,
            n == payload@.len(),
            n <= MAX_RECORD_BYTES,
            out@ == head + upper_bytes(payload@.take(i as int)),
            sum == count + offset / 0x100 + offset % 0x100 + kind + byte_sum(payload@.take(i as int)),
            0 <= byte_sum(payload@.take(i as int)) <= 255 * i,
        decreases n - i,
    {
        proof {
            assert(payload@.take(i as int + 1).drop_last() =~= payload@.take(i as int));
            assert(payload@.take(i as int + 1).last() == payload@[i as int]);
        }
        push_upper2(out, payload[i]);
        sum = sum + payload[i] as u32;
        i += 1;
    }
    proof {
        assert(payload@.take(n as int) =~= payload@);
    }
    let check: u8 = ((0x100 - sum % 0x100) % 0x100) as u8;
    push_upper2(out, check);
    out.push(NEWLINE);
    proof {
        reveal(record_text);
        assert(final(out)@ =~= old(out)@ + record_text(offset, kind, payload@));
    }
}

impl HexFile {
    /// Appends the image as Intel HEX text.
    pub fn write(&self, out: &mut Vec<u8>)
        ensures
            final(out)@ == old(out)@ + hex_text(self@),
    {
        let ghost chunks = self@.chunks;
        let data: &[Data] = self.data();
        let n: usize = data.len();
        let mut high: Option<u16> = None;
        let mut i: usize = 0;
        proof {
            assert(chunks.skip(0) =~= chunks);
        }
        while i < n
            invariant
                i <= n,
                n == data@.len(),
                chunks == views(data@),
                old(out)@ + chunks_records(None, chunks) == out@ + chunks_records(
                    high,
                    chunks.skip(i as int),
                ),
            decreases n - i,
        {
            let ghost before = out@;
            let ghost high_before = high;
            let ghost rest = chunks.skip(i as int);
            let d: &Data = &data[i];
            let addr: u32 = d.addr();
            let upper: u16 = (addr / 0x1_0000) as u16;
            let needed: bool = match high {
                Some(h) => h != upper,
                None => upper != 0,
            };
            proof {
                assert(rest[0] == d@);
                assert(rest.drop_first() =~= chunks.skip(i as int + 1));
            }
            if needed {
                let payload: [u8; 2] = [(upper / 0x100) as u8, (upper % 0x100) as u8];
                proof {
                    assert(payload@ =~= be16(upper));
                }
                push_record(out, 0, KIND_EXTENDED_SEGMENT, payload.as_slice());
                high = Some(upper);
            }
            push_record(out, (addr % 0x1_0000) as u16, KIND_DATA, d.bytes());
            proof {
                assert(out@ =~= before + chunk_records(high_before, d@));
                assert(high == high_after(high_before, addr));
            }
            i += 1;
        }
        proof {
            assert(chunks.skip(n as int) =~= Seq::<Chunk>::empty());
        }
        match self.start() {
            Some(s) => {
                let payload: [u8; 4] = [
                    (s.cs / 0x100) as u8,
                    (s.cs % 0x100) as u8,
                    (s.ip / 0x100) as u8,
                    (s.ip % 0x100) as u8,
                ];
                proof {
                    assert(payload@ =~= be16(s.cs) + be16(s.ip));
                }
                push_record(out, 0, KIND_START_SEGMENT, payload.as_slice());
            },
            None => {},
        }
        let none: [u8; 0] = [];
        proof {
            assert(none@ =~= Seq::<u8>::empty());
        }
        push_record(out, 0, KIND_EOF, none.as_slice());
        proof {
            assert(final(out)@ =~= old(out)@ + hex_text(self@));
        }
    }
}

} // verus!
