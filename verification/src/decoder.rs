//! Decoding an Intel HEX text, line by line.
//!
//! A line has the form `:LLAAAATT` followed by data and a checksum, all in
//! hexadecimal digits: the number of data bytes, a 16-bit offset, and the
//! record type.  The checksum is not looked at.

use crate::chunk::{Chunk, Data, StartSegmentAddr};
use crate::digits::{hex_byte, hex_word, spec_hex_byte, spec_hex_word};
use crate::image::{sort_by_addr, views, HexFile, HexImage};
use crate::record::{record_view, reported, DecodeError, Event, Record};
use vstd::prelude::*;
use vstd::slice::slice_subrange;

verus! {

/// The byte that ends a line.
pub const NEWLINE: u8 = 0x0a;

/// The byte that begins a record, `:`.
pub const RECORD_START: u8 = 0x3a;

/// The record type of a data record.
pub const KIND_DATA: u8 = 0x00;

/// The record type of the end-of-file record.
pub const KIND_EOF: u8 = 0x01;

/// The record type of a start-segment-address record.
pub const KIND_START_SEGMENT: u8 = 0x03;

/// The record type of an extended-segment-address record.
pub const KIND_EXTENDED_SEGMENT: u8 = 0x04;

/// The number of bytes of `text` before its first newline.
pub open spec fn line_len(text: Seq<u8>) -> int
    decreases text.len(),
{
    if text.len() == 0 || text[0] == NEWLINE {
        0
    } else {
        1 + line_len(text.drop_first())
    }
}

/// The first line of `text`, without the newline that ends it.
pub open spec fn first_line(text: Seq<u8>) -> Seq<u8> {
    text.take(line_len(text))
}

/// What follows the first line of `text` and its newline.
pub open spec fn after_line(text: Seq<u8>) -> Seq<u8> {
    if line_len(text) < text.len() {
        text.skip(line_len(text) + 1)
    } else {
        Seq::empty()
    }
}

/// The first line ends at the first newline, or at the end of the text.
pub proof fn lemma_line_len(text: Seq<u8>)
    ensures
        0 <= line_len(text) <= text.len(),
        forall|i: int| 0 <= i < line_len(text) ==> text[i] != NEWLINE,
        line_len(text) < text.len() ==> text[line_len(text)] == NEWLINE,
    decreases text.len(),
{
    if text.len() == 0 || text[0] == NEWLINE {
    } else {
        let rest = text.drop_first();
        lemma_line_len(rest);
        assert forall|i: int| 0 <= i < line_len(text) implies text[i] != NEWLINE by {
            if i > 0 {
                assert(rest[i - 1] == text[i]);
            }
        }
    }
}

/// A place without a newline before it, which holds a newline or is the end of
/// the text, is where the first line ends.
pub proof fn lemma_line_len_is(text: Seq<u8>, n: int)
    requires
        0 <= n <= text.len(),
        forall|i: int| 0 <= i < n ==> text[i] != NEWLINE,
        n < text.len() ==> text[n] == NEWLINE,
    ensures
        line_len(text) == n,
    decreases text.len(),
{
    if text.len() == 0 || text[0] == NEWLINE {
    } else {
        let rest = text.drop_first();
        assert forall|i: int| 0 <= i < n - 1 implies rest[i] != NEWLINE by {
            assert(rest[i] == text[i + 1]);
        }
        lemma_line_len_is(rest, n - 1);
    }
}

/// The absolute address of a data record: the offset of its line below the
/// upper 16 bits that the last extended-segment-address record gave, if there
/// was one.
pub open spec fn absolute(high: Option<u16>, offset: u16) -> u32 {
    match high {
        Some(h) => (h * 0x1_0000 + offset) as u32,
        None => offset as u32,
    }
}

/// The `i`-th data byte of a line, if the line holds two hexadecimal digits
/// for it.
pub open spec fn data_byte(line: Seq<u8>, i: int) -> Option<u8> {
    spec_hex_byte(line, 9 + 2 * i)
}

/// The number of whole pairs of characters behind the first nine of a line.
pub open spec fn pairs_in(line: Seq<u8>) -> int {
    (line.len() - 9) / 2
}

/// What a data line with `count` declared bytes says.
///
/// A pair that is not made of hexadecimal digits, among those that the line
/// holds and declares, is reported before a lack of pairs.
pub open spec fn decode_data(line: Seq<u8>, count: u8, addr: u32, line_no: usize) -> Result<
    Event,
    DecodeError,
> {
    let found = pairs_in(line);
    let read = if count <= found {
        count as int
    } else {
        found
    };
    if exists|i: int| 0 <= i < read && (#[trigger] data_byte(line, i)) is None {
        Err(DecodeError::InvalidHex { line: line_no })
    } else if found < count {
        Err(DecodeError::TruncatedData { line: line_no, expected: count, found: found as usize })
    } else {
        Ok(
            Event::Data(
                Chunk { addr, bytes: Seq::new(count as nat, |i: int| data_byte(line, i).unwrap()) },
            ),
        )
    }
}

/// What the line with number `line_no` says, where `high` holds the upper
/// address bits in force.
pub open spec fn decode_line(line: Seq<u8>, high: Option<u16>, line_no: usize) -> Result<
    Event,
    DecodeError,
> {
    if line.len() == 0 || line[0] != RECORD_START {
        Err(DecodeError::MalformedLine { line: line_no })
    } else {
        match (spec_hex_byte(line, 1), spec_hex_word(line, 3), spec_hex_byte(line, 7)) {
            (Some(count), Some(offset), Some(kind)) => {
                if kind == KIND_DATA {
                    decode_data(line, count, absolute(high, offset), line_no)
                } else if kind == KIND_EOF {
                    Ok(Event::Eof)
                } else if kind == KIND_START_SEGMENT {
                    match (spec_hex_word(line, 9), spec_hex_word(line, 13)) {
                        (Some(cs), Some(ip)) => Ok(
                            Event::StartSegmentAddr(StartSegmentAddr { cs, ip }),
                        ),
                        _ => Err(DecodeError::InvalidHex { line: line_no }),
                    }
                } else if kind == KIND_EXTENDED_SEGMENT {
                    match spec_hex_word(line, 9) {
                        Some(h) => Ok(Event::ExtendedSegmentAddr(h)),
                        None => Err(DecodeError::InvalidHex { line: line_no }),
                    }
                } else {
                    Err(DecodeError::UnknownRecordType { line: line_no, kind })
                }
            },
            _ => Err(DecodeError::InvalidHex { line: line_no }),
        }
    }
}

/// The state of a decoder: the text that is left, the upper address bits in
/// force, whether the end-of-file record was read, and the number of lines
/// read.
pub struct Cursor {
    pub rest: Seq<u8>,
    pub high: Option<u16>,
    pub eof: bool,
    pub line: nat,
}

impl Cursor {
    /// The state in which the decoding of `text` begins.
    pub open spec fn start(text: Seq<u8>) -> Cursor {
        Cursor { rest: text, high: None, eof: false, line: 0 }
    }

    /// What the next line says.
    pub open spec fn line_event(self) -> Result<Event, DecodeError> {
        decode_line(first_line(self.rest), self.high, (self.line + 1) as usize)
    }

    /// What the next step of the decoder finds: an event, the end of the
    /// text behind its end-of-file record, or an error.
    pub open spec fn next_event(self) -> Result<Option<Event>, DecodeError> {
        if self.eof {
            if self.rest.len() > 0 {
                Err(DecodeError::TrailingDataAfterEof { line: (self.line + 1) as usize })
            } else {
                Ok(None)
            }
        } else if self.rest.len() == 0 {
            Err(DecodeError::MissingEof { line: self.line as usize })
        } else {
            match self.line_event() {
                Ok(e) => Ok(Some(e)),
                Err(e) => Err(e),
            }
        }
    }

    /// The state after the next step: a line is taken from the text unless
    /// the end-of-file record was read before or nothing is left.
    pub open spec fn advance(self) -> Cursor {
        if self.eof || self.rest.len() == 0 {
            self
        } else {
            Cursor {
                rest: after_line(self.rest),
                high: match self.line_event() {
                    Ok(Event::ExtendedSegmentAddr(h)) => Some(h),
                    _ => self.high,
                },
                eof: self.line_event() matches Ok(Event::Eof),
                line: self.line + 1,
            }
        }
    }
}

/// The image that the rest of a text decodes to, where `start` and the chunks
/// `data` were read before: records are taken up to the end-of-file record,
/// behind which nothing may follow, and the chunks are put in ascending order
/// of their addresses.
pub open spec fn decode_from(c: Cursor, start: Option<StartSegmentAddr>, data: Seq<Chunk>) -> Result<
    HexImage,
    DecodeError,
>
    decreases c.rest.len(),
    via decode_from_decreases
{
    match c.next_event() {
        Err(e) => Err(e),
        Ok(None) => Ok(HexImage { start, chunks: sort_by_addr(data) }),
        Ok(Some(Event::Data(d))) => decode_from(c.advance(), start, data.push(d)),
        Ok(Some(Event::StartSegmentAddr(s))) => decode_from(c.advance(), Some(s), data),
        Ok(Some(_)) => decode_from(c.advance(), start, data),
    }
}

#[via_fn]
proof fn decode_from_decreases(c: Cursor, start: Option<StartSegmentAddr>, data: Seq<Chunk>) {
    lemma_line_len(c.rest);
}

/// A step that takes a line leaves less text.
pub proof fn lemma_advance_shortens(c: Cursor)
    requires
        !c.eof,
        c.rest.len() > 0,
    ensures
        c.advance().rest.len() < c.rest.len(),
{
    lemma_line_len(c.rest);
}

/// The chunks of the data records that the rest of a text holds up to its
/// end-of-file record, in the order of the text and behind `data`, which were
/// read before.
pub open spec fn data_records_from(c: Cursor, data: Seq<Chunk>) -> Seq<Chunk>
    decreases c.rest.len(),
    via data_records_decreases
{
    match c.next_event() {
        Ok(Some(Event::Data(d))) => data_records_from(c.advance(), data.push(d)),
        Ok(Some(_)) => data_records_from(c.advance(), data),
        _ => data,
    }
}

#[via_fn]
proof fn data_records_decreases(c: Cursor, data: Seq<Chunk>) {
    lemma_line_len(c.rest);
}

/// The chunks of the data records of a text, in the order of the text.
pub open spec fn data_records(text: Seq<u8>) -> Seq<Chunk> {
    data_records_from(Cursor::start(text), Seq::empty())
}

/// The image that a text decodes to holds the chunks of its data records,
/// sorted.
pub proof fn lemma_decode_sorts_records(
    c: Cursor,
    start: Option<StartSegmentAddr>,
    data: Seq<Chunk>,
)
    ensures
        decode_from(c, start, data) matches Ok(image) ==> image.chunks == sort_by_addr(
            data_records_from(c, data),
        ),
    decreases c.rest.len(),
{
    lemma_line_len(c.rest);
    match c.next_event() {
        Ok(Some(Event::Data(d))) => {
            lemma_decode_sorts_records(c.advance(), start, data.push(d));
        },
        Ok(Some(Event::StartSegmentAddr(s))) => {
            lemma_decode_sorts_records(c.advance(), Some(s), data);
        },
        Ok(Some(_)) => {
            lemma_decode_sorts_records(c.advance(), start, data);
        },
        _ => {},
    }
}

/// The image that a text decodes to, or the first error in it.
pub open spec fn decode(text: Seq<u8>) -> Result<HexImage, DecodeError> {
    decode_from(Cursor::start(text), None, Seq::empty())
}

/// A decoder over a text.
pub struct Context<'a> {
    buf: &'a [u8],
    addr_hi: Option<u16>,
    eof: bool,
    line_idx: usize,
}

impl<'a> View for Context<'a> {
    type V = Cursor;

    closed spec fn view(&self) -> Cursor {
        Cursor { rest: self.buf@, high: self.addr_hi, eof: self.eof, line: self.line_idx as nat }
    }
}

impl<'a> Context<'a> {
    /// The line count cannot overflow while the text is read.
    pub open spec fn wf(&self) -> bool {
        self@.line + self@.rest.len() <= usize::MAX
    }

    /// A decoder at the beginning of `buf`.
    pub fn new(buf: &'a [u8]) -> (c: Self)
        ensures
            c@ == Cursor::start(buf@),
            c.wf(),
    {
        assert(buf@.len() == buf.len());
        Context { buf, addr_hi: None, eof: false, line_idx: 0 }
    }

    /// Some of the text is left.
    pub fn has_next_line(&self) -> (b: bool)
        ensures
            b == (self@.rest.len() > 0),
    {
        self.buf.len() > 0
    }

    /// Takes the next line from the text and hands it out with its number,
    /// counted from one.  The newline that ends the line is taken with it; the
    /// last line needs none.
    pub fn next_line(&mut self) -> (r: Option<(usize, &'a [u8])>)
        requires
            old(self).wf(),
        ensures
            final(self).wf(),
            old(self)@.rest.len() == 0 ==> r is None && final(self)@ == old(self)@,
            old(self)@.rest.len() > 0 ==> r is Some && r.unwrap().0 == old(self)@.line + 1
                && r.unwrap().1@ == first_line(old(self)@.rest) && final(self)@ == (Cursor {
                rest: after_line(old(self)@.rest),
                line: old(self)@.line + 1,
                ..old(self)@
            }),
            final(self)@.rest.len() <= old(self)@.rest.len(),
            old(self)@.rest.len() > 0 ==> final(self)@.rest.len() < old(self)@.rest.len(),
    {
        let buf: &'a [u8] = self.buf;
        let len: usize = buf.len();
        if len == 0 {
            return None;
        }
        let mut end: usize = 0;
        while end < len && buf[end] != NEWLINE
            invariant
                end <= len,
                len == buf@.len(),
                forall|i: int| 0 <= i < end ==> buf@[i] != NEWLINE,
            decreases len - end,
        {
            end += 1;
        }
        proof {
            lemma_line_len_is(buf@, end as int);
        }
        let line: &'a [u8] = slice_subrange(buf, 0, end);
        if end < len {
            self.buf = slice_subrange(buf, end + 1, len);
        } else {
            self.buf = slice_subrange(buf, len, len);
            proof {
                assert(buf@.subrange(len as int, len as int) =~= Seq::<u8>::empty());
            }
        }
        self.line_idx = self.line_idx + 1;
        Some((self.line_idx, line))
    }

    /// Reads the data bytes of a data line.
    fn read_data(line: &[u8], count: u8, addr: u32, line_no: usize) -> (r: Result<
        Data,
        DecodeError,
    >)
        requires
            line@.len() >= 9,
        ensures
            match r {
                Ok(d) => decode_data(line@, count, addr, line_no) == Ok::<Event, DecodeError>(
                    Event::Data(d@),
                ),
                Err(e) => decode_data(line@, count, addr, line_no) == Err::<Event, DecodeError>(e),
            },
    {
        let n: usize = count as usize;
        let pairs: usize = (line.len() - 9) / 2;
        let mut data: Vec<u8> = Vec::new();
        let mut i: usize = 0;
        while i < n
            invariant
                i <= n,
                n == count,
                i <= pairs,
                pairs == pairs_in(line@),
                line@.len() >= 9,
                data@.len() == i,
                forall|k: int| 0 <= k < i ==> (#[trigger] data_byte(line@, k)) == Some(data@[k]),
            decreases n - i,
        {
            if i == pairs {
                return Err(DecodeError::TruncatedData { line: line_no, expected: count, found: pairs });
            }
            match hex_byte(line, 9 + 2 * i) {
                Some(b) => {
                    data.push(b);
                },
                None => {
                    proof {
                        assert(data_byte(line@, i as int) is None);
                    }
                    return Err(DecodeError::InvalidHex { line: line_no });
                },
            }
            i += 1;
        }
        let d = Data::new(addr, data);
        proof {
            assert(d@.bytes =~= Seq::new(count as nat, |k: int| data_byte(line@, k).unwrap()));
        }
        Ok(d)
    }

    /// Reads one line of the text.
    fn read_line(line: &[u8], high: Option<u16>, line_no: usize) -> (r: Result<
        (Option<Record>, Option<u16>),
        DecodeError,
    >)
        ensures
            match r {
                Ok((rec, h)) => decode_line(line@, high, line_no) matches Ok(ev) && record_view(rec)
                    == reported(Some(ev)) && h == (match ev {
                    Event::ExtendedSegmentAddr(x) => Some(x),
                    _ => high,
                }),
                Err(e) => decode_line(line@, high, line_no) == Err::<Event, DecodeError>(e),
            },
    {
        if line.len() == 0 || line[0] != RECORD_START {
            return Err(DecodeError::MalformedLine { line: line_no });
        }
        let (count, offset, kind) = match (hex_byte(line, 1), hex_word(line, 3), hex_byte(line, 7)) {
            (Some(count), Some(offset), Some(kind)) => (count, offset, kind),
            _ => {
                return Err(DecodeError::InvalidHex { line: line_no });
            },
        };
        if kind == KIND_DATA {
            let addr: u32 = match high {
                Some(h) => {
                    let hi: u32 = h as u32;
                    let lo: u32 = offset as u32;
                    assert((hi << 16) | lo == hi * 0x1_0000 + lo) by (bit_vector)
                        requires
                            hi < 0x1_0000,
                            lo < 0x1_0000,
                    ;
                    (hi << 16) | lo
                },
                None => offset as u32,
            };
            match Self::read_data(line, count, addr, line_no) {
                Ok(d) => Ok((Some(Record::Data(d)), high)),
                Err(e) => Err(e),
            }
        } else if kind == KIND_EOF {
            Ok((Some(Record::Eof), high))
        } else if kind == KIND_START_SEGMENT {
            match (hex_word(line, 9), hex_word(line, 13)) {
                (Some(cs), Some(ip)) => Ok(
                    (Some(Record::StartSegmentAddr(StartSegmentAddr { cs, ip })), high),
                ),
                _ => Err(DecodeError::InvalidHex { line: line_no }),
            }
        } else if kind == KIND_EXTENDED_SEGMENT {
            match hex_word(line, 9) {
                Some(h) => Ok((None, Some(h))),
                None => Err(DecodeError::InvalidHex { line: line_no }),
            }
        } else {
            Err(DecodeError::UnknownRecordType { line: line_no, kind })
        }
    }

    /// Takes the next step: reads a line and hands out its record, if it has
    /// one to hand out.  Behind the end-of-file record nothing is read: text
    /// that is left there is an error.
    pub fn next_record(&mut self) -> (r: Result<Option<Record>, DecodeError>)
        requires
            old(self).wf(),
        ensures
            final(self).wf(),
            final(self)@ == old(self)@.advance(),
            match r {
                Ok(rec) => old(self)@.next_event() matches Ok(ev) && record_view(rec) == reported(
                    ev,
                ),
                Err(e) => old(self)@.next_event() == Err::<Option<Event>, DecodeError>(e),
            },
    {
        if self.eof {
            if self.has_next_line() {
                return Err(DecodeError::TrailingDataAfterEof { line: self.line_idx + 1 });
            } else {
                return Ok(None);
            }
        }
        let high = self.addr_hi;
        let (idx, line) = match self.next_line() {
            Some(found) => found,
            None => {
                return Err(DecodeError::MissingEof { line: self.line_idx });
            },
        };
        match Self::read_line(line, high, idx) {
            Ok((rec, h)) => {
                if let Some(Record::Eof) = &rec {
                    self.eof = true;
                }
                self.addr_hi = h;
                Ok(rec)
            },
            Err(e) => Err(e),
        }
    }

    /// Decodes the text that is left into an image.
    pub fn into_hex_file(self) -> (r: Result<HexFile, DecodeError>)
        requires
            self.wf(),
        ensures
            match r {
                Ok(hex) => decode_from(self@, None, Seq::empty()) == Ok::<HexImage, DecodeError>(
                    hex@,
                ),
                Err(e) => decode_from(self@, None, Seq::empty()) == Err::<HexImage, DecodeError>(e),
            },
    {
        let ghost begin = self@;
        let mut ctx = self;
        assert(begin == ctx@);
        let mut start: Option<StartSegmentAddr> = None;
        let mut data: Vec<Data> = Vec::new();
        proof {
            assert(views(data@) =~= Seq::<Chunk>::empty());
        }
        loop
            invariant_except_break
                ctx.wf(),
                decode_from(begin, None, Seq::empty()) == decode_from(ctx@, start, views(data@)),
            invariant
                begin == self@,
            ensures
                decode_from(begin, None, Seq::empty()) == Ok::<HexImage, DecodeError>(
                    HexImage { start, chunks: sort_by_addr(views(data@)) },
                ),
            decreases ctx@.rest.len(),
        {
            let ghost before = ctx@;
            let ghost chunks = views(data@);
            proof {
                if !before.eof && before.rest.len() > 0 {
                    lemma_advance_shortens(before);
                }
            }
            match ctx.next_record() {
                Err(e) => {
                    return Err(e);
                },
                Ok(Some(Record::Data(d))) => {
                    data.push(d);
                    proof {
                        assert(views(data@) =~= chunks.push(d@));
                    }
                },
                Ok(Some(Record::StartSegmentAddr(s))) => {
                    start = Some(s);
                },
                Ok(Some(Record::Eof)) => {},
                Ok(None) => {
                    if ctx.eof {
                        break ;
                    }
                },
            }
        }
        Ok(HexFile::from_records(start, data))
    }
}

} // verus!
