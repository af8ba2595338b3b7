//! The text that is written for an image decodes to that image.

use crate::chunk::{Chunk, StartSegmentAddr, MAX_RECORD_BYTES};
use crate::decoder::{
    absolute, after_line, data_byte, decode, decode_data, decode_from, decode_line, first_line,
    lemma_line_len_is, pairs_in, Cursor, KIND_DATA, KIND_EOF, KIND_EXTENDED_SEGMENT,
    KIND_START_SEGMENT, NEWLINE, RECORD_START,
};
use crate::digits::{
    hex_char_upper, hex_value, is_hex_digit, spec_hex_byte, spec_hex_word, upper2, upper4,
};
use crate::encoder::{
    be16, checksum, chunks_records, hex_text, high_after, high_half, low_half,
    needs_high, record_text, upper_bytes,
};
use crate::image::{lemma_sort_sorted, sort_by_addr, sorted, HexImage};
use crate::record::{DecodeError, Event};
use vstd::prelude::*;

verus! {

/// An upper-case hexadecimal digit is read as the value that it was written
/// for, and is no newline.
pub proof fn lemma_upper_digit(v: int)
    requires
        0 <= v < 16,
    ensures
        is_hex_digit(hex_char_upper(v)),
        hex_value(hex_char_upper(v)) == v,
        hex_char_upper(v) != NEWLINE,
        hex_char_upper(v) != RECORD_START,
{
}

/// Two upper-case digits at `at` are read as the byte that they were written
/// for.
pub proof fn lemma_reads_upper2(line: Seq<u8>, at: int, b: u8)
    requires
        0 <= at,
        at + 2 <= line.len(),
        line[at] == upper2(b)[0],
        line[at + 1] == upper2(b)[1],
    ensures
        spec_hex_byte(line, at) == Some(b),
{
    lemma_upper_digit(b as int / 16);
    lemma_upper_digit(b as int % 16);
}

/// Four upper-case digits at `at` are read as the number that they were
/// written for.
pub proof fn lemma_reads_upper4(line: Seq<u8>, at: int, x: u16)
    requires
        0 <= at,
        at + 4 <= line.len(),
        forall|i: int| 0 <= i < 4 ==> line[at + i] == upper4(x)[i],
    ensures
        spec_hex_word(line, at) == Some(x),
{
    let hi = (x / 0x100) as u8;
    let lo = (x % 0x100) as u8;
    assert(line[at] == upper4(x)[0] && line[at + 1] == upper4(x)[1] && line[at + 2] == upper4(x)[2]
        && line[at + 3] == upper4(x)[3]);
    lemma_upper_digit(hi as int / 16);
    lemma_upper_digit(hi as int % 16);
    lemma_upper_digit(lo as int / 16);
    lemma_upper_digit(lo as int % 16);
}

/// The digits of `bytes` take two places for each byte, and hold the digits
/// of byte `i` at the places `2 * i` and `2 * i + 1`.
pub proof fn lemma_upper_bytes(bytes: Seq<u8>)
    ensures
        upper_bytes(bytes).len() == 2 * bytes.len(),
        forall|i: int|
            0 <= i < bytes.len() ==> upper_bytes(bytes)[2 * i] == upper2(#[trigger] bytes[i])[0]
                && upper_bytes(bytes)[2 * i + 1] == upper2(bytes[i])[1],
        forall|j: int|
            0 <= j < upper_bytes(bytes).len() ==> (#[trigger] upper_bytes(bytes)[j]) != NEWLINE,
    decreases bytes.len(),
{
    if bytes.len() > 0 {
        let init = bytes.drop_last();
        lemma_upper_bytes(init);
        lemma_upper_digit(bytes.last() as int / 16);
        lemma_upper_digit(bytes.last() as int % 16);
        assert forall|i: int| 0 <= i < bytes.len() implies upper_bytes(bytes)[2 * i] == upper2(
            #[trigger] bytes[i],
        )[0] && upper_bytes(bytes)[2 * i + 1] == upper2(bytes[i])[1] by {
            if i < init.len() {
                assert(init[i] == bytes[i]);
            }
        }
    }
}

/// The line of a record, without its newline.
pub open spec fn record_line(offset: u16, kind: u8, payload: Seq<u8>) -> Seq<u8> {
    record_text(offset, kind, payload).drop_last()
}

/// What the line of a record holds: the record start, the number of payload
/// bytes, the offset and the record type where the decoder reads them, and
/// then the payload, pair after pair.  The line holds no newline.
pub proof fn lemma_record_line(offset: u16, kind: u8, payload: Seq<u8>)
    requires
        payload.len() <= MAX_RECORD_BYTES,
    ensures
        record_line(offset, kind, payload).len() == 11 + 2 * payload.len(),
        record_text(offset, kind, payload) == record_line(offset, kind, payload).push(NEWLINE),
        record_line(offset, kind, payload)[0] == RECORD_START,
        spec_hex_byte(record_line(offset, kind, payload), 1) == Some(payload.len() as u8),
        spec_hex_word(record_line(offset, kind, payload), 3) == Some(offset),
        spec_hex_byte(record_line(offset, kind, payload), 7) == Some(kind),
        pairs_in(record_line(offset, kind, payload)) == payload.len() + 1,
        forall|i: int|
            0 <= i < payload.len() ==> #[trigger] data_byte(record_line(offset, kind, payload), i)
                == Some(payload[i]),
        forall|j: int|
            0 <= j < record_line(offset, kind, payload).len() ==> (#[trigger] record_line(
                offset,
                kind,
                payload,
            )[j]) != NEWLINE,
{
    reveal(record_text);
    let count = payload.len() as u8;
    let check = checksum(count, offset, kind, payload);
    let text = record_text(offset, kind, payload);
    let line = record_line(offset, kind, payload);
    let digits = upper_bytes(payload);
    lemma_upper_bytes(payload);
    let head = seq![RECORD_START] + upper2(count) + upper4(offset) + upper2(kind);
    assert(head.len() == 9);
    assert(text =~= head + digits + upper2(check) + seq![NEWLINE]);
    assert(line =~= head + digits + upper2(check));
    assert(text =~= line.push(NEWLINE));
    assert(line[0] == RECORD_START);
    assert(line[1] == upper2(count)[0] && line[2] == upper2(count)[1]);
    lemma_reads_upper2(line, 1, count);
    assert forall|i: int| 0 <= i < 4 implies line[3 + i] == upper4(offset)[i] by {
        assert(head[3 + i] == upper4(offset)[i]);
    }
    lemma_reads_upper4(line, 3, offset);
    assert(line[7] == upper2(kind)[0] && line[8] == upper2(kind)[1]);
    lemma_reads_upper2(line, 7, kind);
    assert forall|i: int| 0 <= i < payload.len() implies #[trigger] data_byte(line, i) == Some(
        payload[i],
    ) by {
        assert(line[9 + 2 * i] == digits[2 * i]);
        assert(line[9 + 2 * i + 1] == digits[2 * i + 1]);
        lemma_reads_upper2(line, 9 + 2 * i, payload[i]);
    }
    assert forall|j: int| 0 <= j < line.len() implies (#[trigger] line[j]) != NEWLINE by {
        lemma_upper_digit(count as int / 16);
        lemma_upper_digit(count as int % 16);
        lemma_upper_digit(kind as int / 16);
        lemma_upper_digit(kind as int % 16);
        lemma_upper_digit(check as int / 16);
        lemma_upper_digit(check as int % 16);
        let hi = (offset / 0x100) as u8;
        let lo = (offset % 0x100) as u8;
        lemma_upper_digit(hi as int / 16);
        lemma_upper_digit(hi as int % 16);
        lemma_upper_digit(lo as int / 16);
        lemma_upper_digit(lo as int % 16);
        if 9 <= j < 9 + digits.len() {
            assert(line[j] == digits[j - 9]);
        }
    }
}

/// A text that begins with the line of a record has that line as its first
/// line, and what stands behind the record behind it.
pub proof fn lemma_record_first(offset: u16, kind: u8, payload: Seq<u8>, tail: Seq<u8>)
    requires
        payload.len() <= MAX_RECORD_BYTES,
    ensures
        (record_text(offset, kind, payload) + tail).len() > 0,
        first_line(record_text(offset, kind, payload) + tail) == record_line(offset, kind, payload),
        after_line(record_text(offset, kind, payload) + tail) == tail,
{
    let line = record_line(offset, kind, payload);
    let text = record_text(offset, kind, payload) + tail;
    lemma_record_line(offset, kind, payload);
    assert(text =~= line.push(NEWLINE) + tail);
    assert forall|i: int| 0 <= i < line.len() implies text[i] != NEWLINE by {
        assert(text[i] == line[i]);
    }
    assert(text[line.len() as int] == NEWLINE);
    lemma_line_len_is(text, line.len() as int);
    assert(text.take(line.len() as int) =~= line);
    assert(text.skip(line.len() as int + 1) =~= tail);
}

/// The line of a data record says the bytes that it was written for, at the
/// address that its offset and the upper address bits in force give.
pub proof fn lemma_data_line(offset: u16, payload: Seq<u8>, high: Option<u16>, line_no: usize)
    requires
        payload.len() <= MAX_RECORD_BYTES,
    ensures
        decode_line(record_line(offset, KIND_DATA, payload), high, line_no) == Ok::<
            Event,
            DecodeError,
        >(Event::Data(Chunk { addr: absolute(high, offset), bytes: payload })),
{
    let line = record_line(offset, KIND_DATA, payload);
    lemma_record_line(offset, KIND_DATA, payload);
    let count = payload.len() as u8;
    assert(decode_data(line, count, absolute(high, offset), line_no) == Ok::<Event, DecodeError>(
        Event::Data(Chunk { addr: absolute(high, offset), bytes: payload }),
    )) by {
        assert forall|i: int| 0 <= i < count implies (#[trigger] data_byte(line, i)) is Some by {
            assert(data_byte(line, i) == Some(payload[i]));
        }
        assert(Seq::new(count as nat, |i: int| data_byte(line, i).unwrap()) =~= payload);
    }
}

/// The line of an extended-segment-address record says the upper address
/// bits that it was written for.
pub proof fn lemma_high_line(h: u16, high: Option<u16>, line_no: usize)
    ensures
        decode_line(record_line(0, KIND_EXTENDED_SEGMENT, be16(h)), high, line_no) == Ok::<
            Event,
            DecodeError,
        >(Event::ExtendedSegmentAddr(h)),
{
    let payload = be16(h);
    let line = record_line(0, KIND_EXTENDED_SEGMENT, payload);
    lemma_record_line(0, KIND_EXTENDED_SEGMENT, payload);
    lemma_word_at(line, 0, payload, h);
}

/// The line of a start-segment-address record says the entry descriptor that
/// it was written for.
pub proof fn lemma_start_line(s: StartSegmentAddr, high: Option<u16>, line_no: usize)
    ensures
        decode_line(record_line(0, KIND_START_SEGMENT, be16(s.cs) + be16(s.ip)), high, line_no)
            == Ok::<Event, DecodeError>(Event::StartSegmentAddr(s)),
{
    let payload = be16(s.cs) + be16(s.ip);
    let line = record_line(0, KIND_START_SEGMENT, payload);
    lemma_record_line(0, KIND_START_SEGMENT, payload);
    assert(payload[0] == be16(s.cs)[0] && payload[1] == be16(s.cs)[1]);
    assert(payload[2] == be16(s.ip)[0] && payload[3] == be16(s.ip)[1]);
    lemma_word_at(line, 0, payload, s.cs);
    lemma_word_at(line, 2, payload, s.ip);
}

/// The line of the end-of-file record says the end of the text.
pub proof fn lemma_eof_line(high: Option<u16>, line_no: usize)
    ensures
        decode_line(record_line(0, KIND_EOF, Seq::empty()), high, line_no) == Ok::<
            Event,
            DecodeError,
        >(Event::Eof),
{
    lemma_record_line(0, KIND_EOF, Seq::empty());
}

/// Where a line holds the payload bytes `i` and `i + 1` as two pairs of
/// digits, the four digits are read as the 16-bit number with these bytes.
proof fn lemma_word_at(line: Seq<u8>, i: int, payload: Seq<u8>, x: u16)
    requires
        0 <= i,
        i + 2 <= payload.len(),
        9 + 2 * i + 4 <= line.len(),
        data_byte(line, i) == Some(payload[i]),
        data_byte(line, i + 1) == Some(payload[i + 1]),
        payload[i] == be16(x)[0],
        payload[i + 1] == be16(x)[1],
    ensures
        spec_hex_word(line, 9 + 2 * i) == Some(x),
{
    let at = 9 + 2 * i;
    let hi = payload[i];
    let lo = payload[i + 1];
    assert(spec_hex_byte(line, at) == Some(hi));
    assert(spec_hex_byte(line, at + 2) == Some(lo));
    assert(hi == x / 0x100 && lo == x % 0x100);
    assert(16 * hex_value(line[at]) + hex_value(line[at + 1]) == hi);
    assert(16 * hex_value(line[at + 2]) + hex_value(line[at + 3]) == lo);
}

/// The offset of a data record below the upper address bits in force behind
/// its chunk gives the address of the chunk.
pub proof fn lemma_absolute(high: Option<u16>, addr: u32)
    ensures
        absolute(high_after(high, addr), low_half(addr)) == addr,
{
}

/// A decoder before the line of a record reads that line and stands before
/// what follows the record.
proof fn lemma_step(c: Cursor, offset: u16, kind: u8, payload: Seq<u8>, tail: Seq<u8>)
    requires
        !c.eof,
        c.rest == record_text(offset, kind, payload) + tail,
        payload.len() <= MAX_RECORD_BYTES,
    ensures
        c.rest.len() > 0,
        c.line_event() == decode_line(
            record_line(offset, kind, payload),
            c.high,
            (c.line + 1) as usize,
        ),
        c.advance().rest == tail,
        c.advance().line == c.line + 1,
{
    lemma_record_first(offset, kind, payload, tail);
}

/// Decoding from the data record of a chunk on is decoding from behind it on
/// with the chunk read.
proof fn lemma_data_step(
    c: Cursor,
    first: Chunk,
    tail: Seq<u8>,
    start: Option<StartSegmentAddr>,
    data: Seq<Chunk>,
)
    requires
        !c.eof,
        c.rest == record_text(low_half(first.addr), KIND_DATA, first.bytes) + tail,
        absolute(c.high, low_half(first.addr)) == first.addr,
        first.bytes.len() <= MAX_RECORD_BYTES,
    ensures
        decode_from(c, start, data) == decode_from(
            Cursor { rest: tail, high: c.high, eof: false, line: c.line + 1 },
            start,
            data.push(first),
        ),
{
    lemma_step(c, low_half(first.addr), KIND_DATA, first.bytes, tail);
    lemma_data_line(low_half(first.addr), first.bytes, c.high, (c.line + 1) as usize);
    let read = Chunk { addr: first.addr, bytes: first.bytes };
    assert(read == first);
    assert(c.line_event() == Ok::<Event, DecodeError>(Event::Data(first)));
    assert(c.next_event() == Ok::<Option<Event>, DecodeError>(Some(Event::Data(first))));
    assert(c.advance() == (Cursor { rest: tail, high: c.high, eof: false, line: c.line + 1 }));
}

/// Decoding from an extended-segment-address record on is decoding from
/// behind it on with its upper address bits in force.
proof fn lemma_high_step(
    c: Cursor,
    h: u16,
    tail: Seq<u8>,
    start: Option<StartSegmentAddr>,
    data: Seq<Chunk>,
)
    requires
        !c.eof,
        c.rest == record_text(0, KIND_EXTENDED_SEGMENT, be16(h)) + tail,
    ensures
        decode_from(c, start, data) == decode_from(
            Cursor { rest: tail, high: Some(h), eof: false, line: c.line + 1 },
            start,
            data,
        ),
{
    lemma_step(c, 0, KIND_EXTENDED_SEGMENT, be16(h), tail);
    lemma_high_line(h, c.high, (c.line + 1) as usize);
    assert(c.line_event() == Ok::<Event, DecodeError>(Event::ExtendedSegmentAddr(h)));
    assert(c.next_event() == Ok::<Option<Event>, DecodeError>(
        Some(Event::ExtendedSegmentAddr(h)),
    ));
    assert(c.advance() == (Cursor { rest: tail, high: Some(h), eof: false, line: c.line + 1 }));
}

/// Decoding from a start-segment-address record on is decoding from behind
/// it on with its entry descriptor read.
proof fn lemma_start_step(
    c: Cursor,
    s: StartSegmentAddr,
    tail: Seq<u8>,
    start: Option<StartSegmentAddr>,
    data: Seq<Chunk>,
)
    requires
        !c.eof,
        c.rest == record_text(0, KIND_START_SEGMENT, be16(s.cs) + be16(s.ip)) + tail,
    ensures
        decode_from(c, start, data) == decode_from(
            Cursor { rest: tail, high: c.high, eof: false, line: c.line + 1 },
            Some(s),
            data,
        ),
{
    lemma_step(c, 0, KIND_START_SEGMENT, be16(s.cs) + be16(s.ip), tail);
    lemma_start_line(s, c.high, (c.line + 1) as usize);
    assert(c.line_event() == Ok::<Event, DecodeError>(Event::StartSegmentAddr(s)));
    assert(c.next_event() == Ok::<Option<Event>, DecodeError>(Some(Event::StartSegmentAddr(s))));
    assert(c.advance() == (Cursor { rest: tail, high: c.high, eof: false, line: c.line + 1 }));
}

/// Decoding from an end-of-file record at the end of the text gives the
/// image of what was read, with the chunks sorted.
proof fn lemma_eof_step(c: Cursor, start: Option<StartSegmentAddr>, data: Seq<Chunk>)
    requires
        !c.eof,
        c.rest == record_text(0, KIND_EOF, Seq::empty()),
    ensures
        decode_from(c, start, data) == Ok::<HexImage, DecodeError>(
            HexImage { start, chunks: sort_by_addr(data) },
        ),
{
    let eof_text = record_text(0, KIND_EOF, Seq::empty());
    assert(eof_text =~= eof_text + Seq::<u8>::empty());
    lemma_step(c, 0, KIND_EOF, Seq::empty(), Seq::empty());
    lemma_eof_line(c.high, (c.line + 1) as usize);
    assert(c.line_event() == Ok::<Event, DecodeError>(Event::Eof));
    assert(c.next_event() == Ok::<Option<Event>, DecodeError>(Some(Event::Eof)));
    let done = c.advance();
    assert(done == (Cursor { rest: Seq::empty(), high: c.high, eof: true, line: c.line + 1 }));
    assert(decode_from(c, start, data) == decode_from(done, start, data));
    assert(done.next_event() == Ok::<Option<Event>, DecodeError>(None));
}

/// Decoding the records of `chunks`, and then what stands behind them, gives
/// what decoding `tail` gives after the chunks were read.
pub proof fn lemma_decode_chunks(
    c: Cursor,
    chunks: Seq<Chunk>,
    tail: Seq<u8>,
    start: Option<StartSegmentAddr>,
    data: Seq<Chunk>,
)
    requires
        !c.eof,
        c.rest == chunks_records(c.high, chunks) + tail,
        forall|i: int| 0 <= i < chunks.len() ==> (#[trigger] chunks[i]).bytes.len() <= MAX_RECORD_BYTES,
    ensures
        exists|after: Cursor|
            !after.eof && after.rest == tail && #[trigger] decode_from(after, start, data + chunks)
                == decode_from(c, start, data),
    decreases chunks.len(),
{
    if chunks.len() == 0 {
        assert(c.rest =~= tail);
        assert(data + chunks =~= data);
        assert(decode_from(c, start, data + chunks) == decode_from(c, start, data));
    } else {
        let first = chunks[0];
        let others = chunks.drop_first();
        let high = high_after(c.high, first.addr);
        let rest = chunks_records(high, others) + tail;
        let data_text = record_text(low_half(first.addr), KIND_DATA, first.bytes);
        assert(first.bytes.len() <= MAX_RECORD_BYTES);
        lemma_absolute(c.high, first.addr);
        let at_data = if needs_high(c.high, first.addr) {
            let lead = record_text(0, KIND_EXTENDED_SEGMENT, be16(high_half(first.addr)));
            assert(c.rest =~= lead + (data_text + rest));
            lemma_high_step(c, high_half(first.addr), data_text + rest, start, data);
            Cursor { rest: data_text + rest, high: Some(high_half(first.addr)), eof: false, line: c.line + 1 }
        } else {
            assert(c.rest =~= data_text + rest);
            c
        };
        assert(decode_from(c, start, data) == decode_from(at_data, start, data));
        lemma_data_step(at_data, first, rest, start, data);
        let next = Cursor { rest, high, eof: false, line: at_data.line + 1 };
        assert forall|i: int| 0 <= i < others.len() implies (#[trigger] others[i]).bytes.len()
            <= MAX_RECORD_BYTES by {
            assert(others[i] == chunks[i + 1]);
        }
        lemma_decode_chunks(next, others, tail, start, data.push(first));
        let after = choose|after: Cursor|
            !after.eof && after.rest == tail && #[trigger] decode_from(
                after,
                start,
                data.push(first) + others,
            ) == decode_from(next, start, data.push(first));
        assert(data.push(first) + others =~= data + chunks);
        assert(decode_from(after, start, data + chunks) == decode_from(c, start, data));
    }
}

/// The text that is written for an image decodes to that image, where the
/// chunks of the image are in ascending order of their addresses and none
/// holds more bytes than a data record can.
pub proof fn lemma_written_text_decodes(image: HexImage)
    requires
        sorted(image.chunks),
        forall|i: int|
            0 <= i < image.chunks.len() ==> (#[trigger] image.chunks[i]).bytes.len()
                <= MAX_RECORD_BYTES,
    ensures
        decode(hex_text(image)) == Ok::<HexImage, DecodeError>(image),
{
    let eof_text = record_text(0, KIND_EOF, Seq::empty());
    let start_text = match image.start {
        Some(s) => record_text(0, KIND_START_SEGMENT, be16(s.cs) + be16(s.ip)),
        None => Seq::empty(),
    };
    let tail = start_text + eof_text;
    let begin = Cursor::start(hex_text(image));
    let none = Seq::<Chunk>::empty();
    assert(begin.rest =~= chunks_records(None, image.chunks) + tail);
    lemma_decode_chunks(begin, image.chunks, tail, None, none);
    let after = choose|after: Cursor|
        !after.eof && after.rest == tail && #[trigger] decode_from(after, None, none + image.chunks)
            == decode_from(begin, None, none);
    assert(none + image.chunks =~= image.chunks);
    match image.start {
        Some(s) => {
            lemma_start_step(after, s, eof_text, None, image.chunks);
            lemma_eof_step(
                Cursor { rest: eof_text, high: after.high, eof: false, line: after.line + 1 },
                Some(s),
                image.chunks,
            );
        },
        None => {
            assert(tail =~= eof_text);
            lemma_eof_step(after, None, image.chunks);
        },
    }
    lemma_sort_sorted(image.chunks);
}

} // verus!
