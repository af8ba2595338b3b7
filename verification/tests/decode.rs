use hex_reader::{AddrRange, Context, DecodeError, HexFile, Record, StartSegmentAddr};

fn decode(text: &str) -> Result<HexFile, DecodeError> {
    Context::new(text.as_bytes()).into_hex_file()
}

fn chunks(hex: &HexFile) -> Vec<(u32, Vec<u8>)> {
    hex.data().iter().map(|d| (d.addr(), d.bytes().to_vec())).collect()
}

#[test]
fn extended_segment_address_sets_the_high_half() {
    let hex = decode(":020000040001F9\n:0400000000010203F7\n:00000001FF").unwrap();
    assert_eq!(chunks(&hex), vec![(0x0001_0000, vec![0x00, 0x01, 0x02, 0x03])]);
    assert_eq!(
        hex.address_ranges(),
        vec![AddrRange { start: 0x0001_0000, end: 0x0001_0003 }]
    );
    assert_eq!(hex.start_addr(), None);
}

#[test]
fn data_without_extended_address_uses_the_offset_alone() {
    let hex = decode(":02ABCD00FFEE99\n:00000001FF\n").unwrap();
    assert_eq!(chunks(&hex), vec![(0xABCD, vec![0xFF, 0xEE])]);
}

#[test]
fn hex_digits_of_either_case_are_read() {
    let hex = decode(":02abcd00fFeE99\n:00000001ff").unwrap();
    assert_eq!(chunks(&hex), vec![(0xABCD, vec![0xFF, 0xEE])]);
}

#[test]
fn later_extended_address_replaces_the_earlier() {
    let text = ":020000040001F9\n:0100100011AA\n:02000004FFFFFC\n:01002000225D\n:00000001FF\n";
    let hex = decode(text).unwrap();
    assert_eq!(
        chunks(&hex),
        vec![(0x0001_0010, vec![0x11]), (0xFFFF_0020, vec![0x22])]
    );
}

#[test]
fn chunks_are_sorted_by_address() {
    let text = ":0100300033AA\n:0100100011AA\n:0100200022AA\n:00000001FF\n";
    let hex = decode(text).unwrap();
    assert_eq!(
        chunks(&hex),
        vec![(0x10, vec![0x11]), (0x20, vec![0x22]), (0x30, vec![0x33])]
    );
}

#[test]
fn chunks_at_the_same_address_keep_their_order() {
    let text = ":0100100001AA\n:0100000009AA\n:0100100002AA\n:0100100003AA\n:00000001FF\n";
    let hex = decode(text).unwrap();
    assert_eq!(
        chunks(&hex),
        vec![
            (0x00, vec![0x09]),
            (0x10, vec![0x01]),
            (0x10, vec![0x02]),
            (0x10, vec![0x03])
        ]
    );
}

#[test]
fn start_segment_address_gives_the_entry() {
    let hex = decode(":0400000312345679AA\n:0100000000FF\n:00000001FF").unwrap();
    assert_eq!(hex.start_addr(), Some(0x1234_5679));
}

#[test]
fn last_start_segment_address_wins() {
    let hex = decode(":0400000300010002AA\n:04000003000A000BAA\n:00000001FF").unwrap();
    assert_eq!(hex.start_addr(), Some(0x000A_000B));
}

#[test]
fn checksum_is_not_validated() {
    let hex = decode(":0100000055ZZ\n:00000001").unwrap();
    assert_eq!(chunks(&hex), vec![(0, vec![0x55])]);
}

#[test]
fn final_newline_is_optional() {
    assert!(decode(":00000001FF").is_ok());
    assert!(decode(":00000001FF\n").is_ok());
}

#[test]
fn empty_line_is_malformed() {
    assert_eq!(
        decode(":0100000055AA\n\n:00000001FF").unwrap_err(),
        DecodeError::MalformedLine { line: 2 }
    );
}

#[test]
fn line_without_colon_is_malformed() {
    assert_eq!(
        decode("0100000055AA\n:00000001FF").unwrap_err(),
        DecodeError::MalformedLine { line: 1 }
    );
}

#[test]
fn short_line_is_a_number_cut_off() {
    assert_eq!(decode(":0000").unwrap_err(), DecodeError::InvalidHex { line: 1 });
    assert_eq!(decode(":00000001FF\n").map(|_| ()), Ok(()));
    assert_eq!(
        decode(":0100000055AA\n:000000").unwrap_err(),
        DecodeError::InvalidHex { line: 2 }
    );
}

#[test]
fn non_hex_characters_are_rejected() {
    assert_eq!(decode(":0G00000000").unwrap_err(), DecodeError::InvalidHex { line: 1 });
    assert_eq!(decode(":00zz000001").unwrap_err(), DecodeError::InvalidHex { line: 1 });
    assert_eq!(decode(":000000+1FF").unwrap_err(), DecodeError::InvalidHex { line: 1 });
    assert_eq!(
        decode(":02000000AAxx\n:00000001FF").unwrap_err(),
        DecodeError::InvalidHex { line: 1 }
    );
    assert_eq!(
        decode(":00000001FF\n").map(|_| ()),
        Ok(())
    );
    assert_eq!(
        decode(":0200000400\n").unwrap_err(),
        DecodeError::InvalidHex { line: 1 }
    );
    assert_eq!(
        decode(":040000030001\n").unwrap_err(),
        DecodeError::InvalidHex { line: 1 }
    );
}

#[test]
fn too_few_data_bytes_is_truncated_data() {
    assert_eq!(
        decode(":04000000AABB\n:00000001FF").unwrap_err(),
        DecodeError::TruncatedData { line: 1, expected: 4, found: 2 }
    );
    assert_eq!(
        decode(":0100000055AA\n:02000000A").unwrap_err(),
        DecodeError::TruncatedData { line: 2, expected: 2, found: 0 }
    );
}

#[test]
fn bad_pair_is_reported_before_missing_pairs() {
    assert_eq!(
        decode(":04000000AAxx\n").unwrap_err(),
        DecodeError::InvalidHex { line: 1 }
    );
}

#[test]
fn unknown_record_type_is_reported_with_its_kind() {
    assert_eq!(
        decode(":00000002FF\n").unwrap_err(),
        DecodeError::UnknownRecordType { line: 1, kind: 2 }
    );
    assert_eq!(
        decode(":0100000055AA\n:020000050000F5\n").unwrap_err(),
        DecodeError::UnknownRecordType { line: 2, kind: 5 }
    );
}

#[test]
fn text_behind_the_end_of_file_record_is_rejected() {
    assert_eq!(
        decode(":00000001FF\n:0100000055AA\n").unwrap_err(),
        DecodeError::TrailingDataAfterEof { line: 2 }
    );
    assert_eq!(
        decode(":0100000055AA\n:00000001FF\n\n").unwrap_err(),
        DecodeError::TrailingDataAfterEof { line: 3 }
    );
}

#[test]
fn text_without_end_of_file_record_is_rejected() {
    assert_eq!(decode("").unwrap_err(), DecodeError::MissingEof { line: 0 });
    assert_eq!(
        decode(":0100000055AA\n").unwrap_err(),
        DecodeError::MissingEof { line: 1 }
    );
    assert_eq!(
        decode(":0100000055AA").unwrap_err(),
        DecodeError::MissingEof { line: 1 }
    );
}

#[test]
fn empty_data_record_is_kept() {
    let hex = decode(":00001000AA\n:00000001FF").unwrap();
    assert_eq!(chunks(&hex), vec![(0x10, vec![])]);
    assert!(!hex.is_well_formed());
}

#[test]
fn records_come_out_one_by_one() {
    let text = ":020000040001F9\n:0100100011AA\n:0400000300010002AA\n:00000001FF\n";
    let mut ctx = Context::new(text.as_bytes());
    assert_eq!(ctx.next_record(), Ok(None));
    match ctx.next_record() {
        Ok(Some(Record::Data(d))) => {
            assert_eq!(d.addr(), 0x0001_0010);
            assert_eq!(d.bytes(), &[0x11]);
        }
        other => panic!("unexpected {:?}", other),
    }
    assert_eq!(
        ctx.next_record(),
        Ok(Some(Record::StartSegmentAddr(StartSegmentAddr { cs: 1, ip: 2 })))
    );
    assert!(ctx.has_next_line());
    assert_eq!(ctx.next_record(), Ok(Some(Record::Eof)));
    assert!(!ctx.has_next_line());
    assert_eq!(ctx.next_record(), Ok(None));
}

#[test]
fn lines_come_out_with_their_numbers() {
    let mut ctx = Context::new(b"ab\n\ncd");
    assert_eq!(ctx.next_line(), Some((1, &b"ab"[..])));
    assert_eq!(ctx.next_line(), Some((2, &b""[..])));
    assert_eq!(ctx.next_line(), Some((3, &b"cd"[..])));
    assert_eq!(ctx.next_line(), None);
}

#[test]
fn carriage_return_behind_the_fields_is_ignored() {
    let hex = decode(":0100000055AA\r\n:00000001FF\r\n").unwrap();
    assert_eq!(chunks(&hex), vec![(0, vec![0x55])]);
}
