use hex_reader::{dump_span, print_spans, AddrRange, DumpError, PrintSpan};

fn r(start: u32, end: u32) -> AddrRange {
    AddrRange { start, end }
}

fn span(range: AddrRange, start: u32, end: u32) -> PrintSpan {
    PrintSpan { range, start, end }
}

#[test]
fn spans_without_length_run_to_the_end() {
    let ranges = [r(10, 19), r(30, 39), r(50, 59)];
    assert_eq!(
        print_spans(&ranges, 15, None),
        vec![span(ranges[0], 15, 19), span(ranges[1], 30, 39), span(ranges[2], 50, 59)]
    );
    assert_eq!(
        print_spans(&ranges, 0, None),
        vec![span(ranges[0], 10, 19), span(ranges[1], 30, 39), span(ranges[2], 50, 59)]
    );
}

#[test]
fn spans_skip_ranges_before_the_offset() {
    let ranges = [r(10, 19), r(30, 39), r(50, 59)];
    assert_eq!(
        print_spans(&ranges, 25, None),
        vec![span(ranges[1], 30, 39), span(ranges[2], 50, 59)]
    );
    assert_eq!(print_spans(&ranges, 59, None), vec![span(ranges[2], 59, 59)]);
    assert_eq!(print_spans(&ranges, 60, None), vec![]);
}

#[test]
fn spans_stop_when_the_length_is_used_up() {
    let ranges = [r(10, 19), r(30, 39), r(50, 59)];
    assert_eq!(
        print_spans(&ranges, 15, Some(8)),
        vec![span(ranges[0], 15, 19), span(ranges[1], 30, 32)]
    );
    assert_eq!(print_spans(&ranges, 15, Some(5)), vec![span(ranges[0], 15, 19)]);
    assert_eq!(print_spans(&ranges, 15, Some(1)), vec![span(ranges[0], 15, 15)]);
    assert_eq!(print_spans(&ranges, 15, Some(0)), vec![]);
    assert_eq!(
        print_spans(&ranges, 0, Some(u32::MAX)),
        vec![span(ranges[0], 10, 19), span(ranges[1], 30, 39), span(ranges[2], 50, 59)]
    );
}

#[test]
fn spans_near_the_last_address() {
    let ranges = [r(u32::MAX - 3, u32::MAX)];
    assert_eq!(
        print_spans(&ranges, u32::MAX - 1, Some(10)),
        vec![span(ranges[0], u32::MAX - 1, u32::MAX)]
    );
    assert_eq!(
        print_spans(&ranges, 0, Some(4)),
        vec![span(ranges[0], u32::MAX - 3, u32::MAX)]
    );
}

#[test]
fn dump_runs_to_the_end_of_the_range() {
    let ranges = [r(10, 19), r(30, 39)];
    assert_eq!(dump_span(&ranges, 12, None), Ok(Some(r(12, 19))));
    assert_eq!(dump_span(&ranges, 30, None), Ok(Some(r(30, 39))));
}

#[test]
fn dump_of_a_given_length() {
    let ranges = [r(10, 19), r(30, 39)];
    assert_eq!(dump_span(&ranges, 12, Some(3)), Ok(Some(r(12, 14))));
    assert_eq!(dump_span(&ranges, 12, Some(8)), Ok(Some(r(12, 19))));
    assert_eq!(dump_span(&ranges, 12, Some(0)), Ok(None));
}

#[test]
fn dump_outside_every_range_fails() {
    let ranges = [r(10, 19), r(30, 39)];
    assert_eq!(dump_span(&ranges, 20, None), Err(DumpError::NotInAnyRange { start: 20 }));
    assert_eq!(dump_span(&[], 0, Some(0)), Err(DumpError::NotInAnyRange { start: 0 }));
}

#[test]
fn dump_beyond_the_range_fails() {
    let ranges = [r(10, 19), r(30, 39)];
    assert_eq!(
        dump_span(&ranges, 12, Some(9)),
        Err(DumpError::BeyondRange { len: 9, range: r(10, 19), end: 20 })
    );
    assert_eq!(
        dump_span(&ranges, 12, Some(u32::MAX)),
        Err(DumpError::BeyondRange { len: u32::MAX, range: r(10, 19), end: 12 + 0xFFFF_FFFE })
    );
}
