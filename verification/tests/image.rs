use hex_reader::{AddrRange, Context, Data, HexFile, ModelError, StartSegmentAddr};

fn image(chunks: &[(u32, &[u8])]) -> HexFile {
    HexFile::from_records(
        None,
        chunks.iter().map(|(a, b)| Data::new(*a, b.to_vec())).collect(),
    )
}

fn chunks(hex: &HexFile) -> Vec<(u32, Vec<u8>)> {
    hex.data().iter().map(|d| (d.addr(), d.bytes().to_vec())).collect()
}

fn r(start: u32, end: u32) -> AddrRange {
    AddrRange { start, end }
}

#[test]
fn adjacent_chunks_form_one_range() {
    let hex = image(&[(0x10, &[1, 2]), (0x12, &[3]), (0x13, &[4, 5, 6])]);
    assert_eq!(hex.address_ranges(), vec![r(0x10, 0x15)]);
}

#[test]
fn gap_starts_a_new_range() {
    let hex = image(&[(0x10, &[1, 2]), (0x13, &[3]), (0x14, &[4]), (0x20, &[5])]);
    assert_eq!(
        hex.address_ranges(),
        vec![r(0x10, 0x11), r(0x13, 0x14), r(0x20, 0x20)]
    );
}

#[test]
fn ranges_of_chunks_given_out_of_order() {
    let hex = image(&[(0x20, &[5]), (0x12, &[3]), (0x10, &[1, 2])]);
    assert_eq!(hex.address_ranges(), vec![r(0x10, 0x12), r(0x20, 0x20)]);
}

#[test]
fn range_up_to_the_last_address() {
    let hex = image(&[(u32::MAX - 1, &[1, 2]), (u32::MAX, &[3])]);
    assert_eq!(
        hex.address_ranges(),
        vec![r(u32::MAX - 1, u32::MAX), r(u32::MAX, u32::MAX)]
    );
}

#[test]
fn ranges_cover_exactly_the_addresses_of_the_chunks() {
    let hex = image(&[(5, &[1, 2, 3]), (20, &[4]), (8, &[5, 6]), (21, &[7])]);
    let ranges = hex.address_ranges();
    assert_eq!(ranges, vec![r(5, 9), r(20, 21)]);
    for a in 0u32..40 {
        let in_range = ranges.iter().any(|x| x.contains(a));
        let in_chunk = hex.data().iter().any(|d| d.covers(a));
        assert_eq!(in_range, in_chunk, "address {}", a);
    }
    assert!(ranges[0].end < ranges[1].start);
}

#[test]
fn data_in_range_takes_whole_chunks_only() {
    let hex = image(&[(0x10, &[1, 2]), (0x12, &[3, 4]), (0x20, &[5])]);
    assert_eq!(hex.data_in_range(r(0x10, 0x13)), vec![1, 2, 3, 4]);
    assert_eq!(hex.data_in_range(r(0x10, 0x12)), vec![1, 2]);
    assert_eq!(hex.data_in_range(r(0x11, 0x13)), vec![3, 4]);
    assert_eq!(hex.data_in_range(r(0, u32::MAX)), vec![1, 2, 3, 4, 5]);
    assert_eq!(hex.data_in_range(r(0x30, 0x40)), Vec::<u8>::new());
}

#[test]
fn single_run_reads_back_whole() {
    let text = ":0400000000112233AA\n:0400040044556677AA\n:020008008899AA\n:00000001FF";
    let hex = Context::new(text.as_bytes()).into_hex_file().unwrap();
    let ranges = hex.address_ranges();
    assert_eq!(ranges, vec![r(0, 9)]);
    let bytes = hex.data_in_range(ranges[0]);
    assert_eq!(bytes.len(), 10);
    assert_eq!(
        bytes,
        vec![0x00, 0x11, 0x22, 0x33, 0x44, 0x55, 0x66, 0x77, 0x88, 0x99]
    );
    assert_eq!(hex.read_range(ranges[0]), Some(bytes));
}

#[test]
fn read_byte_finds_the_chunk() {
    let hex = image(&[(0x10, &[1, 2]), (0x12, &[3, 4]), (0x20, &[5])]);
    assert_eq!(hex.read_byte(0x0f), None);
    assert_eq!(hex.read_byte(0x10), Some(1));
    assert_eq!(hex.read_byte(0x13), Some(4));
    assert_eq!(hex.read_byte(0x14), None);
    assert_eq!(hex.read_byte(0x20), Some(5));
}

#[test]
fn read_byte_takes_the_first_chunk_on_overlap() {
    let hex = image(&[(0x10, &[1, 2, 3]), (0x11, &[9, 9, 9])]);
    assert_eq!(hex.read_byte(0x11), Some(2));
    assert_eq!(hex.read_byte(0x13), Some(9));
    assert_eq!(hex.read_range(r(0x10, 0x13)), Some(vec![1, 2, 3, 9]));
}

#[test]
fn read_range_cuts_through_chunks() {
    let hex = image(&[(0x10, &[1, 2, 3]), (0x13, &[4, 5]), (0x20, &[6])]);
    assert_eq!(hex.read_range(r(0x11, 0x13)), Some(vec![2, 3, 4]));
    assert_eq!(hex.read_range(r(0x14, 0x14)), Some(vec![5]));
    assert_eq!(hex.read_range(r(0x14, 0x15)), None);
    assert_eq!(hex.read_range(r(0x0f, 0x10)), None);
    assert_eq!(hex.read_range(r(0x20, 0x10)), Some(vec![]));
}

#[test]
fn start_addr_joins_segment_and_pointer() {
    let hex = HexFile::from_records(Some(StartSegmentAddr { cs: 0xABCD, ip: 0x0123 }), vec![]);
    assert_eq!(hex.start_addr(), Some(0xABCD_0123));
    assert_eq!(image(&[]).start_addr(), None);
}

#[test]
fn data_at_gives_the_chunk() {
    let hex = image(&[(0x20, &[5]), (0x10, &[1, 2])]);
    assert_eq!(hex.data().len(), 2);
    assert_eq!(hex.data_at(0).addr(), 0x10);
    assert_eq!(hex.data_at(1).addr(), 0x20);
    assert_eq!(hex.data_at(0).addr_range(), r(0x10, 0x11));
    assert_eq!(hex.data_at(0).get_byte(0x11), 2);
}

#[test]
fn chunk_transpose_keeps_the_bytes() {
    let mut d = Data::new(0x10, vec![1, 2, 3]);
    d.transpose(0x100);
    assert_eq!(d.addr(), 0x100);
    assert_eq!(d.bytes(), &[1, 2, 3]);
    assert_eq!(d.addr_range(), r(0x100, 0x102));
    assert!(d.covers(0x102));
    assert!(!d.covers(0x103));
    assert!(d.within(r(0x100, 0x102)));
    assert!(!d.within(r(0x101, 0x102)));
}

#[test]
fn transpose_moves_every_chunk_of_the_range() {
    let mut hex = image(&[(0x10, &[1, 2]), (0x12, &[3]), (0x40, &[4])]);
    assert_eq!(hex.transpose(0x10, 0x100), Ok(()));
    assert_eq!(
        chunks(&hex),
        vec![(0x40, vec![4]), (0x100, vec![1, 2]), (0x102, vec![3])]
    );
    assert_eq!(hex.address_ranges(), vec![r(0x40, 0x40), r(0x100, 0x102)]);
}

#[test]
fn transpose_downwards() {
    let mut hex = image(&[(0x10, &[1]), (0x40, &[2, 3]), (0x42, &[4])]);
    assert_eq!(hex.transpose(0x40, 0x00), Ok(()));
    assert_eq!(
        chunks(&hex),
        vec![(0x00, vec![2, 3]), (0x02, vec![4]), (0x10, vec![1])]
    );
    let ranges = hex.address_ranges();
    assert_eq!(ranges, vec![r(0x00, 0x02), r(0x10, 0x10)]);
    assert!(ranges.iter().all(|x| x.start != 0x40));
    assert_eq!(ranges[0].size(), 3);
}

#[test]
fn transpose_of_unknown_start_fails() {
    let mut hex = image(&[(0x10, &[1, 2]), (0x12, &[3])]);
    assert_eq!(
        hex.transpose(0x12, 0x100),
        Err(ModelError::NoRangeAtAddress { start: 0x12 })
    );
    assert_eq!(chunks(&hex), vec![(0x10, vec![1, 2]), (0x12, vec![3])]);
    let mut none = image(&[]);
    assert_eq!(
        none.transpose(0, 1),
        Err(ModelError::NoRangeAtAddress { start: 0 })
    );
}

#[test]
fn transpose_onto_another_range_fails_and_changes_nothing() {
    let mut hex = image(&[(0x10, &[1, 2, 3]), (0x40, &[4, 5])]);
    let before = hex.address_ranges();
    assert_eq!(
        hex.transpose(0x10, 0x3f),
        Err(ModelError::OverlapsExistingRange { target: r(0x3f, 0x41), existing: r(0x40, 0x41) })
    );
    assert_eq!(hex.address_ranges(), before);
    assert_eq!(chunks(&hex), vec![(0x10, vec![1, 2, 3]), (0x40, vec![4, 5])]);
}

#[test]
fn transpose_over_a_smaller_range_fails_and_changes_nothing() {
    let mut hex = image(&[(0x10, &[0xAA, 0xBB]), (0x100, &[1, 2, 3, 4, 5, 6, 7, 8])]);
    let before = hex.address_ranges();
    assert_eq!(
        hex.transpose(0x100, 0x0C),
        Err(ModelError::OverlapsExistingRange { target: r(0x0C, 0x13), existing: r(0x10, 0x11) })
    );
    assert_eq!(hex.address_ranges(), before);
    assert_eq!(
        chunks(&hex),
        vec![(0x10, vec![0xAA, 0xBB]), (0x100, vec![1, 2, 3, 4, 5, 6, 7, 8])]
    );
}

#[test]
fn transpose_of_decoded_text_over_a_smaller_range_fails() {
    let text = ":02001000AABB89\n:080100000102030405060708D3\n:00000001FF";
    let mut hex = Context::new(text.as_bytes()).into_hex_file().unwrap();
    assert_eq!(hex.address_ranges(), vec![r(0x10, 0x11), r(0x100, 0x107)]);
    assert!(hex.transpose(0x100, 0x0C).is_err());
    assert_eq!(hex.address_ranges(), vec![r(0x10, 0x11), r(0x100, 0x107)]);
}

#[test]
fn transpose_of_several_chunks_over_a_smaller_range_fails() {
    let mut hex = image(&[(0x10, &[1, 2]), (0x100, &[3, 4, 5, 6]), (0x104, &[7, 8, 9, 10])]);
    assert_eq!(
        hex.transpose(0x100, 0x0C),
        Err(ModelError::OverlapsExistingRange { target: r(0x0C, 0x13), existing: r(0x10, 0x11) })
    );
    assert_eq!(hex.address_ranges(), vec![r(0x10, 0x11), r(0x100, 0x107)]);
}

#[test]
fn transpose_reports_the_first_range_that_it_meets() {
    let mut hex = image(&[(0x10, &[1]), (0x20, &[2]), (0x30, &[3]), (0x100, &[0; 0x20])]);
    assert_eq!(
        hex.transpose(0x100, 0x18),
        Err(ModelError::OverlapsExistingRange { target: r(0x18, 0x37), existing: r(0x20, 0x20) })
    );
}

#[test]
fn transpose_leaves_no_range_at_the_source() {
    let mut hex = image(&[(0x00, &[1, 2]), (0x20, &[3, 4]), (0x40, &[5])]);
    assert_eq!(hex.transpose(0x20, 0x02), Ok(()));
    let ranges = hex.address_ranges();
    assert_eq!(ranges, vec![r(0x00, 0x03), r(0x40, 0x40)]);
    assert!(ranges.iter().all(|x| x.start != 0x20));
    assert!(ranges.iter().all(|x| !x.contains(0x20) && !x.contains(0x21)));
    assert_eq!(
        chunks(&hex),
        vec![(0x00, vec![1, 2]), (0x02, vec![3, 4]), (0x40, vec![5])]
    );
}

#[test]
fn transpose_keeps_the_chunks_ascending_and_apart() {
    let mut hex = image(&[(0x10, &[1, 2]), (0x12, &[3]), (0x40, &[4, 5]), (0x80, &[6])]);
    assert_eq!(hex.transpose(0x10, 0x60), Ok(()));
    let data = chunks(&hex);
    assert_eq!(
        data,
        vec![(0x40, vec![4, 5]), (0x60, vec![1, 2]), (0x62, vec![3]), (0x80, vec![6])]
    );
    for pair in data.windows(2) {
        assert!(pair[0].0 + pair[0].1.len() as u32 - 1 < pair[1].0);
    }
}

#[test]
fn transpose_onto_itself_fails() {
    let mut hex = image(&[(0x10, &[1, 2, 3])]);
    assert_eq!(
        hex.transpose(0x10, 0x11),
        Err(ModelError::OverlapsExistingRange { target: r(0x11, 0x13), existing: r(0x10, 0x12) })
    );
    assert_eq!(
        hex.transpose(0x10, 0x10),
        Err(ModelError::OverlapsExistingRange { target: r(0x10, 0x12), existing: r(0x10, 0x12) })
    );
    assert_eq!(chunks(&hex), vec![(0x10, vec![1, 2, 3])]);
}

#[test]
fn transpose_beyond_the_address_space_fails() {
    let mut hex = image(&[(0x10, &[1, 2, 3])]);
    assert_eq!(
        hex.transpose(0x10, u32::MAX - 1),
        Err(ModelError::DestinationOutOfBounds { dest: u32::MAX - 1 })
    );
    assert_eq!(hex.transpose(0x10, u32::MAX - 2), Ok(()));
    assert_eq!(hex.address_ranges(), vec![r(u32::MAX - 2, u32::MAX)]);
}

#[test]
fn transpose_next_to_a_range_joins_them() {
    let mut hex = image(&[(0x00, &[1, 2]), (0x20, &[3, 4])]);
    assert_eq!(hex.transpose(0x20, 0x02), Ok(()));
    assert_eq!(hex.address_ranges(), vec![r(0x00, 0x03)]);
}

#[test]
fn well_formed_needs_bytes_and_room() {
    assert!(image(&[(0, &[1]), (u32::MAX, &[2])]).is_well_formed());
    assert!(!image(&[(0, &[])]).is_well_formed());
    assert!(!image(&[(u32::MAX, &[1, 2])]).is_well_formed());
    assert!(image(&[]).is_well_formed());
}
