use hex_reader::{Data, HexFile, StartSegmentAddr};

fn image(start: Option<StartSegmentAddr>, chunks: &[(u32, &[u8])]) -> HexFile {
    HexFile::from_records(
        start,
        chunks.iter().map(|(a, b)| Data::new(*a, b.to_vec())).collect(),
    )
}

fn text(bytes: Vec<u8>) -> String {
    String::from_utf8(bytes).unwrap()
}

#[test]
fn chunk_line_lists_address_and_bytes() {
    let d = Data::new(0x10, vec![0x01, 0x02, 0xAB]);
    assert_eq!(text(d.pretty_print()), "Addr: 0x00000010, Data: [01, 02, ab]\n");
    let d = Data::new(0xDEAD_BEEF, vec![0xFF]);
    assert_eq!(text(d.pretty_print()), "Addr: 0xdeadbeef, Data: [ff]\n");
}

#[test]
fn chunk_line_without_bytes_stays_open() {
    let d = Data::new(0x10, vec![]);
    assert_eq!(text(d.pretty_print()), "Addr: 0x00000010, Data: [");
}

#[test]
fn listing_begins_with_the_entry() {
    let hex = image(
        Some(StartSegmentAddr { cs: 0x0012, ip: 0x34AB }),
        &[(0x20, &[3]), (0x10, &[1, 2])],
    );
    assert_eq!(
        text(hex.pretty_print()),
        "Start Addr: CS = 0x0012, IP = 0x34ab\n\n\
         Addr: 0x00000010, Data: [01, 02]\n\
         Addr: 0x00000020, Data: [03]\n"
    );
}

#[test]
fn listing_without_entry() {
    let hex = image(None, &[(0x10, &[1, 2])]);
    assert_eq!(text(hex.pretty_print()), "Addr: 0x00000010, Data: [01, 02]\n");
    assert_eq!(text(image(None, &[]).pretty_print()), "");
}

#[test]
fn grid_puts_the_highest_address_first() {
    let bytes: Vec<u8> = (1..=10).collect();
    let hex = image(None, &[(0x10, &bytes)]);
    assert_eq!(
        text(hex.print_bytes(0x10, 0x19, 4).unwrap()),
        "\n00000010  04030201 08070605 0a09 "
    );
}

#[test]
fn grid_ends_a_full_line() {
    let bytes: Vec<u8> = (1..=16).collect();
    let hex = image(None, &[(0x10, &bytes)]);
    assert_eq!(
        text(hex.print_bytes(0x10, 0x1f, 4).unwrap()),
        "\n00000010  04030201 08070605 0c0b0a09 100f0e0d \n"
    );
}

#[test]
fn grid_begins_a_line_every_four_clusters() {
    let bytes: Vec<u8> = (0..10).collect();
    let hex = image(None, &[(0x100, &bytes[..4]), (0x104, &bytes[4..])]);
    assert_eq!(
        text(hex.print_bytes(0x101, 0x109, 2).unwrap()),
        "\n00000101  0201 0403 0605 0807 \n00000109  09 "
    );
    assert_eq!(
        text(hex.print_bytes(0x100, 0x104, 1).unwrap()),
        "\n00000100  00 01 02 03 \n00000104  04 "
    );
}

#[test]
fn grid_of_no_address_is_a_newline() {
    let hex = image(None, &[(0x10, &[1])]);
    assert_eq!(text(hex.print_bytes(0x11, 0x10, 4).unwrap()), "\n");
}

#[test]
fn grid_needs_a_byte_for_every_address() {
    let hex = image(None, &[(0x10, &[1, 2]), (0x13, &[3])]);
    assert_eq!(hex.print_bytes(0x10, 0x13, 4), None);
    assert_eq!(hex.print_bytes(0x0f, 0x10, 4), None);
    assert!(hex.print_bytes(0x10, 0x11, 4).is_some());
}
