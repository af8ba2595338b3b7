use hex_reader::{Context, Data, HexFile, StartSegmentAddr};

fn image(start: Option<StartSegmentAddr>, chunks: &[(u32, &[u8])]) -> HexFile {
    HexFile::from_records(
        start,
        chunks.iter().map(|(a, b)| Data::new(*a, b.to_vec())).collect(),
    )
}

fn written(hex: &HexFile) -> String {
    let mut out = Vec::new();
    hex.write(&mut out);
    String::from_utf8(out).unwrap()
}

fn chunks(hex: &HexFile) -> Vec<(u32, Vec<u8>)> {
    hex.data().iter().map(|d| (d.addr(), d.bytes().to_vec())).collect()
}

#[test]
fn writes_records_with_checksums() {
    let hex = image(None, &[(0x0001_0000, &[0, 1, 2, 3])]);
    assert_eq!(
        written(&hex),
        ":020000040001F9\n:0400000000010203F6\n:00000001FF\n"
    );
}

#[test]
fn writes_no_extended_address_for_the_first_64k() {
    let hex = image(None, &[(0x0010, &[0xAB]), (0xFFFF, &[0xCD, 0xEF])]);
    assert_eq!(
        written(&hex),
        ":01001000AB44\n:02FFFF00CDEF44\n:00000001FF\n"
    );
}

#[test]
fn writes_an_extended_address_when_the_upper_bits_change() {
    let hex = image(
        None,
        &[(0x0000_0000, &[1]), (0x0001_0000, &[2]), (0x0001_0001, &[3]), (0xFFFF_0000, &[4])],
    );
    assert_eq!(
        written(&hex),
        ":0100000001FE\n\
         :020000040001F9\n:0100000002FD\n:0100010003FB\n\
         :02000004FFFFFC\n:0100000004FB\n\
         :00000001FF\n"
    );
}

#[test]
fn writes_the_entry_before_the_end() {
    let hex = image(Some(StartSegmentAddr { cs: 0x1234, ip: 0xABCD }), &[(0, &[0xFF])]);
    assert_eq!(
        written(&hex),
        ":01000000FF00\n:040000031234ABCD3B\n:00000001FF\n"
    );
}

#[test]
fn written_text_appends_to_what_is_there() {
    let mut out = b"; header\n".to_vec();
    image(None, &[]).write(&mut out);
    assert_eq!(out, b"; header\n:00000001FF\n");
}

#[test]
fn written_text_decodes_to_the_same_image() {
    let long: Vec<u8> = (0..=254).collect();
    let hex = image(
        Some(StartSegmentAddr { cs: 0, ip: 0x00C1 }),
        &[(0x00C0, &long), (0x0001_FFF0, &long), (0x4000_0000, &[]), (0xFFFF_FFFF, &[9])],
    );
    let text = written(&hex);
    let back = Context::new(text.as_bytes()).into_hex_file().unwrap();
    assert_eq!(chunks(&back), chunks(&hex));
    assert_eq!(back.start_addr(), hex.start_addr());
    assert_eq!(written(&back), text);
}

#[test]
fn transposed_image_is_written_at_its_new_place() {
    let text = ":020000040001F9\n:0400000000010203F6\n:00000001FF\n";
    let mut hex = Context::new(text.as_bytes()).into_hex_file().unwrap();
    assert_eq!(hex.transpose(0x0001_0000, 0x0000_00C0), Ok(()));
    assert_eq!(written(&hex), ":0400C0000001020336\n:00000001FF\n");
}
