use hex_reader::{
    range_to_section, to_elf_file, AddrRange, Context, Data, ElfError, HexFile, SectionKind,
    StartSegmentAddr,
};

fn image(start: Option<StartSegmentAddr>, chunks: &[(u32, &[u8])]) -> HexFile {
    HexFile::from_records(
        start,
        chunks.iter().map(|(a, b)| Data::new(*a, b.to_vec())).collect(),
    )
}

fn u16_at(bytes: &[u8], at: usize) -> u16 {
    u16::from_le_bytes([bytes[at], bytes[at + 1]])
}

fn u32_at(bytes: &[u8], at: usize) -> u32 {
    u32::from_le_bytes([bytes[at], bytes[at + 1], bytes[at + 2], bytes[at + 3]])
}

fn section_header(bytes: &[u8], index: usize) -> Vec<u32> {
    let sh_off = u32_at(bytes, 32) as usize;
    (0..10).map(|f| u32_at(bytes, sh_off + 40 * index + 4 * f)).collect()
}

fn name_at(bytes: &[u8], table: usize, offset: usize) -> Vec<u8> {
    bytes[table + offset..].iter().copied().take_while(|b| *b != 0).collect()
}

#[test]
fn minimal_flash_image() {
    let text = ":0400100001020304AA\n:00000001FF\n";
    let hex = Context::new(text.as_bytes()).into_hex_file().unwrap();
    let elf = to_elf_file(&hex).unwrap();
    let mut expected: Vec<u8> = vec![
        0x7f, 0x45, 0x4c, 0x46, 1, 1, 1, 0, 0, 0, 0, 0, 0, 0, 0, 0, // ident
        2, 0, // executable
        40, 0, // ARM
        1, 0, 0, 0, // version
        0, 0, 0, 0, // entry
        0, 0, 0, 0, // program headers
        74, 0, 0, 0, // section headers
        0, 0, 0, 0, // flags
        52, 0, // header size
        0, 0, 0, 0, // program header size and count
        40, 0, // section header size
        2, 0, // section count
        1, 0, // name table index
    ];
    expected.extend_from_slice(&[1, 2, 3, 4]);
    expected.extend_from_slice(b"\0.flash\0.shstrtab\0");
    for field in [1u32, 1, 2, 0x10, 52, 4, 0, 0, 0, 0] {
        expected.extend_from_slice(&field.to_le_bytes());
    }
    for field in [8u32, 3, 0, 0, 56, 18, 0, 0, 0, 0] {
        expected.extend_from_slice(&field.to_le_bytes());
    }
    assert_eq!(elf.len(), 154);
    assert_eq!(elf, expected);
}

#[test]
fn header_names_the_format() {
    let elf = to_elf_file(&image(None, &[(0x10, &[1, 2, 3, 4])])).unwrap();
    assert_eq!(&elf[0..4], &[0x7F, 0x45, 0x4C, 0x46]);
    assert_eq!(elf[4], 1);
    assert_eq!(elf[5], 1);
    assert_eq!(u16_at(&elf, 16), 2);
    assert_eq!(u16_at(&elf, 18), 40);
    assert_eq!(u16_at(&elf, 48), 2);
    let sections: Vec<Vec<u32>> = (0..2).map(|i| section_header(&elf, i)).collect();
    assert_eq!(sections.iter().filter(|s| s[1] == 1).count(), 1);
    assert_eq!(sections.iter().filter(|s| s[1] == 3).count(), 1);
    let table = sections[1][4] as usize;
    assert_eq!(name_at(&elf, table, sections[0][0] as usize), b".flash");
    assert_eq!(name_at(&elf, table, sections[1][0] as usize), b".shstrtab");
}

#[test]
fn entry_is_the_start_address_without_its_lowest_bit() {
    let start = Some(StartSegmentAddr { cs: 0x0000, ip: 0x01C1 });
    let elf = to_elf_file(&image(start, &[(0xC0, &[1, 2])])).unwrap();
    assert_eq!(u32_at(&elf, 24), 0x0000_01C0);
    let start = Some(StartSegmentAddr { cs: 0x0003, ip: 0xFFFE });
    let elf = to_elf_file(&image(start, &[(0xC0, &[1, 2])])).unwrap();
    assert_eq!(u32_at(&elf, 24), 0x0003_FFFE);
}

#[test]
fn range_over_the_vector_table_end_is_split() {
    let bytes: Vec<u8> = (0..16).collect();
    let hex = image(None, &[(0xB8, &bytes)]);
    let elf = to_elf_file(&hex).unwrap();
    assert_eq!(u16_at(&elf, 48), 3);
    assert_eq!(u16_at(&elf, 50), 2);
    assert_eq!(&elf[52..68], &bytes[..]);
    let flash = section_header(&elf, 0);
    let text = section_header(&elf, 1);
    let names = section_header(&elf, 2);
    assert_eq!(flash, vec![1, 1, 2, 0xB8, 52, 8, 0, 0, 0, 0]);
    assert_eq!(text, vec![8, 1, 6, 0xC0, 60, 8, 0, 0, 0, 0]);
    assert_eq!(names, vec![14, 3, 0, 0, 68, 24, 0, 0, 0, 0]);
    assert_eq!(&elf[68..92], b"\0.flash\0.text\0.shstrtab\0");
    assert_eq!(u32_at(&elf, 32), 92);
    assert_eq!(elf.len(), 92 + 3 * 40);
}

#[test]
fn range_that_begins_at_the_vector_table_end_is_code() {
    let elf = to_elf_file(&image(None, &[(0xC0, &[1, 2, 3])])).unwrap();
    assert_eq!(u16_at(&elf, 48), 2);
    assert_eq!(section_header(&elf, 0), vec![1, 1, 6, 0xC0, 52, 3, 0, 0, 0, 0]);
}

#[test]
fn every_window_has_its_section() {
    let hex = image(
        None,
        &[
            (0x0000_0000, &[1]),
            (0x0000_1000, &[2, 3]),
            (0x0101_0008, &[4, 5, 6]),
            (0x4000_0000, &[7, 8, 9, 10]),
        ],
    );
    let elf = to_elf_file(&hex).unwrap();
    assert_eq!(u16_at(&elf, 48), 5);
    assert_eq!(&elf[52..62], &[1, 2, 3, 4, 5, 6, 7, 8, 9, 10]);
    assert_eq!(&elf[62..62 + 35], b"\0.flash\0.text\0.opt\0.data\0.shstrtab\0");
    assert_eq!(section_header(&elf, 0), vec![1, 1, 2, 0, 52, 1, 0, 0, 0, 0]);
    assert_eq!(section_header(&elf, 1), vec![8, 1, 6, 0x1000, 53, 2, 0, 0, 0, 0]);
    assert_eq!(section_header(&elf, 2), vec![14, 1, 2, 0x0101_0008, 55, 3, 0, 0, 0, 0]);
    assert_eq!(section_header(&elf, 3), vec![19, 1, 3, 0x4000_0000, 58, 4, 0, 0, 0, 0]);
    assert_eq!(section_header(&elf, 4), vec![25, 3, 0, 0, 62, 35, 0, 0, 0, 0]);
}

#[test]
fn range_outside_the_windows_is_reported() {
    let hex = image(None, &[(0x10, &[1]), (0x0004_0000, &[2]), (0x5000_0000, &[3])]);
    assert_eq!(
        to_elf_file(&hex).unwrap_err(),
        ElfError::UnclassifiedRange { range: AddrRange { start: 0x0004_0000, end: 0x0004_0000 } }
    );
}

#[test]
fn range_that_ends_at_the_vector_table_end_is_reported() {
    let bytes: Vec<u8> = (0..9).collect();
    let hex = image(None, &[(0xB8, &bytes)]);
    assert_eq!(
        to_elf_file(&hex).unwrap_err(),
        ElfError::UnclassifiedRange { range: AddrRange { start: 0xB8, end: 0xC0 } }
    );
}

#[test]
fn sections_are_classified_by_window() {
    let flash = range_to_section(AddrRange { start: 0, end: 0xBF }).unwrap();
    assert_eq!(flash.kind, SectionKind::Flash);
    assert_eq!(flash.name, b".flash");
    assert_eq!(flash.range, AddrRange { start: 0, end: 0xBF });
    let code = range_to_section(AddrRange { start: 0xC0, end: 0x3_FFFF }).unwrap();
    assert_eq!(code.kind, SectionKind::Code);
    assert_eq!(code.name, b".text");
    let opt = range_to_section(AddrRange { start: 0x0101_0008, end: 0x0101_0033 }).unwrap();
    assert_eq!(opt.kind, SectionKind::Opt);
    assert_eq!(opt.name, b".opt");
    let sram = range_to_section(AddrRange { start: 0x4000_0000, end: 0x400F_FFFF }).unwrap();
    assert_eq!(sram.kind, SectionKind::Sram);
    assert_eq!(sram.name, b".data");
    assert_eq!(
        range_to_section(AddrRange { start: 0xBF, end: 0xC0 }).unwrap_err(),
        ElfError::UnclassifiedRange { range: AddrRange { start: 0xBF, end: 0xC0 } }
    );
    assert!(range_to_section(AddrRange { start: 0x0101_0007, end: 0x0101_0008 }).is_err());
    assert!(range_to_section(AddrRange { start: 0x400F_FFFF, end: 0x4010_0000 }).is_err());
}

#[test]
fn section_kinds_have_their_flags_and_types() {
    assert_eq!(SectionKind::Flash.flags(), 2);
    assert_eq!(SectionKind::Code.flags(), 6);
    assert_eq!(SectionKind::Opt.flags(), 2);
    assert_eq!(SectionKind::Sram.flags(), 3);
    assert_eq!(SectionKind::StrTab.flags(), 0);
    assert_eq!(SectionKind::Code.section_type(), 1);
    assert_eq!(SectionKind::StrTab.section_type(), 3);
    assert_eq!(SectionKind::StrTab.name(), b".shstrtab");
    assert_eq!(SectionKind::StrTab.window(), None);
}

#[test]
fn more_sections_than_the_header_counts_are_reported() {
    let chunk = |i: u32| Data::new(0xC0 + 2 * i, vec![i as u8]);
    let most = HexFile::from_records(None, (0..0xFFFE).map(chunk).collect());
    let elf = to_elf_file(&most).unwrap();
    assert_eq!(u16_at(&elf, 48), 0xFFFF);
    assert_eq!(u16_at(&elf, 50), 0xFFFE);
    let too_many = HexFile::from_records(None, (0..0xFFFF).map(chunk).collect());
    assert_eq!(to_elf_file(&too_many).unwrap_err(), ElfError::TooManySections);
}
