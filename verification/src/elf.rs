//! Writing an image as an ELF32 executable for a little-endian ARM target.
//!
//! The file holds the ELF header, the bytes of each section, the table of the
//! section names, and one section header for each section and for the name
//! table.  It has no program headers, symbols or relocations.

use crate::chunk::StartSegmentAddr;
use crate::coverage::lemma_part_covered;
use crate::image::{
    all_well_formed, lemma_ranges_of, range_bytes, range_covered, ranges_of, HexFile, HexImage,
};
use crate::range::{first_where, lemma_first_where_is, AddrRange};
use vstd::prelude::*;

verus! {

/// The first address behind the vector table: a range that reaches over it
/// is cut here.
pub const VECTOR_TABLE_END: u32 = 0xC0;

/// The first address of the flash data window.
pub const FLASH_DATA_START: u32 = 0x0000_0000;

/// The last address of the flash data window.
pub const FLASH_DATA_END: u32 = 0x0000_00BF;

/// The first address of the code window.
pub const CODE_START: u32 = 0x0000_00C0;

/// The last address of the code window.
pub const CODE_END: u32 = 0x0003_FFFF;

/// The first address of the option byte window.
pub const OPT_START: u32 = 0x0101_0008;

/// The last address of the option byte window.
pub const OPT_END: u32 = 0x0101_0033;

/// The first address of the SRAM window.
pub const SRAM_START: u32 = 0x4000_0000;

/// The last address of the SRAM window.
pub const SRAM_END: u32 = 0x400F_FFFF;

/// The size of the ELF32 header in bytes.
pub const HEADER_SIZE: u16 = 52;

/// The size of an ELF32 section header in bytes.
pub const SECTION_HEADER_SIZE: u16 = 40;

/// The greatest number of sections that the header can count.
pub const MAX_SECTIONS: usize = 0xFFFF;

/// Why an image could not be written as an ELF file.
#[derive(Debug, Clone, Copy, PartialEq, Eq, Structural)]
pub enum ElfError {
    /// The range lies in none of the memory windows.
    UnclassifiedRange { range: AddrRange },
    /// The image has more sections than the header can count.
    TooManySections,
    /// A file offset would not fit in 32 bits.
    FileTooLarge,
}

/// What a section holds.
#[derive(Debug, Clone, Copy, PartialEq, Eq, Structural)]
pub enum SectionKind {
    Flash,
    Code,
    Opt,
    Sram,
    StrTab,
}

impl SectionKind {
    /// The memory window of the sections of this kind; the name table has
    /// none.
    pub open spec fn spec_window(self) -> Option<AddrRange> {
        match self {
            SectionKind::Flash => Some(AddrRange { start: FLASH_DATA_START, end: FLASH_DATA_END }),
            SectionKind::Code => Some(AddrRange { start: CODE_START, end: CODE_END }),
            SectionKind::Opt => Some(AddrRange { start: OPT_START, end: OPT_END }),
            SectionKind::Sram => Some(AddrRange { start: SRAM_START, end: SRAM_END }),
            SectionKind::StrTab => None,
        }
    }

    /// The section name: `.flash`, `.text`, `.opt`, `.data`, `.shstrtab`.
    pub open spec fn spec_name(self) -> Seq<u8> {
        match self {
            SectionKind::Flash => seq![0x2eu8, 0x66, 0x6c, 0x61, 0x73, 0x68],
            SectionKind::Code => seq![0x2eu8, 0x74, 0x65, 0x78, 0x74],
            SectionKind::Opt => seq![0x2eu8, 0x6f, 0x70, 0x74],
            SectionKind::Sram => seq![0x2eu8, 0x64, 0x61, 0x74, 0x61],
            SectionKind::StrTab => seq![0x2eu8, 0x73, 0x68, 0x73, 0x74, 0x72, 0x74, 0x61, 0x62],
        }
    }

    /// The section type: 3, a string table, for the name table, and 1,
    /// program data, for the others.
    pub open spec fn spec_section_type(self) -> u32 {
        match self {
            SectionKind::StrTab => 3,
            _ => 1,
        }
    }

    /// The section flags: 2, allocated, for flash data and option bytes; 6,
    /// allocated and executable, for code; 3, allocated and writable, for
    /// SRAM; none for the name table.
    pub open spec fn spec_flags(self) -> u32 {
        match self {
            SectionKind::Flash => 2,
            SectionKind::Code => 6,
            SectionKind::Opt => 2,
            SectionKind::Sram => 3,
            SectionKind::StrTab => 0,
        }
    }

    /// The memory window of the sections of this kind.
    pub fn window(&self) -> (w: Option<AddrRange>)
        ensures
            w == self.spec_window(),
    {
        match self {
            SectionKind::Flash => Some(AddrRange { start: FLASH_DATA_START, end: FLASH_DATA_END }),
            SectionKind::Code => Some(AddrRange { start: CODE_START, end: CODE_END }),
            SectionKind::Opt => Some(AddrRange { start: OPT_START, end: OPT_END }),
            SectionKind::Sram => Some(AddrRange { start: SRAM_START, end: SRAM_END }),
            SectionKind::StrTab => None,
        }
    }

    /// The section name.
    pub fn name(&self) -> (n: Vec<u8>)
        ensures
            n@ == self.spec_name(),
    {
        let n: Vec<u8> = match self {
            SectionKind::Flash => vec![0x2eu8, 0x66, 0x6c, 0x61, 0x73, 0x68],
            SectionKind::Code => vec![0x2eu8, 0x74, 0x65, 0x78, 0x74],
            SectionKind::Opt => vec![0x2eu8, 0x6f, 0x70, 0x74],
            SectionKind::Sram => vec![0x2eu8, 0x64, 0x61, 0x74, 0x61],
            SectionKind::StrTab => vec![0x2eu8, 0x73, 0x68, 0x73, 0x74, 0x72, 0x74, 0x61, 0x62],
        };
        assert(n@ =~= self.spec_name());
        n
    }

    /// The section type.
    pub fn section_type(&self) -> (t: u32)
        ensures
            t == self.spec_section_type(),
    {
        match self {
            SectionKind::StrTab => sht_strtab(),
            _ => sht_progbits(),
        }
    }

    /// The section flags.
    pub fn flags(&self) -> (f: u32)
        ensures
            f == self.spec_flags(),
    {
        assert(2u32 | 4u32 == 6u32) by (bit_vector);
        assert(2u32 | 1u32 == 3u32) by (bit_vector);
        match self {
            SectionKind::Flash => shf_alloc(),
            SectionKind::Code => shf_alloc() | shf_execinstr(),
            SectionKind::Opt => shf_alloc(),
            SectionKind::Sram => shf_alloc() | shf_write(),
            SectionKind::StrTab => 0,
        }
    }
}

/// `object::elf::ELFCLASS32`, which marks a 32-bit object in the
/// identification bytes: 1.
#[verifier::external_body]
fn elf_class_32() -> (v: u8)
    ensures
        v == 1,
{
    object::elf::ELFCLASS32
}

/// `object::elf::ELFDATA2LSB`, which marks little-endian data in the
/// identification bytes: 1.
#[verifier::external_body]
fn elf_data_lsb() -> (v: u8)
    ensures
        v == 1,
{
    object::elf::ELFDATA2LSB
}

/// `object::elf::EV_CURRENT`, the current version of the format: 1.
#[verifier::external_body]
fn elf_version_current() -> (v: u8)
    ensures
        v == 1,
{
    object::elf::EV_CURRENT
}

/// `object::elf::ELFOSABI_SYSV`, the System V ABI in the identification
/// bytes: 0.
#[verifier::external_body]
fn elf_osabi_sysv() -> (v: u8)
    ensures
        v == 0,
{
    object::elf::ELFOSABI_SYSV
}

/// `object::elf::ET_EXEC`, the object type of an executable file: 2.
#[verifier::external_body]
fn elf_type_exec() -> (v: u16)
    ensures
        v == 2,
{
    object::elf::ET_EXEC
}

/// `object::elf::EM_ARM`, the machine number of ARM: 40.
#[verifier::external_body]
fn elf_machine_arm() -> (v: u16)
    ensures
        v == 40,
{
    object::elf::EM_ARM
}

/// `object::elf::SHT_PROGBITS`, the type of a section of program data: 1.
#[verifier::external_body]
fn sht_progbits() -> (v: u32)
    ensures
        v == 1,
{
    object::elf::SHT_PROGBITS
}

/// `object::elf::SHT_STRTAB`, the type of a string table section: 3.
#[verifier::external_body]
fn sht_strtab() -> (v: u32)
    ensures
        v == 3,
{
    object::elf::SHT_STRTAB
}

/// `object::elf::SHF_WRITE`, the flag of a writable section: 1.
#[verifier::external_body]
fn shf_write() -> (v: u32)
    ensures
        v == 1,
{
    object::elf::SHF_WRITE
}

/// `object::elf::SHF_ALLOC`, the flag of a section that takes up memory when
/// the program runs: 2.
#[verifier::external_body]
fn shf_alloc() -> (v: u32)
    ensures
        v == 2,
{
    object::elf::SHF_ALLOC
}

/// `object::elf::SHF_EXECINSTR`, the flag of a section of machine
/// instructions: 4.
#[verifier::external_body]
fn shf_execinstr() -> (v: u32)
    ensures
        v == 4,
{
    object::elf::SHF_EXECINSTR
}

/// The kind of section that `range` belongs to: the first of flash data,
/// code, option bytes and SRAM whose window holds the whole range.
pub open spec fn classify(range: AddrRange) -> Option<SectionKind> {
    if SectionKind::Flash.spec_window().unwrap().spec_contains_range(range) {
        Some(SectionKind::Flash)
    } else if SectionKind::Code.spec_window().unwrap().spec_contains_range(range) {
        Some(SectionKind::Code)
    } else if SectionKind::Opt.spec_window().unwrap().spec_contains_range(range) {
        Some(SectionKind::Opt)
    } else if SectionKind::Sram.spec_window().unwrap().spec_contains_range(range) {
        Some(SectionKind::Sram)
    } else {
        None
    }
}

/// A section of the output: the addresses that it fills, its kind and its
/// name.
#[derive(Debug)]
pub struct SectionData {
    pub range: AddrRange,
    pub kind: SectionKind,
    pub name: Vec<u8>,
}

/// The section for `range`, if the range lies in one of the memory windows.
pub fn range_to_section(range: AddrRange) -> (r: Result<SectionData, ElfError>)
    ensures
        match r {
            Ok(s) => classify(range) == Some(s.kind) && s.range == range && s.name@
                == s.kind.spec_name(),
            Err(e) => classify(range) is None && e == (ElfError::UnclassifiedRange { range }),
        },
{
    let kind: SectionKind = if (AddrRange { start: FLASH_DATA_START, end: FLASH_DATA_END })
        .contains_range(range) {
        SectionKind::Flash
    } else if (AddrRange { start: CODE_START, end: CODE_END }).contains_range(range) {
        SectionKind::Code
    } else if (AddrRange { start: OPT_START, end: OPT_END }).contains_range(range) {
        SectionKind::Opt
    } else if (AddrRange { start: SRAM_START, end: SRAM_END }).contains_range(range) {
        SectionKind::Sram
    } else {
        return Err(ElfError::UnclassifiedRange { range });
    };
    Ok(SectionData { range, kind, name: kind.name() })
}

/// The ranges that become sections: a range that reaches over the end of the
/// vector table gives the part before it and the part from it on, any other
/// range gives itself.
pub open spec fn split_at_boundary(range: AddrRange) -> Seq<AddrRange> {
    if range.can_split(VECTOR_TABLE_END) {
        seq![range.spec_split(VECTOR_TABLE_END).0, range.spec_split(VECTOR_TABLE_END).1]
    } else {
        seq![range]
    }
}

/// The parts of all `ranges`, in their order.
pub open spec fn split_ranges(ranges: Seq<AddrRange>) -> Seq<AddrRange>
    decreases ranges.len(),
{
    if ranges.len() == 0 {
        Seq::empty()
    } else {
        split_ranges(ranges.drop_last()) + split_at_boundary(ranges.last())
    }
}

/// The number of addresses in all `parts`.
pub open spec fn total_size(parts: Seq<AddrRange>) -> int
    decreases parts.len(),
{
    if parts.len() == 0 {
        0
    } else {
        total_size(parts.drop_last()) + parts.last().spec_size()
    }
}

/// The bytes of the sections, section after section.
pub open spec fn section_data(image: HexImage, parts: Seq<AddrRange>) -> Seq<u8>
    decreases parts.len(),
{
    if parts.len() == 0 {
        Seq::empty()
    } else {
        section_data(image, parts.drop_last()) + range_bytes(image.chunks, parts.last())
    }
}

/// The names of the sections, each with a zero byte behind it.
pub open spec fn section_names(parts: Seq<AddrRange>) -> Seq<u8>
    decreases parts.len(),
{
    if parts.len() == 0 {
        Seq::empty()
    } else {
        section_names(parts.drop_last()) + classify(parts.last()).unwrap().spec_name() + seq![0u8]
    }
}

/// The name table: a zero byte, which is the empty name, then the names of
/// the sections and that of the table itself, each with a zero byte behind
/// it.
pub open spec fn name_table(parts: Seq<AddrRange>) -> Seq<u8> {
    seq![0u8] + section_names(parts) + SectionKind::StrTab.spec_name() + seq![0u8]
}

/// The two bytes of `x`, the lower first.
pub open spec fn le16(x: u16) -> Seq<u8> {
    seq![(x % 0x100) as u8, (x / 0x100) as u8]
}

/// The four bytes of `x`, the lowest first.
pub open spec fn le32(x: u32) -> Seq<u8> {
    seq![
        (x % 0x100) as u8,
        (x / 0x100 % 0x100) as u8,
        (x / 0x1_0000 % 0x100) as u8,
        (x / 0x100_0000) as u8,
    ]
}

/// The 52 bytes of the ELF header.
///
/// The identification: the magic number `7F 45 4C 46`, class 1 (32-bit),
/// data encoding 1 (little-endian), version 1, ABI 0 (System V) with version
/// 0, and seven bytes of padding.  Then the object type 2 (executable), the
/// machine 40 (ARM), the version 1, the entry address, the offset of the
/// program headers (none), the offset of the section headers, the flags
/// (none), the size of this header, size and number of the program headers
/// (none), the size of a section header, the number of sections, and the
/// index of the name table among them.
pub open spec fn elf_header(entry: u32, sh_off: u32, sh_num: u16, sh_str_idx: u16) -> Seq<u8> {
    seq![0x7fu8, 0x45, 0x4c, 0x46, 1, 1, 1, 0, 0, 0, 0, 0, 0, 0, 0, 0] + le16(2) + le16(40) + le32(
        1,
    ) + le32(entry) + le32(0) + le32(sh_off) + le32(0) + le16(HEADER_SIZE) + le16(0) + le16(0)
        + le16(SECTION_HEADER_SIZE) + le16(sh_num) + le16(sh_str_idx)
}

/// The 40 bytes of a section header: the offset of the name in the name
/// table, the type, the flags, the address, the offset in the file, the size,
/// and four fields that are left zero (link, info, alignment, entry size).
pub open spec fn section_header(
    name: u32,
    kind: SectionKind,
    addr: u32,
    offset: u32,
    size: u32,
) -> Seq<u8> {
    le32(name) + le32(kind.spec_section_type()) + le32(kind.spec_flags()) + le32(addr) + le32(
        offset,
    ) + le32(size) + le32(0) + le32(0) + le32(0) + le32(0)
}

/// The headers of the first `n` sections.  Each section lies in the file
/// behind the ELF header and the sections before it, and its name in the name
/// table behind the empty name and the names before it.
pub open spec fn progbits_headers(parts: Seq<AddrRange>, n: int) -> Seq<u8>
    decreases n,
{
    if n <= 0 {
        Seq::empty()
    } else {
        progbits_headers(parts, n - 1) + section_header(
            (1 + section_names(parts.take(n - 1)).len()) as u32,
            classify(parts[n - 1]).unwrap(),
            parts[n - 1].start,
            (HEADER_SIZE + total_size(parts.take(n - 1))) as u32,
            parts[n - 1].spec_size() as u32,
        )
    }
}

/// The header of the name table, which lies behind the sections.
pub open spec fn strtab_header(parts: Seq<AddrRange>) -> Seq<u8> {
    section_header(
        (1 + section_names(parts).len()) as u32,
        SectionKind::StrTab,
        0,
        (HEADER_SIZE + total_size(parts)) as u32,
        name_table(parts).len() as u32,
    )
}

/// The entry address of the file: that of the entry descriptor with its
/// lowest bit cleared, or zero if the image has none.
pub open spec fn entry_point(start: Option<StartSegmentAddr>) -> u32 {
    match start {
        Some(s) => s.spec_address() & 0xFFFF_FFFE,
        None => 0,
    }
}

/// The ELF file of an image, or the reason for which it has none.
///
/// The sections are the ranges of the image, cut at the end of the vector
/// table.  The first of them that lies in no memory window is reported.  The
/// file holds the ELF header, the bytes of the sections, the name table, and
/// the section headers with that of the name table last.
pub open spec fn elf_of(image: HexImage) -> Result<Seq<u8>, ElfError> {
    let parts = split_ranges(ranges_of(image.chunks));
    let bad = first_where(parts, |r: AddrRange| classify(r) is None);
    let sh_off = HEADER_SIZE + total_size(parts) + name_table(parts).len();
    if bad < parts.len() {
        Err(ElfError::UnclassifiedRange { range: parts[bad] })
    } else if parts.len() + 1 > MAX_SECTIONS {
        Err(ElfError::TooManySections)
    } else if sh_off > u32::MAX {
        Err(ElfError::FileTooLarge)
    } else {
        Ok(
            elf_header(
                entry_point(image.start),
                sh_off as u32,
                (parts.len() + 1) as u16,
                parts.len() as u16,
            ) + section_data(image, parts) + name_table(parts) + progbits_headers(
                parts,
                parts.len() as int,
            ) + strtab_header(parts),
        )
    }
}

/// The ranges of a sequence of sections.
pub open spec fn parts_of(sections: Seq<SectionData>) -> Seq<AddrRange> {
    sections.map_values(|s: SectionData| s.range)
}

/// Each section has the kind that its range belongs to, and the name of that
/// kind.
pub open spec fn sections_classified(sections: Seq<SectionData>) -> bool {
    forall|k: int|
        0 <= k < sections.len() ==> classify((#[trigger] sections[k]).range) == Some(
            sections[k].kind,
        ) && sections[k].name@ == sections[k].kind.spec_name()
}

/// The parts of the first `k` ranges stand at the beginning of the parts of
/// all ranges.
pub proof fn lemma_split_prefix(ranges: Seq<AddrRange>, k: int)
    requires
        0 <= k <= ranges.len(),
    ensures
        split_ranges(ranges.take(k)).len() <= split_ranges(ranges).len(),
        split_ranges(ranges.take(k)) == split_ranges(ranges).take(
            split_ranges(ranges.take(k)).len() as int,
        ),
    decreases ranges.len(),
{
    if k == ranges.len() {
        assert(ranges.take(k) =~= ranges);
        assert(split_ranges(ranges).take(split_ranges(ranges).len() as int) =~= split_ranges(
            ranges,
        ));
    } else {
        let init = ranges.drop_last();
        lemma_split_prefix(init, k);
        assert(init.take(k) =~= ranges.take(k));
        let head = split_ranges(ranges.take(k));
        assert(head =~= split_ranges(ranges).take(head.len() as int));
    }
}

/// Each part of a well-formed range is well-formed and lies within some range.
pub proof fn lemma_split_within(ranges: Seq<AddrRange>)
    requires
        forall|i: int| 0 <= i < ranges.len() ==> (#[trigger] ranges[i]).well_formed(),
    ensures
        forall|k: int|
            0 <= k < split_ranges(ranges).len() ==> (#[trigger] split_ranges(ranges)[k]).well_formed()
                && exists|i: int|
                0 <= i < ranges.len() && (#[trigger] ranges[i]).spec_contains_range(
                    split_ranges(ranges)[k],
                ),
    decreases ranges.len(),
{
    if ranges.len() > 0 {
        let init = ranges.drop_last();
        let last = ranges.last();
        lemma_split_within(init);
        let parts = split_ranges(ranges);
        let head = split_ranges(init);
        assert(last.well_formed());
        assert forall|k: int| 0 <= k < parts.len() implies (#[trigger] parts[k]).well_formed()
            && exists|i: int|
            0 <= i < ranges.len() && (#[trigger] ranges[i]).spec_contains_range(parts[k]) by {
            if k < head.len() {
                assert(parts[k] == head[k]);
                let i = choose|i: int|
                    0 <= i < init.len() && (#[trigger] init[i]).spec_contains_range(head[k]);
                assert(ranges[i] == init[i]);
            } else {
                assert(parts[k] == split_at_boundary(last)[k - head.len()]);
                assert(ranges[ranges.len() - 1].spec_contains_range(parts[k]));
            }
        }
    }
}

/// Each section of an image with well-formed chunks is a well-formed range of
/// addresses that have a byte.
pub proof fn lemma_parts_covered(image: HexImage)
    requires
        all_well_formed(image.chunks),
    ensures
        forall|k: int|
            0 <= k < split_ranges(ranges_of(image.chunks)).len() ==> (#[trigger] split_ranges(
                ranges_of(image.chunks),
            )[k]).well_formed() && range_covered(
                image.chunks,
                split_ranges(ranges_of(image.chunks))[k],
            ),
{
    let ranges = ranges_of(image.chunks);
    let parts = split_ranges(ranges);
    lemma_ranges_of(image.chunks);
    lemma_split_within(ranges);
    assert forall|k: int| 0 <= k < parts.len() implies (#[trigger] parts[k]).well_formed()
        && range_covered(image.chunks, parts[k]) by {
        let i = choose|i: int|
            0 <= i < ranges.len() && (#[trigger] ranges[i]).spec_contains_range(parts[k]);
        lemma_part_covered(image.chunks, i, parts[k]);
    }
}

/// The sizes and names of the first `k` of the sections take up no more than
/// those of all sections, and one section more adds its size and its name.
pub proof fn lemma_take_sums(parts: Seq<AddrRange>, k: int)
    requires
        0 <= k <= parts.len(),
        forall|i: int| 0 <= i < parts.len() ==> (#[trigger] parts[i]).well_formed(),
    ensures
        0 <= total_size(parts.take(k)) <= total_size(parts),
        section_names(parts.take(k)).len() <= section_names(parts).len(),
        k < parts.len() ==> total_size(parts.take(k + 1)) == total_size(parts.take(k))
            + parts[k].spec_size(),
        k < parts.len() ==> section_names(parts.take(k + 1)) == section_names(parts.take(k))
            + classify(parts[k]).unwrap().spec_name() + seq![0u8],
    decreases parts.len(),
{
    if k == parts.len() {
        assert(parts.take(k) =~= parts);
        if k > 0 {
            lemma_take_sums(parts.drop_last(), k - 1);
            assert(parts.drop_last().take(k - 1) =~= parts.drop_last());
            assert(parts.last().well_formed());
        }
    } else {
        let init = parts.drop_last();
        lemma_take_sums(init, k);
        assert(init.take(k) =~= parts.take(k));
        assert(parts.last().well_formed());
        assert(parts.take(k + 1).drop_last() =~= parts.take(k));
        assert(parts.take(k + 1).last() == parts[k]);
    }
}

/// The bytes of the sections are as many as the sections have addresses.
pub proof fn lemma_section_data_len(image: HexImage, parts: Seq<AddrRange>)
    requires
        forall|i: int| 0 <= i < parts.len() ==> (#[trigger] parts[i]).well_formed(),
    ensures
        section_data(image, parts).len() == total_size(parts),
    decreases parts.len(),
{
    if parts.len() > 0 {
        lemma_section_data_len(image, parts.drop_last());
        assert(parts.last().well_formed());
    }
}

/// Appends the two bytes of `x`, the lower first.
fn push_le16(out: &mut Vec<u8>, x: u16)
    ensures
        final(out)@ == old(out)@ + le16(x),
{
    out.push((x % 0x100) as u8);
    out.push((x / 0x100) as u8);
    assert(final(out)@ =~= old(out)@ + le16(x));
}

/// Appends the four bytes of `x`, the lowest first.
fn push_le32(out: &mut Vec<u8>, x: u32)
    ensures
        final(out)@ == old(out)@ + le32(x),
{
    out.push((x % 0x100) as u8);
    out.push((x / 0x100 % 0x100) as u8);
    out.push((x / 0x1_0000 % 0x100) as u8);
    out.push((x / 0x100_0000) as u8);
    assert(final(out)@ =~= old(out)@ + le32(x));
}

/// Appends the ELF header.
fn push_elf_header(out: &mut Vec<u8>, entry: u32, sh_off: u32, sh_num: u16, sh_str_idx: u16)
    ensures
        final(out)@ == old(out)@ + elf_header(entry, sh_off, sh_num, sh_str_idx),
{
    out.push(0x7f);
    out.push(0x45);
    out.push(0x4c);
    out.push(0x46);
    out.push(elf_class_32());
    out.push(elf_data_lsb());
    out.push(elf_version_current());
    out.push(elf_osabi_sysv());
    let mut pad: usize = 0;
    while pad < 8
        invariant
            pad <= 8,
            out@ == old(out)@ + seq![0x7fu8, 0x45, 0x4c, 0x46, 1, 1, 1, 0] + Seq::new(
                pad as nat,
                |i: int| 0u8,
            ),
        decreases 8 - pad,
    {
        out.push(0);
        pad += 1;
    }
    let ghost ident = out@;
    assert(ident =~= old(out)@ + seq![0x7fu8, 0x45, 0x4c, 0x46, 1, 1, 1, 0, 0, 0, 0, 0, 0, 0, 0, 0]);
    push_le16(out, elf_type_exec());
    push_le16(out, elf_machine_arm());
    push_le32(out, elf_version_current() as u32);
    push_le32(out, entry);
    push_le32(out, 0);
    push_le32(out, sh_off);
    push_le32(out, 0);
    push_le16(out, HEADER_SIZE);
    push_le16(out, 0);
    push_le16(out, 0);
    push_le16(out, SECTION_HEADER_SIZE);
    push_le16(out, sh_num);
    push_le16(out, sh_str_idx);
    assert(final(out)@ =~= old(out)@ + elf_header(entry, sh_off, sh_num, sh_str_idx));
}

/// Appends a section header.
fn push_section_header(
    out: &mut Vec<u8>,
    name: u32,
    kind: SectionKind,
    addr: u32,
    offset: u32,
    size: u32,
)
    ensures
        final(out)@ == old(out)@ + section_header(name, kind, addr, offset, size),
{
    push_le32(out, name);
    push_le32(out, kind.section_type());
    push_le32(out, kind.flags());
    push_le32(out, addr);
    push_le32(out, offset);
    push_le32(out, size);
    push_le32(out, 0);
    push_le32(out, 0);
    push_le32(out, 0);
    push_le32(out, 0);
    assert(final(out)@ =~= old(out)@ + section_header(name, kind, addr, offset, size));
}

/// The sections for `ranges`: each range, cut at the end of the vector table
/// if it reaches over it, with the kind of the memory window that it lies in.
/// The first part that lies in none is reported.
pub fn sections_of(ranges: &Vec<AddrRange>) -> (r: Result<Vec<SectionData>, ElfError>)
    ensures
        match r {
            Ok(sections) => parts_of(sections@) == split_ranges(ranges@) && sections_classified(
                sections@,
            ) && first_where(split_ranges(ranges@), |p: AddrRange| classify(p) is None)
                == split_ranges(ranges@).len(),
            Err(e) => first_where(split_ranges(ranges@), |p: AddrRange| classify(p) is None)
                < split_ranges(ranges@).len() && e == (ElfError::UnclassifiedRange {
                range: split_ranges(ranges@)[first_where(
                    split_ranges(ranges@),
                    |p: AddrRange| classify(p) is None,
                )],
            }),
        },
{
    let ghost all = split_ranges(ranges@);
    let ghost unclassified = |p: AddrRange| classify(p) is None;
    let mut sections: Vec<SectionData> = Vec::new();
    let n: usize = ranges.len();
    let mut i: usize = 0;
    proof {
        assert(ranges@.take(0) =~= Seq::<AddrRange>::empty());
        assert(parts_of(sections@) =~= split_ranges(ranges@.take(0)));
    }
    while i < n
        invariant
            i <= n,
            n == ranges@.len(),
            all == split_ranges(ranges@),
            unclassified == (|p: AddrRange| classify(p) is None),
            parts_of(sections@) == split_ranges(ranges@.take(i as int)),
            sections_classified(sections@),
        decreases n - i,
    {
        let range: AddrRange = ranges[i];
        let ghost done = sections@;
        let ghost head = split_ranges(ranges@.take(i as int));
        proof {
            lemma_split_prefix(ranges@, i as int);
            lemma_split_prefix(ranges@, i as int + 1);
            assert(ranges@.take(i as int + 1).drop_last() =~= ranges@.take(i as int));
            assert(ranges@.take(i as int + 1).last() == range);
            assert(split_ranges(ranges@.take(i as int + 1)) == head + split_at_boundary(range));
            assert forall|k: int| 0 <= k < head.len() implies !unclassified(#[trigger] all[k]) by {
                assert(all[k] == head[k]);
                assert(head[k] == done[k].range);
            }
        }
        if range.start < VECTOR_TABLE_END && VECTOR_TABLE_END < range.end {
            let (before, after) = range.split(VECTOR_TABLE_END);
            proof {
                assert(split_at_boundary(range) =~= seq![before, after]);
                assert(all[head.len() as int] == (head + seq![before, after])[head.len() as int]);
                assert(all[head.len() as int + 1] == (head + seq![before, after])[head.len() as int + 1]);
            }
            match range_to_section(before) {
                Ok(s) => {
                    sections.push(s);
                },
                Err(e) => {
                    proof {
                        lemma_first_where_is(all, unclassified, head.len() as int);
                    }
                    return Err(e);
                },
            }
            match range_to_section(after) {
                Ok(s) => {
                    sections.push(s);
                },
                Err(e) => {
                    proof {
                        lemma_first_where_is(all, unclassified, head.len() as int + 1);
                    }
                    return Err(e);
                },
            }
            proof {
                assert(parts_of(sections@) =~= head + seq![before, after]);
            }
        } else {
            proof {
                assert(split_at_boundary(range) =~= seq![range]);
                assert(all[head.len() as int] == (head + seq![range])[head.len() as int]);
            }
            match range_to_section(range) {
                Ok(s) => {
                    sections.push(s);
                },
                Err(e) => {
                    proof {
                        lemma_first_where_is(all, unclassified, head.len() as int);
                    }
                    return Err(e);
                },
            }
            proof {
                assert(parts_of(sections@) =~= head + seq![range]);
            }
        }
        i += 1;
    }
    proof {
        assert(ranges@.take(n as int) =~= ranges@);
        assert forall|k: int| 0 <= k < all.len() implies !unclassified(#[trigger] all[k]) by {
            assert(all[k] == sections@[k].range);
        }
        lemma_first_where_is(all, unclassified, all.len() as int);
    }
    Ok(sections)
}

/// The bytes of the ELF file for `hex`.
///
/// Each range of the image becomes a section of the kind of the memory window
/// that it lies in; a range that reaches over the end of the vector table
/// becomes two.  The entry address is that of the image with its lowest bit
/// cleared.
pub fn to_elf_file(hex: &HexFile) -> (r: Result<Vec<u8>, ElfError>)
    requires
        hex@.chunks.len() > 0,
        all_well_formed(hex@.chunks),
    ensures
        match r {
            Ok(bytes) => elf_of(hex@) == Ok::<Seq<u8>, ElfError>(bytes@),
            Err(e) => elf_of(hex@) == Err::<Seq<u8>, ElfError>(e),
        },
{
    let ghost image = hex@;
    let ranges: Vec<AddrRange> = hex.address_ranges();
    let ghost parts = split_ranges(ranges@);
    let sections: Vec<SectionData> = match sections_of(&ranges) {
        Ok(sections) => sections,
        Err(e) => {
            return Err(e);
        },
    };
    let n: usize = sections.len();
    assert(n == parts.len());
    if n >= MAX_SECTIONS {
        return Err(ElfError::TooManySections);
    }
    proof {
        lemma_parts_covered(image);
    }
    let mut data: Vec<u8> = Vec::new();
    let mut i: usize = 0;
    proof {
        assert(parts.take(0) =~= Seq::<AddrRange>::empty());
    }
    while i < n
        invariant
            i <= n,
            n == sections@.len(),
            image == hex@,
            parts == parts_of(sections@),
            forall|k: int|
                0 <= k < parts.len() ==> (#[trigger] parts[k]).well_formed() && range_covered(
                    image.chunks,
                    parts[k],
                ),
            data@ == section_data(image, parts.take(i as int)),
        decreases n - i,
    {
        proof {
            assert(parts[i as int] == sections@[i as int].range);
            assert(parts[i as int].well_formed());
            assert(parts.take(i as int + 1).drop_last() =~= parts.take(i as int));
            assert(parts.take(i as int + 1).last() == parts[i as int]);
        }
        let mut bytes: Vec<u8> = hex.read_range(sections[i].range).unwrap();
        data.append(&mut bytes);
        i += 1;
    }
    let mut table: Vec<u8> = Vec::new();
    table.push(0);
    i = 0;
    proof {
        assert(table@ =~= seq![0u8] + section_names(parts.take(0)));
    }
    while i < n
        invariant
            i <= n,
            n == sections@.len(),
            parts == parts_of(sections@),
            sections_classified(sections@),
            table@ == seq![0u8] + section_names(parts.take(i as int)),
        decreases n - i,
    {
        let ghost so_far = table@;
        let s = &sections[i];
        proof {
            assert(parts[i as int] == sections@[i as int].range);
            assert(parts.take(i as int + 1).drop_last() =~= parts.take(i as int));
            assert(parts.take(i as int + 1).last() == parts[i as int]);
        }
        table.extend_from_slice(s.name.as_slice());
        table.push(0);
        proof {
            assert(table@ =~= so_far + s.kind.spec_name() + seq![0u8]);
            assert(table@ =~= seq![0u8] + section_names(parts.take(i as int + 1)));
        }
        i += 1;
    }
    let mut own: Vec<u8> = SectionKind::StrTab.name();
    table.append(&mut own);
    table.push(0);
    proof {
        assert(parts.take(n as int) =~= parts);
        assert(table@ =~= name_table(parts));
        lemma_section_data_len(image, parts);
    }
    let data_len: usize = data.len();
    let table_len: usize = table.len();
    if data_len > 0xFFFF_FFFF || table_len > 0xFFFF_FFFF {
        return Err(ElfError::FileTooLarge);
    }
    let sh_off: u64 = HEADER_SIZE as u64 + data_len as u64 + table_len as u64;
    if sh_off > 0xFFFF_FFFF {
        return Err(ElfError::FileTooLarge);
    }
    let entry: u32 = match hex.start_addr() {
        Some(a) => a & 0xFFFF_FFFE,
        None => 0,
    };
    let mut out: Vec<u8> = Vec::new();
    push_elf_header(&mut out, entry, sh_off as u32, (n + 1) as u16, n as u16);
    out.append(&mut data);
    out.append(&mut table);
    let ghost front = out@;
    let mut data_off: u32 = HEADER_SIZE as u32;
    let mut name_off: u32 = 1;
    i = 0;
    proof {
        assert(out@ =~= front + progbits_headers(parts, 0));
    }
    while i < n
        invariant
            i <= n,
            n == sections@.len(),
            parts == parts_of(sections@),
            sections_classified(sections@),
            forall|k: int| 0 <= k < parts.len() ==> (#[trigger] parts[k]).well_formed(),
            HEADER_SIZE + total_size(parts) + name_table(parts).len() <= u32::MAX,
            out@ == front + progbits_headers(parts, i as int),
            data_off == HEADER_SIZE + total_size(parts.take(i as int)),
            name_off == 1 + section_names(parts.take(i as int)).len(),
        decreases n - i,
    {
        let ghost so_far = out@;
        let s = &sections[i];
        proof {
            assert(parts[i as int] == sections@[i as int].range);
            assert(parts[i as int].well_formed());
            lemma_take_sums(parts, i as int);
            lemma_take_sums(parts, i as int + 1);
        }
        let size: u32 = s.range.size();
        push_section_header(&mut out, name_off, s.kind, s.range.start, data_off, size);
        proof {
            assert(out@ =~= front + progbits_headers(parts, i as int + 1));
        }
        data_off = data_off + size;
        name_off = name_off + s.name.len() as u32 + 1;
        i += 1;
    }
    proof {
        assert(parts.take(n as int) =~= parts);
    }
    push_section_header(&mut out, name_off, SectionKind::StrTab, 0, data_off, table_len as u32);
    proof {
        assert(out@ =~= elf_header(entry, sh_off as u32, (n + 1) as u16, n as u16) + section_data(
            image,
            parts,
        ) + name_table(parts) + progbits_headers(parts, n as int) + strtab_header(parts));
    }
    Ok(out)
}

} // verus!
