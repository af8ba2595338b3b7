//! Intel HEX images as a gap-aware address space.
//!
//! A text image is decoded record by record into chunks of bytes, each at an
//! absolute 32-bit address.  The chunks, kept in ascending address order, form
//! maximal contiguous address ranges that can be read, relocated, and written
//! out as a small ELF32 executable for an ARM target.

pub mod chunk;
pub mod coverage;
pub mod decoder;
pub mod digits;
pub mod elf;
pub mod encoder;
pub mod image;
pub mod num;
pub mod range;
pub mod record;
pub mod relocation;
pub mod roundtrip;
pub mod select;
pub mod text;

pub use crate::chunk::{Chunk, Data, StartSegmentAddr};
pub use crate::decoder::Context;
pub use crate::elf::{range_to_section, to_elf_file, ElfError, SectionData, SectionKind};
pub use crate::image::{HexFile, HexImage, ModelError};
pub use crate::num::{num_decode, NumError};
pub use crate::range::AddrRange;
pub use crate::record::{DecodeError, Record};
pub use crate::select::{dump_span, print_spans, DumpError, PrintSpan};
