//! What loading reads of an executable image, as xmas_elf parses it.

use vstd::prelude::*;

verus! {

/// The fields of an ELF file header that loading reads.
#[derive(Clone, Copy, Debug, PartialEq, Eq, Structural)]
pub struct ElfHeader {
    /// The file is of the 64-bit class (else of the 32-bit one).
    pub is_64: bool,
    pub entry_point: u64,
    pub ph_offset: u64,
    pub ph_entry_size: u16,
    pub ph_count: u16,
}

/// The type of a program header, as loading tells them apart.
#[derive(Clone, Copy, Debug, PartialEq, Eq, Structural)]
pub enum SegmentKind {
    /// A loadable segment.
    Load,
    /// A segment of another known type.
    Other,
    /// A type value that no ELF type stands for.
    Invalid,
}

/// The fields of a program header that loading reads.
#[derive(Clone, Copy, Debug, PartialEq, Eq, Structural)]
pub struct ProgramSegment {
    pub virtual_addr: u64,
    pub mem_size: u64,
    pub offset: u64,
    pub file_size: u64,
    pub readable: bool,
    pub writable: bool,
    pub executable: bool,
}

/// The header that xmas_elf reads from `data`, if it takes `data` for an ELF
/// file. xmas_elf reads multi-byte fields in the host's byte order; these
/// contracts are stated for a little-endian host, as RISC-V and x86-64 are.
pub uninterp spec fn elf_header_of(data: Seq<u8>) -> Option<ElfHeader>;

/// The type of program header `index` of `data`, as xmas_elf reads it on a
/// little-endian host.
pub uninterp spec fn elf_segment_kind_of(data: Seq<u8>, index: u16) -> Option<SegmentKind>;

/// Program header `index` of `data`, as xmas_elf reads it on a little-endian
/// host.
pub uninterp spec fn elf_segment_of(data: Seq<u8>, index: u16) -> Option<ProgramSegment>;

/// Bytes that reading a header of either class takes: 16 of identification
/// and at most 48 of the class-specific part.
pub const ELF_HEADER_LEN: usize = 64;

/// Program header `index` lies in `data` past a non-zero table offset, in an
/// entry long enough and aligned for its class: then xmas_elf reads it
/// without a failed bound or alignment check.
pub open spec fn program_header_readable(data: Seq<u8>, h: ElfHeader, index: u16) -> bool {
    let start = h.ph_offset + index * h.ph_entry_size;
    &&& index < h.ph_count
    &&& h.ph_offset > 0
    &&& h.ph_entry_size >= (if h.is_64 {
        56int
    } else {
        32int
    })
    &&& start + h.ph_entry_size <= data.len()
    &&& start % (if h.is_64 {
        8int
    } else {
        4int
    }) == 0
}

/// Whether program header `index` of `data` can be read.
pub fn program_header_in_bounds(data: &[u8], h: &ElfHeader, index: u16) -> (r: bool)
    ensures
        r == program_header_readable(data@, *h, index),
{
    if index >= h.ph_count || h.ph_offset == 0 {
        return false;
    }
    let min_size: u16 = if h.is_64 { 56 } else { 32 };
    let align: u64 = if h.is_64 { 8 } else { 4 };
    if h.ph_entry_size < min_size {
        return false;
    }
    assert((index as int) * (h.ph_entry_size as int) <= 0xffff * 0xffff) by (nonlinear_arith)
        requires
            index <= 0xffff,
            h.ph_entry_size <= 0xffff,
    ;
    let skip: u128 = index as u128 * h.ph_entry_size as u128;
    let start: u128 = h.ph_offset as u128 + skip;
    let end: u128 = start + h.ph_entry_size as u128;
    if end > data.len() as u128 {
        return false;
    }
    start % (align as u128) == 0
}

/// Relies on `xmas_elf::ElfFile::new`, which checks the magic bytes and the
/// class and reads the second header part, and on the `HeaderPt2` getters.
/// With at least 64 bytes no slice bound fails. xmas_elf reads the header
/// structs in place and asserts their alignment, so the bytes are first
/// copied to an 8-aligned place.
#[verifier::external_body]
pub(crate) fn read_elf_header(data: &[u8]) -> (r: Option<ElfHeader>)
    requires
        data@.len() >= ELF_HEADER_LEN,
    ensures
        r == elf_header_of(data@),
        r is Some ==> data@[0] == 0x7f && data@[1] == 0x45 && data@[2] == 0x4c && data@[3] == 0x46,
{
    let mut buf = vec![0u8; data.len() + 8];
    let at = buf.as_ptr().align_offset(8);
    buf[at..at + data.len()].copy_from_slice(data);
    let Ok(elf) = xmas_elf::ElfFile::new(&buf[at..at + data.len()]) else { return None };
    let h = elf.header.pt2;
    Some(ElfHeader {
        is_64: elf.header.pt1.class() == xmas_elf::header::Class::SixtyFour,
        entry_point: h.entry_point(),
        ph_offset: h.ph_offset(),
        ph_entry_size: h.ph_entry_size(),
        ph_count: h.ph_count(),
    })
}

/// Relies on `xmas_elf::ElfFile::program_header` and
/// `ProgramHeader::get_type`: the type of program header `index`. The bytes
/// are copied to an 8-aligned place first, as xmas_elf reads in place.
#[verifier::external_body]
pub(crate) fn read_segment_kind(data: &[u8], index: u16) -> (r: Option<SegmentKind>)
    requires
        data@.len() >= ELF_HEADER_LEN,
        elf_header_of(data@) matches Some(h) && program_header_readable(data@, h, index),
    ensures
        r == elf_segment_kind_of(data@, index),
{
    let mut buf = vec![0u8; data.len() + 8];
    let at = buf.as_ptr().align_offset(8);
    buf[at..at + data.len()].copy_from_slice(data);
    let Ok(elf) = xmas_elf::ElfFile::new(&buf[at..at + data.len()]) else { return None };
    let Ok(ph) = elf.program_header(index) else { return None };
    match ph.get_type() {
        Ok(xmas_elf::program::Type::Load) => Some(SegmentKind::Load),
        Ok(_) => Some(SegmentKind::Other),
        Err(_) => Some(SegmentKind::Invalid),
    }
}

/// Relies on `xmas_elf::ElfFile::program_header` and the `ProgramHeader`
/// getters: the addresses, sizes and flags of program header `index`. The
/// bytes are copied to an 8-aligned place first, as xmas_elf reads in place.
#[verifier::external_body]
pub(crate) fn read_segment(data: &[u8], index: u16) -> (r: Option<ProgramSegment>)
    requires
        data@.len() >= ELF_HEADER_LEN,
        elf_header_of(data@) matches Some(h) && program_header_readable(data@, h, index),
    ensures
        r == elf_segment_of(data@, index),
{
    let mut buf = vec![0u8; data.len() + 8];
    let at = buf.as_ptr().align_offset(8);
    buf[at..at + data.len()].copy_from_slice(data);
    let Ok(elf) = xmas_elf::ElfFile::new(&buf[at..at + data.len()]) else { return None };
    let Ok(ph) = elf.program_header(index) else { return None };
    let f = ph.flags();
    Some(ProgramSegment {
        virtual_addr: ph.virtual_addr(), mem_size: ph.mem_size(),
        offset: ph.offset(), file_size: ph.file_size(),
        readable: f.is_read(), writable: f.is_write(), executable: f.is_execute(),
    })
}

} // verus!
