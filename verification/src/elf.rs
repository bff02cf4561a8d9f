//! Reading ELF files through `xmas_elf`: the header fields and the program headers that loading
//! a program uses.
use vstd::prelude::*;

verus! {

/// What `xmas_elf` reads from the header of the ELF file `data`, when it accepts it: the class
/// (1 for 32-bit, 2 for 64-bit), the number of program headers, the entry point, the offset of
/// the program header table and the size of one of its entries.
/// `xmas_elf` reads the fields in the byte order of the machine the kernel runs on (little
/// endian on RISC-V), so the name stands for that order.
pub uninterp spec fn elf_header_of(data: Seq<u8>) -> Option<(u8, u16, u64, u64, u16)>;

/// What `xmas_elf` reads from program header `i` of the ELF file `data`: whether its type is
/// one it knows, whether that type is LOAD, the flags, the offset of the segment in the file,
/// its virtual address, its size in the file and its size in memory.
/// The fields are read in the machine's byte order, as for `elf_header_of`.
pub uninterp spec fn elf_program_header_of(data: Seq<u8>, i: u16) -> (bool, bool, u32, u64, u64, u64, u64);

/// `data` holds an ELF header as far as `xmas_elf` reads it: the 16 identification bytes, and
/// the rest of the header for the class that byte 4 gives (52 bytes in all for 32-bit files,
/// 64 for 64-bit ones).
pub open spec fn header_fits(data: Seq<u8>) -> bool {
    &&& data.len() >= 16
    &&& data[4] == 1 ==> data.len() >= 52
    &&& data[4] == 2 ==> data.len() >= 64
}

/// The ELF magic number.
pub open spec fn elf_magic() -> Seq<u8> {
    seq![0x7fu8, 0x45u8, 0x4cu8, 0x46u8]
}

/// `xmas_elf` accepts the header of `data`: the header is there in full, starts with the ELF
/// magic number, and its class byte is 1 (32-bit) or 2 (64-bit).
pub open spec fn header_accepted(data: Seq<u8>) -> bool {
    &&& header_fits(data)
    &&& data.subrange(0, 4) == elf_magic()
    &&& (data[4] == 1 || data[4] == 2)
}

/// Whether `xmas_elf` accepts the header of `data`, as `ElfFile::new` decides it.
pub fn accepts_header(data: &[u8]) -> (r: bool)
    ensures
        r == header_accepted(data@),
{
    if data.len() < 16 {
        return false;
    }
    let class = data[4];
    if (class == 1 && data.len() < 52) || (class == 2 && data.len() < 64) {
        return false;
    }
    elf_header(data).is_some()
}

/// Alignment of the fields of the headers of a file of class `class`: 4 bytes for 32-bit files,
/// 8 for 64-bit ones.
pub open spec fn field_align(class: u8) -> int {
    if class == 1 { 4 } else { 8 }
}

/// Program header `i` of a file whose header reads `h` lies inside a file of `len` bytes, in an
/// entry large enough for a program header of the file's class, at an offset aligned for the
/// fields of that class.
#[verifier::opaque]
pub open spec fn ph_entry_ok(h: (u8, u16, u64, u64, u16), i: int, len: int) -> bool {
    &&& 0 <= i < h.1
    &&& h.3 > 0
    &&& h.4 > 0
    &&& h.3 + (i + 1) * h.4 <= len
    &&& h.4 >= (if h.0 == 1 { 32int } else { 56int })
    &&& (h.3 as int) % field_align(h.0) == 0
    &&& (h.4 as int) % field_align(h.0) == 0
}

/// Parses the header of `data` with `xmas_elf::ElfFile::new` and reads the class, the number of
/// program headers, the entry point and the place of the program header table from it.
/// The contract claims that the result is the one named `elf_header_of`, and what the source of
/// `parse_header` shows: the header is accepted exactly when it starts with the ELF magic number
/// and its class byte is 1 or 2, and the class read is that byte. `ElfFile::new` reads the header
/// in place and asserts that it starts at an address aligned for its 8-byte fields, so the bytes
/// are first copied to the start of an 8-aligned stretch of a buffer of their own (with
/// `align_offset`), and that copy is parsed. `parse_header` slices the rest of the header after
/// the 16 identification bytes, 36 bytes for a 32-bit file and 48 for a 64-bit one, which
/// `requires` asks to be there (`header_fits`).
#[verifier::external_body]
pub(crate) fn elf_header(data: &[u8]) -> (r: Option<(u8, u16, u64, u64, u16)>)
    requires
        header_fits(data@),
    ensures
        r == elf_header_of(data@),
        r.is_some() == (data@.subrange(0, 4) == elf_magic() && (data@[4] == 1 || data@[4] == 2)),
        r matches Some(h) ==> h.0 == data@[4],
{
    let mut buf = data.to_vec();
    buf.extend_from_slice(&[0u8; 8]);
    let k = buf.as_ptr().align_offset(8);
    buf.copy_within(..data.len(), k);
    let elf = xmas_elf::ElfFile::new(&buf[k..][..data.len()]).ok()?;
    let class = match elf.header.pt1.class() {
        xmas_elf::header::Class::ThirtyTwo => 1u8,
        _ => 2u8,
    };
    let pt2 = elf.header.pt2;
    Some((class, pt2.ph_count(), pt2.entry_point(), pt2.ph_offset(), pt2.ph_entry_size()))
}

/// Parses `data` again with `xmas_elf::ElfFile::new`, takes program header `i` with
/// `ElfFile::program_header`, and reads its type (`get_type`), flags, offset, virtual address,
/// file size and memory size. The contract claims that the result is the one named
/// `elf_program_header_of`. Both calls read in place and assert alignment: the bytes are parsed
/// from an 8-aligned copy, as in `elf_header`, and `requires` asks, through `ph_entry_ok`, that
/// the table's offset and entry size be multiples of the field alignment of the file's class,
/// so that the entry read lies aligned in that copy.
#[verifier::external_body]
pub(crate) fn elf_program_header(data: &[u8], i: u16) -> (r: (bool, bool, u32, u64, u64, u64, u64))
    requires
        header_fits(data@),
        elf_header_of(data@) matches Some(h) && ph_entry_ok(h, i as int, data@.len() as int),
    ensures
        r == elf_program_header_of(data@, i),
{
    let mut buf = data.to_vec();
    buf.extend_from_slice(&[0u8; 8]);
    let k = buf.as_ptr().align_offset(8);
    buf.copy_within(..data.len(), k);
    let elf = xmas_elf::ElfFile::new(&buf[k..][..data.len()]).unwrap();
    let ph = elf.program_header(i).unwrap();
    let (known, load) = match ph.get_type() {
        Ok(xmas_elf::program::Type::Load) => (true, true),
        Ok(_) => (true, false),
        Err(_) => (false, false),
    };
    (known, load, ph.flags().0, ph.offset(), ph.virtual_addr(), ph.file_size(), ph.mem_size())
}

} // verus!
