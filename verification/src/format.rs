//! Byte-level layout of the D88 container: record sizes, little-endian field
//! extraction, and the two header records as plain structs.

use vstd::prelude::*;

verus! {

/// Size in bytes of one sector header record.
pub const SECTOR_HEADER_SIZE: u64 = 16;

/// Size in bytes of the global disk header record.
pub const DISK_HEADER_SIZE: u64 = 688;

/// Number of bytes reserved for the disk name (including its terminator).
pub const DISK_NAME_SIZE: usize = 17;

/// Number of slots in the track-offset table, one per possible
/// (cylinder, head) position. A slot holding 0 is unused.
pub const TRACK_TABLE_LEN: usize = 164;

/// Safety cap on the number of sectors decoded for one track; it bounds the
/// work done on a corrupted sectors-per-track count.
pub const MAX_SECTOR: u16 = 64;

/// The little-endian 16-bit value stored at `pos`.
pub open spec fn spec_le16(s: Seq<u8>, pos: int) -> int {
    s[pos] + 256 * s[pos + 1]
}

/// The little-endian 32-bit value stored at `pos`.
pub open spec fn spec_le32(s: Seq<u8>, pos: int) -> int {
    s[pos] + 256 * s[pos + 1] + 65536 * s[pos + 2] + 16777216 * s[pos + 3]
}

/// Header of one sector record: logical position (C/H/R), size code,
/// sectors-per-track count restated by every record, flag bytes, and the
/// actual payload length.
#[derive(Clone, Copy, Debug, PartialEq, Eq, Structural)]
pub struct SectorHeader {
    pub cylinder: u8,
    pub head: u8,
    pub sector: u8,
    pub sector_size: u8,
    pub number_of_sec: u16,
    pub density: u8,
    pub deleted_flag: u8,
    pub status: u8,
    pub size_of_data: u16,
}

impl Default for SectorHeader {
    /// A header with every field zero.
    fn default() -> (r: Self)
        ensures
            r == (SectorHeader {
                cylinder: 0,
                head: 0,
                sector: 0,
                sector_size: 0,
                number_of_sec: 0,
                density: 0,
                deleted_flag: 0,
                status: 0,
                size_of_data: 0,
            }),
    {
        SectorHeader {
            cylinder: 0,
            head: 0,
            sector: 0,
            sector_size: 0,
            number_of_sec: 0,
            density: 0,
            deleted_flag: 0,
            status: 0,
            size_of_data: 0,
        }
    }
}

/// The sector header stored at byte position `pos`.
pub open spec fn spec_sector_header(s: Seq<u8>, pos: int) -> SectorHeader {
    SectorHeader {
        cylinder: s[pos],
        head: s[pos + 1],
        sector: s[pos + 2],
        sector_size: s[pos + 3],
        number_of_sec: spec_le16(s, pos + 4) as u16,
        density: s[pos + 6],
        deleted_flag: s[pos + 7],
        status: s[pos + 8],
        size_of_data: spec_le16(s, pos + 14) as u16,
    }
}

/// Nominal byte length of a sector with size code `n`: `128 * 2^n`, where the
/// size code is the low two bits of the field.
pub open spec fn nominal_size(n: u8) -> int {
    if n & 3 == 0 {
        128
    } else if n & 3 == 1 {
        256
    } else if n & 3 == 2 {
        512
    } else {
        1024
    }
}

/// Distance in bytes from the start of a sector record to the start of the
/// next one: the header plus the nominal (not the actual) payload length.
pub open spec fn sector_stride(h: SectorHeader) -> int {
    SECTOR_HEADER_SIZE + nominal_size(h.sector_size)
}

/// Global header of a disk image. The track table is kept at its fixed
/// length so that a slot's index keeps its positional meaning.
#[derive(Debug)]
pub struct DiskHeader {
    pub disk_name: Vec<u8>,
    pub write_protect: u8,
    pub media_type: u8,
    pub disk_size: u32,
    pub track_tbl: Vec<u32>,
}

impl Default for DiskHeader {
    /// A header with a zeroed name, zeroed flags, and an all-unused track
    /// table, at their fixed lengths.
    fn default() -> (r: Self)
        ensures
            r.disk_name@ == Seq::new(DISK_NAME_SIZE as nat, |i: int| 0u8),
            r.write_protect == 0,
            r.media_type == 0,
            r.disk_size == 0,
            r.track_tbl@ == Seq::new(TRACK_TABLE_LEN as nat, |i: int| 0u32),
            r.wf(),
    {
        let r = DiskHeader {
            disk_name: vec![0u8; DISK_NAME_SIZE],
            write_protect: 0,
            media_type: 0,
            disk_size: 0,
            track_tbl: vec![0u32; TRACK_TABLE_LEN],
        };
        proof {
            assert(r.disk_name@ =~= Seq::new(DISK_NAME_SIZE as nat, |i: int| 0u8));
            assert(r.track_tbl@ =~= Seq::new(TRACK_TABLE_LEN as nat, |i: int| 0u32));
        }
        r
    }
}

#[verifier::ext_equal]
pub ghost struct DiskHeaderView {
    pub disk_name: Seq<u8>,
    pub write_protect: u8,
    pub media_type: u8,
    pub disk_size: u32,
    pub track_tbl: Seq<u32>,
}

impl View for DiskHeader {
    type V = DiskHeaderView;

    open spec fn view(&self) -> DiskHeaderView {
        DiskHeaderView {
            disk_name: self.disk_name@,
            write_protect: self.write_protect,
            media_type: self.media_type,
            disk_size: self.disk_size,
            track_tbl: self.track_tbl@,
        }
    }
}

impl DiskHeader {
    /// The fixed-length fields have their fixed lengths.
    pub open spec fn wf(&self) -> bool {
        &&& self.disk_name@.len() == DISK_NAME_SIZE
        &&& self.track_tbl@.len() == TRACK_TABLE_LEN
    }
}

/// The disk header stored at the start of the byte source.
pub open spec fn spec_disk_header(s: Seq<u8>) -> DiskHeaderView {
    DiskHeaderView {
        disk_name: s.subrange(0, DISK_NAME_SIZE as int),
        write_protect: s[26],
        media_type: s[27],
        disk_size: spec_le32(s, 28) as u32,
        track_tbl: Seq::new(TRACK_TABLE_LEN as nat, |i: int| spec_le32(s, 32 + 4 * i) as u32),
    }
}

/// Reads the little-endian 16-bit value at `pos`.
pub fn read_le16(source: &Vec<u8>, pos: usize) -> (r: u16)
    requires
        pos + 2 <= source@.len(),
    ensures
        r == spec_le16(source@, pos as int),
{
    assert(pos + 2 <= source.len());
    source[pos] as u16 + 256 * (source[pos + 1] as u16)
}

/// Reads the little-endian 32-bit value at `pos`.
pub fn read_le32(source: &Vec<u8>, pos: usize) -> (r: u32)
    requires
        pos + 4 <= source@.len(),
    ensures
        r == spec_le32(source@, pos as int),
{
    assert(pos + 4 <= source.len());
    source[pos] as u32 + 256 * (source[pos + 1] as u32) + 65536 * (source[pos + 2] as u32)
        + 16777216 * (source[pos + 3] as u32)
}

/// Copies `len` bytes starting at `start` into a fresh vector.
pub fn copy_range(source: &Vec<u8>, start: usize, len: usize) -> (r: Vec<u8>)
    requires
        start + len <= source@.len(),
    ensures
        r@ == source@.subrange(start as int, start + len),
{
    assert(start + len <= source.len());
    let mut r: Vec<u8> = Vec::new();
    let mut i: usize = 0;
    while i < len
        invariant
            i <= len,
            start + len <= source.len(),
            r@ == source@.subrange(start as int, start + i),
        decreases len - i,
    {
        r.push(source[start + i]);
        assert(r@ =~= source@.subrange(start as int, start + i + 1));
        i = i + 1;
    }
    r
}

/// Copies the 16 bytes at `ofst`, the unit in which the report renderer
/// displays a byte source.
pub fn chunk16(buffer: &Vec<u8>, ofst: usize) -> (r: Vec<u8>)
    requires
        ofst + 16 <= buffer@.len(),
    ensures
        r@ == buffer@.subrange(ofst as int, ofst + 16),
{
    copy_range(buffer, ofst, 16)
}

/// Decodes the sector header record at byte position `pos`.
pub fn decode_sector_header(source: &Vec<u8>, pos: usize) -> (h: SectorHeader)
    requires
        pos + SECTOR_HEADER_SIZE <= source@.len(),
    ensures
        h == spec_sector_header(source@, pos as int),
{
    assert(pos + SECTOR_HEADER_SIZE <= source.len());
    SectorHeader {
        cylinder: source[pos],
        head: source[pos + 1],
        sector: source[pos + 2],
        sector_size: source[pos + 3],
        number_of_sec: read_le16(source, pos + 4),
        density: source[pos + 6],
        deleted_flag: source[pos + 7],
        status: source[pos + 8],
        size_of_data: read_le16(source, pos + 14),
    }
}

/// Computes the nominal byte length for the size code `n`.
pub fn nominal_size_of(n: u8) -> (r: u64)
    ensures
        r == nominal_size(n),
{
    match n & 3 {
        0 => 128,
        1 => 256,
        2 => 512,
        _ => 1024,
    }
}

/// Decodes the global disk header at the start of the byte source.
pub fn decode_disk_header(source: &Vec<u8>) -> (h: DiskHeader)
    requires
        DISK_HEADER_SIZE <= source@.len(),
    ensures
        h@ == spec_disk_header(source@),
        h.wf(),
{
    let disk_name = copy_range(source, 0, DISK_NAME_SIZE);
    let mut track_tbl: Vec<u32> = Vec::new();
    let mut i: usize = 0;
    while i < TRACK_TABLE_LEN
        invariant
            i <= TRACK_TABLE_LEN,
            DISK_HEADER_SIZE <= source@.len(),
            track_tbl@.len() == i,
            forall|j: int|
                0 <= j < i ==> track_tbl@[j] == spec_le32(source@, 32 + 4 * j) as u32,
        decreases TRACK_TABLE_LEN - i,
    {
        track_tbl.push(read_le32(source, 32 + 4 * i));
        i = i + 1;
    }
    let h = DiskHeader {
        disk_name,
        write_protect: source[26],
        media_type: source[27],
        disk_size: read_le32(source, 28),
        track_tbl,
    };
    proof {
        assert(h@.track_tbl =~= spec_disk_header(source@).track_tbl);
        assert(h@ =~= spec_disk_header(source@));
    }
    h
}

} // verus!
