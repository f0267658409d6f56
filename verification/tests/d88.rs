use d88fileio::disk::{DecodeError, Disk, Sector, ShortReadKind, Track};
use d88fileio::format::{chunk16, decode_disk_header, read_le16, read_le32, MAX_SECTOR};

/// One 16-byte sector header record.
fn sector_header_bytes(
    cylinder: u8,
    head: u8,
    sector: u8,
    size_code: u8,
    number_of_sec: u16,
    size_of_data: u16,
) -> Vec<u8> {
    let mut h = vec![0u8; 16];
    h[0] = cylinder;
    h[1] = head;
    h[2] = sector;
    h[3] = size_code;
    h[4] = (number_of_sec & 0xff) as u8;
    h[5] = (number_of_sec >> 8) as u8;
    h[14] = (size_of_data & 0xff) as u8;
    h[15] = (size_of_data >> 8) as u8;
    h
}

/// Writes `bytes` into `img` at absolute position `at`, growing it with
/// zeros as needed.
fn put(img: &mut Vec<u8>, at: usize, bytes: &[u8]) {
    if img.len() < at + bytes.len() {
        img.resize(at + bytes.len(), 0);
    }
    img[at..at + bytes.len()].copy_from_slice(bytes);
}

/// A 688-byte disk header with the given (slot, offset) table entries.
fn disk_header_bytes(entries: &[(usize, u32)]) -> Vec<u8> {
    let mut h = vec![0u8; 688];
    for &(slot, off) in entries {
        let p = 32 + 4 * slot;
        h[p] = (off & 0xff) as u8;
        h[p + 1] = ((off >> 8) & 0xff) as u8;
        h[p + 2] = ((off >> 16) & 0xff) as u8;
        h[p + 3] = ((off >> 24) & 0xff) as u8;
    }
    h
}

#[test]
fn sector_zero_offset_is_invalid() {
    let src = vec![0u8; 1024];
    let mut sec = Sector::default();
    let r = sec.preset(&src, 0);
    assert_eq!(r, Err(DecodeError::InvalidOffset));
    // nothing was read or stored
    assert_eq!(sec.offset, 0);
    assert_eq!(sec.data.len(), 0);
}

#[test]
fn sector_payload_length_is_size_of_data() {
    // size code 1 (nominal 256) but only 5 actual payload bytes
    let mut src = Vec::new();
    put(&mut src, 32, &sector_header_bytes(1, 0, 7, 1, 9, 5));
    put(&mut src, 48, b"abcde");
    let mut sec = Sector::default();
    let r = sec.preset(&src, 32);
    // the stride uses the nominal size: 16 + 256
    assert_eq!(r, Ok(272));
    assert_eq!(sec.offset, 48);
    assert_eq!(sec.header.cylinder, 1);
    assert_eq!(sec.header.head, 0);
    assert_eq!(sec.header.sector, 7);
    assert_eq!(sec.header.sector_size, 1);
    assert_eq!(sec.header.number_of_sec, 9);
    assert_eq!(sec.header.size_of_data, 5);
    assert_eq!(sec.data, b"abcde".to_vec());
}

#[test]
fn sector_short_header_fails() {
    let src = vec![0u8; 40];
    let mut sec = Sector::default();
    let r = sec.preset(&src, 30);
    assert_eq!(r, Err(DecodeError::ShortRead(ShortReadKind::Header)));
}

#[test]
fn sector_short_payload_fails() {
    let mut src = Vec::new();
    // declares 100 payload bytes but only 10 are present
    put(&mut src, 16, &sector_header_bytes(0, 0, 1, 0, 1, 100));
    put(&mut src, 32, &[0xAAu8; 10]);
    let mut sec = Sector::default();
    let r = sec.preset(&src, 16);
    assert_eq!(r, Err(DecodeError::ShortRead(ShortReadKind::Payload)));
}

#[test]
fn sector_payload_to_exact_end_succeeds() {
    let mut src = Vec::new();
    put(&mut src, 16, &sector_header_bytes(0, 0, 1, 0, 1, 8));
    put(&mut src, 32, &[0x55u8; 8]);
    assert_eq!(src.len(), 40);
    let mut sec = Sector::default();
    let r = sec.preset(&src, 16);
    assert_eq!(r, Ok(144));
    assert_eq!(sec.data, vec![0x55u8; 8]);
}

/// Builds a chain of `count` sector records starting at `start`, each with
/// size code 0 (stride 144), no payload, and the given declared count.
fn sector_chain(count: usize, start: usize, declared: u16) -> Vec<u8> {
    let mut src = Vec::new();
    for k in 0..count {
        put(
            &mut src,
            start + 144 * k,
            &sector_header_bytes(0, 0, (k + 1) as u8, 0, declared, 0),
        );
    }
    src
}

#[test]
fn track_halts_at_cap_on_corrupt_count() {
    // a declared count of 60000 must decode exactly MAX_SECTOR sectors
    let src = sector_chain(MAX_SECTOR as usize, 16, 60000);
    let mut track = Track::default();
    let r = track.preset(&src, 16, MAX_SECTOR);
    assert_eq!(r, Ok(144 * MAX_SECTOR as usize));
    assert_eq!(track.sector_tbl.len(), MAX_SECTOR as usize);
    assert_eq!(track.number_of_sector, 60000);
}

#[test]
fn track_halts_at_small_cap() {
    let src = sector_chain(8, 16, 60000);
    let mut track = Track::default();
    let r = track.preset(&src, 16, 2);
    assert_eq!(r, Ok(288));
    assert_eq!(track.sector_tbl.len(), 2);
}

#[test]
fn track_stops_at_declared_count() {
    let src = sector_chain(8, 16, 3);
    let mut track = Track::default();
    let r = track.preset(&src, 16, MAX_SECTOR);
    assert_eq!(r, Ok(432));
    assert_eq!(track.sector_tbl.len(), 3);
    assert_eq!(track.number_of_sector, 3);
    // payload offsets follow the stride chain
    assert_eq!(track.sector_tbl[0].offset, 32);
    assert_eq!(track.sector_tbl[1].offset, 176);
    assert_eq!(track.sector_tbl[2].offset, 320);
}

#[test]
fn track_cap_zero_still_reads_one_sector() {
    // the stop check runs after each sector, so even a zero cap reads one
    let src = sector_chain(2, 16, 60000);
    let mut track = Track::default();
    let r = track.preset(&src, 16, 0);
    assert_eq!(r, Ok(144));
    assert_eq!(track.sector_tbl.len(), 1);
}

#[test]
fn preset_track_on_all_unused_table_is_empty() {
    let src = vec![0u8; 1024];
    let mut disk = Disk::default();
    assert_eq!(disk.preset_track(&src), Err(DecodeError::EmptyDisk));
    assert_eq!(disk.track_tbl.len(), 0);
}

#[test]
fn preset_track_uses_the_header_table() {
    let mut src = vec![0u8; 16];
    put(&mut src, 16, &sector_header_bytes(0, 0, 1, 0, 1, 4));
    put(&mut src, 32, b"data");
    let mut disk = Disk::default();
    disk.header.track_tbl[7] = 16;
    let r = disk.preset_track(&src);
    assert_eq!(r, Ok(144));
    assert_eq!(disk.track_tbl.len(), 1);
    assert_eq!(disk.track_tbl[0].sector_tbl[0].data, b"data".to_vec());
}

#[test]
fn track_zero_offset_is_invalid() {
    let src = vec![0u8; 1024];
    let mut track = Track::default();
    assert_eq!(track.preset(&src, 0, MAX_SECTOR), Err(DecodeError::InvalidOffset));
}

#[test]
fn track_aborts_on_any_sector_failure() {
    // second record's header lies past the end of the source
    let src = sector_chain(1, 16, 3);
    let mut track = Track::default();
    let r = track.preset(&src, 16, MAX_SECTOR);
    assert_eq!(r, Err(DecodeError::ShortRead(ShortReadKind::Header)));
    // no partial track is kept
    assert_eq!(track.sector_tbl.len(), 0);
}

/// Builds a track of three sectors with logical numbers 3, 1, 2 in decode
/// order.
fn shuffled_track(src: &mut Vec<u8>) -> Track {
    put(src, 16, &sector_header_bytes(0, 0, 3, 0, 3, 0));
    put(src, 160, &sector_header_bytes(0, 0, 1, 0, 3, 0));
    put(src, 304, &sector_header_bytes(0, 0, 2, 0, 3, 0));
    let mut track = Track::default();
    let r = track.preset(src, 16, MAX_SECTOR);
    assert_eq!(r, Ok(432));
    track
}

#[test]
fn sector_sort_orders_by_logical_number() {
    let mut src = Vec::new();
    let mut track = shuffled_track(&mut src);
    track.sector_sort();
    let rs: Vec<u8> = track.sector_tbl.iter().map(|s| s.header.sector).collect();
    assert_eq!(rs, vec![1, 2, 3]);
}

#[test]
fn sort_round_trip_restores_decode_order() {
    let mut src = Vec::new();
    let mut track = shuffled_track(&mut src);
    track.sector_sort();
    track.file_offset_sort();
    let rs: Vec<u8> = track.sector_tbl.iter().map(|s| s.header.sector).collect();
    assert_eq!(rs, vec![3, 1, 2]);
    let offs: Vec<u64> = track.sector_tbl.iter().map(|s| s.offset).collect();
    assert_eq!(offs, vec![32, 176, 320]);
}

#[test]
fn sector_sort_is_stable_on_equal_numbers() {
    // two sectors share logical number 1; their decode order must be kept
    let mut src = Vec::new();
    put(&mut src, 16, &sector_header_bytes(0, 0, 1, 0, 2, 0));
    put(&mut src, 160, &sector_header_bytes(0, 0, 1, 0, 2, 0));
    let mut track = Track::default();
    assert_eq!(track.preset(&src, 16, MAX_SECTOR), Ok(288));
    track.sector_sort();
    assert_eq!(track.sector_tbl[0].offset, 32);
    assert_eq!(track.sector_tbl[1].offset, 176);
}

#[test]
fn disk_minimal_two_tracks() {
    // two tracks of one 128-byte sector each
    let mut src = disk_header_bytes(&[(0, 688), (1, 832)]);
    put(&mut src, 688, &sector_header_bytes(0, 0, 1, 0, 1, 128));
    put(&mut src, 704, &[0x11u8; 128]);
    put(&mut src, 832, &sector_header_bytes(0, 1, 1, 0, 1, 128));
    put(&mut src, 848, &[0x22u8; 128]);
    let mut disk = Disk::default();
    let r = disk.preset(&src);
    assert_eq!(r, Ok(288));
    assert_eq!(disk.track_tbl.len(), 2);
    assert_eq!(disk.track_tbl[0].sector_tbl.len(), 1);
    assert_eq!(disk.track_tbl[0].sector_tbl[0].data.len(), 128);
    assert_eq!(disk.track_tbl[0].sector_tbl[0].data, vec![0x11u8; 128]);
    assert_eq!(disk.track_tbl[1].sector_tbl[0].data, vec![0x22u8; 128]);
}

#[test]
fn disk_truncated_keeps_leading_tracks() {
    // the second entry points past the end of the source
    let mut src = disk_header_bytes(&[(0, 688), (1, 1_000_000)]);
    put(&mut src, 688, &sector_header_bytes(0, 0, 1, 0, 1, 128));
    put(&mut src, 704, &[0x33u8; 128]);
    let mut disk = Disk::default();
    let r = disk.preset(&src);
    assert_eq!(r, Ok(144));
    assert_eq!(disk.track_tbl.len(), 1);
}

#[test]
fn disk_stops_at_first_failed_track() {
    // entry 1 fails, entry 2 would be fine but is never reached
    let mut src = disk_header_bytes(&[(0, 688), (1, 1_000_000), (2, 832)]);
    put(&mut src, 688, &sector_header_bytes(0, 0, 1, 0, 1, 0));
    put(&mut src, 832, &sector_header_bytes(1, 0, 1, 0, 1, 0));
    let mut disk = Disk::default();
    let r = disk.preset(&src);
    assert_eq!(r, Ok(144));
    assert_eq!(disk.track_tbl.len(), 1);
}

#[test]
fn disk_all_offsets_corrupt_is_empty() {
    // every nonzero entry points too close to the end for even a header
    let len = 700u32;
    let mut src = disk_header_bytes(&[(0, len - 4), (1, len - 2), (80, len - 1)]);
    src.resize(len as usize, 0);
    let mut disk = Disk::default();
    let r = disk.preset(&src);
    assert_eq!(r, Err(DecodeError::EmptyDisk));
    assert_eq!(disk.track_tbl.len(), 0);
}

#[test]
fn disk_all_slots_unused_is_empty() {
    let src = disk_header_bytes(&[]);
    let mut disk = Disk::default();
    assert_eq!(disk.preset(&src), Err(DecodeError::EmptyDisk));
}

#[test]
fn disk_short_header_fails() {
    let src = vec![0u8; 687];
    let mut disk = Disk::default();
    assert_eq!(
        disk.preset(&src),
        Err(DecodeError::ShortRead(ShortReadKind::Header))
    );
    assert_eq!(disk.track_tbl.len(), 0);
}

#[test]
fn disk_zero_slots_are_skipped() {
    // slots 0..5 unused, slot 5 holds the only track
    let mut src = disk_header_bytes(&[(5, 688)]);
    put(&mut src, 688, &sector_header_bytes(2, 0, 1, 0, 1, 16));
    put(&mut src, 704, &[0x44u8; 16]);
    let mut disk = Disk::default();
    let r = disk.preset(&src);
    assert_eq!(r, Ok(144));
    assert_eq!(disk.track_tbl.len(), 1);
    assert_eq!(disk.track_tbl[0].sector_tbl[0].header.cylinder, 2);
}

#[test]
fn disk_header_fields_are_little_endian() {
    let mut src = disk_header_bytes(&[(0, 0x0004_03AB), (163, 7)]);
    src[0] = b'T';
    src[1] = b'E';
    src[26] = 0x10; // write protect
    src[27] = 0x20; // media type
    src[28] = 0x78;
    src[29] = 0x56;
    src[30] = 0x34;
    src[31] = 0x12; // disk size 0x12345678
    let h = decode_disk_header(&src);
    assert_eq!(h.disk_name.len(), 17);
    assert_eq!(h.disk_name[0], b'T');
    assert_eq!(h.disk_name[1], b'E');
    assert_eq!(h.write_protect, 0x10);
    assert_eq!(h.media_type, 0x20);
    assert_eq!(h.disk_size, 0x12345678);
    assert_eq!(h.track_tbl.len(), 164);
    assert_eq!(h.track_tbl[0], 0x0004_03AB);
    assert_eq!(h.track_tbl[1], 0);
    assert_eq!(h.track_tbl[163], 7);
}

#[test]
fn little_endian_readers() {
    let src = vec![0x34, 0x12, 0x78, 0x56, 0x34, 0x12];
    assert_eq!(read_le16(&src, 0), 0x1234);
    assert_eq!(read_le32(&src, 2), 0x12345678);
}

#[test]
fn nominal_size_uses_low_two_bits() {
    // size code 2 gives a nominal 512-byte stride part: 16 + 512
    let mut src = Vec::new();
    put(&mut src, 16, &sector_header_bytes(0, 0, 1, 2, 1, 0));
    let mut sec = Sector::default();
    assert_eq!(sec.preset(&src, 16), Ok(528));
    // size code 3 gives 1024
    let mut src2 = Vec::new();
    put(&mut src2, 16, &sector_header_bytes(0, 0, 1, 3, 1, 0));
    let mut sec2 = Sector::default();
    assert_eq!(sec2.preset(&src2, 16), Ok(1040));
}

#[test]
fn chunk16_copies_sixteen_bytes() {
    let src: Vec<u8> = (0u8..64).collect();
    let c = chunk16(&src, 8);
    assert_eq!(c, (8u8..24).collect::<Vec<u8>>());
}
