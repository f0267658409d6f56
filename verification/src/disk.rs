//! The three-level decoder: sector, track, disk.
//!
//! Each level is specified against a spec-level decode of the byte source:
//! `spec_sector` for one record, `spec_track_rec` for the offset chain of one
//! track, and `spec_disk_tracks` for the walk over the track-offset table.

use vstd::prelude::*;

use crate::format::{
    copy_range, decode_disk_header, decode_sector_header, nominal_size_of, sector_stride,
    spec_disk_header, spec_sector_header, DiskHeader, DiskHeaderView, SectorHeader,
    DISK_HEADER_SIZE, MAX_SECTOR, SECTOR_HEADER_SIZE, TRACK_TABLE_LEN,
};

verus! {

/// Which fixed-size read came up short.
#[derive(Clone, Copy, Debug, PartialEq, Eq, Structural)]
pub enum ShortReadKind {
    /// Fewer bytes than a header record's fixed size were available.
    Header,
    /// Fewer bytes than the header's `size_of_data` were available.
    Payload,
}

/// Why a decode failed.
#[derive(Clone, Copy, Debug, PartialEq, Eq, Structural)]
pub enum DecodeError {
    /// A zero offset was passed where a real file position was required.
    InvalidOffset,
    /// The byte source could not reposition. An in-memory source always can,
    /// so the decoders here never produce it; callers that feed the decoders
    /// from their own sources report repositioning failures with it.
    SeekFailure,
    /// A fixed-size read found fewer bytes than it needed.
    ShortRead(ShortReadKind),
    /// No track of the disk decoded successfully.
    EmptyDisk,
}

/// One decoded sector: the byte offset of its payload, its header, and the
/// payload itself.
#[derive(Debug)]
pub struct Sector {
    pub offset: u64,
    pub header: SectorHeader,
    pub data: Vec<u8>,
}

#[verifier::ext_equal]
pub ghost struct SectorView {
    pub offset: u64,
    pub header: SectorHeader,
    pub data: Seq<u8>,
}

impl View for Sector {
    type V = SectorView;

    open spec fn view(&self) -> SectorView {
        SectorView { offset: self.offset, header: self.header, data: self.data@ }
    }
}

impl Default for Sector {
    /// A sector with a zeroed header and no payload.
    fn default() -> (r: Self)
        ensures
            r.offset == 0,
            r.header == (SectorHeader {
                cylinder: 0,
                head: 0,
                sector: 0,
                sector_size: 0,
                number_of_sec: 0,
                density: 0,
                deleted_flag: 0,
                status: 0,
                size_of_data: 0,
            }),
            r.data@ == Seq::<u8>::empty(),
    {
        Sector { offset: 0, header: SectorHeader::default(), data: Vec::new() }
    }
}

/// A sector record decodes at `offset` exactly when the offset is a real
/// position and both the header and the payload it declares lie inside the
/// source.
pub open spec fn sector_ok(s: Seq<u8>, offset: u64) -> bool {
    &&& offset != 0
    &&& offset + SECTOR_HEADER_SIZE <= s.len()
    &&& offset + SECTOR_HEADER_SIZE + spec_sector_header(s, offset as int).size_of_data <= s.len()
}

/// The error a failing sector decode reports.
pub open spec fn sector_error(s: Seq<u8>, offset: u64) -> DecodeError {
    if offset == 0 {
        DecodeError::InvalidOffset
    } else if offset + SECTOR_HEADER_SIZE > s.len() {
        DecodeError::ShortRead(ShortReadKind::Header)
    } else {
        DecodeError::ShortRead(ShortReadKind::Payload)
    }
}

/// The sector decoded from the record at `offset`: the payload starts right
/// after the header and its length is the header's `size_of_data` — never the
/// nominal size implied by the size code.
pub open spec fn spec_sector(s: Seq<u8>, offset: u64) -> SectorView {
    let h = spec_sector_header(s, offset as int);
    SectorView {
        offset: (offset + SECTOR_HEADER_SIZE) as u64,
        header: h,
        data: s.subrange(
            offset + SECTOR_HEADER_SIZE,
            offset + SECTOR_HEADER_SIZE + h.size_of_data,
        ),
    }
}

impl Sector {
    /// Decodes the sector record at `offset`. On success the return value is
    /// the stride to the next record (header size plus nominal size). On
    /// failure the sector is left untouched and nothing was read beyond the
    /// source's bounds; a zero offset is rejected before any access.
    pub fn preset(&mut self, source: &Vec<u8>, offset: u64) -> (r: Result<u64, DecodeError>)
        ensures
            sector_ok(source@, offset) ==> ({
                &&& r == Ok::<u64, DecodeError>(
                    sector_stride(spec_sector_header(source@, offset as int)) as u64,
                )
                &&& final(self)@ == spec_sector(source@, offset)
                &&& final(self).data@.len() == final(self).header.size_of_data
            }),
            !sector_ok(source@, offset) ==> ({
                &&& r == Err::<u64, DecodeError>(sector_error(source@, offset))
                &&& *final(self) == *old(self)
            }),
    {
        if offset == 0 {
            return Err(DecodeError::InvalidOffset);
        }
        let len: u64 = source.len() as u64;
        if len < SECTOR_HEADER_SIZE || offset > len - SECTOR_HEADER_SIZE {
            return Err(DecodeError::ShortRead(ShortReadKind::Header));
        }
        let pos: usize = offset as usize;
        let header = decode_sector_header(source, pos);
        let payload_pos: u64 = offset + SECTOR_HEADER_SIZE;
        if (header.size_of_data as u64) > len - payload_pos {
            return Err(DecodeError::ShortRead(ShortReadKind::Payload));
        }
        let data = copy_range(source, pos + (SECTOR_HEADER_SIZE as usize), header.size_of_data as usize);
        let stride: u64 = SECTOR_HEADER_SIZE + nominal_size_of(header.sector_size);
        self.offset = payload_pos;
        self.header = header;
        self.data = data;
        proof {
            assert(self@ =~= spec_sector(source@, offset));
        }
        Ok(stride)
    }
}

/// One decoded track: its sector sequence and the sector count the track's
/// records declared.
#[derive(Debug)]
pub struct Track {
    pub number_of_sector: u16,
    pub sector_tbl: Vec<Sector>,
}

#[verifier::ext_equal]
pub ghost struct TrackView {
    pub number_of_sector: u16,
    pub sector_tbl: Seq<SectorView>,
}

/// The views of a sequence of sectors.
pub open spec fn sector_views(s: Seq<Sector>) -> Seq<SectorView> {
    s.map_values(|x: Sector| x@)
}

impl View for Track {
    type V = TrackView;

    open spec fn view(&self) -> TrackView {
        TrackView {
            number_of_sector: self.number_of_sector,
            sector_tbl: sector_views(self.sector_tbl@),
        }
    }
}

impl Default for Track {
    /// A track with no sectors.
    fn default() -> (r: Self)
        ensures
            r.number_of_sector == 0,
            r.sector_tbl@ == Seq::<Sector>::empty(),
    {
        Track { number_of_sector: 0, sector_tbl: Vec::new() }
    }
}

/// The sector chain of one track, decoded from `offset` with `count` sectors
/// already read. Decoding stops successfully once the count reaches the
/// sectors-per-track field of the sector just decoded, or the cap —
/// whichever comes first; a record past the largest addressable position
/// reads short.
pub open spec fn spec_track_rec(s: Seq<u8>, offset: u64, cap: u16, count: int) -> Result<
    (Seq<SectorView>, int),
    DecodeError,
>
    decreases cap - count,
{
    if !sector_ok(s, offset) {
        Err(sector_error(s, offset))
    } else {
        let sec = spec_sector(s, offset);
        let stride = sector_stride(sec.header);
        if count + 1 >= sec.header.number_of_sec || count + 1 >= cap {
            Ok((seq![sec], stride))
        } else if offset + stride > u64::MAX {
            Err(DecodeError::ShortRead(ShortReadKind::Header))
        } else {
            match spec_track_rec(s, (offset + stride) as u64, cap, count + 1) {
                Ok(rest) => Ok((seq![sec] + rest.0, stride + rest.1)),
                Err(e) => Err(e),
            }
        }
    }
}

/// The whole sector chain of the track at `offset`, and its total size in
/// bytes (the sum of the strides).
pub open spec fn spec_track(s: Seq<u8>, offset: u64, cap: u16) -> Result<
    (Seq<SectorView>, int),
    DecodeError,
> {
    spec_track_rec(s, offset, cap, 0)
}

/// Prepends already-decoded sectors and their size to the outcome of the rest
/// of a track decode.
spec fn track_join(
    pre: Seq<SectorView>,
    presize: int,
    rest: Result<(Seq<SectorView>, int), DecodeError>,
) -> Result<(Seq<SectorView>, int), DecodeError> {
    match rest {
        Ok(out) => Ok((pre + out.0, presize + out.1)),
        Err(e) => Err(e),
    }
}

/// A successful track decode yields at least one sector, at most `cap` (at
/// most one when the cap is zero), and a byte size bounded by the largest
/// stride per sector.
pub proof fn lemma_track_rec_bounds(
    s: Seq<u8>,
    offset: u64,
    cap: u16,
    count: int,
    secs: Seq<SectorView>,
    size: int,
)
    requires
        spec_track_rec(s, offset, cap, count) == Ok::<(Seq<SectorView>, int), DecodeError>(
            (secs, size),
        ),
    ensures
        1 <= secs.len(),
        count + secs.len() <= (if count + 1 >= cap { count + 1 } else { cap as int }),
        144 * secs.len() <= size,
        size <= 1040 * secs.len(),
    decreases cap - count,
{
    let sec = spec_sector(s, offset);
    let stride = sector_stride(sec.header);
    assert(144 <= stride && stride <= 1040);
    if count + 1 >= sec.header.number_of_sec || count + 1 >= cap {
    } else {
        let next = (offset + stride) as u64;
        let rest = spec_track_rec(s, next, cap, count + 1)->Ok_0;
        lemma_track_rec_bounds(s, next, cap, count + 1, rest.0, rest.1);
        assert(secs =~= seq![sec] + rest.0);
    }
}

impl Track {
    /// Decodes the track whose first sector record sits at `offset`,
    /// following the stride chain until the declared sector count or
    /// `max_sector` is reached. On success the return value is the track's
    /// total byte size; any sector failure aborts the whole track decode and
    /// leaves the track untouched.
    pub fn preset(&mut self, source: &Vec<u8>, offset: u64, max_sector: u16) -> (r: Result<
        usize,
        DecodeError,
    >)
        ensures
            (match spec_track(source@, offset, max_sector) {
                Ok(out) => r == Ok::<usize, DecodeError>(out.1 as usize) && final(self)@
                    == (TrackView {
                    number_of_sector: out.0.last().header.number_of_sec,
                    sector_tbl: out.0,
                }),
                Err(e) => r == Err::<usize, DecodeError>(e) && *final(self) == *old(self),
            }),
    {
        let ghost s = source@;
        if offset == 0 {
            return Err(DecodeError::InvalidOffset);
        }
        let mut sectors: Vec<Sector> = Vec::new();
        let mut cur: u64 = offset;
        let mut count: u16 = 0;
        let mut track_size: usize = 0;
        let mut number_of_sector: u16 = 0;
        proof {
            let rec = spec_track_rec(s, offset, max_sector, 0);
            if rec is Ok {
                assert(Seq::<SectorView>::empty() + rec->Ok_0.0 =~= rec->Ok_0.0);
            }
            assert(sector_views(sectors@) =~= Seq::<SectorView>::empty());
        }
        loop
            invariant
                source@ == s,
                count as int == sectors@.len(),
                count == 0 ==> cur == offset && track_size == 0,
                count == 0 || count < max_sector,
                track_size as int <= 1040 * (count as int),
                spec_track_rec(s, offset, max_sector, 0) == track_join(
                    sector_views(sectors@),
                    track_size as int,
                    spec_track_rec(s, cur, max_sector, count as int),
                ),
                *self == *old(self),
            decreases max_sector - count,
        {
            let mut sector = Sector::default();
            let res = sector.preset(source, cur);
            match res {
                Ok(stride) => {
                    let ghost sv = spec_sector(s, cur);
                    let ghost old_views = sector_views(sectors@);
                    let ghost old_size = track_size as int;
                    let ghost c_old = count as int;
                    proof {
                        assert(sector_ok(s, cur));
                        assert(sector@ == sv);
                        assert(stride == sector_stride(sv.header));
                        assert(144 <= sector_stride(sv.header) && sector_stride(sv.header)
                            <= 1040);
                    }
                    number_of_sector = sector.header.number_of_sec;
                    sectors.push(sector);
                    track_size = track_size + (stride as usize);
                    count = count + 1;
                    proof {
                        assert(sector_views(sectors@) =~= old_views + seq![sv]);
                    }
                    if count >= number_of_sector || count >= max_sector {
                        proof {
                            assert(spec_track_rec(s, cur, max_sector, c_old) == Ok::<
                                (Seq<SectorView>, int),
                                DecodeError,
                            >((seq![sv], sector_stride(sv.header))));
                            assert(spec_track_rec(s, offset, max_sector, 0) == Ok::<
                                (Seq<SectorView>, int),
                                DecodeError,
                            >((sector_views(sectors@), track_size as int)));
                            assert(sector_views(sectors@).last() == sv);
                        }
                        self.number_of_sector = number_of_sector;
                        self.sector_tbl = sectors;
                        proof {
                            assert(self@ =~= (TrackView {
                                number_of_sector: sv.header.number_of_sec,
                                sector_tbl: sector_views(self.sector_tbl@),
                            }));
                        }
                        return Ok(track_size);
                    }
                    match cur.checked_add(stride) {
                        Some(next) => {
                            proof {
                                let rec = spec_track_rec(s, next, max_sector, count as int);
                                if rec is Ok {
                                    assert((old_views + seq![sv]) + rec->Ok_0.0 =~= old_views + (
                                    seq![sv] + rec->Ok_0.0));
                                }
                                assert(spec_track_rec(s, cur, max_sector, c_old) == track_join(
                                    seq![sv],
                                    sector_stride(sv.header),
                                    rec,
                                ));
                                assert(spec_track_rec(s, offset, max_sector, 0) == track_join(
                                    sector_views(sectors@),
                                    track_size as int,
                                    rec,
                                ));
                            }
                            cur = next;
                        },
                        None => {
                            proof {
                                assert(spec_track_rec(s, cur, max_sector, c_old) == Err::<
                                    (Seq<SectorView>, int),
                                    DecodeError,
                                >(DecodeError::ShortRead(ShortReadKind::Header)));
                            }
                            return Err(DecodeError::ShortRead(ShortReadKind::Header));
                        },
                    }
                },
                Err(e) => {
                    proof {
                        assert(spec_track_rec(s, cur, max_sector, count as int) == Err::<
                            (Seq<SectorView>, int),
                            DecodeError,
                        >(e));
                    }
                    return Err(e);
                },
            }
        }
    }
}

/// One whole decoded disk image.
#[derive(Debug)]
pub struct Disk {
    pub header: DiskHeader,
    pub track_tbl: Vec<Track>,
}

#[verifier::ext_equal]
pub ghost struct DiskView {
    pub header: DiskHeaderView,
    pub track_tbl: Seq<TrackView>,
}

/// The views of a sequence of tracks.
pub open spec fn track_views(s: Seq<Track>) -> Seq<TrackView> {
    s.map_values(|t: Track| t@)
}

impl View for Disk {
    type V = DiskView;

    open spec fn view(&self) -> DiskView {
        DiskView { header: self.header@, track_tbl: track_views(self.track_tbl@) }
    }
}

impl Default for Disk {
    /// A disk with a default header and no tracks.
    fn default() -> (r: Self)
        ensures
            r.header.wf(),
            r.header.track_tbl@ == Seq::new(TRACK_TABLE_LEN as nat, |i: int| 0u32),
            r.track_tbl@ == Seq::<Track>::empty(),
    {
        Disk { header: DiskHeader::default(), track_tbl: Vec::new() }
    }
}

/// The track a successful track decode yields: its sector sequence, and the
/// declared count restated by its last sector.
pub open spec fn track_view_of(secs: Seq<SectorView>) -> TrackView {
    TrackView { number_of_sector: secs.last().header.number_of_sec, sector_tbl: secs }
}

/// The tracks decoded from the table entries at index `i` onward, with their
/// total byte size. Zero entries are skipped; the first failing entry stops
/// the walk, keeping the tracks decoded before it.
pub open spec fn spec_disk_tracks(s: Seq<u8>, table: Seq<u32>, i: int) -> (Seq<TrackView>, int)
    decreases table.len() - i,
{
    if i < 0 || i >= table.len() {
        (seq![], 0)
    } else if table[i] == 0 {
        spec_disk_tracks(s, table, i + 1)
    } else {
        match spec_track(s, table[i] as u64, MAX_SECTOR) {
            Ok(out) => {
                let rest = spec_disk_tracks(s, table, i + 1);
                (seq![track_view_of(out.0)] + rest.0, out.1 + rest.1)
            },
            Err(_) => (seq![], 0),
        }
    }
}

/// Prepends already-decoded tracks and their size to the outcome of the rest
/// of the table walk.
spec fn disk_join(pre: Seq<TrackView>, presize: int, rest: (Seq<TrackView>, int)) -> (
    Seq<TrackView>,
    int,
) {
    (pre + rest.0, presize + rest.1)
}

impl Disk {
    /// Decodes a whole disk image: the global header, then one track per
    /// nonzero track-table entry. Repositioning to the start of an in-memory
    /// source always succeeds; a source shorter than the header reads short.
    pub fn preset(&mut self, source: &Vec<u8>) -> (r: Result<usize, DecodeError>)
        ensures
            source@.len() < DISK_HEADER_SIZE ==> ({
                &&& r == Err::<usize, DecodeError>(DecodeError::ShortRead(ShortReadKind::Header))
                &&& *final(self) == *old(self)
            }),
            source@.len() >= DISK_HEADER_SIZE ==> ({
                let h = spec_disk_header(source@);
                let out = spec_disk_tracks(source@, h.track_tbl, 0);
                &&& final(self)@ == (DiskView { header: h, track_tbl: out.0 })
                &&& (out.0.len() == 0 ==> r == Err::<usize, DecodeError>(DecodeError::EmptyDisk))
                &&& (out.0.len() > 0 ==> r == Ok::<usize, DecodeError>(out.1 as usize))
            }),
    {
        if (source.len() as u64) < DISK_HEADER_SIZE {
            return Err(DecodeError::ShortRead(ShortReadKind::Header));
        }
        let header = decode_disk_header(source);
        self.header = header;
        let r = self.preset_track(source);
        proof {
            assert(self@ =~= (DiskView {
                header: spec_disk_header(source@),
                track_tbl: spec_disk_tracks(
                    source@,
                    spec_disk_header(source@).track_tbl,
                    0,
                ).0,
            }));
        }
        r
    }

    /// Walks the header's track-offset table, decoding one track per nonzero
    /// entry and skipping unused slots. The first failing track stops the
    /// walk and the tracks decoded before it are kept; the decode fails with
    /// `EmptyDisk` only if that leaves no track at all. On success the return
    /// value is the total byte size of the decoded tracks.
    pub fn preset_track(&mut self, source: &Vec<u8>) -> (r: Result<usize, DecodeError>)
        requires
            old(self).header.wf(),
        ensures
            final(self).header == old(self).header,
            track_views(final(self).track_tbl@) == spec_disk_tracks(
                source@,
                old(self).header.track_tbl@,
                0,
            ).0,
            (match r {
                Ok(size) => spec_disk_tracks(source@, old(self).header.track_tbl@, 0).0.len() > 0
                    && size == spec_disk_tracks(source@, old(self).header.track_tbl@, 0).1,
                Err(e) => e == DecodeError::EmptyDisk && spec_disk_tracks(
                    source@,
                    old(self).header.track_tbl@,
                    0,
                ).0.len() == 0,
            }),
    {
        let ghost s = source@;
        let ghost table = self.header.track_tbl@;
        let mut tracks: Vec<Track> = Vec::new();
        let mut disk_size: usize = 0;
        let mut i: usize = 0;
        proof {
            assert(Seq::<TrackView>::empty() + spec_disk_tracks(s, table, 0).0 =~= spec_disk_tracks(
                s,
                table,
                0,
            ).0);
            assert(track_views(tracks@) =~= Seq::<TrackView>::empty());
        }
        while i < TRACK_TABLE_LEN
            invariant
                source@ == s,
                *self == *old(self),
                old(self).header.wf(),
                table == old(self).header.track_tbl@,
                i <= TRACK_TABLE_LEN,
                tracks@.len() <= i,
                disk_size as int <= 66560 * (i as int),
                spec_disk_tracks(s, table, 0) == disk_join(
                    track_views(tracks@),
                    disk_size as int,
                    spec_disk_tracks(s, table, i as int),
                ),
            ensures
                source@ == s,
                *self == *old(self),
                spec_disk_tracks(s, table, 0) == (track_views(tracks@), disk_size as int),
            decreases TRACK_TABLE_LEN - i,
        {
            let off: u32 = self.header.track_tbl[i];
            if off != 0 {
                let mut track = Track::default();
                let res = track.preset(source, off as u64, MAX_SECTOR);
                match res {
                    Ok(tsize) => {
                        let ghost rec = spec_track(s, off as u64, MAX_SECTOR);
                        let ghost tv = track_view_of(rec->Ok_0.0);
                        let ghost old_tviews = track_views(tracks@);
                        proof {
                            lemma_track_rec_bounds(
                                s,
                                off as u64,
                                MAX_SECTOR,
                                0,
                                rec->Ok_0.0,
                                rec->Ok_0.1,
                            );
                            assert(tsize <= 66560);
                            assert(track@ == tv);
                        }
                        tracks.push(track);
                        disk_size = disk_size + tsize;
                        proof {
                            let rest = spec_disk_tracks(s, table, i as int + 1);
                            assert(track_views(tracks@) =~= old_tviews + seq![tv]);
                            assert((old_tviews + seq![tv]) + rest.0 =~= old_tviews + (seq![tv]
                                + rest.0));
                            assert(spec_disk_tracks(s, table, i as int) == (
                                seq![tv] + rest.0,
                                rec->Ok_0.1 + rest.1,
                            ));
                        }
                    },
                    Err(_) => {
                        proof {
                            assert(spec_disk_tracks(s, table, i as int) == (
                                Seq::<TrackView>::empty(),
                                0int,
                            ));
                            assert(track_views(tracks@) + Seq::<TrackView>::empty()
                                =~= track_views(tracks@));
                        }
                        break ;
                    },
                }
            } else {
                proof {
                    assert(spec_disk_tracks(s, table, i as int) == spec_disk_tracks(
                        s,
                        table,
                        i as int + 1,
                    ));
                }
            }
            i = i + 1;
        }
        let r: Result<usize, DecodeError> = if tracks.len() == 0 {
            Err(DecodeError::EmptyDisk)
        } else {
            Ok(disk_size)
        };
        self.track_tbl = tracks;
        r
    }
}

} // verus!
