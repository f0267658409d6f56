//! Laws of the decoder, stated over the spec-level decode and proved once
//! and for all.

use vstd::prelude::*;

use crate::disk::{
    sector_views, spec_disk_tracks, spec_sector, spec_track, spec_track_rec, DecodeError, Sector,
    SectorView,
};
use crate::format::{sector_stride, MAX_SECTOR, SECTOR_HEADER_SIZE};
use crate::order::{lemma_offset_sort_unique, sorted_by_offset, strictly_sorted_by_offset};

verus! {

/// A decoded sector's payload length is exactly its header's `size_of_data`
/// — never the nominal size implied by the size code.
pub proof fn lemma_sector_payload_exact(s: Seq<u8>, offset: u64)
    requires
        crate::disk::sector_ok(s, offset),
    ensures
        spec_sector(s, offset).data.len() == spec_sector(s, offset).header.size_of_data,
{
}

/// Track decoding with a uniform declared count `n` halts at `min(n, cap)`:
/// with `count` sectors already read, it reads `min(n, cap) - count` more.
proof fn lemma_track_rec_uniform(
    s: Seq<u8>,
    offset: u64,
    cap: u16,
    count: int,
    n: u16,
    secs: Seq<SectorView>,
    size: int,
)
    requires
        spec_track_rec(s, offset, cap, count) == Ok::<(Seq<SectorView>, int), DecodeError>(
            (secs, size),
        ),
        0 <= count < cap,
        count < n,
        forall|j: int| 0 <= j < secs.len() ==> #[trigger] secs[j].header.number_of_sec == n,
    ensures
        count + secs.len() == (if n <= cap {
            n as int
        } else {
            cap as int
        }),
    decreases cap - count,
{
    let sec = spec_sector(s, offset);
    assert(secs[0] == sec);
    assert(sec.header.number_of_sec == n);
    if count + 1 >= n || count + 1 >= cap {
    } else {
        let stride = sector_stride(sec.header);
        let next = (offset + stride) as u64;
        let rest = spec_track_rec(s, next, cap, count + 1)->Ok_0;
        assert(secs =~= seq![sec] + rest.0);
        assert forall|j: int| 0 <= j < rest.0.len() implies #[trigger] rest.0[j].header.number_of_sec
            == n by {
            assert(rest.0[j] == secs[j + 1]);
            assert(secs[j + 1].header.number_of_sec == n);
        }
        lemma_track_rec_uniform(s, next, cap, count + 1, n, rest.0, rest.1);
    }
}

/// Track decoding halts at `min(declared count, cap)`: when every decoded
/// sector restates the same sectors-per-track count `n`, a successful track
/// decode with cap `cap` yields exactly `min(n, cap)` sectors.
pub proof fn lemma_track_halts_at_cap(
    s: Seq<u8>,
    offset: u64,
    cap: u16,
    n: u16,
    secs: Seq<SectorView>,
    size: int,
)
    requires
        spec_track(s, offset, cap) == Ok::<(Seq<SectorView>, int), DecodeError>((secs, size)),
        1 <= cap,
        1 <= n,
        forall|j: int| 0 <= j < secs.len() ==> #[trigger] secs[j].header.number_of_sec == n,
    ensures
        secs.len() == (if n <= cap {
            n as int
        } else {
            cap as int
        }),
{
    lemma_track_rec_uniform(s, offset, cap, 0, n, secs, size);
}

/// However corrupt the declared counts, a successful track decode never
/// yields more than `cap` sectors.
pub proof fn lemma_track_len_le_cap(
    s: Seq<u8>,
    offset: u64,
    cap: u16,
    secs: Seq<SectorView>,
    size: int,
)
    requires
        spec_track(s, offset, cap) == Ok::<(Seq<SectorView>, int), DecodeError>((secs, size)),
        1 <= cap,
    ensures
        1 <= secs.len() <= cap,
{
    crate::disk::lemma_track_rec_bounds(s, offset, cap, 0, secs, size);
}

/// The sectors of a decoded track sit at strictly increasing file offsets:
/// decode order is physical order.
pub proof fn lemma_track_rec_offsets(
    s: Seq<u8>,
    offset: u64,
    cap: u16,
    count: int,
    secs: Seq<SectorView>,
    size: int,
)
    requires
        s.len() <= u64::MAX,
        spec_track_rec(s, offset, cap, count) == Ok::<(Seq<SectorView>, int), DecodeError>(
            (secs, size),
        ),
    ensures
        forall|j: int|
            0 <= j < secs.len() ==> #[trigger] secs[j].offset >= offset + SECTOR_HEADER_SIZE,
        forall|a: int, b: int|
            #![trigger secs[a], secs[b]]
            0 <= a < b < secs.len() ==> secs[a].offset < secs[b].offset,
    decreases cap - count,
{
    let sec = spec_sector(s, offset);
    assert(secs[0] == sec);
    if count + 1 >= sec.header.number_of_sec || count + 1 >= cap {
    } else {
        let stride = sector_stride(sec.header);
        let next = (offset + stride) as u64;
        let rest = spec_track_rec(s, next, cap, count + 1)->Ok_0;
        assert(secs =~= seq![sec] + rest.0);
        lemma_track_rec_offsets(s, next, cap, count + 1, rest.0, rest.1);
        assert(144 <= stride);
        assert forall|j: int| 0 <= j < secs.len() implies #[trigger] secs[j].offset >= offset
            + SECTOR_HEADER_SIZE by {
            if j == 0 {
                assert(secs[0] == sec);
            } else {
                assert(secs[j] == rest.0[j - 1]);
                assert(rest.0[j - 1].offset >= next + SECTOR_HEADER_SIZE);
            }
        }
        assert forall|a: int, b: int|
            #![trigger secs[a], secs[b]]
            0 <= a < b < secs.len() implies secs[a].offset < secs[b].offset by {
            assert(secs[b] == rest.0[b - 1]);
            assert(rest.0[b - 1].offset >= next + SECTOR_HEADER_SIZE);
            if a == 0 {
                assert(secs[0] == sec);
            } else {
                assert(secs[a] == rest.0[a - 1]);
                assert(rest.0[a - 1].offset < rest.0[b - 1].offset);
            }
        }
    }
}

/// Round-trip law: a decoded track's sectors stand in strictly increasing
/// offset order, so after any reordering that keeps the sector multiset
/// (such as `sector_sort`), re-sorting by file offset (`file_offset_sort`)
/// returns the sequence to its original decode order.
pub proof fn lemma_track_sort_round_trip(
    s: Seq<u8>,
    offset: u64,
    cap: u16,
    size: int,
    v: Seq<Sector>,
    shuffled: Seq<Sector>,
    resorted: Seq<Sector>,
)
    requires
        s.len() <= u64::MAX,
        spec_track(s, offset, cap) == Ok::<(Seq<SectorView>, int), DecodeError>(
            (sector_views(v), size),
        ),
        shuffled.to_multiset() == v.to_multiset(),
        resorted.to_multiset() == shuffled.to_multiset(),
        sorted_by_offset(resorted),
    ensures
        resorted == v,
{
    lemma_track_rec_offsets(s, offset, cap, 0, sector_views(v), size);
    assert forall|a: int, b: int|
        #![trigger v[a], v[b]]
        0 <= a < b < v.len() implies v[a].offset < v[b].offset by {
        assert(sector_views(v)[a] == v[a]@);
        assert(sector_views(v)[b] == v[b]@);
        assert(sector_views(v)[a].offset < sector_views(v)[b].offset);
    }
    lemma_offset_sort_unique(v, resorted);
}

/// The number of nonzero entries in the track table at index `i` onward.
pub open spec fn count_nonzero_from(table: Seq<u32>, i: int) -> int
    decreases table.len() - i,
{
    if i < 0 || i >= table.len() {
        0
    } else {
        (if table[i] != 0 {
            1int
        } else {
            0int
        }) + count_nonzero_from(table, i + 1)
    }
}

/// The number of nonzero entries in the track table: the number of slots
/// that name a real track.
pub open spec fn count_nonzero(table: Seq<u32>) -> int {
    count_nonzero_from(table, 0)
}

proof fn lemma_disk_tracks_bound_from(s: Seq<u8>, table: Seq<u32>, i: int)
    ensures
        0 <= spec_disk_tracks(s, table, i).0.len() <= count_nonzero_from(table, i),
    decreases table.len() - i,
{
    if i < 0 || i >= table.len() {
    } else {
        lemma_disk_tracks_bound_from(s, table, i + 1);
        if table[i] != 0 && spec_track(s, table[i] as u64, MAX_SECTOR) is Ok {
            assert(spec_disk_tracks(s, table, i).0.len() == 1 + spec_disk_tracks(
                s,
                table,
                i + 1,
            ).0.len());
        }
    }
}

/// A decoded disk holds at most one track per nonzero track-table entry.
pub proof fn lemma_disk_tracks_at_most_nonzero(s: Seq<u8>, table: Seq<u32>)
    ensures
        spec_disk_tracks(s, table, 0).0.len() <= count_nonzero(table),
{
    lemma_disk_tracks_bound_from(s, table, 0);
}

proof fn lemma_disk_tracks_complete_from(s: Seq<u8>, table: Seq<u32>, i: int)
    requires
        forall|j: int|
            i <= j < table.len() && #[trigger] table[j] != 0 ==> spec_track(
                s,
                table[j] as u64,
                MAX_SECTOR,
            ) is Ok,
    ensures
        spec_disk_tracks(s, table, i).0.len() == count_nonzero_from(table, i),
    decreases table.len() - i,
{
    if i < 0 || i >= table.len() {
    } else {
        lemma_disk_tracks_complete_from(s, table, i + 1);
    }
}

/// When every nonzero track-table entry decodes successfully, the disk holds
/// exactly one track per nonzero entry.
pub proof fn lemma_disk_tracks_all_ok(s: Seq<u8>, table: Seq<u32>)
    requires
        forall|j: int|
            0 <= j < table.len() && #[trigger] table[j] != 0 ==> spec_track(
                s,
                table[j] as u64,
                MAX_SECTOR,
            ) is Ok,
    ensures
        spec_disk_tracks(s, table, 0).0.len() == count_nonzero(table),
{
    lemma_disk_tracks_complete_from(s, table, 0);
}

} // verus!
