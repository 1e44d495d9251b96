//! Splitting a transmuxed file into its initialization and media parts, clearing durations, and
//! reading timescales.

use vstd::prelude::*;
use std::collections::HashMap;
use crate::mp4::{
    be32, be64, box_kind, box_limit, box_size, find_box, find_box_in_range, find_box_offset, min, read_be32, read_be64,
    read_box_limit, whole_box, MDHD, MDIA, MOOF, MOOV, MVHD, TFDT, TKHD, TRAF, TRAK,
};

verus! {

broadcast use vstd::std_specs::hash::group_hash_axioms;

/// Copies `data[from..to]`.
fn copy_range(data: &[u8], from: usize, to: usize) -> (r: Vec<u8>)
    requires
        from <= to <= data@.len(),
    ensures
        r@ == data@.subrange(from as int, to as int),
{
    let mut r: Vec<u8> = Vec::new();
    let mut i: usize = from;
    while i < to
        invariant
            from <= i <= to <= data@.len(),
            r@ == data@.subrange(from as int, i as int),
        decreases to - i,
    {
        r.push(data[i]);
        i += 1;
    }
    r
}

/// The initialization segment: everything before the first top-level `moof` box.
pub open spec fn init_part(d: Seq<u8>) -> Option<Seq<u8>> {
    match find_box(d, 0, d.len() as int, MOOF) {
        Some(pos) => Some(d.subrange(0, pos)),
        None => None,
    }
}

/// The media segment: everything from the first top-level `moof` box onwards.
pub open spec fn media_part(d: Seq<u8>) -> Option<Seq<u8>> {
    match find_box(d, 0, d.len() as int, MOOF) {
        Some(pos) => Some(d.subrange(pos, d.len() as int)),
        None => None,
    }
}

/// Extract init segment (ftyp + moov) — everything before the first `moof` box.
pub fn extract_init(fmp4: &[u8]) -> (r: Option<Vec<u8>>)
    ensures
        match r {
            Some(init) => init_part(fmp4@) == Some(init@),
            None => init_part(fmp4@) is None,
        },
{
    match find_box_offset(fmp4, MOOF) {
        Some(pos) => Some(copy_range(fmp4, 0, pos)),
        None => None,
    }
}

/// Extract media segment — everything from the first `moof` box onwards.
pub fn extract_media(fmp4: &[u8]) -> (r: Option<Vec<u8>>)
    ensures
        match r {
            Some(media) => media_part(fmp4@) == Some(media@),
            None => media_part(fmp4@) is None,
        },
{
    match find_box_offset(fmp4, MOOF) {
        Some(pos) => Some(copy_range(fmp4, pos, fmp4.len())),
        None => None,
    }
}

/// The base media decode time that the `tfdt` box at `pos`, which ends at `end`, holds: 32 bits in version
/// 0, 64 bits in the others.
pub open spec fn tfdt_time(d: Seq<u8>, pos: int, end: int) -> Option<nat> {
    if pos + 16 > end {
        None
    } else if d[pos + 8] == 0 {
        Some(be32(d, pos + 12))
    } else if pos + 20 <= end {
        Some(be64(d, pos + 12))
    } else {
        None
    }
}

/// The decode time of the first `tfdt` in the first `traf` in the first `moof`.
pub open spec fn first_decode_time(d: Seq<u8>) -> Option<nat> {
    match find_box(d, 0, d.len() as int, MOOF) {
        None => None,
        Some(moof) => {
            let moof_end = box_limit(d, moof, d.len() as int);
            match find_box(d, moof + 8, moof_end, TRAF) {
                None => None,
                Some(traf) => {
                    let traf_end = box_limit(d, traf, moof_end);
                    match find_box(d, traf + 8, traf_end, TFDT) {
                        None => None,
                        Some(tfdt) => tfdt_time(d, tfdt, box_limit(d, tfdt, traf_end)),
                    }
                },
            }
        },
    }
}

/// Read the baseMediaDecodeTime from the first tfdt box in the first traf in the first moof.
/// Returns None if the structure is not found or malformed.
pub fn read_tfdt(media: &[u8]) -> (r: Option<u64>)
    ensures
        match r {
            Some(t) => first_decode_time(media@) == Some(t as nat),
            None => first_decode_time(media@) is None,
        },
{
    let moof: usize = match find_box_offset(media, MOOF) {
        Some(pos) => pos,
        None => return None,
    };
    assert(moof + 8 <= media.len());
    let moof_end: usize = read_box_limit(media, moof, media.len());
    let traf: usize = match find_box_in_range(media, moof + 8, moof_end, TRAF) {
        Some(pos) => pos,
        None => return None,
    };
    let traf_end: usize = read_box_limit(media, traf, moof_end);
    let tfdt: usize = match find_box_in_range(media, traf + 8, traf_end, TFDT) {
        Some(pos) => pos,
        None => return None,
    };
    let tfdt_end: usize = read_box_limit(media, tfdt, traf_end);
    if tfdt_end < tfdt || tfdt_end - tfdt < 16 {
        return None;
    }
    if media[tfdt + 8] == 0 {
        Some(read_be32(media, tfdt + 12) as u64)
    } else if tfdt_end - tfdt >= 20 {
        Some(read_be64(media, tfdt + 12))
    } else {
        None
    }
}

/// The box at `pos` holds other boxes whose durations are to be cleared.
pub open spec fn is_container(kind: nat) -> bool {
    kind == MOOV || kind == TRAK || kind == MDIA
}

/// Offset and length of the duration field of the box at `pos`, which ends at `end`, where the box has one
/// and is long enough for it.
pub open spec fn duration_field(d: Seq<u8>, pos: int, end: int) -> Option<(int, int)> {
    let kind = box_kind(d, pos);
    if pos + 9 > end || (kind != MVHD && kind != MDHD && kind != TKHD) {
        None
    } else {
        let base = if kind == TKHD {
            pos + 28
        } else {
            pos + 24
        };
        let (off, len) = if d[pos + 8] == 0 {
            (base, 4int)
        } else {
            (base + 8, 8int)
        };
        if off + len <= end {
            Some((off, len))
        } else {
            None
        }
    }
}

/// `d` with the bytes `from..from + len` set to zero.
pub open spec fn zeroed(d: Seq<u8>, from: int, len: int) -> Seq<u8> {
    Seq::new(
        d.len(),
        |i: int|
            if from <= i < from + len {
                0u8
            } else {
                d[i]
            },
    )
}

/// `d` after the duration fields of the boxes in `pos..end` have been cleared, box by box, with
/// the boxes inside containers cleared in turn.
pub open spec fn durations_cleared(d: Seq<u8>, pos: int, end: int) -> Seq<u8>
    decreases end - pos,
{
    if !whole_box(d, pos, end) {
        d
    } else {
        let next = pos + box_size(d, pos);
        let here = if is_container(box_kind(d, pos)) {
            durations_cleared(d, pos + 8, next)
        } else {
            match duration_field(d, pos, next) {
                Some((off, len)) => zeroed(d, off, len),
                None => d,
            }
        };
        durations_cleared(here, next, end)
    }
}

pub proof fn lemma_cleared_len(d: Seq<u8>, pos: int, end: int)
    ensures
        durations_cleared(d, pos, end).len() == d.len(),
    decreases end - pos,
{
    if whole_box(d, pos, end) {
        let next = pos + box_size(d, pos);
        let here = if is_container(box_kind(d, pos)) {
            durations_cleared(d, pos + 8, next)
        } else {
            match duration_field(d, pos, next) {
                Some((off, len)) => zeroed(d, off, len),
                None => d,
            }
        };
        lemma_cleared_len(d, pos + 8, next);
        lemma_cleared_len(here, next, end);
    }
}

fn zero_range(data: &mut Vec<u8>, from: usize, len: usize)
    requires
        from + len <= old(data)@.len(),
    ensures
        final(data)@ == zeroed(old(data)@, from as int, len as int),
{
    let ghost start = data@;
    let size: usize = data.len();
    let mut i: usize = 0;
    while i < len
        invariant
            0 <= i <= len,
            from + len <= size,
            data@.len() == size,
            data@.len() == start.len(),
            data@ == zeroed(start, from as int, i as int),
        decreases len - i,
    {
        data.set(from + i, 0);
        i += 1;
    }
}

/// Clears the duration fields of the boxes in `data[start..end]`.
pub fn patch_boxes(data: &mut Vec<u8>, start: usize, end: usize)
    requires
        end <= old(data)@.len(),
    ensures
        final(data)@ == durations_cleared(old(data)@, start as int, end as int),
        final(data)@.len() == old(data)@.len(),
    decreases end - start,
{
    let ghost first = data@;
    let mut pos: usize = start;
    while end >= 8 && pos <= end - 8
        invariant_except_break
            durations_cleared(first, start as int, end as int) == durations_cleared(
                data@,
                pos as int,
                end as int,
            ),
        invariant
            start <= pos,
            end <= data@.len(),
            data@.len() == first.len(),
        ensures
            data@ == durations_cleared(first, start as int, end as int),
        decreases end - pos,
    {
        let size: usize = read_be32(data.as_slice(), pos) as usize;
        if size < 8 || size > end - pos {
            break;
        }
        let kind: u32 = read_be32(data.as_slice(), pos + 4);
        let ghost before = data@;
        if kind == MOOV || kind == TRAK || kind == MDIA {
            patch_boxes(data, pos + 8, pos + size);
        } else if kind == MVHD || kind == MDHD || kind == TKHD {
            if size >= 9 {
                let shift: usize = if kind == TKHD {
                    4
                } else {
                    0
                };
                if data[pos + 8] == 0 {
                    if size >= 28 + shift {
                        zero_range(data, pos + 24 + shift, 4);
                    }
                } else {
                    if size >= 40 + shift {
                        zero_range(data, pos + 32 + shift, 8);
                    }
                }
            }
        }
        assert(durations_cleared(before, pos as int, end as int) == durations_cleared(
            data@,
            pos + size,
            end as int,
        ));
        pos += size;
    }
    proof {
        lemma_cleared_len(first, start as int, end as int);
    }
}

/// Zero out duration fields in mvhd, tkhd, and mdhd boxes within an init segment.
///
/// Without this, Chrome MSE treats the moov duration (which FFmpeg sets to the first
/// segment's length) as appendWindowEnd. Any media data timestamped beyond that value
/// is silently discarded, causing playback to stall after the first segment.
pub fn patch_moov_duration(init: &[u8]) -> (r: Vec<u8>)
    ensures
        r@ == durations_cleared(init@, 0, init@.len() as int),
        r@.len() == init@.len(),
{
    let mut data = copy_range(init, 0, init.len());
    assert(data@ == init@);
    let len: usize = data.len();
    patch_boxes(&mut data, 0, len);
    data
}

/// The 32-bit field that follows two timestamps in the full box at `pos`, which ends at `end`: the
/// timestamps take four bytes each in version 0 and eight bytes each in the others.
pub open spec fn field_after_times(d: Seq<u8>, pos: int, end: int) -> Option<nat> {
    if pos + 9 > end {
        None
    } else {
        let off = if d[pos + 8] == 0 {
            pos + 20
        } else {
            pos + 28
        };
        if off + 4 <= end {
            Some(be32(d, off))
        } else {
            None
        }
    }
}

/// The track_ID of the `trak` box in `pos..end`, from its `tkhd` box.
pub open spec fn trak_id(d: Seq<u8>, pos: int, end: int) -> Option<nat> {
    match find_box(d, pos + 8, end, TKHD) {
        Some(tkhd) => field_after_times(d, tkhd, box_limit(d, tkhd, end)),
        None => None,
    }
}

/// The timescale of the `trak` box in `pos..end`, from the `mdhd` box in its `mdia` box.
pub open spec fn trak_timescale(d: Seq<u8>, pos: int, end: int) -> Option<nat> {
    match find_box(d, pos + 8, end, MDIA) {
        Some(mdia) => {
            let mdia_end = box_limit(d, mdia, end);
            match find_box(d, mdia + 8, mdia_end, MDHD) {
                Some(mdhd) => field_after_times(d, mdhd, box_limit(d, mdhd, mdia_end)),
                None => None,
            }
        },
        None => None,
    }
}

/// `known` extended by the timescale of every `trak` box in the chain of boxes from `pos` to
/// `end`, keyed by track_ID. A later box overrides an earlier one of the same track.
pub open spec fn timescales_from(d: Seq<u8>, pos: int, end: int, known: Map<u32, u64>) -> Map<u32, u64>
    decreases end - pos,
{
    if !whole_box(d, pos, end) {
        known
    } else {
        let next = pos + box_size(d, pos);
        let more = if box_kind(d, pos) == TRAK {
            let here = min(next, d.len() as int);
            match (trak_id(d, pos, here), trak_timescale(d, pos, here)) {
                (Some(id), Some(ts)) => known.insert(id as u32, ts as u64),
                _ => known,
            }
        } else {
            known
        };
        timescales_from(d, next, end, more)
    }
}

/// The timescale of every track of the first top-level `moov` box, keyed by track_ID.
pub open spec fn track_timescales(d: Seq<u8>) -> Map<u32, u64> {
    match find_box(d, 0, d.len() as int, MOOV) {
        Some(moov) => timescales_from(d, moov + 8, moov + box_size(d, moov), Map::empty()),
        None => Map::empty(),
    }
}

/// Along the chain from `pos` to `end`, every box size that is read lies inside the data, and so does the
/// header of every box that ends before `end`.
pub open spec fn headers_present(d: Seq<u8>, pos: int, end: int) -> bool
    decreases end - pos,
{
    pos + 8 <= end ==> {
        &&& pos + 4 <= d.len()
        &&& whole_box(d, pos, end) ==> pos + 8 <= d.len() && headers_present(d, pos + box_size(d, pos), end)
    }
}

/// The first `moov` box, where there is one, is not cut off in a box header that is read.
pub open spec fn moov_readable(d: Seq<u8>) -> bool {
    find_box(d, 0, d.len() as int, MOOV) matches Some(moov) ==> headers_present(
        d,
        moov + 8,
        moov + box_size(d, moov),
    )
}

fn read_field_after_times(data: &[u8], pos: usize, limit: usize) -> (r: Option<u32>)
    requires
        pos + 8 <= limit <= data@.len(),
    ensures
        match r {
            Some(n) => field_after_times(data@, pos as int, box_limit(data@, pos as int, limit as int)) == Some(
                n as nat,
            ),
            None => field_after_times(data@, pos as int, box_limit(data@, pos as int, limit as int)) is None,
        },
{
    let end: usize = read_box_limit(data, pos, limit);
    if end < pos || end - pos < 9 {
        return None;
    }
    let off: usize = if data[pos + 8] == 0 {
        20
    } else {
        28
    };
    if end - pos < off + 4 {
        return None;
    }
    Some(read_be32(data, pos + off))
}

fn read_trak_id(data: &[u8], pos: usize, end: usize) -> (r: Option<u32>)
    requires
        pos + 8 <= end <= data@.len(),
    ensures
        match r {
            Some(n) => trak_id(data@, pos as int, end as int) == Some(n as nat),
            None => trak_id(data@, pos as int, end as int) is None,
        },
{
    match find_box_in_range(data, pos + 8, end, TKHD) {
        Some(tkhd) => read_field_after_times(data, tkhd, end),
        None => None,
    }
}

fn read_trak_timescale(data: &[u8], pos: usize, end: usize) -> (r: Option<u32>)
    requires
        pos + 8 <= end <= data@.len(),
    ensures
        match r {
            Some(n) => trak_timescale(data@, pos as int, end as int) == Some(n as nat),
            None => trak_timescale(data@, pos as int, end as int) is None,
        },
{
    match find_box_in_range(data, pos + 8, end, MDIA) {
        Some(mdia) => {
            let mdia_end: usize = read_box_limit(data, mdia, end);
            match find_box_in_range(data, mdia + 8, mdia_end, MDHD) {
                Some(mdhd) => read_field_after_times(data, mdhd, mdia_end),
                None => None,
            }
        },
        None => None,
    }
}

/// Read each track's real timescale from its `mdhd` box in the `moov`, keyed by the
/// track_ID from the corresponding `tkhd`. This is the authoritative source for timescale
/// — do not infer it from tfdt values (see `patch_media_timestamps`).
pub fn read_track_timescales(fmp4: &[u8]) -> (out: HashMap<u32, u64>)
    requires
        moov_readable(fmp4@),
    ensures
        out@ == track_timescales(fmp4@),
{
    let mut out: HashMap<u32, u64> = HashMap::new();
    let moov: usize = match find_box_offset(fmp4, MOOV) {
        Some(pos) => pos,
        None => return out,
    };
    let moov_end: u128 = moov as u128 + read_be32(fmp4, moov) as u128;
    let mut pos: u128 = moov as u128 + 8;
    while pos + 8 <= moov_end
        invariant_except_break
            track_timescales(fmp4@) == timescales_from(fmp4@, pos as int, moov_end as int, out@),
            headers_present(fmp4@, pos as int, moov_end as int),
        invariant
            moov_end <= u64::MAX + u32::MAX,
            pos <= u64::MAX + u32::MAX,
        ensures
            out@ == track_timescales(fmp4@),
        decreases moov_end - pos,
    {
        assert(pos + 4 <= fmp4.len());
        let at: usize = pos as usize;
        let size: u128 = read_be32(fmp4, at) as u128;
        if size < 8 || pos + size > moov_end {
            break;
        }
        assert(pos + 8 <= fmp4.len());
        if read_be32(fmp4, at + 4) == TRAK {
            let end: usize = read_box_limit(fmp4, at, fmp4.len());
            match (read_trak_id(fmp4, at, end), read_trak_timescale(fmp4, at, end)) {
                (Some(id), Some(ts)) => {
                    out.insert(id, ts as u64);
                },
                _ => {},
            }
        }
        pos += size;
    }
    out
}

} // verus!
