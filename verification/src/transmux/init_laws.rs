//! What splitting a transmuxed file and clearing its durations keep.

use vstd::prelude::*;
use crate::mp4::{
    box_kind, box_limit, box_size, find_box, lemma_find_box_bounds, min, whole_box, MDHD, MDIA, MOOF, MOOV, TKHD, TRAK,
};
use super::init::{
    duration_field, durations_cleared, field_after_times, headers_present, init_part, is_container, lemma_cleared_len,
    media_part, moov_readable, timescales_from, track_timescales, trak_id, trak_timescale, zeroed,
};

verus! {

/// Up to a box that the chain reaches, the chain is whole and has no box of that type.
proof fn lemma_no_box_before(d: Seq<u8>, pos: int, limit: int, kind: u32)
    requires
        0 <= pos,
        limit <= d.len(),
        find_box(d, pos, limit, kind) is Some,
    ensures
        ({
            let found = find_box(d, pos, limit, kind).unwrap();
            find_box(d.subrange(0, found), pos, found, kind) is None
        }),
    decreases limit - pos,
{
    let found = find_box(d, pos, limit, kind).unwrap();
    lemma_find_box_bounds(d, pos, limit, kind);
    if found != pos {
        let next = pos + box_size(d, pos);
        lemma_find_box_bounds(d, next, limit, kind);
        lemma_no_box_before(d, next, limit, kind);
        let e = d.subrange(0, found);
        assert(box_size(e, pos) == box_size(d, pos));
        assert(box_kind(e, pos) == box_kind(d, pos));
    }
}

/// An initialization segment exists exactly where a media segment does; one behind the other they
/// are the whole file. The initialization segment holds no `moof` box, and the media segment
/// starts with one.
pub proof fn law_init_and_media_rejoin(d: Seq<u8>)
    ensures
        init_part(d) is Some <==> media_part(d) is Some,
        init_part(d) matches Some(init) ==> {
            &&& init + media_part(d).unwrap() == d
            &&& init_part(init) is None
            &&& box_kind(media_part(d).unwrap(), 0) == MOOF
            &&& media_part(media_part(d).unwrap()) == media_part(d)
        },
{
    if let Some(pos) = find_box(d, 0, d.len() as int, MOOF) {
        lemma_find_box_bounds(d, 0, d.len() as int, MOOF);
        lemma_no_box_before(d, 0, d.len() as int, MOOF);
        let m = d.subrange(pos, d.len() as int);
        assert(box_kind(m, 0) == box_kind(d, pos));
        assert(find_box(m, 0, m.len() as int, MOOF) == Some(0int));
        assert(m.subrange(0, m.len() as int) == m);
    }
}

/// Two files agree on the bytes `from..to`.
pub open spec fn agree(d: Seq<u8>, e: Seq<u8>, from: int, to: int) -> bool {
    d.len() == e.len() && forall|i: int|
        #![trigger d[i]]
        #![trigger e[i]]
        from <= i < to ==> d[i] == e[i]
}

/// Every duration field of the boxes in `pos..end` is zero.
pub open spec fn durations_zero(d: Seq<u8>, pos: int, end: int) -> bool
    decreases end - pos,
{
    whole_box(d, pos, end) ==> {
        let next = pos + box_size(d, pos);
        &&& if is_container(box_kind(d, pos)) {
            durations_zero(d, pos + 8, next)
        } else {
            duration_field(d, pos, next) matches Some((off, len)) ==> forall|i: int|
                off <= i < off + len ==> #[trigger] d[i] == 0
        }
        &&& durations_zero(d, next, end)
    }
}

/// In `pos..end` the files `d` and `e` have the same boxes, and differ in duration fields at most.
pub open spec fn same_but_durations(d: Seq<u8>, e: Seq<u8>, pos: int, end: int) -> bool
    decreases end - pos,
{
    &&& d.len() == e.len()
    &&& if !whole_box(d, pos, end) {
        agree(d, e, pos, end)
    } else {
        let next = pos + box_size(d, pos);
        &&& agree(d, e, pos, pos + 8)
        &&& if is_container(box_kind(d, pos)) {
            same_but_durations(d, e, pos + 8, next)
        } else {
            match duration_field(d, pos, next) {
                Some((off, len)) => agree(d, e, pos, off) && agree(d, e, off + len, next),
                None => agree(d, e, pos, next),
            }
        }
        &&& same_but_durations(d, e, next, end)
    }
}

proof fn lemma_field_agree(d: Seq<u8>, e: Seq<u8>, pos: int, from: int, end: int)
    requires
        agree(d, e, from, end),
        from <= pos,
        pos + 8 <= end,
    ensures
        box_size(d, pos) == box_size(e, pos),
        box_kind(d, pos) == box_kind(e, pos),
        forall|x: int| x <= end ==> duration_field(d, pos, x) == #[trigger] duration_field(e, pos, x),
{
}

proof fn lemma_durations_zero_agree(d: Seq<u8>, e: Seq<u8>, pos: int, end: int)
    requires
        agree(d, e, pos, end),
        durations_zero(d, pos, end),
    ensures
        durations_zero(e, pos, end),
    decreases end - pos,
{
    if whole_box(e, pos, end) {
        lemma_field_agree(d, e, pos, pos, end);
        let next = pos + box_size(d, pos);
        if is_container(box_kind(d, pos)) {
            lemma_durations_zero_agree(d, e, pos + 8, next);
        }
        lemma_durations_zero_agree(d, e, next, end);
    }
}

proof fn lemma_same_agree(d: Seq<u8>, d2: Seq<u8>, e: Seq<u8>, e2: Seq<u8>, pos: int, end: int)
    requires
        agree(d, d2, pos, end),
        agree(e, e2, pos, end),
        same_but_durations(d, e, pos, end),
    ensures
        same_but_durations(d2, e2, pos, end),
    decreases end - pos,
{
    if pos + 8 <= end {
        lemma_field_agree(d, d2, pos, pos, end);
    }
    if whole_box(d, pos, end) {
        let next = pos + box_size(d, pos);
        if is_container(box_kind(d, pos)) {
            lemma_same_agree(d, d2, e, e2, pos + 8, next);
        } else {
            assert(duration_field(d, pos, next) == duration_field(d2, pos, next));
        }
        lemma_same_agree(d, d2, e, e2, next, end);
    }
}

/// Clearing touches nothing outside `pos..end`.
proof fn lemma_cleared_frame(d: Seq<u8>, pos: int, end: int)
    requires
        0 <= pos,
        end <= d.len(),
    ensures
        agree(d, durations_cleared(d, pos, end), 0, pos),
        agree(d, durations_cleared(d, pos, end), end, d.len() as int),
    decreases end - pos,
{
    lemma_cleared_len(d, pos, end);
    if whole_box(d, pos, end) {
        let next = pos + box_size(d, pos);
        if is_container(box_kind(d, pos)) {
            lemma_cleared_frame(d, pos + 8, next);
            let here = durations_cleared(d, pos + 8, next);
            lemma_cleared_frame(here, next, end);
        } else {
            let here = match duration_field(d, pos, next) {
                Some((off, len)) => zeroed(d, off, len),
                None => d,
            };
            lemma_cleared_frame(here, next, end);
        }
    }
}

proof fn lemma_cleared_keeps(d: Seq<u8>, pos: int, end: int)
    requires
        0 <= pos,
        end <= d.len(),
    ensures
        same_but_durations(d, durations_cleared(d, pos, end), pos, end),
        durations_zero(durations_cleared(d, pos, end), pos, end),
    decreases end - pos,
{
    let r = durations_cleared(d, pos, end);
    lemma_cleared_frame(d, pos, end);
    if whole_box(d, pos, end) {
        let next = pos + box_size(d, pos);
        let here = if is_container(box_kind(d, pos)) {
            durations_cleared(d, pos + 8, next)
        } else {
            match duration_field(d, pos, next) {
                Some((off, len)) => zeroed(d, off, len),
                None => d,
            }
        };
        if is_container(box_kind(d, pos)) {
            lemma_cleared_frame(d, pos + 8, next);
            lemma_cleared_keeps(d, pos + 8, next);
        }
        assert(agree(d, here, 0, pos + 8));
        assert(agree(d, here, next, d.len() as int));
        lemma_cleared_frame(here, next, end);
        lemma_cleared_keeps(here, next, end);
        lemma_same_agree(here, d, r, r, next, end);
        assert(agree(here, r, 0, next));
        lemma_field_agree(d, r, pos, 0, pos + 8);
        if is_container(box_kind(d, pos)) {
            lemma_same_agree(d, d, here, r, pos + 8, next);
            lemma_durations_zero_agree(here, r, pos + 8, next);
        } else {
            match duration_field(d, pos, next) {
                Some((off, len)) => {
                    assert(r[pos + 8] == d[pos + 8]);
                    assert(duration_field(r, pos, next) == duration_field(d, pos, next));
                    assert forall|i: int| off <= i < off + len implies #[trigger] r[i] == 0 by {
                        assert(here[i] == 0);
                    }
                },
                None => {
                    assert(pos + 9 <= next ==> r[pos + 8] == d[pos + 8]);
                },
            }
        }
    }
}

/// Clearing zeroes: a byte is kept or becomes zero.
pub proof fn law_clearing_keeps_or_zeroes(d: Seq<u8>, pos: int, end: int, i: int)
    requires
        0 <= i < d.len(),
    ensures
        durations_cleared(d, pos, end).len() == d.len(),
        durations_cleared(d, pos, end)[i] == d[i] || durations_cleared(d, pos, end)[i] == 0,
    decreases end - pos,
{
    lemma_cleared_len(d, pos, end);
    if whole_box(d, pos, end) {
        let next = pos + box_size(d, pos);
        let here = if is_container(box_kind(d, pos)) {
            durations_cleared(d, pos + 8, next)
        } else {
            match duration_field(d, pos, next) {
                Some((off, len)) => zeroed(d, off, len),
                None => d,
            }
        };
        law_clearing_keeps_or_zeroes(d, pos + 8, next, i);
        law_clearing_keeps_or_zeroes(here, next, end, i);
    }
}

proof fn lemma_zero_already_cleared(d: Seq<u8>, pos: int, end: int)
    requires
        durations_zero(d, pos, end),
    ensures
        durations_cleared(d, pos, end) == d,
    decreases end - pos,
{
    if whole_box(d, pos, end) {
        let next = pos + box_size(d, pos);
        if is_container(box_kind(d, pos)) {
            lemma_zero_already_cleared(d, pos + 8, next);
        } else {
            match duration_field(d, pos, next) {
                Some((off, len)) => {
                    assert(zeroed(d, off, len) == d);
                },
                None => {},
            }
        }
        lemma_zero_already_cleared(d, next, end);
    }
}

/// Clearing leaves every box where it was, changes duration fields alone, makes all of them zero, and
/// clearing again changes nothing.
pub proof fn law_clearing_clears_durations_only(d: Seq<u8>)
    ensures
        ({
            let r = durations_cleared(d, 0, d.len() as int);
            &&& same_but_durations(d, r, 0, d.len() as int)
            &&& durations_zero(r, 0, d.len() as int)
            &&& durations_cleared(r, 0, r.len() as int) == r
        }),
{
    lemma_cleared_len(d, 0, d.len() as int);
    lemma_cleared_keeps(d, 0, d.len() as int);
    lemma_zero_already_cleared(durations_cleared(d, 0, d.len() as int), 0, d.len() as int);
}

proof fn lemma_agree_same_but_durations(d: Seq<u8>, e: Seq<u8>, pos: int, end: int)
    requires
        agree(d, e, pos, end),
    ensures
        same_but_durations(d, e, pos, end),
    decreases end - pos,
{
    if whole_box(d, pos, end) {
        let next = pos + box_size(d, pos);
        if is_container(box_kind(d, pos)) {
            lemma_agree_same_but_durations(d, e, pos + 8, next);
        }
        lemma_agree_same_but_durations(d, e, next, end);
    }
}

/// The same boxes are found, containers match inside, and header boxes hold the same field.
proof fn lemma_same_found(d: Seq<u8>, e: Seq<u8>, pos: int, end: int, kind: u32)
    requires
        same_but_durations(d, e, pos, end),
    ensures
        find_box(d, pos, end, kind) == find_box(e, pos, end, kind),
        find_box(d, pos, end, kind) matches Some(found) ==> {
            let limit = box_limit(d, found, end);
            &&& box_limit(e, found, end) == limit
            &&& is_container(kind as nat) ==> same_but_durations(d, e, found + 8, limit)
            &&& kind == TKHD || kind == MDHD ==> field_after_times(d, found, limit) == field_after_times(
                e,
                found,
                limit,
            )
        },
    decreases end - pos,
{
    if pos + 8 <= end {
        assert(agree(d, e, pos, pos + 8));
        assert(box_kind(d, pos) == box_kind(e, pos));
        assert(box_size(d, pos) == box_size(e, pos));
        let limit = box_limit(d, pos, end);
        if box_kind(d, pos) == kind {
            if !whole_box(d, pos, end) {
                assert(agree(d, e, pos, limit));
                lemma_agree_same_but_durations(d, e, pos + 8, limit);
                lemma_same_field(d, e, pos, limit);
            } else if kind == TKHD || kind == MDHD {
                lemma_same_field(d, e, pos, limit);
            }
        } else if whole_box(d, pos, end) {
            lemma_same_found(d, e, pos + box_size(d, pos), end, kind);
        }
    }
}

/// The field behind the timestamps of a header box does not reach into its duration.
proof fn lemma_same_field(d: Seq<u8>, e: Seq<u8>, pos: int, end: int)
    requires
        match duration_field(d, pos, end) {
            Some((off, len)) => agree(d, e, pos, off),
            None => agree(d, e, pos, end),
        },
        box_kind(d, pos) == TKHD || box_kind(d, pos) == MDHD || agree(d, e, pos, end),
    ensures
        field_after_times(d, pos, end) == field_after_times(e, pos, end),
{
    if pos + 9 <= end {
        assert(d[pos + 8] == e[pos + 8]);
        let off = if d[pos + 8] == 0 {
            pos + 20
        } else {
            pos + 28
        };
        if off + 4 <= end {
            assert(d[off] == e[off] && d[off + 1] == e[off + 1] && d[off + 2] == e[off + 2] && d[off + 3] == e[off
                + 3]);
        }
    }
}

proof fn lemma_same_trak(d: Seq<u8>, e: Seq<u8>, pos: int, end: int)
    requires
        same_but_durations(d, e, pos + 8, end),
    ensures
        trak_id(d, pos, end) == trak_id(e, pos, end),
        trak_timescale(d, pos, end) == trak_timescale(e, pos, end),
{
    lemma_same_found(d, e, pos + 8, end, TKHD);
    lemma_same_found(d, e, pos + 8, end, MDIA);
    if let Some(mdia) = find_box(d, pos + 8, end, MDIA) {
        lemma_same_found(d, e, mdia + 8, box_limit(d, mdia, end), MDHD);
    }
}

proof fn lemma_same_timescales(d: Seq<u8>, e: Seq<u8>, pos: int, end: int, known: Map<u32, u64>)
    requires
        0 <= pos,
        d.len() == e.len(),
        headers_present(d, pos, end),
        end <= d.len() ==> same_but_durations(d, e, pos, end),
        end > d.len() ==> agree(d, e, pos, d.len() as int),
    ensures
        timescales_from(d, pos, end, known) == timescales_from(e, pos, end, known),
    decreases end - pos,
{
    if pos + 8 <= end {
        let next = pos + box_size(d, pos);
        let here = min(next, d.len() as int);
        assert(d[pos] == e[pos] && d[pos + 1] == e[pos + 1] && d[pos + 2] == e[pos + 2] && d[pos + 3] == e[pos
            + 3]);
        assert(box_size(d, pos) == box_size(e, pos));
        if whole_box(d, pos, end) {
            assert(d[pos + 4] == e[pos + 4] && d[pos + 5] == e[pos + 5] && d[pos + 6] == e[pos + 6] && d[pos + 7]
                == e[pos + 7]);
            assert(box_kind(d, pos) == box_kind(e, pos));
            let more = if box_kind(d, pos) == TRAK {
                if end > d.len() {
                    lemma_agree_same_but_durations(d, e, pos + 8, here);
                }
                lemma_same_trak(d, e, pos, here);
                match (trak_id(d, pos, here), trak_timescale(d, pos, here)) {
                    (Some(id), Some(ts)) => known.insert(id as u32, ts as u64),
                    _ => known,
                }
            } else {
                known
            };
            lemma_same_timescales(d, e, next, end, more);
        }
    }
}

/// The top-level box of a type is found at the same place, and is the same up to durations; one that
/// is cut off is kept.
proof fn lemma_same_top(d: Seq<u8>, e: Seq<u8>, pos: int, end: int, kind: u32)
    requires
        same_but_durations(d, e, pos, end),
    ensures
        find_box(d, pos, end, kind) matches Some(found) ==> {
            &&& pos <= found
            &&& box_size(d, found) == box_size(e, found)
            &&& !whole_box(d, found, end) ==> agree(d, e, found, end)
        },
    decreases end - pos,
{
    if pos + 8 <= end {
        assert(agree(d, e, pos, pos + 8));
        if box_kind(d, pos) != kind && whole_box(d, pos, end) {
            lemma_same_top(d, e, pos + box_size(d, pos), end, kind);
        }
    }
}

/// Clearing the durations of an initialization segment leaves the timescale of every track as it was,
/// wherever timescales can be read.
pub proof fn law_clearing_keeps_timescales(d: Seq<u8>)
    requires
        moov_readable(d),
    ensures
        track_timescales(durations_cleared(d, 0, d.len() as int)) == track_timescales(d),
{
    let n = d.len() as int;
    let r = durations_cleared(d, 0, n);
    law_clearing_clears_durations_only(d);
    lemma_same_found(d, r, 0, n, MOOV);
    lemma_same_top(d, r, 0, n, MOOV);
    if let Some(moov) = find_box(d, 0, n, MOOV) {
        lemma_find_box_bounds(d, 0, n, MOOV);
        lemma_same_timescales(d, r, moov + 8, moov + box_size(d, moov), Map::empty());
    }
}

} // verus!
