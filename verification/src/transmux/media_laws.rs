//! What moving decode times and filling a segment achieve, and what they leave alone.

use vstd::prelude::*;
use vstd::arithmetic::div_mod::lemma_fundamental_div_mod_converse;
use crate::mp4::{
    be32, be64, box_limit, box_size, boxes_of, find_box, in_payload, lemma_boxes_sorted, lemma_find_box_bounds,
    lemma_found_apart, lemma_found_is_first, lemma_one_payload_keeps_chain, lemma_payload_keeps_chain,
    lemma_same_chain, lemma_same_chain_through, same_chain, whole_box, MOOF, TFDT, TFHD, TRAF, TRUN,
};
use super::init::first_decode_time;
use super::init_laws::agree;
use super::media::{
    be32_bytes, be64_bytes, extended, field_value, filled, is_last_of_track, last_duration, lemma_filled_len,
    lemma_retimed_len, overwritten, patched_media, retimed, shifted_time, shortfall, sum_entries, ticks, time_field,
    timescale_or_default, track_shift, track_ticks, traf_ticks, traf_track, trafs, trafs_in, trun_entries,
    trun_has_durations, trun_samples, trun_stride, with_field,
};

verus! {

/// Boxes in order and apart.
pub open spec fn sorted(boxes: Seq<(int, int)>, from: int, to: int) -> bool {
    &&& forall|i: int|
        0 <= i < boxes.len() ==> from <= (#[trigger] boxes[i]).0 && boxes[i].0 + 8 <= boxes[i].1 <= to
    &&& forall|i: int, j: int|
        0 <= i < j < boxes.len() ==> (#[trigger] boxes[i]).1 <= (#[trigger] boxes[j]).0
}

proof fn lemma_trafs_in_sorted(d: Seq<u8>, moofs: Seq<(int, int)>, to: int)
    requires
        sorted(moofs, 0, to),
    ensures
        sorted(
            trafs_in(d, moofs),
            0,
            if moofs.len() > 0 {
                moofs.last().1
            } else {
                0
            },
        ),
    decreases moofs.len(),
{
    if moofs.len() > 0 {
        let m = moofs.last();
        let front = moofs.drop_last();
        let inner = boxes_of(d, m.0 + 8, m.1, TRAF);
        let before = trafs_in(d, front);
        assert(sorted(front, 0, to));
        lemma_trafs_in_sorted(d, front, to);
        lemma_boxes_sorted(d, m.0 + 8, m.1, TRAF);
        let all = before + inner;
        assert(moofs[moofs.len() - 1] == m);
        if front.len() > 0 {
            assert(moofs[front.len() - 1] == front.last());
            assert(front.last().1 <= m.0);
        }
        assert forall|i: int| 0 <= i < all.len() implies 0 <= (#[trigger] all[i]).0 && all[i].0 + 8
            <= all[i].1 <= m.1 by {
            if i < before.len() {
                assert(all[i] == before[i]);
            } else {
                assert(all[i] == inner[i - before.len()]);
            }
        }
        assert forall|i: int, j: int| 0 <= i < j < all.len() implies (#[trigger] all[i]).1 <= (
        #[trigger] all[j]).0 by {
            if j < before.len() {
                assert(all[i] == before[i] && all[j] == before[j]);
            } else {
                assert(all[j] == inner[j - before.len()]);
                if i < before.len() {
                    assert(all[i] == before[i]);
                } else {
                    assert(all[i] == inner[i - before.len()]);
                }
            }
        }
    }
}

pub proof fn lemma_trafs_sorted(d: Seq<u8>)
    ensures
        sorted(trafs(d), 0, d.len() as int),
{
    let moofs = boxes_of(d, 0, d.len() as int, MOOF);
    lemma_boxes_sorted(d, 0, d.len() as int, MOOF);
    assert(sorted(moofs, 0, d.len() as int));
    lemma_trafs_in_sorted(d, moofs, d.len() as int);
    let all = trafs(d);
    if moofs.len() > 0 {
        assert(moofs[moofs.len() - 1].1 <= d.len());
        assert forall|i: int| 0 <= i < all.len() implies 0 <= (#[trigger] all[i]).0 && all[i].0 + 8
            <= all[i].1 <= d.len() by {}
    }
}

/// Every `traf` box listed is inside one of the `moof` boxes, and one that lies inside a given
/// `moof` box is among that box's own.
pub proof fn lemma_trafs_in_member(d: Seq<u8>, moofs: Seq<(int, int)>, to: int, m: int, k: int)
    requires
        sorted(moofs, 0, to),
        0 <= m < moofs.len(),
        0 <= k < trafs_in(d, moofs).len(),
        moofs[m].0 <= trafs_in(d, moofs)[k].0 < moofs[m].1,
    ensures
        boxes_of(d, moofs[m].0 + 8, moofs[m].1, TRAF).contains(trafs_in(d, moofs)[k]),
    decreases moofs.len(),
{
    let last = moofs.last();
    let front = moofs.drop_last();
    let inner = boxes_of(d, last.0 + 8, last.1, TRAF);
    let before = trafs_in(d, front);
    let all = trafs_in(d, moofs);
    assert(all == before + inner);
    assert(sorted(front, 0, to));
    lemma_trafs_in_sorted(d, front, to);
    lemma_boxes_sorted(d, last.0 + 8, last.1, TRAF);
    assert(moofs[moofs.len() - 1] == last);
    if k < before.len() {
        assert(all[k] == before[k]);
        assert(before[k].1 <= front.last().1);
        assert(front.last() == moofs[front.len() - 1]);
        if m < front.len() {
            assert(front[m] == moofs[m]);
            lemma_trafs_in_member(d, front, to, m, k);
        } else {
            assert(false);
        }
    } else {
        assert(all[k] == inner[k - before.len()]);
        if m < front.len() {
            assert(moofs[m].1 <= last.0);
            assert(false);
        }
    }
}

/// Each `traf` box listed is inside one of the `moof` boxes.
pub proof fn lemma_trafs_in_inside(d: Seq<u8>, moofs: Seq<(int, int)>, k: int) -> (m: int)
    requires
        0 <= k < trafs_in(d, moofs).len(),
    ensures
        0 <= m < moofs.len(),
        moofs[m].0 + 8 <= trafs_in(d, moofs)[k].0,
        trafs_in(d, moofs)[k].0 + 8 <= trafs_in(d, moofs)[k].1 <= moofs[m].1,
    decreases moofs.len(),
{
    let last = moofs.last();
    let front = moofs.drop_last();
    let before = trafs_in(d, front);
    let inner = boxes_of(d, last.0 + 8, last.1, TRAF);
    assert(trafs_in(d, moofs) == before + inner);
    if k < before.len() {
        assert(trafs_in(d, moofs)[k] == before[k]);
        let m = lemma_trafs_in_inside(d, front, k);
        assert(front[m] == moofs[m]);
        m
    } else {
        lemma_boxes_sorted(d, last.0 + 8, last.1, TRAF);
        assert(trafs_in(d, moofs)[k] == inner[k - before.len()]);
        moofs.len() - 1
    }
}

proof fn lemma_trafs_in_same(d: Seq<u8>, e: Seq<u8>, moofs: Seq<(int, int)>)
    requires
        forall|m: int|
            0 <= m < moofs.len() ==> boxes_of(d, (#[trigger] moofs[m]).0 + 8, moofs[m].1, TRAF)
                == boxes_of(e, moofs[m].0 + 8, moofs[m].1, TRAF),
    ensures
        trafs_in(d, moofs) == trafs_in(e, moofs),
    decreases moofs.len(),
{
    if moofs.len() > 0 {
        let front = moofs.drop_last();
        assert forall|m: int| 0 <= m < front.len() implies boxes_of(
            d,
            (#[trigger] front[m]).0 + 8,
            front[m].1,
            TRAF,
        ) == boxes_of(e, front[m].0 + 8, front[m].1, TRAF) by {
            assert(front[m] == moofs[m]);
        }
        lemma_trafs_in_same(d, e, front);
        assert(moofs[moofs.len() - 1] == moofs.last());
    }
}

/// Changes inside `traf` boxes, behind their headers, leave the chain inside a `moof` box as it is.
proof fn lemma_moof_same(d: Seq<u8>, e: Seq<u8>, m: int)
    requires
        d.len() == e.len(),
        forall|i: int| 0 <= i < d.len() && !in_payload(trafs(d), i) ==> #[trigger] d[i] == e[i],
        0 <= m < boxes_of(d, 0, d.len() as int, MOOF).len(),
    ensures
        ({
            let moof = boxes_of(d, 0, d.len() as int, MOOF)[m];
            &&& same_chain(d, e, moof.0 + 8, moof.1)
            &&& boxes_of(d, moof.0 + 8, moof.1, TRAF) == boxes_of(e, moof.0 + 8, moof.1, TRAF)
        }),
{
    let n = d.len() as int;
    let moofs = boxes_of(d, 0, n, MOOF);
    let all = trafs(d);
    lemma_boxes_sorted(d, 0, n, MOOF);
    assert(sorted(moofs, 0, n));
    let inner = boxes_of(d, moofs[m].0 + 8, moofs[m].1, TRAF);
    assert forall|i: int|
        moofs[m].0 + 8 <= i < moofs[m].1 && !in_payload(inner, i) implies #[trigger] d[i] == e[i] by {
        if in_payload(all, i) {
            let k = choose|k: int| 0 <= k < all.len() && (#[trigger] all[k]).0 + 8 <= i < all[k].1;
            let m2 = lemma_trafs_in_inside(d, moofs, k);
            if m2 < m {
                assert(moofs[m2].1 <= moofs[m].0);
            } else if m < m2 {
                assert(moofs[m].1 <= moofs[m2].0);
            }
            lemma_trafs_in_member(d, moofs, n, m, k);
            let j = choose|j: int| 0 <= j < inner.len() && inner[j] == all[k];
            assert(inner[j].0 + 8 <= i < inner[j].1);
        }
    }
    lemma_payload_keeps_chain(d, e, moofs[m].0 + 8, moofs[m].1, TRAF);
    lemma_same_chain(d, e, moofs[m].0 + 8, moofs[m].1, TRAF);
}

/// Changes inside `traf` boxes, behind their headers, leave the list of `traf` boxes and the
/// headers in front of them as they are.
proof fn lemma_trafs_same(d: Seq<u8>, e: Seq<u8>)
    requires
        d.len() == e.len(),
        forall|i: int| 0 <= i < d.len() && !in_payload(trafs(d), i) ==> #[trigger] d[i] == e[i],
    ensures
        trafs(e) == trafs(d),
        same_chain(d, e, 0, d.len() as int),
        forall|m: int|
            0 <= m < boxes_of(d, 0, d.len() as int, MOOF).len() ==> same_chain(
                d,
                e,
                (#[trigger] boxes_of(d, 0, d.len() as int, MOOF)[m]).0 + 8,
                boxes_of(d, 0, d.len() as int, MOOF)[m].1,
            ),
{
    let n = d.len() as int;
    let moofs = boxes_of(d, 0, n, MOOF);
    let all = trafs(d);
    lemma_boxes_sorted(d, 0, n, MOOF);
    assert(sorted(moofs, 0, n));
    assert forall|i: int| 0 <= i < n && !in_payload(moofs, i) implies #[trigger] d[i] == e[i] by {
        if in_payload(all, i) {
            let k = choose|k: int| 0 <= k < all.len() && (#[trigger] all[k]).0 + 8 <= i < all[k].1;
            let m = lemma_trafs_in_inside(d, moofs, k);
            assert(moofs[m].0 + 8 <= i < moofs[m].1);
        }
    }
    lemma_payload_keeps_chain(d, e, 0, n, MOOF);
    lemma_same_chain(d, e, 0, n, MOOF);
    assert forall|m: int| 0 <= m < moofs.len() implies same_chain(
        d,
        e,
        (#[trigger] moofs[m]).0 + 8,
        moofs[m].1,
    ) && boxes_of(d, moofs[m].0 + 8, moofs[m].1, TRAF) == boxes_of(e, moofs[m].0 + 8, moofs[m].1, TRAF) by {
        lemma_moof_same(d, e, m);
    }
    lemma_trafs_in_same(d, e, moofs);
}

/// The `k`-th `traf` box has a track and a decode time that can be moved.
pub open spec fn timed(d: Seq<u8>, k: int) -> bool {
    traf_track(d, trafs(d)[k]) is Some && time_field(d, trafs(d)[k]) is Some
}

/// One more than the largest number that a field of four or eight bytes holds.
pub open spec fn field_range(width: int) -> nat {
    if width == 4 {
        0x1_0000_0000
    } else {
        0x1_0000_0000_0000_0000
    }
}

pub proof fn lemma_time_field_bounds(d: Seq<u8>, traf: (int, int))
    ensures
        time_field(d, traf) matches Some((off, width)) ==> {
            &&& traf.0 + 20 <= off
            &&& off + width <= traf.1
            &&& width == 4 || width == 8
        },
{
    lemma_find_box_bounds(d, traf.0 + 8, traf.1, TFDT);
}

/// The four low bytes of a number make up its low 32 bits.
proof fn lemma_four_bytes(v: int)
    requires
        0 <= v,
    ensures
        (v / 0x1000000 % 0x100) * 0x1000000 + (v / 0x10000 % 0x100) * 0x10000 + (v / 0x100 % 0x100) * 0x100
            + v % 0x100 == v % 0x1_0000_0000,
{
    let r0 = v % 0x100;
    let x1 = v / 0x100;
    let r1 = x1 % 0x100;
    let x2 = x1 / 0x100;
    let r2 = x2 % 0x100;
    let x3 = x2 / 0x100;
    let r3 = x3 % 0x100;
    let x4 = x3 / 0x100;
    lemma_fundamental_div_mod_converse(v, 0x10000, x2, r1 * 0x100 + r0);
    lemma_fundamental_div_mod_converse(v, 0x1000000, x3, r2 * 0x10000 + r1 * 0x100 + r0);
    lemma_fundamental_div_mod_converse(
        v,
        0x1_0000_0000,
        x4,
        r3 * 0x1000000 + r2 * 0x10000 + r1 * 0x100 + r0,
    );
}

pub proof fn lemma_be32_of_bytes(v: nat)
    ensures
        be32(be32_bytes(v), 0) == v % 0x1_0000_0000,
{
    lemma_four_bytes(v as int);
}

proof fn lemma_be32_overwritten(d: Seq<u8>, off: int, v: nat)
    requires
        0 <= off,
        off + 4 <= d.len(),
    ensures
        be32(overwritten(d, off, be32_bytes(v)), off) == v % 0x1_0000_0000,
{
    lemma_be32_of_bytes(v);
    let e = overwritten(d, off, be32_bytes(v));
    let w = be32_bytes(v);
    assert(e[off] == w[0] && e[off + 1] == w[1] && e[off + 2] == w[2] && e[off + 3] == w[3]);
}

proof fn lemma_words(v: nat)
    ensures
        (v / 0x100000000 % 0x1_0000_0000) * 0x100000000 + v % 0x1_0000_0000 == v % 0x1_0000_0000_0000_0000,
{
    let q: int = v as int / 0x1_0000_0000_0000_0000;
    let w: int = v as int % 0x1_0000_0000_0000_0000;
    let h: int = w / 0x100000000;
    let l: int = w % 0x100000000;
    assert(v == q * 0x1_0000_0000_0000_0000 + h * 0x100000000 + l);
    assert(v as int / 0x100000000 == q * 0x100000000 + h);
    assert((q * 0x100000000 + h) % 0x100000000 == h);
}

proof fn lemma_be64_overwritten(d: Seq<u8>, off: int, v: nat)
    requires
        0 <= off,
        off + 8 <= d.len(),
    ensures
        be64(overwritten(d, off, be64_bytes(v)), off) == v % 0x1_0000_0000_0000_0000,
{
    let e = overwritten(d, off, be64_bytes(v));
    let hi = be32_bytes(v / 0x100000000);
    let lo = be32_bytes(v);
    assert(be32(e, off) == v / 0x100000000 % 0x1_0000_0000) by {
        lemma_be32_of_bytes(v / 0x100000000);
        assert(e[off] == hi[0] && e[off + 1] == hi[1] && e[off + 2] == hi[2] && e[off + 3] == hi[3]);
    }
    assert(be32(e, off + 4) == v % 0x1_0000_0000) by {
        lemma_be32_of_bytes(v);
        assert(e[off + 4] == lo[0] && e[off + 5] == lo[1] && e[off + 6] == lo[2] && e[off + 7] == lo[3]);
    }
    lemma_words(v);
}

proof fn lemma_field_written(d: Seq<u8>, field: (int, int), v: nat)
    requires
        0 <= field.0,
        field.1 == 4 || field.1 == 8,
        field.0 + field.1 <= d.len(),
    ensures
        with_field(d, field, v).len() == d.len(),
        field_value(with_field(d, field, v), field) == v % field_range(field.1),
        agree(d, with_field(d, field, v), 0, field.0),
        agree(d, with_field(d, field, v), field.0 + field.1, d.len() as int),
{
    if field.1 == 4 {
        lemma_be32_overwritten(d, field.0, v);
    } else {
        lemma_be64_overwritten(d, field.0, v);
    }
}

/// A number that fits a field is stored as it is.
proof fn lemma_fits(v: nat, width: int)
    requires
        v < field_range(width),
    ensures
        v % field_range(width) == v,
{
    vstd::arithmetic::div_mod::lemma_small_mod(v, field_range(width));
}

/// What retiming the first `n` `traf` boxes does to the `j`-th: it writes the new time into its
/// field, and nothing else changes.
pub proof fn lemma_retimed_traf(d: Seq<u8>, n: nat, timescales: Map<u32, u64>, start_ms: nat, j: int)
    requires
        n <= trafs(d).len(),
        0 <= j < trafs(d).len(),
    ensures
        ({
            let r = retimed(d, n, timescales, start_ms);
            let traf = trafs(d)[j];
            if j < n && timed(d, j) {
                let field = time_field(d, traf).unwrap();
                &&& agree(d, r, traf.0, field.0)
                &&& agree(d, r, field.0 + field.1, traf.1)
                &&& field_value(r, field) == shifted_time(d, j, timescales, start_ms) % field_range(field.1)
            } else {
                agree(d, r, traf.0, traf.1)
            }
        }),
    decreases n,
{
    lemma_retimed_len(d, n, timescales, start_ms);
    lemma_trafs_sorted(d);
    if n > 0 {
        let before = retimed(d, (n - 1) as nat, timescales, start_ms);
        let r = retimed(d, n, timescales, start_ms);
        let traf = trafs(d)[j];
        let here = trafs(d)[n - 1];
        lemma_retimed_len(d, (n - 1) as nat, timescales, start_ms);
        lemma_retimed_traf(d, (n - 1) as nat, timescales, start_ms, j);
        if timed(d, n - 1) {
            let field = time_field(d, here).unwrap();
            lemma_time_field_bounds(d, here);
            let v = shifted_time(d, n - 1, timescales, start_ms);
            lemma_field_written(before, field, v);
            assert(r == with_field(before, field, v));
            if j < n - 1 {
                assert(traf.1 <= here.0);
                assert(agree(before, r, traf.0, traf.1));
                if timed(d, j) {
                    let f = time_field(d, traf).unwrap();
                    lemma_time_field_bounds(d, traf);
                    assert(field_value(r, f) == field_value(before, f));
                }
            } else if j > n - 1 {
                assert(here.1 <= traf.0);
                assert(agree(before, r, traf.0, traf.1));
            }
        }
    }
}

proof fn lemma_retimed_outside(d: Seq<u8>, n: nat, timescales: Map<u32, u64>, start_ms: nat, i: int)
    requires
        n <= trafs(d).len(),
        0 <= i < d.len(),
        !in_payload(trafs(d), i),
    ensures
        retimed(d, n, timescales, start_ms)[i] == d[i],
    decreases n,
{
    lemma_retimed_len(d, n, timescales, start_ms);
    if n > 0 {
        let before = retimed(d, (n - 1) as nat, timescales, start_ms);
        lemma_retimed_len(d, (n - 1) as nat, timescales, start_ms);
        lemma_retimed_outside(d, (n - 1) as nat, timescales, start_ms, i);
        lemma_trafs_sorted(d);
        if timed(d, n - 1) {
            let here = trafs(d)[n - 1];
            let field = time_field(d, here).unwrap();
            lemma_time_field_bounds(d, here);
            lemma_field_written(before, field, shifted_time(d, n - 1, timescales, start_ms));
            if field.0 <= i < field.0 + field.1 {
                assert(here.0 + 8 <= i < here.1);
            }
        }
    }
}

/// The track_ID is read from the `tfhd` box alone.
proof fn lemma_same_track(c: Seq<u8>, b: Seq<u8>, traf: (int, int))
    requires
        same_chain(c, b, traf.0 + 8, traf.1),
        find_box(c, traf.0 + 8, traf.1, TFHD) matches Some(tfhd) ==> agree(c, b, tfhd, box_limit(c, tfhd, traf.1)),
    ensures
        traf_track(b, traf) == traf_track(c, traf),
{
    lemma_same_chain(c, b, traf.0 + 8, traf.1, TFHD);
    if let Some(tfhd) = find_box(c, traf.0 + 8, traf.1, TFHD) {
        if tfhd + 16 <= box_limit(c, tfhd, traf.1) {
            assert(be32(b, tfhd + 12) == be32(c, tfhd + 12));
        }
    }
}

/// Where the decode time stands is read from the start of the `tfdt` box alone.
proof fn lemma_same_time_field(c: Seq<u8>, b: Seq<u8>, traf: (int, int))
    requires
        same_chain(c, b, traf.0 + 8, traf.1),
        find_box(c, traf.0 + 8, traf.1, TFDT) matches Some(tfdt) ==> tfdt + 16 <= box_limit(c, tfdt, traf.1)
            ==> c[tfdt + 8] == b[tfdt + 8],
    ensures
        time_field(b, traf) == time_field(c, traf),
{
    lemma_same_chain(c, b, traf.0 + 8, traf.1, TFDT);
}

proof fn lemma_sum_agree(d: Seq<u8>, e: Seq<u8>, off: int, stride: nat, n: nat, end: int)
    requires
        agree(d, e, off, end),
    ensures
        sum_entries(d, off, stride, n, end) == sum_entries(e, off, stride, n, end),
    decreases n,
{
    if n > 0 && off + 4 <= end {
        assert(be32(d, off) == be32(e, off));
        lemma_sum_agree(d, e, off + stride, stride, (n - 1) as nat, end);
    }
}

/// The fixed part of a `trun` box says where its entries stand.
proof fn lemma_trun_header_agree(c: Seq<u8>, e: Seq<u8>, trun: int)
    requires
        agree(c, e, trun, trun + 16),
    ensures
        trun_has_durations(e, trun) == trun_has_durations(c, trun),
        trun_samples(e, trun) == trun_samples(c, trun),
        trun_stride(e, trun) == trun_stride(c, trun),
        trun_entries(e, trun) == trun_entries(c, trun),
{
    assert(be32(e, trun + 12) == be32(c, trun + 12));
    assert(e[trun + 10] == c[trun + 10] && e[trun + 11] == c[trun + 11]);
}

/// Where the last duration stands is read from the fixed part of the `trun` box alone; it is the last
/// entry of the `trun` box that is found.
proof fn lemma_last_duration_entry(d: Seq<u8>, traf: (int, int))
    ensures
        last_duration(d, traf) matches Some(off) ==> (find_box(d, traf.0 + 8, traf.1, TRUN) matches Some(trun) && {
            &&& box_limit(d, trun, traf.1) == trun + box_size(d, trun)
            &&& trun + 16 <= trun + box_size(d, trun)
            &&& trun_has_durations(d, trun)
            &&& trun_samples(d, trun) > 0
            &&& trun_stride(d, trun) >= 4
            &&& off == trun_entries(d, trun) + (trun_samples(d, trun) - 1) * trun_stride(d, trun)
            &&& traf.0 + 8 <= trun
            &&& trun + 16 <= trun_entries(d, trun) <= off
            &&& off + 4 <= trun + box_size(d, trun) <= traf.1
        }),
{
    let truns = boxes_of(d, traf.0 + 8, traf.1, TRUN);
    lemma_boxes_sorted(d, traf.0 + 8, traf.1, TRUN);
    lemma_found_is_first(d, traf.0 + 8, traf.1, TRUN);
    if last_duration(d, traf) is Some {
        let trun = truns[0].0;
        assert((trun_samples(d, trun) - 1) * trun_stride(d, trun) >= 0) by (nonlinear_arith)
            requires
                trun_samples(d, trun) >= 1,
        ;
    }
}

proof fn lemma_same_last_duration(c: Seq<u8>, b: Seq<u8>, traf: (int, int))
    requires
        same_chain(c, b, traf.0 + 8, traf.1),
        find_box(c, traf.0 + 8, traf.1, TRUN) matches Some(trun) ==> trun + 16 <= box_limit(c, trun, traf.1)
            ==> agree(c, b, trun, trun + 16),
    ensures
        last_duration(b, traf) == last_duration(c, traf),
{
    let truns = boxes_of(c, traf.0 + 8, traf.1, TRUN);
    lemma_same_chain(c, b, traf.0 + 8, traf.1, TRUN);
    lemma_boxes_sorted(c, traf.0 + 8, traf.1, TRUN);
    lemma_found_is_first(c, traf.0 + 8, traf.1, TRUN);
    if truns.len() > 0 {
        let (trun, end) = truns[0];
        if trun + 16 <= end {
            lemma_trun_header_agree(c, b, trun);
        }
    }
}

/// The same `trun` box lasts the same time.
proof fn lemma_same_ticks(c: Seq<u8>, b: Seq<u8>, traf: (int, int))
    requires
        same_chain(c, b, traf.0 + 8, traf.1),
        find_box(c, traf.0 + 8, traf.1, TRUN) matches Some(trun) ==> agree(c, b, trun, box_limit(c, trun, traf.1)),
    ensures
        traf_ticks(b, traf) == traf_ticks(c, traf),
{
    lemma_same_chain(c, b, traf.0 + 8, traf.1, TRUN);
    if let Some(trun) = find_box(c, traf.0 + 8, traf.1, TRUN) {
        let end = box_limit(c, trun, traf.1);
        if trun + 16 <= end {
            lemma_trun_header_agree(c, b, trun);
            lemma_sum_agree(c, b, trun_entries(c, trun), trun_stride(c, trun), trun_samples(c, trun), end);
        }
    }
}

/// What is read from a `traf` box apart from the decode time and the last duration: the track, where
/// these two stand, and how long it lasts.
pub open spec fn same_reading(c: Seq<u8>, b: Seq<u8>, traf: (int, int)) -> bool {
    &&& traf_track(b, traf) == traf_track(c, traf)
    &&& time_field(b, traf) == time_field(c, traf)
    &&& last_duration(b, traf) == last_duration(c, traf)
    &&& traf_ticks(b, traf) == traf_ticks(c, traf)
}

/// What is read from a `traf` box depends on its bytes alone.
proof fn lemma_traf_agree(c: Seq<u8>, b: Seq<u8>, traf: (int, int))
    requires
        agree(c, b, traf.0, traf.1),
    ensures
        same_chain(c, b, traf.0 + 8, traf.1),
        same_reading(c, b, traf),
{
    let pos = traf.0 + 8;
    let end = traf.1;
    assert forall|i: int| pos <= i < end && !in_payload(boxes_of(c, pos, end, TFDT), i) implies #[trigger] c[i]
        == b[i] by {}
    lemma_payload_keeps_chain(c, b, pos, end, TFDT);
    lemma_find_box_bounds(c, pos, end, TFHD);
    lemma_find_box_bounds(c, pos, end, TFDT);
    lemma_find_box_bounds(c, pos, end, TRUN);
    lemma_same_track(c, b, traf);
    lemma_same_time_field(c, b, traf);
    lemma_same_last_duration(c, b, traf);
    lemma_same_ticks(c, b, traf);
}

/// Changing the decode time of a `traf` box changes nothing else that is read from it, and leaves the last
/// duration as it was.
proof fn lemma_time_change_local(d: Seq<u8>, e: Seq<u8>, traf: (int, int))
    requires
        time_field(d, traf) matches Some((off, width)) && agree(d, e, traf.0, off) && agree(d, e, off + width, traf.1),
    ensures
        same_chain(d, e, traf.0 + 8, traf.1),
        same_reading(d, e, traf),
        last_duration(d, traf) matches Some(at) ==> be32(e, at) == be32(d, at),
        last_duration(d, traf) matches Some(at) ==> (time_field(d, traf) matches Some((off, width)) && (at + 4 <= off
            || off + width <= at)),
{
    let pos = traf.0 + 8;
    let end = traf.1;
    let (off, width) = time_field(d, traf).unwrap();
    let tfdt = find_box(d, pos, end, TFDT).unwrap();
    lemma_find_box_bounds(d, pos, end, TFDT);
    lemma_find_box_bounds(d, pos, end, TFHD);
    lemma_find_box_bounds(d, pos, end, TRUN);
    lemma_found_apart(d, pos, end, TFDT, TFHD);
    lemma_found_apart(d, pos, end, TFDT, TRUN);
    assert forall|i: int| pos <= i < end && !(tfdt + 8 <= i < tfdt + box_size(d, tfdt)) implies #[trigger] d[i]
        == e[i] by {}
    lemma_one_payload_keeps_chain(d, e, pos, end, TFDT);
    if let Some(tfhd) = find_box(d, pos, end, TFHD) {
        assert(agree(d, e, tfhd, box_limit(d, tfhd, end)));
    }
    if let Some(trun) = find_box(d, pos, end, TRUN) {
        assert(agree(d, e, trun, box_limit(d, trun, end)));
    }
    lemma_same_track(d, e, traf);
    lemma_same_time_field(d, e, traf);
    lemma_same_last_duration(d, e, traf);
    lemma_same_ticks(d, e, traf);
    lemma_last_duration_entry(d, traf);
}

/// Lengthening the last entry lengthens the sum.
proof fn lemma_sum_last(d: Seq<u8>, e: Seq<u8>, off: int, stride: nat, n: nat, end: int, more: nat)
    requires
        n > 0,
        stride >= 4,
        off + (n - 1) * stride + 4 <= end,
        agree(d, e, off, off + (n - 1) * stride),
        be32(e, off + (n - 1) * stride) == be32(d, off + (n - 1) * stride) + more,
    ensures
        sum_entries(e, off, stride, n, end) == sum_entries(d, off, stride, n, end) + more,
    decreases n,
{
    if n == 1 {
        assert((n - 1) * stride == 0) by (nonlinear_arith)
            requires
                n == 1,
        ;
        assert(sum_entries(e, off + stride, stride, 0, end) == 0);
        assert(sum_entries(d, off + stride, stride, 0, end) == 0);
    } else {
        assert((n - 1) * stride == (n - 2) * stride + stride) by (nonlinear_arith);
        assert((n - 2) * stride >= 0) by (nonlinear_arith)
            requires
                n >= 2,
        ;
        assert(be32(d, off) == be32(e, off));
        lemma_sum_last(d, e, off + stride, stride, (n - 1) as nat, end, more);
    }
}

/// Lengthening the last sample of a `traf` box writes that sample's duration and nothing else.
proof fn lemma_extension_frame(c: Seq<u8>, traf: (int, int), more: nat)
    requires
        0 <= traf.0,
        traf.1 <= c.len(),
    ensures
        extended(c, traf, more).len() == c.len(),
        match last_duration(c, traf) {
            Some(off) => {
                &&& agree(c, extended(c, traf, more), 0, off)
                &&& agree(c, extended(c, traf, more), off + 4, c.len() as int)
                &&& be32(extended(c, traf, more), off) == (be32(c, off) + more) % 0x1_0000_0000
                &&& traf.0 + 24 <= off
                &&& off + 4 <= traf.1
            },
            None => extended(c, traf, more) == c,
        },
{
    lemma_last_duration_entry(c, traf);
    if let Some(off) = last_duration(c, traf) {
        lemma_be32_overwritten(c, off, be32(c, off) + more);
    }
}

/// Lengthening the last sample of a `traf` box keeps its track, its decode time, and where the last
/// duration stands.
proof fn lemma_extension_local(c: Seq<u8>, traf: (int, int), more: nat)
    requires
        0 <= traf.0,
        traf.1 <= c.len(),
    ensures
        ({
            let e = extended(c, traf, more);
            &&& same_chain(c, e, traf.0 + 8, traf.1)
            &&& traf_track(e, traf) == traf_track(c, traf)
            &&& time_field(e, traf) == time_field(c, traf)
            &&& last_duration(e, traf) == last_duration(c, traf)
            &&& time_field(c, traf) matches Some(field) ==> field_value(e, field) == field_value(c, field)
        }),
{
    let e = extended(c, traf, more);
    let pos = traf.0 + 8;
    let end = traf.1;
    lemma_extension_frame(c, traf, more);
    lemma_last_duration_entry(c, traf);
    if let Some(off) = last_duration(c, traf) {
        let trun = find_box(c, pos, end, TRUN).unwrap();
        lemma_find_box_bounds(c, pos, end, TFDT);
        lemma_find_box_bounds(c, pos, end, TFHD);
        lemma_found_apart(c, pos, end, TRUN, TFHD);
        lemma_found_apart(c, pos, end, TRUN, TFDT);
        assert forall|i: int| pos <= i < end && !(trun + 8 <= i < trun + box_size(c, trun)) implies #[trigger] c[i]
            == e[i] by {}
        lemma_one_payload_keeps_chain(c, e, pos, end, TRUN);
        if let Some(tfhd) = find_box(c, pos, end, TFHD) {
            assert(agree(c, e, tfhd, box_limit(c, tfhd, end)));
        }
        if let Some(tfdt) = find_box(c, pos, end, TFDT) {
            assert(agree(c, e, tfdt, box_limit(c, tfdt, end)));
        }
        lemma_same_track(c, e, traf);
        lemma_same_time_field(c, e, traf);
        lemma_same_last_duration(c, e, traf);
        if let Some(field) = time_field(c, traf) {
            assert(agree(c, e, field.0, field.0 + field.1));
            assert(field_value(e, field) == field_value(c, field));
        }
    } else {
        assert forall|i: int| pos <= i < end && !in_payload(boxes_of(c, pos, end, TRUN), i) implies #[trigger] c[i]
            == e[i] by {}
        lemma_payload_keeps_chain(c, e, pos, end, TRUN);
    }
}

/// Lengthening the last sample of a `traf` box makes the box last that much longer.
proof fn lemma_extension_ticks(c: Seq<u8>, traf: (int, int), more: nat)
    requires
        0 <= traf.0,
        traf.1 <= c.len(),
        last_duration(c, traf) matches Some(off) && be32(c, off) + more < 0x1_0000_0000,
    ensures
        traf_ticks(extended(c, traf, more), traf) == traf_ticks(c, traf) + more,
{
    let e = extended(c, traf, more);
    lemma_extension_frame(c, traf, more);
    lemma_extension_local(c, traf, more);
    lemma_last_duration_entry(c, traf);
    lemma_same_chain(c, e, traf.0 + 8, traf.1, TRUN);
    let off = last_duration(c, traf).unwrap();
    let trun = find_box(c, traf.0 + 8, traf.1, TRUN).unwrap();
    assert(be32(e, off) == be32(c, off) + more) by {
        lemma_fits(be32(c, off) + more, 4);
    }
    lemma_trun_header_agree(c, e, trun);
    lemma_sum_last(
        c,
        e,
        trun_entries(c, trun),
        trun_stride(c, trun),
        trun_samples(c, trun),
        box_limit(c, trun, traf.1),
        more,
    );
}

/// Lengthening depends on the bytes of the `traf` box alone, and stays inside it.
proof fn lemma_extended_agree(c: Seq<u8>, b: Seq<u8>, traf: (int, int), more: nat)
    requires
        0 <= traf.0,
        traf.1 <= c.len(),
        agree(c, b, traf.0, traf.1),
    ensures
        agree(extended(c, traf, more), extended(b, traf, more), traf.0, traf.1),
        agree(b, extended(b, traf, more), 0, traf.0 + 8),
        agree(b, extended(b, traf, more), traf.1, b.len() as int),
{
    lemma_traf_agree(c, b, traf);
    lemma_extension_frame(b, traf, more);
    lemma_extension_frame(c, traf, more);
    if let Some(off) = last_duration(c, traf) {
        assert(be32(c, off) == be32(b, off));
    }
}

/// What filling the first `n` `traf` boxes does to the `j`-th.
pub proof fn lemma_filled_traf(
    d: Seq<u8>,
    cur: Seq<u8>,
    n: nat,
    timescales: Map<u32, u64>,
    extinf_ms: nat,
    j: int,
)
    requires
        cur.len() == d.len(),
        n <= trafs(d).len(),
        0 <= j < trafs(d).len(),
    ensures
        ({
            let r = filled(d, cur, n, timescales, extinf_ms);
            let traf = trafs(d)[j];
            let more = shortfall(d, j, timescales, extinf_ms);
            agree(
                if j < n && more > 0 {
                    extended(cur, traf, more)
                } else {
                    cur
                },
                r,
                traf.0,
                traf.1,
            )
        }),
    decreases n,
{
    lemma_filled_len(d, cur, n, timescales, extinf_ms);
    lemma_trafs_sorted(d);
    if n > 0 {
        let before = filled(d, cur, (n - 1) as nat, timescales, extinf_ms);
        let r = filled(d, cur, n, timescales, extinf_ms);
        let here = trafs(d)[n - 1];
        let traf = trafs(d)[j];
        let more = shortfall(d, n - 1, timescales, extinf_ms);
        lemma_filled_traf(d, cur, (n - 1) as nat, timescales, extinf_ms, j);
        lemma_filled_traf(d, cur, (n - 1) as nat, timescales, extinf_ms, n - 1);
        if more > 0 {
            lemma_extended_agree(cur, before, here, more);
            if j < n - 1 {
                assert(traf.1 <= here.0);
                assert(agree(before, r, traf.0, traf.1));
            } else if j > n - 1 {
                assert(here.1 <= traf.0);
                assert(agree(before, r, traf.0, traf.1));
            }
        }
    }
}

proof fn lemma_filled_outside(
    d: Seq<u8>,
    cur: Seq<u8>,
    n: nat,
    timescales: Map<u32, u64>,
    extinf_ms: nat,
    i: int,
)
    requires
        cur.len() == d.len(),
        n <= trafs(d).len(),
        0 <= i < d.len(),
        !in_payload(trafs(d), i),
    ensures
        filled(d, cur, n, timescales, extinf_ms)[i] == cur[i],
    decreases n,
{
    lemma_filled_len(d, cur, n, timescales, extinf_ms);
    if n > 0 {
        let before = filled(d, cur, (n - 1) as nat, timescales, extinf_ms);
        let here = trafs(d)[n - 1];
        lemma_filled_len(d, cur, (n - 1) as nat, timescales, extinf_ms);
        lemma_filled_outside(d, cur, (n - 1) as nat, timescales, extinf_ms, i);
        lemma_last_duration_entry(before, here);
        if let Some(off) = last_duration(before, here) {
            if off <= i < off + 4 {
                assert(here.0 + 8 <= i < here.1);
            }
        }
    }
}

/// Patching keeps the length, changes nothing outside the payloads of `traf` boxes, and leaves every
/// `traf` box where it was.
pub proof fn law_patching_keeps_structure(
    d: Seq<u8>,
    timescales: Map<u32, u64>,
    start_ms: nat,
    extinf_ms: nat,
)
    ensures
        ({
            let r = patched_media(d, timescales, start_ms, extinf_ms);
            &&& r.len() == d.len()
            &&& forall|i: int| 0 <= i < d.len() && !in_payload(trafs(d), i) ==> #[trigger] r[i] == d[i]
            &&& boxes_of(r, 0, r.len() as int, MOOF) == boxes_of(d, 0, d.len() as int, MOOF)
            &&& trafs(r) == trafs(d)
        }),
{
    let n = trafs(d).len();
    let cur = retimed(d, n, timescales, start_ms);
    let r = patched_media(d, timescales, start_ms, extinf_ms);
    lemma_retimed_len(d, n, timescales, start_ms);
    lemma_filled_len(d, cur, n, timescales, extinf_ms);
    assert forall|i: int| 0 <= i < d.len() && !in_payload(trafs(d), i) implies #[trigger] r[i] == d[i] by {
        lemma_retimed_outside(d, n, timescales, start_ms, i);
        lemma_filled_outside(d, cur, n, timescales, extinf_ms, i);
    }
    assert forall|i: int| 0 <= i < d.len() && !in_payload(trafs(d), i) implies #[trigger] d[i] == r[i] by {
        assert(r[i] == d[i]);
    }
    lemma_trafs_same(d, r);
    lemma_same_chain(d, r, 0, d.len() as int, MOOF);
}

/// What is read from the `j`-th `traf` box of a retimed segment.
proof fn lemma_retimed_reading(d: Seq<u8>, timescales: Map<u32, u64>, start_ms: nat, j: int)
    requires
        0 <= j < trafs(d).len(),
    ensures
        ({
            let cur = retimed(d, trafs(d).len(), timescales, start_ms);
            let traf = trafs(d)[j];
            &&& same_chain(d, cur, traf.0 + 8, traf.1)
            &&& same_reading(d, cur, traf)
            &&& last_duration(d, traf) matches Some(off) ==> be32(cur, off) == be32(d, off)
        }),
{
    let n = trafs(d).len();
    let cur = retimed(d, n, timescales, start_ms);
    let traf = trafs(d)[j];
    lemma_retimed_len(d, n, timescales, start_ms);
    lemma_trafs_sorted(d);
    lemma_retimed_traf(d, n, timescales, start_ms, j);
    if timed(d, j) {
        lemma_time_change_local(d, cur, traf);
    } else {
        lemma_traf_agree(d, cur, traf);
        lemma_last_duration_entry(d, traf);
        if let Some(off) = last_duration(d, traf) {
            assert(be32(cur, off) == be32(d, off));
        }
    }
}

/// What is read from the `j`-th `traf` box of a patched segment.
#[verifier::rlimit(40)]
proof fn lemma_patched_traf(
    d: Seq<u8>,
    timescales: Map<u32, u64>,
    start_ms: nat,
    extinf_ms: nat,
    j: int,
)
    requires
        0 <= j < trafs(d).len(),
    ensures
        ({
            let r = patched_media(d, timescales, start_ms, extinf_ms);
            let traf = trafs(d)[j];
            let more = shortfall(d, j, timescales, extinf_ms);
            &&& same_chain(d, r, traf.0 + 8, traf.1)
            &&& traf_track(r, traf) == traf_track(d, traf)
            &&& time_field(r, traf) == time_field(d, traf)
            &&& last_duration(r, traf) == last_duration(d, traf)
            &&& timed(d, j) ==> field_value(r, time_field(d, traf).unwrap()) == shifted_time(
                d,
                j,
                timescales,
                start_ms,
            ) % field_range(time_field(d, traf).unwrap().1)
            &&& more == 0 ==> traf_ticks(r, traf) == traf_ticks(d, traf)
            &&& last_duration(d, traf) is None ==> traf_ticks(r, traf) == traf_ticks(d, traf)
            &&& last_duration(d, traf) matches Some(off) ==> be32(d, off) + more < 0x1_0000_0000
                ==> traf_ticks(r, traf) == traf_ticks(d, traf) + more
        }),
{
    let n = trafs(d).len();
    let cur = retimed(d, n, timescales, start_ms);
    let r = patched_media(d, timescales, start_ms, extinf_ms);
    let traf = trafs(d)[j];
    let more = shortfall(d, j, timescales, extinf_ms);
    lemma_retimed_len(d, n, timescales, start_ms);
    lemma_trafs_sorted(d);
    lemma_retimed_reading(d, timescales, start_ms, j);
    lemma_retimed_traf(d, n, timescales, start_ms, j);
    lemma_filled_traf(d, cur, n, timescales, extinf_ms, j);
    lemma_time_field_bounds(d, traf);
    let x = if more > 0 {
        extended(cur, traf, more)
    } else {
        cur
    };
    if more > 0 {
        lemma_extension_frame(cur, traf, more);
        lemma_extension_local(cur, traf, more);
        if let Some(off) = last_duration(d, traf) {
            if be32(d, off) + more < 0x1_0000_0000 {
                lemma_extension_ticks(cur, traf, more);
            }
        }
    }
    lemma_traf_agree(x, r, traf);
    if more > 0 {
        lemma_same_chain_through(d, cur, x, traf.0 + 8, traf.1);
    }
    lemma_same_chain_through(d, x, r, traf.0 + 8, traf.1);
    if let Some(field) = time_field(d, traf) {
        assert(field_value(r, field) == field_value(x, field));
    }
}

/// Patching changes no box inside a `traf` box: each keeps its place, its type and its size.
pub proof fn law_patching_keeps_box_sizes(
    d: Seq<u8>,
    timescales: Map<u32, u64>,
    start_ms: nat,
    extinf_ms: nat,
    k: int,
)
    requires
        0 <= k < trafs(d).len(),
    ensures
        same_chain(d, patched_media(d, timescales, start_ms, extinf_ms), trafs(d)[k].0 + 8, trafs(d)[k].1),
{
    lemma_patched_traf(d, timescales, start_ms, extinf_ms, k);
}

pub proof fn lemma_shift_settles(
    d: Seq<u8>,
    m: nat,
    n: nat,
    timescales: Map<u32, u64>,
    start_ms: nat,
    track: u32,
)
    requires
        m <= n,
        track_shift(d, m, timescales, start_ms, track) is Some,
    ensures
        track_shift(d, n, timescales, start_ms, track) == track_shift(d, m, timescales, start_ms, track),
    decreases n,
{
    if m < n {
        lemma_shift_settles(d, m, (n - 1) as nat, timescales, start_ms, track);
    }
}

pub proof fn lemma_no_shift_yet(d: Seq<u8>, n: nat, timescales: Map<u32, u64>, start_ms: nat, track: u32)
    requires
        n <= trafs(d).len(),
        forall|j: int| 0 <= j < n && #[trigger] timed(d, j) ==> traf_track(d, trafs(d)[j]) != Some(track),
    ensures
        track_shift(d, n, timescales, start_ms, track) is None,
    decreases n,
{
    if n > 0 {
        lemma_no_shift_yet(d, (n - 1) as nat, timescales, start_ms, track);
        assert(timed(d, n - 1) ==> traf_track(d, trafs(d)[n - 1]) != Some(track));
    }
}

/// The `k`-th `traf` box carries the first decode time of its track.
pub open spec fn first_of_track(d: Seq<u8>, k: int) -> bool {
    timed(d, k) && forall|j: int|
        0 <= j < k && #[trigger] timed(d, j) ==> traf_track(d, trafs(d)[j]) != traf_track(d, trafs(d)[k])
}

/// In a patched segment the first fragment of every track starts at
/// `start_ms × timescale / 1000`.
pub proof fn law_first_fragment_lands(
    d: Seq<u8>,
    timescales: Map<u32, u64>,
    start_ms: nat,
    extinf_ms: nat,
    k: int,
)
    requires
        0 <= k < trafs(d).len(),
        first_of_track(d, k),
        ticks(start_ms, timescale_or_default(timescales, traf_track(d, trafs(d)[k]).unwrap()))
            < field_range(time_field(d, trafs(d)[k]).unwrap().1),
    ensures
        ({
            let r = patched_media(d, timescales, start_ms, extinf_ms);
            let traf = trafs(d)[k];
            let track = traf_track(d, traf).unwrap();
            &&& time_field(r, traf) == time_field(d, traf)
            &&& field_value(r, time_field(r, traf).unwrap()) == ticks(
                start_ms,
                timescale_or_default(timescales, track),
            )
        }),
{
    let track = traf_track(d, trafs(d)[k]).unwrap();
    lemma_patched_traf(d, timescales, start_ms, extinf_ms, k);
    lemma_no_shift_yet(d, k as nat, timescales, start_ms, track);
    let goal = ticks(start_ms, timescale_or_default(timescales, track));
    assert(shifted_time(d, k, timescales, start_ms) == goal);
    lemma_fits(goal, time_field(d, trafs(d)[k]).unwrap().1);
}

/// Patching keeps the distance between two fragments of a track, as long as both new times are not
/// negative and fit their fields.
pub proof fn law_fragment_spacing_kept(
    d: Seq<u8>,
    timescales: Map<u32, u64>,
    start_ms: nat,
    extinf_ms: nat,
    j: int,
    k: int,
)
    requires
        0 <= j < k < trafs(d).len(),
        timed(d, j),
        timed(d, k),
        traf_track(d, trafs(d)[j]) == traf_track(d, trafs(d)[k]),
        ({
            let shift = track_shift(
                d,
                trafs(d).len(),
                timescales,
                start_ms,
                traf_track(d, trafs(d)[k]).unwrap(),
            ).unwrap();
            let fj = time_field(d, trafs(d)[j]).unwrap();
            let fk = time_field(d, trafs(d)[k]).unwrap();
            &&& 0 <= field_value(d, fj) + shift < field_range(fj.1)
            &&& 0 <= field_value(d, fk) + shift < field_range(fk.1)
        }),
    ensures
        ({
            let r = patched_media(d, timescales, start_ms, extinf_ms);
            let fj = time_field(d, trafs(d)[j]).unwrap();
            let fk = time_field(d, trafs(d)[k]).unwrap();
            &&& time_field(r, trafs(d)[j]) == Some(fj)
            &&& time_field(r, trafs(d)[k]) == Some(fk)
            &&& field_value(r, fk) - field_value(r, fj) == field_value(d, fk) - field_value(d, fj)
        }),
{
    let track = traf_track(d, trafs(d)[k]).unwrap();
    lemma_patched_traf(d, timescales, start_ms, extinf_ms, j);
    lemma_patched_traf(d, timescales, start_ms, extinf_ms, k);
    assert(track_shift(d, (j + 1) as nat, timescales, start_ms, track) is Some);
    lemma_shift_settles(d, (j + 1) as nat, (k + 1) as nat, timescales, start_ms, track);
    lemma_shift_settles(d, (k + 1) as nat, trafs(d).len(), timescales, start_ms, track);
    lemma_fits(shifted_time(d, j, timescales, start_ms), time_field(d, trafs(d)[j]).unwrap().1);
    lemma_fits(shifted_time(d, k, timescales, start_ms), time_field(d, trafs(d)[k]).unwrap().1);
}

proof fn lemma_track_ticks_of_patched(
    d: Seq<u8>,
    timescales: Map<u32, u64>,
    start_ms: nat,
    extinf_ms: nat,
    n: nat,
    track: u32,
    k: int,
)
    requires
        n <= trafs(d).len(),
        forall|j: int|
            0 <= j < trafs(d).len() && j != k && traf_track(d, #[trigger] trafs(d)[j]) == Some(track)
                ==> shortfall(d, j, timescales, extinf_ms) == 0,
        0 <= k < trafs(d).len() ==> traf_track(d, trafs(d)[k]) == Some(track) && (last_duration(
            d,
            trafs(d)[k],
        ) matches Some(off) && be32(d, off) + shortfall(d, k, timescales, extinf_ms) < 0x1_0000_0000),
    ensures
        track_ticks(patched_media(d, timescales, start_ms, extinf_ms), n, track) == track_ticks(d, n, track)
            + if 0 <= k < n {
            shortfall(d, k, timescales, extinf_ms)
        } else {
            0
        },
    decreases n,
{
    let r = patched_media(d, timescales, start_ms, extinf_ms);
    law_patching_keeps_structure(d, timescales, start_ms, extinf_ms);
    if n > 0 {
        lemma_track_ticks_of_patched(d, timescales, start_ms, extinf_ms, (n - 1) as nat, track, k);
        lemma_patched_traf(d, timescales, start_ms, extinf_ms, n - 1);
        assert(trafs(r)[n - 1] == trafs(d)[n - 1]);
    }
}

/// After patching, a track that fell short of the declared duration fills it exactly, as long as its
/// last fragment gives sample durations and the lengthened last one fits its field.
pub proof fn law_segment_fills_declared_duration(
    d: Seq<u8>,
    timescales: Map<u32, u64>,
    start_ms: nat,
    extinf_ms: nat,
    track: u32,
    k: int,
)
    requires
        0 <= k < trafs(d).len(),
        traf_track(d, trafs(d)[k]) == Some(track),
        is_last_of_track(d, k),
        timescales.contains_key(track),
        track_ticks(d, trafs(d).len(), track) <= ticks(extinf_ms, timescales[track] as nat),
        last_duration(d, trafs(d)[k]) matches Some(off) && be32(d, off) + shortfall(
            d,
            k,
            timescales,
            extinf_ms,
        ) < 0x1_0000_0000,
    ensures
        ({
            let r = patched_media(d, timescales, start_ms, extinf_ms);
            track_ticks(r, trafs(r).len(), track) == ticks(extinf_ms, timescales[track] as nat)
        }),
{
    law_patching_keeps_structure(d, timescales, start_ms, extinf_ms);
    assert forall|j: int|
        0 <= j < trafs(d).len() && j != k && traf_track(d, #[trigger] trafs(d)[j]) == Some(
            track,
        ) implies shortfall(d, j, timescales, extinf_ms) == 0 by {
        if j < k {
            assert(traf_track(d, trafs(d)[k]) == traf_track(d, trafs(d)[j]));
            assert(!is_last_of_track(d, j));
        }
    }
    lemma_track_ticks_of_patched(d, timescales, start_ms, extinf_ms, trafs(d).len(), track, k);
}

/// A track that lasts the declared duration or longer, and a track without a known timescale, keep
/// their length.
pub proof fn law_full_segment_kept(
    d: Seq<u8>,
    timescales: Map<u32, u64>,
    start_ms: nat,
    extinf_ms: nat,
    track: u32,
)
    requires
        timescales.contains_key(track) ==> track_ticks(d, trafs(d).len(), track) >= ticks(
            extinf_ms,
            timescales[track] as nat,
        ),
    ensures
        ({
            let r = patched_media(d, timescales, start_ms, extinf_ms);
            track_ticks(r, trafs(r).len(), track) == track_ticks(d, trafs(d).len(), track)
        }),
{
    law_patching_keeps_structure(d, timescales, start_ms, extinf_ms);
    lemma_track_ticks_of_patched(d, timescales, start_ms, extinf_ms, trafs(d).len(), track, -1);
}

proof fn lemma_first_traf(d: Seq<u8>, moofs: Seq<(int, int)>)
    requires
        moofs.len() > 0,
        boxes_of(d, moofs[0].0 + 8, moofs[0].1, TRAF).len() > 0,
    ensures
        trafs_in(d, moofs).len() > 0,
        trafs_in(d, moofs)[0] == boxes_of(d, moofs[0].0 + 8, moofs[0].1, TRAF)[0],
    decreases moofs.len(),
{
    let front = moofs.drop_last();
    if front.len() > 0 {
        assert(front[0] == moofs[0]);
        lemma_first_traf(d, front);
    } else {
        assert(trafs_in(d, front) == Seq::<(int, int)>::empty());
    }
}

proof fn lemma_first_traf_found(d: Seq<u8>, moof: int, traf: int)
    requires
        find_box(d, 0, d.len() as int, MOOF) == Some(moof),
        whole_box(d, moof, d.len() as int),
        find_box(d, moof + 8, moof + box_size(d, moof), TRAF) == Some(traf),
        whole_box(d, traf, moof + box_size(d, moof)),
    ensures
        0 <= moof,
        moof + 8 <= traf,
        boxes_of(d, 0, d.len() as int, MOOF).len() > 0,
        boxes_of(d, 0, d.len() as int, MOOF)[0] == (moof, moof + box_size(d, moof)),
        boxes_of(d, moof + 8, moof + box_size(d, moof), TRAF).len() > 0,
        boxes_of(d, moof + 8, moof + box_size(d, moof), TRAF)[0] == (traf, traf + box_size(d, traf)),
        trafs(d).len() > 0,
        trafs(d)[0] == (traf, traf + box_size(d, traf)),
{
    let n = d.len() as int;
    let moof_end = moof + box_size(d, moof);
    lemma_found_is_first(d, 0, n, MOOF);
    lemma_found_is_first(d, moof + 8, moof_end, TRAF);
    lemma_find_box_bounds(d, 0, n, MOOF);
    lemma_find_box_bounds(d, moof + 8, moof_end, TRAF);
    lemma_first_traf(d, boxes_of(d, 0, n, MOOF));
}

proof fn lemma_first_traf_stays(
    d: Seq<u8>,
    timescales: Map<u32, u64>,
    start_ms: nat,
    extinf_ms: nat,
    moof: int,
    traf: int,
)
    requires
        find_box(d, 0, d.len() as int, MOOF) == Some(moof),
        whole_box(d, moof, d.len() as int),
        find_box(d, moof + 8, moof + box_size(d, moof), TRAF) == Some(traf),
        whole_box(d, traf, moof + box_size(d, moof)),
    ensures
        ({
            let r = patched_media(d, timescales, start_ms, extinf_ms);
            &&& r.len() == d.len()
            &&& find_box(r, 0, r.len() as int, MOOF) == Some(moof)
            &&& box_size(r, moof) == box_size(d, moof)
            &&& find_box(r, moof + 8, moof + box_size(d, moof), TRAF) == Some(traf)
            &&& box_size(r, traf) == box_size(d, traf)
        }),
{
    let n = d.len() as int;
    let r = patched_media(d, timescales, start_ms, extinf_ms);
    let moofs = boxes_of(d, 0, n, MOOF);
    let moof_end = moof + box_size(d, moof);
    let traf_end = traf + box_size(d, traf);
    lemma_first_traf_found(d, moof, traf);
    law_patching_keeps_structure(d, timescales, start_ms, extinf_ms);
    assert forall|i: int| 0 <= i < d.len() && !in_payload(trafs(d), i) implies #[trigger] d[i] == r[i] by {
        assert(r[i] == d[i]);
    }
    lemma_trafs_same(d, r);
    lemma_same_chain(d, r, 0, n, MOOF);
    assert(same_chain(d, r, moofs[0].0 + 8, moofs[0].1));
    lemma_same_chain(d, r, moof + 8, moof_end, TRAF);
    lemma_boxes_sorted(r, 0, n, MOOF);
    assert(boxes_of(r, 0, n, MOOF)[0] == (moof, moof_end));
    lemma_boxes_sorted(r, moof + 8, moof_end, TRAF);
    assert(boxes_of(r, moof + 8, moof_end, TRAF)[0] == (traf, traf_end));
}

/// The decode time that a patched segment is read to start at is `start_ms × timescale / 1000` of its
/// first track, whatever it was before: where the first `moof` and its first `traf` are whole, have a
/// track and a decode time, and the new time fits its field.
pub proof fn law_patched_segment_starts_there(
    d: Seq<u8>,
    timescales: Map<u32, u64>,
    start_ms: nat,
    extinf_ms: nat,
    moof: int,
    traf: int,
    track: u32,
)
    requires
        find_box(d, 0, d.len() as int, MOOF) == Some(moof),
        whole_box(d, moof, d.len() as int),
        find_box(d, moof + 8, moof + box_size(d, moof), TRAF) == Some(traf),
        whole_box(d, traf, moof + box_size(d, moof)),
        traf_track(d, (traf, traf + box_size(d, traf))) == Some(track),
        time_field(d, (traf, traf + box_size(d, traf))) matches Some((_, width)) && ticks(
            start_ms,
            timescale_or_default(timescales, track),
        ) < field_range(width),
    ensures
        first_decode_time(patched_media(d, timescales, start_ms, extinf_ms)) == Some(
            ticks(start_ms, timescale_or_default(timescales, track)),
        ),
{
    let r = patched_media(d, timescales, start_ms, extinf_ms);
    let traf_end = traf + box_size(d, traf);
    lemma_first_traf_found(d, moof, traf);
    lemma_first_traf_stays(d, timescales, start_ms, extinf_ms, moof, traf);
    law_first_fragment_lands(d, timescales, start_ms, extinf_ms, 0);
    let field = time_field(r, (traf, traf_end)).unwrap();
    lemma_time_field_bounds(r, (traf, traf_end));
    assert(find_box(r, traf + 8, traf_end, TFDT) == Some(field.0 - 12));
}

/// Byte `i` belongs to the decode time of the `k`-th `traf` box.
pub open spec fn in_time(d: Seq<u8>, k: int, i: int) -> bool {
    timed(d, k) && (time_field(d, trafs(d)[k]) matches Some((off, width)) && off <= i < off + width)
}

/// Byte `i` belongs to the last duration of the `k`-th `traf` box.
pub open spec fn in_last(d: Seq<u8>, k: int, i: int) -> bool {
    last_duration(d, trafs(d)[k]) matches Some(off) && off <= i < off + 4
}

/// What patching does to the bytes of the `k`-th `traf` box.
pub proof fn lemma_patched_bytes(d: Seq<u8>, timescales: Map<u32, u64>, start_ms: nat, extinf_ms: nat, k: int)
    requires
        0 <= k < trafs(d).len(),
    ensures
        ({
            let r = patched_media(d, timescales, start_ms, extinf_ms);
            let traf = trafs(d)[k];
            let more = shortfall(d, k, timescales, extinf_ms);
            &&& forall|i: int|
                traf.0 <= i < traf.1 && !in_time(d, k, i) && !(more > 0 && in_last(d, k, i)) ==> #[trigger] r[i] == d[i]
            &&& more > 0 ==> (last_duration(d, traf) matches Some(off) ==> be32(r, off) == (be32(d, off) + more)
                % 0x1_0000_0000)
        }),
{
    let n = trafs(d).len();
    let cur = retimed(d, n, timescales, start_ms);
    let r = patched_media(d, timescales, start_ms, extinf_ms);
    let traf = trafs(d)[k];
    let more = shortfall(d, k, timescales, extinf_ms);
    lemma_retimed_len(d, n, timescales, start_ms);
    lemma_trafs_sorted(d);
    lemma_retimed_reading(d, timescales, start_ms, k);
    lemma_retimed_traf(d, n, timescales, start_ms, k);
    lemma_filled_traf(d, cur, n, timescales, extinf_ms, k);
    lemma_time_field_bounds(d, traf);
    let x = if more > 0 {
        extended(cur, traf, more)
    } else {
        cur
    };
    if more > 0 {
        lemma_extension_frame(cur, traf, more);
    }
    assert forall|i: int|
        traf.0 <= i < traf.1 && !in_time(d, k, i) && !(more > 0 && in_last(d, k, i)) implies #[trigger] r[i] == d[i] by {
        assert(cur[i] == d[i]);
        assert(x[i] == cur[i]);
        assert(r[i] == x[i]);
    }
    if more > 0 {
        if let Some(off) = last_duration(d, traf) {
            assert(be32(r, off) == be32(x, off));
        }
    }
}

proof fn lemma_be32_bytes_same(a: Seq<u8>, b: Seq<u8>, off: int)
    requires
        be32(a, off) == be32(b, off),
    ensures
        a[off] == b[off],
        a[off + 1] == b[off + 1],
        a[off + 2] == b[off + 2],
        a[off + 3] == b[off + 3],
{
}

pub proof fn lemma_field_bytes_same(a: Seq<u8>, b: Seq<u8>, field: (int, int), i: int)
    requires
        field.1 == 4 || field.1 == 8,
        field_value(a, field) == field_value(b, field),
        field.0 <= i < field.0 + field.1,
    ensures
        a[i] == b[i],
{
    if field.1 == 8 {
        lemma_be32_range(a, field.0 + 4);
        lemma_be32_range(b, field.0 + 4);
        lemma_be32_bytes_same(a, b, field.0 + 4);
    }
    lemma_be32_bytes_same(a, b, field.0);
}

proof fn lemma_be32_range(a: Seq<u8>, off: int)
    ensures
        be32(a, off) < 0x1_0000_0000,
{
}

/// After patching, every decode time of a track is its old one, shifted: none becomes negative, and each
/// fits its field.
pub open spec fn times_fit(d: Seq<u8>, timescales: Map<u32, u64>, start_ms: nat) -> bool {
    forall|k: int|
        0 <= k < trafs(d).len() && #[trigger] timed(d, k) ==> {
            let track = traf_track(d, trafs(d)[k]).unwrap();
            let field = time_field(d, trafs(d)[k]).unwrap();
            0 <= field_value(d, field) + track_shift(d, trafs(d).len(), timescales, start_ms, track).unwrap()
                < field_range(field.1)
        }
}

/// Every last duration that is lengthened fits its field.
pub open spec fn last_durations_fit(d: Seq<u8>, timescales: Map<u32, u64>, extinf_ms: nat) -> bool {
    forall|k: int|
        0 <= k < trafs(d).len() ==> (last_duration(d, #[trigger] trafs(d)[k]) matches Some(off) ==> be32(d, off)
            + shortfall(d, k, timescales, extinf_ms) < 0x1_0000_0000)
}

/// The new decode time of the `k`-th `traf` box.
proof fn lemma_new_time(d: Seq<u8>, timescales: Map<u32, u64>, start_ms: nat, extinf_ms: nat, k: int)
    requires
        0 <= k < trafs(d).len(),
        timed(d, k),
        times_fit(d, timescales, start_ms),
    ensures
        ({
            let r = patched_media(d, timescales, start_ms, extinf_ms);
            let field = time_field(d, trafs(d)[k]).unwrap();
            let track = traf_track(d, trafs(d)[k]).unwrap();
            &&& track_shift(d, (k + 1) as nat, timescales, start_ms, track) is Some
            &&& field_value(r, field) == field_value(d, field) + track_shift(
                d,
                (k + 1) as nat,
                timescales,
                start_ms,
                track,
            ).unwrap()
        }),
{
    let track = traf_track(d, trafs(d)[k]).unwrap();
    let field = time_field(d, trafs(d)[k]).unwrap();
    lemma_patched_traf(d, timescales, start_ms, extinf_ms, k);
    assert(track_shift(d, (k + 1) as nat, timescales, start_ms, track) is Some);
    lemma_shift_settles(d, (k + 1) as nat, trafs(d).len(), timescales, start_ms, track);
    lemma_fits(shifted_time(d, k, timescales, start_ms), field.1);
}

/// A segment that was moved to `first_ms` has to be moved by that much less.
proof fn lemma_shift_of_patched(
    d: Seq<u8>,
    n: nat,
    timescales: Map<u32, u64>,
    first_ms: nat,
    second_ms: nat,
    extinf_ms: nat,
    track: u32,
)
    requires
        n <= trafs(d).len(),
        times_fit(d, timescales, first_ms),
    ensures
        ({
            let r = patched_media(d, timescales, first_ms, extinf_ms);
            match track_shift(d, n, timescales, second_ms, track) {
                Some(shift) => {
                    &&& track_shift(d, n, timescales, first_ms, track) is Some
                    &&& track_shift(r, n, timescales, second_ms, track) == Some(
                        shift - track_shift(d, n, timescales, first_ms, track).unwrap(),
                    )
                },
                None => {
                    &&& track_shift(d, n, timescales, first_ms, track) is None
                    &&& track_shift(r, n, timescales, second_ms, track) is None
                },
            }
        }),
    decreases n,
{
    let r = patched_media(d, timescales, first_ms, extinf_ms);
    law_patching_keeps_structure(d, timescales, first_ms, extinf_ms);
    if n > 0 {
        lemma_shift_of_patched(d, (n - 1) as nat, timescales, first_ms, second_ms, extinf_ms, track);
        lemma_patched_traf(d, timescales, first_ms, extinf_ms, n - 1);
        assert(trafs(r)[n - 1] == trafs(d)[n - 1]);
        if timed(d, n - 1) && traf_track(d, trafs(d)[n - 1]) == Some(track) {
            lemma_new_time(d, timescales, first_ms, extinf_ms, n - 1);
        }
    }
}

proof fn lemma_shifted_again(
    d: Seq<u8>,
    timescales: Map<u32, u64>,
    first_ms: nat,
    second_ms: nat,
    extinf_ms: nat,
    k: int,
)
    requires
        0 <= k < trafs(d).len(),
        timed(d, k),
        times_fit(d, timescales, first_ms),
    ensures
        shifted_time(patched_media(d, timescales, first_ms, extinf_ms), k, timescales, second_ms) == shifted_time(
            d,
            k,
            timescales,
            second_ms,
        ),
{
    let track = traf_track(d, trafs(d)[k]).unwrap();
    law_patching_keeps_structure(d, timescales, first_ms, extinf_ms);
    lemma_patched_traf(d, timescales, first_ms, extinf_ms, k);
    lemma_new_time(d, timescales, first_ms, extinf_ms, k);
    assert(track_shift(d, (k + 1) as nat, timescales, second_ms, track) is Some);
    lemma_shift_of_patched(d, (k + 1) as nat, timescales, first_ms, second_ms, extinf_ms, track);
}

/// A segment that was filled is not filled again.
proof fn lemma_shortfall_of_patched(
    d: Seq<u8>,
    timescales: Map<u32, u64>,
    start_ms: nat,
    extinf_ms: nat,
    k: int,
)
    requires
        0 <= k < trafs(d).len(),
        last_durations_fit(d, timescales, extinf_ms),
        shortfall(d, k, timescales, extinf_ms) == 0 || last_duration(d, trafs(d)[k]) is Some,
    ensures
        shortfall(patched_media(d, timescales, start_ms, extinf_ms), k, timescales, extinf_ms) == 0,
{
    let r = patched_media(d, timescales, start_ms, extinf_ms);
    let n = trafs(d).len();
    law_patching_keeps_structure(d, timescales, start_ms, extinf_ms);
    assert forall|j: int| 0 <= j < n implies traf_track(r, #[trigger] trafs(d)[j]) == traf_track(d, trafs(d)[j]) by {
        lemma_patched_traf(d, timescales, start_ms, extinf_ms, j);
    }
    if let Some(track) = traf_track(d, trafs(d)[k]) {
        assert(traf_track(r, trafs(r)[k]) == Some(track));
        if is_last_of_track(r, k) && timescales.contains_key(track) {
            assert(is_last_of_track(d, k)) by {
                assert forall|j: int| k < j < n implies traf_track(d, #[trigger] trafs(d)[j]) != traf_track(
                    d,
                    trafs(d)[k],
                ) by {
                    assert(traf_track(r, trafs(r)[j]) != traf_track(r, trafs(r)[k]));
                }
            }
            assert forall|j: int|
                0 <= j < n && j != k && traf_track(d, #[trigger] trafs(d)[j]) == Some(track) implies shortfall(
                d,
                j,
                timescales,
                extinf_ms,
            ) == 0 by {
                if j > k {
                    assert(traf_track(d, trafs(d)[j]) != traf_track(d, trafs(d)[k]));
                } else {
                    assert(traf_track(d, trafs(d)[k]) == traf_track(d, trafs(d)[j]));
                    assert(!is_last_of_track(d, j));
                }
            }
            if shortfall(d, k, timescales, extinf_ms) == 0 {
                lemma_track_ticks_of_patched(d, timescales, start_ms, extinf_ms, n, track, -1);
            } else {
                lemma_track_ticks_of_patched(d, timescales, start_ms, extinf_ms, n, track, k);
            }
        }
    } else {
        assert(traf_track(r, trafs(r)[k]) is None);
    }
}

/// Patched twice or once, the `k`-th `traf` box comes out the same.
#[verifier::rlimit(40)]
proof fn lemma_patched_again_traf(
    d: Seq<u8>,
    timescales: Map<u32, u64>,
    first_ms: nat,
    second_ms: nat,
    extinf_ms: nat,
    k: int,
    i: int,
)
    requires
        times_fit(d, timescales, first_ms),
        last_durations_fit(d, timescales, extinf_ms),
        0 <= k < trafs(d).len(),
        trafs(d)[k].0 <= i < trafs(d)[k].1,
    ensures
        patched_media(patched_media(d, timescales, first_ms, extinf_ms), timescales, second_ms, extinf_ms)[i]
            == patched_media(d, timescales, second_ms, extinf_ms)[i],
{
    let r = patched_media(d, timescales, first_ms, extinf_ms);
    let a = patched_media(r, timescales, second_ms, extinf_ms);
    let b = patched_media(d, timescales, second_ms, extinf_ms);
    let traf = trafs(d)[k];
    let more = shortfall(d, k, timescales, extinf_ms);
    law_patching_keeps_structure(d, timescales, first_ms, extinf_ms);
    lemma_patched_traf(d, timescales, first_ms, extinf_ms, k);
    assert(trafs(r)[k] == traf);
    lemma_patched_bytes(d, timescales, first_ms, extinf_ms, k);
    lemma_patched_bytes(d, timescales, second_ms, extinf_ms, k);
    lemma_patched_bytes(r, timescales, second_ms, extinf_ms, k);
    if in_time(d, k, i) {
        let field = time_field(d, traf).unwrap();
        lemma_time_field_bounds(d, traf);
        lemma_patched_traf(d, timescales, second_ms, extinf_ms, k);
        lemma_patched_traf(r, timescales, second_ms, extinf_ms, k);
        lemma_shifted_again(d, timescales, first_ms, second_ms, extinf_ms, k);
        assert(timed(r, k));
        lemma_field_bytes_same(a, b, field, i);
    } else {
        assert(!in_time(r, k, i));
        if more > 0 && in_last(d, k, i) {
            let off = last_duration(d, traf).unwrap();
            lemma_shortfall_of_patched(d, timescales, first_ms, extinf_ms, k);
            assert(a[i] == r[i]);
            lemma_be32_bytes_same(r, b, off);
        } else {
            if more == 0 {
                lemma_shortfall_of_patched(d, timescales, first_ms, extinf_ms, k);
            } else {
                assert(!in_last(r, k, i));
            }
            assert(a[i] == r[i]);
            assert(r[i] == d[i]);
            assert(b[i] == d[i]);
        }
    }
}

/// Only the last position counts: patching a segment that was patched before gives what patching it once
/// gives, and its last samples are not lengthened again. The times and durations that the first patching
/// writes fit their fields, and no time becomes negative.
pub proof fn law_patching_again(
    d: Seq<u8>,
    timescales: Map<u32, u64>,
    first_ms: nat,
    second_ms: nat,
    extinf_ms: nat,
)
    requires
        times_fit(d, timescales, first_ms),
        last_durations_fit(d, timescales, extinf_ms),
    ensures
        patched_media(patched_media(d, timescales, first_ms, extinf_ms), timescales, second_ms, extinf_ms)
            == patched_media(d, timescales, second_ms, extinf_ms),
{
    let r = patched_media(d, timescales, first_ms, extinf_ms);
    let a = patched_media(r, timescales, second_ms, extinf_ms);
    let b = patched_media(d, timescales, second_ms, extinf_ms);
    law_patching_keeps_structure(d, timescales, first_ms, extinf_ms);
    law_patching_keeps_structure(d, timescales, second_ms, extinf_ms);
    law_patching_keeps_structure(r, timescales, second_ms, extinf_ms);
    assert forall|i: int| 0 <= i < d.len() implies a[i] == b[i] by {
        if in_payload(trafs(d), i) {
            let k = choose|k: int| 0 <= k < trafs(d).len() && (#[trigger] trafs(d)[k]).0 + 8 <= i < trafs(d)[k].1;
            lemma_patched_again_traf(d, timescales, first_ms, second_ms, extinf_ms, k, i);
        } else {
            assert(!in_payload(trafs(r), i));
            assert(r[i] == d[i]);
            assert(b[i] == d[i]);
            assert(a[i] == r[i]);
        }
    }
    assert(a =~= b);
}

} // verus!
