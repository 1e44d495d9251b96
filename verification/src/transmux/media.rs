//! Decode times and sample durations of the movie fragments of a media segment.

use vstd::prelude::*;
use vstd::arithmetic::div_mod::{
    lemma_fundamental_div_mod, lemma_fundamental_div_mod_converse, lemma_mod_bound, lemma_mod_multiples_vanish,
};
use std::collections::HashMap;
use crate::mp4::{
    be32, be64, box_limit, boxes_of, find_box, find_box_in_range, list_boxes, read_be32, read_be64, read_box_limit, MOOF,
    TFDT, TFHD, TRAF, TRUN,
};

verus! {

broadcast use vstd::std_specs::hash::group_hash_axioms;

/// The `traf` boxes inside the given `moof` boxes, in order.
pub open spec fn trafs_in(d: Seq<u8>, moofs: Seq<(int, int)>) -> Seq<(int, int)>
    decreases moofs.len(),
{
    if moofs.len() == 0 {
        Seq::empty()
    } else {
        trafs_in(d, moofs.drop_last()) + boxes_of(d, moofs.last().0 + 8, moofs.last().1, TRAF)
    }
}

/// Start and end of every `traf` box of the segment, in order.
pub open spec fn trafs(d: Seq<u8>) -> Seq<(int, int)> {
    trafs_in(d, boxes_of(d, 0, d.len() as int, MOOF))
}

/// The track_ID of a `traf` box, from its `tfhd` box.
pub open spec fn traf_track(d: Seq<u8>, traf: (int, int)) -> Option<u32> {
    match find_box(d, traf.0 + 8, traf.1, TFHD) {
        Some(tfhd) => if tfhd + 16 <= box_limit(d, tfhd, traf.1) {
            Some(be32(d, tfhd + 12) as u32)
        } else {
            None
        },
        None => None,
    }
}

/// Bit `b` (1, 2, 4, ...) of a byte.
pub open spec fn bit(byte: u8, b: nat) -> nat {
    (byte as nat / b) % 2
}

/// The `trun` box at `pos` gives every sample a duration.
pub open spec fn trun_has_durations(d: Seq<u8>, pos: int) -> bool {
    bit(d[pos + 10], 1) == 1
}

/// The number of samples of the `trun` box at `pos`.
pub open spec fn trun_samples(d: Seq<u8>, pos: int) -> nat {
    be32(d, pos + 12)
}

/// The length of one sample entry of the `trun` box at `pos`: four bytes for each of duration,
/// size, flags and composition time offset that is present.
pub open spec fn trun_stride(d: Seq<u8>, pos: int) -> nat {
    4 * (bit(d[pos + 10], 1) + bit(d[pos + 10], 2) + bit(d[pos + 10], 4) + bit(d[pos + 10], 8))
}

/// The offset of the first sample entry of the `trun` box at `pos`, behind the optional data
/// offset and first sample flags.
pub open spec fn trun_entries(d: Seq<u8>, pos: int) -> int {
    pos + 16 + 4 * bit(d[pos + 11], 1) + 4 * bit(d[pos + 11], 4)
}

/// The sum of the 32-bit numbers at `off`, `off + stride`, ..., of which there are `n`, up to the
/// first that does not end before `end`.
pub open spec fn sum_entries(d: Seq<u8>, off: int, stride: nat, n: nat, end: int) -> nat
    decreases n,
{
    if n == 0 || off + 4 > end {
        0
    } else {
        be32(d, off) + sum_entries(d, off + stride, stride, (n - 1) as nat, end)
    }
}

/// The ticks that the samples of a `traf` box last, from the sample durations that its `trun` box
/// holds; 0 where it has none.
pub open spec fn traf_ticks(d: Seq<u8>, traf: (int, int)) -> nat {
    match find_box(d, traf.0 + 8, traf.1, TRUN) {
        Some(trun) => {
            let end = box_limit(d, trun, traf.1);
            if trun + 16 <= end && trun_has_durations(d, trun) {
                sum_entries(d, trun_entries(d, trun), trun_stride(d, trun), trun_samples(d, trun), end)
            } else {
                0
            }
        },
        None => 0,
    }
}

/// Offset and width of the decode time in the `tfdt` box of a `traf` box: 32 bits in version 0,
/// 64 bits in version 1, where the box is long enough for it.
pub open spec fn time_field(d: Seq<u8>, traf: (int, int)) -> Option<(int, int)> {
    match find_box(d, traf.0 + 8, traf.1, TFDT) {
        Some(tfdt) => {
            let end = box_limit(d, tfdt, traf.1);
            if tfdt + 16 <= end && d[tfdt + 8] == 0 {
                Some((tfdt + 12, 4))
            } else if tfdt + 20 <= end && d[tfdt + 8] == 1 {
                Some((tfdt + 12, 8))
            } else {
                None
            }
        },
        None => None,
    }
}

/// The number in a field of four or eight bytes.
pub open spec fn field_value(d: Seq<u8>, field: (int, int)) -> nat {
    if field.1 == 4 {
        be32(d, field.0)
    } else {
        be64(d, field.0)
    }
}

/// The timescale of a track; 90000 where it is not known.
pub open spec fn timescale_or_default(timescales: Map<u32, u64>, track: u32) -> nat {
    if timescales.contains_key(track) {
        timescales[track] as nat
    } else {
        90000
    }
}

/// `ms` milliseconds in ticks, rounded down.
pub open spec fn ticks(ms: nat, timescale: nat) -> nat {
    ms * timescale / 1000
}

/// The shift of a track's decode times, fixed by the first of the `n` first `traf` boxes that
/// carries the track's decode time: it moves that time to `start_ms`.
pub open spec fn track_shift(
    d: Seq<u8>,
    n: nat,
    timescales: Map<u32, u64>,
    start_ms: nat,
    track: u32,
) -> Option<int>
    decreases n,
{
    if n == 0 {
        None
    } else {
        match track_shift(d, (n - 1) as nat, timescales, start_ms, track) {
            Some(shift) => Some(shift),
            None => match time_field(d, trafs(d)[n - 1]) {
                Some(field) => if traf_track(d, trafs(d)[n - 1]) == Some(track) {
                    Some(ticks(start_ms, timescale_or_default(timescales, track)) - field_value(d, field))
                } else {
                    None
                },
                None => None,
            },
        }
    }
}

/// The decode time of the `k`-th `traf` box after the shift, at least 0.
pub open spec fn shifted_time(d: Seq<u8>, k: int, timescales: Map<u32, u64>, start_ms: nat) -> nat {
    let track = traf_track(d, trafs(d)[k]).unwrap();
    let field = time_field(d, trafs(d)[k]).unwrap();
    let t = field_value(d, field) + track_shift(d, (k + 1) as nat, timescales, start_ms, track).unwrap();
    if t < 0 {
        0
    } else {
        t as nat
    }
}

/// The low 32 bits of `v`, big-endian.
pub open spec fn be32_bytes(v: nat) -> Seq<u8> {
    seq![
        (v / 0x1000000 % 0x100) as u8,
        (v / 0x10000 % 0x100) as u8,
        (v / 0x100 % 0x100) as u8,
        (v % 0x100) as u8,
    ]
}

/// The low 64 bits of `v`, big-endian.
pub open spec fn be64_bytes(v: nat) -> Seq<u8> {
    be32_bytes(v / 0x100000000) + be32_bytes(v)
}

/// `d` with `bytes` written at `off`.
pub open spec fn overwritten(d: Seq<u8>, off: int, bytes: Seq<u8>) -> Seq<u8> {
    Seq::new(
        d.len(),
        |i: int|
            if off <= i < off + bytes.len() {
                bytes[i - off]
            } else {
                d[i]
            },
    )
}

/// `d` with `v` written into a field of four or eight bytes.
pub open spec fn with_field(d: Seq<u8>, field: (int, int), v: nat) -> Seq<u8> {
    overwritten(
        d,
        field.0,
        if field.1 == 4 {
            be32_bytes(v)
        } else {
            be64_bytes(v)
        },
    )
}

/// The segment with the decode times of its first `n` `traf` boxes shifted.
pub open spec fn retimed(d: Seq<u8>, n: nat, timescales: Map<u32, u64>, start_ms: nat) -> Seq<u8>
    decreases n,
{
    if n == 0 {
        d
    } else {
        let before = retimed(d, (n - 1) as nat, timescales, start_ms);
        let traf = trafs(d)[n - 1];
        match (traf_track(d, traf), time_field(d, traf)) {
            (Some(_), Some(field)) => with_field(
                before,
                field,
                shifted_time(d, n - 1, timescales, start_ms),
            ),
            _ => before,
        }
    }
}

/// The ticks that a track's samples last in the first `n` `traf` boxes.
pub open spec fn track_ticks(d: Seq<u8>, n: nat, track: u32) -> nat
    decreases n,
{
    if n == 0 {
        0
    } else {
        track_ticks(d, (n - 1) as nat, track) + if traf_track(d, trafs(d)[n - 1]) == Some(track) {
            traf_ticks(d, trafs(d)[n - 1])
        } else {
            0
        }
    }
}

/// The offset of the last sample's duration in a `traf` box, where its first whole `trun` box
/// gives durations and holds the last one.
pub open spec fn last_duration(d: Seq<u8>, traf: (int, int)) -> Option<int> {
    let truns = boxes_of(d, traf.0 + 8, traf.1, TRUN);
    if truns.len() == 0 {
        None
    } else {
        let (trun, end) = truns[0];
        if trun + 16 > end || !trun_has_durations(d, trun) || trun_samples(d, trun) == 0 {
            None
        } else {
            let off = trun_entries(d, trun) + (trun_samples(d, trun) - 1) * trun_stride(d, trun);
            if off + 4 <= end {
                Some(off)
            } else {
                None
            }
        }
    }
}

/// `d` with the last sample of a `traf` box lasting `more` ticks longer.
pub open spec fn extended(d: Seq<u8>, traf: (int, int), more: nat) -> Seq<u8> {
    match last_duration(d, traf) {
        Some(off) => overwritten(d, off, be32_bytes(be32(d, off) + more)),
        None => d,
    }
}

/// The `k`-th `traf` box is the last one of its track.
pub open spec fn is_last_of_track(d: Seq<u8>, k: int) -> bool {
    forall|j: int|
        k < j < trafs(d).len() ==> traf_track(d, #[trigger] trafs(d)[j]) != traf_track(d, trafs(d)[k])
}

/// The ticks that the `k`-th `traf` box has to last longer so that its track fills `extinf_ms`:
/// nothing unless it is the last one of a track with a known timescale.
pub open spec fn shortfall(d: Seq<u8>, k: int, timescales: Map<u32, u64>, extinf_ms: nat) -> nat {
    match traf_track(d, trafs(d)[k]) {
        Some(track) => {
            let total = track_ticks(d, trafs(d).len(), track);
            if is_last_of_track(d, k) && timescales.contains_key(track) && total < ticks(
                extinf_ms,
                timescales[track] as nat,
            ) {
                (ticks(extinf_ms, timescales[track] as nat) - total) as nat
            } else {
                0
            }
        },
        None => 0,
    }
}

/// `cur` with the shortfall of the first `n` `traf` boxes of `d` made up.
pub open spec fn filled(
    d: Seq<u8>,
    cur: Seq<u8>,
    n: nat,
    timescales: Map<u32, u64>,
    extinf_ms: nat,
) -> Seq<u8>
    decreases n,
{
    if n == 0 {
        cur
    } else {
        let before = filled(d, cur, (n - 1) as nat, timescales, extinf_ms);
        let more = shortfall(d, n - 1, timescales, extinf_ms);
        if more > 0 {
            extended(before, trafs(d)[n - 1], more)
        } else {
            before
        }
    }
}

/// The segment with its decode times shifted so that every track starts at `start_ms`, and with
/// every track filling `extinf_ms`.
pub open spec fn patched_media(
    d: Seq<u8>,
    timescales: Map<u32, u64>,
    start_ms: nat,
    extinf_ms: nat,
) -> Seq<u8> {
    filled(d, retimed(d, trafs(d).len(), timescales, start_ms), trafs(d).len(), timescales, extinf_ms)
}

/// What is computed for the track of the `k`-th `traf` box stays in the machine's range: the start of the
/// track, its length, and its declared length.
pub open spec fn traf_patchable(
    d: Seq<u8>,
    k: int,
    timescales: Map<u32, u64>,
    start_ms: nat,
    extinf_ms: nat,
) -> bool {
    let traf = trafs(d)[k];
    traf_track(d, traf) matches Some(track) ==> {
        &&& time_field(d, traf) is Some ==> start_ms * timescale_or_default(timescales, track) <= i128::MAX
        &&& track_ticks(d, trafs(d).len(), track) <= u64::MAX
        &&& timescales.contains_key(track) ==> extinf_ms * timescales[track] <= u64::MAX
    }
}

/// The segment can be patched: no intermediate result leaves the machine's range.
pub open spec fn patchable(
    d: Seq<u8>,
    timescales: Map<u32, u64>,
    start_ms: nat,
    extinf_ms: nat,
) -> bool {
    forall|k: int| 0 <= k < trafs(d).len() ==> #[trigger] traf_patchable(d, k, timescales, start_ms, extinf_ms)
}

/// The `traf` boxes of `data`.
fn list_trafs(data: &[u8]) -> (r: Vec<(usize, usize)>)
    ensures
        r@.len() == trafs(data@).len(),
        forall|i: int|
            0 <= i < r@.len() ==> (#[trigger] r@[i]).0 == trafs(data@)[i].0 && r@[i].1 == trafs(
                data@,
            )[i].1 && r@[i].0 + 8 <= r@[i].1 <= data@.len(),
{
    let moofs = list_boxes(data, 0, data.len(), MOOF);
    let ghost ms = boxes_of(data@, 0, data@.len() as int, MOOF);
    let mut r: Vec<(usize, usize)> = Vec::new();
    let mut i: usize = 0;
    assert(ms.take(0) == Seq::<(int, int)>::empty());
    while i < moofs.len()
        invariant
            ms == boxes_of(data@, 0, data@.len() as int, MOOF),
            moofs@.len() == ms.len(),
            forall|k: int|
                0 <= k < moofs@.len() ==> (#[trigger] moofs@[k]).0 == ms[k].0 && moofs@[k].1 == ms[k].1
                    && moofs@[k].0 + 8 <= moofs@[k].1 <= data@.len(),
            0 <= i <= moofs@.len(),
            r@.len() == trafs_in(data@, ms.take(i as int)).len(),
            forall|k: int|
                0 <= k < r@.len() ==> (#[trigger] r@[k]).0 == trafs_in(data@, ms.take(i as int))[k].0
                    && r@[k].1 == trafs_in(data@, ms.take(i as int))[k].1 && r@[k].0 + 8 <= r@[k].1
                    <= data@.len(),
        decreases moofs@.len() - i,
    {
        let (start, end) = moofs[i];
        let inner = list_boxes(data, start + 8, end, TRAF);
        let ghost known = trafs_in(data@, ms.take(i as int));
        let ghost more = boxes_of(data@, start + 8, end as int, TRAF);
        assert(ms.take(i + 1).drop_last() == ms.take(i as int));
        assert(ms.take(i + 1).last() == ms[i as int]);
        assert(trafs_in(data@, ms.take(i + 1)) == known + more);
        let mut j: usize = 0;
        while j < inner.len()
            invariant
                0 <= j <= inner@.len(),
                inner@.len() == more.len(),
                forall|k: int|
                    0 <= k < inner@.len() ==> (#[trigger] inner@[k]).0 == more[k].0 && inner@[k].1
                        == more[k].1 && inner@[k].0 + 8 <= inner@[k].1 <= data@.len(),
                r@.len() == known.len() + j,
                forall|k: int|
                    0 <= k < r@.len() ==> (#[trigger] r@[k]).0 == (known + more)[k].0 && r@[k].1 == (
                    known + more)[k].1 && r@[k].0 + 8 <= r@[k].1 <= data@.len(),
            decreases inner@.len() - j,
        {
            r.push(inner[j]);
            j += 1;
        }
        i += 1;
    }
    assert(ms.take(ms.len() as int) == ms);
    r
}

/// Read the track_ID field from the tfhd box inside a traf, used to correlate fragments
/// belonging to the same track across multiple moof boxes in one segment.
fn read_tfhd_track_id(data: &[u8], traf_start: usize, traf_end: usize) -> (r: Option<u32>)
    requires
        traf_start + 8 <= traf_end <= data@.len(),
    ensures
        r == traf_track(data@, (traf_start as int, traf_end as int)),
{
    match find_box_in_range(data, traf_start + 8, traf_end, TFHD) {
        Some(tfhd) => {
            let end: usize = read_box_limit(data, tfhd, traf_end);
            if end >= tfhd && end - tfhd >= 16 {
                Some(read_be32(data, tfhd + 12))
            } else {
                None
            }
        },
        None => None,
    }
}

fn read_bit(byte: u8, b: u8) -> (r: usize)
    requires
        b > 0,
    ensures
        r == bit(byte, b as nat),
        r <= 1,
{
    ((byte / b) % 2) as usize
}

/// The length of one sample entry of the `trun` box at `pos`.
fn read_trun_stride(data: &[u8], pos: usize) -> (r: usize)
    requires
        pos + 12 <= data@.len(),
    ensures
        r == trun_stride(data@, pos as int),
        r <= 16,
{
    assert(pos + 12 <= data.len());
    let b: u8 = data[pos + 10];
    4 * (read_bit(b, 1) + read_bit(b, 2) + read_bit(b, 4) + read_bit(b, 8))
}

/// How far behind the start of the `trun` box at `pos` its first sample entry stands.
fn read_trun_entries(data: &[u8], pos: usize) -> (r: usize)
    requires
        pos + 12 <= data@.len(),
    ensures
        pos + r == trun_entries(data@, pos as int),
        16 <= r <= 24,
{
    assert(pos + 12 <= data.len());
    let b: u8 = data[pos + 11];
    16 + 4 * read_bit(b, 1) + 4 * read_bit(b, 4)
}

/// A sum of 32-bit entries is at most as many times the largest of them as there are.
proof fn lemma_sum_entries_bound(d: Seq<u8>, off: int, stride: nat, n: nat, end: int)
    ensures
        sum_entries(d, off, stride, n, end) <= n * 0xffff_ffff,
    decreases n,
{
    if n > 0 && off + 4 <= end {
        lemma_sum_entries_bound(d, off + stride, stride, (n - 1) as nat, end);
    }
}

/// Sum the per-sample durations declared in a traf's trun box, without modifying anything.
/// Returns 0 if the trun uses default_sample_duration (from tfhd) instead of per-sample
/// durations, matching the same limitation as `extend_traf_last_sample`.
pub fn sum_trun_durations(data: &[u8], traf_start: usize, traf_end: usize) -> (total: u64)
    requires
        traf_start + 8 <= traf_end <= data@.len(),
    ensures
        total == traf_ticks(data@, (traf_start as int, traf_end as int)),
{
    let trun: usize = match find_box_in_range(data, traf_start + 8, traf_end, TRUN) {
        Some(pos) => pos,
        None => return 0,
    };
    let end: usize = read_box_limit(data, trun, traf_end);
    if end < trun || end - trun < 16 {
        return 0;
    }
    let count: u32 = read_be32(data, trun + 12);
    if read_bit(data[trun + 10], 1) != 1 {
        return 0;
    }
    let stride: usize = read_trun_stride(data, trun);
    let ghost entries = trun_entries(data@, trun as int);
    let ghost whole = sum_entries(data@, entries, stride as nat, count as nat, end as int);
    let mut total: u64 = 0;
    let mut off: u128 = trun as u128 + read_trun_entries(data, trun) as u128;
    let mut left: u32 = count;
    while left > 0
        invariant_except_break
            total + sum_entries(data@, off as int, stride as nat, left as nat, end as int) == whole,
        invariant
            whole == sum_entries(data@, entries, stride as nat, count as nat, end as int),
            end <= data@.len(),
            left <= count,
            stride <= 16,
            off <= u64::MAX + 24 + 16 * (count - left),
        ensures
            total == whole,
        decreases left,
    {
        if off + 4 > end as u128 {
            break;
        }
        let here: u32 = read_be32(data, off as usize);
        proof {
            lemma_sum_entries_bound(data@, entries, stride as nat, count as nat, end as int);
        }
        total = total + here as u64;
        off = off + stride as u128;
        left = left - 1;
    }
    total
}

proof fn lemma_low_bytes(v: nat)
    ensures
        be32_bytes(v) == be32_bytes(v % 0x100000000),
{
    lemma_byte_of_low(v as int, 0x1000000, 0x100);
    lemma_byte_of_low(v as int, 0x10000, 0x10000);
    lemma_byte_of_low(v as int, 0x100, 0x1000000);
    lemma_byte_of_low(v as int, 1, 0x100000000);
}

/// A byte of the low 32 bits of `v` is the same byte of `v`.
proof fn lemma_byte_of_low(v: int, unit: int, rest: int)
    requires
        0 <= v,
        unit == 0x1000000 && rest == 0x100 || unit == 0x10000 && rest == 0x10000 || unit == 0x100 && rest
            == 0x1000000 || unit == 1 && rest == 0x100000000,
    ensures
        v / unit % 0x100 == v % 0x100000000 / unit % 0x100,
{
    let q = v / 0x100000000;
    let w = v % 0x100000000;
    let x = w / unit;
    let y = w % unit;
    lemma_fundamental_div_mod(v, 0x100000000);
    lemma_fundamental_div_mod(w, unit);
    lemma_mod_bound(w, unit);
    if unit == 0x1000000 {
        lemma_fundamental_div_mod_converse(v, 0x1000000, q * 0x100 + x, y);
        lemma_mod_multiples_vanish(q, x, 0x100);
    } else if unit == 0x10000 {
        lemma_fundamental_div_mod_converse(v, 0x10000, q * 0x10000 + x, y);
        lemma_mod_multiples_vanish(q * 0x100, x, 0x100);
    } else if unit == 0x100 {
        lemma_fundamental_div_mod_converse(v, 0x100, q * 0x1000000 + x, y);
        lemma_mod_multiples_vanish(q * 0x10000, x, 0x100);
    } else {
        lemma_mod_multiples_vanish(q * 0x1000000, w, 0x100);
    }
}

fn write_be32(data: &mut Vec<u8>, off: usize, v: u32)
    requires
        off + 4 <= old(data)@.len(),
    ensures
        final(data)@ == overwritten(old(data)@, off as int, be32_bytes(v as nat)),
{
    assert(off + 4 <= data.len());
    data.set(off, (v / 0x1000000) as u8);
    data.set(off + 1, (v / 0x10000 % 0x100) as u8);
    data.set(off + 2, (v / 0x100 % 0x100) as u8);
    data.set(off + 3, (v % 0x100) as u8);
}

fn write_be64(data: &mut Vec<u8>, off: usize, v: u64)
    requires
        off + 8 <= old(data)@.len(),
    ensures
        final(data)@ == overwritten(old(data)@, off as int, be64_bytes(v as nat)),
{
    assert(off + 8 <= data.len());
    proof {
        lemma_low_bytes(v as nat);
    }
    write_be32(data, off, (v / 0x100000000) as u32);
    write_be32(data, off + 4, (v % 0x100000000) as u32);
}

/// Extend the last sample's duration in this traf's trun box by `shortfall_ticks`. Used to
/// close MSE buffer holes when a segment's actual media (possibly spread across several
/// fragments) spans less than the declared EXTINF duration — the caller computes the
/// shortfall across all of the track's fragments and applies it only to the last one.
///
/// Only operates when trun carries per-sample duration (flags bit 0x100 set). Skips silently
/// if the format differs (e.g. default_sample_duration in tfhd), leaving the segment untouched.
pub fn extend_traf_last_sample(
    data: &mut Vec<u8>,
    traf_start: usize,
    traf_end: usize,
    shortfall_ticks: u64,
)
    requires
        traf_start + 8 <= traf_end <= old(data)@.len(),
        last_duration(old(data)@, (traf_start as int, traf_end as int)) matches Some(off) ==> be32(
            old(data)@,
            off,
        ) + shortfall_ticks <= u64::MAX,
    ensures
        final(data)@ == extended(
            old(data)@,
            (traf_start as int, traf_end as int),
            shortfall_ticks as nat,
        ),
        final(data)@.len() == old(data)@.len(),
{
    let truns = list_boxes(data.as_slice(), traf_start + 8, traf_end, TRUN);
    if truns.len() == 0 {
        return;
    }
    let (trun, end) = truns[0];
    if end - trun < 16 {
        return;
    }
    assert(end <= data.len());
    let count: u32 = read_be32(data.as_slice(), trun + 12);
    if read_bit(data[trun + 10], 1) != 1 || count == 0 {
        return;
    }
    let stride: usize = read_trun_stride(data.as_slice(), trun);
    let entries: usize = read_trun_entries(data.as_slice(), trun);
    assert((count - 1) * stride <= 0xffff_ffff * 16) by (nonlinear_arith)
        requires
            count <= 0xffff_ffff,
            1 <= count,
            stride <= 16,
    ;
    let off: u128 = trun as u128 + entries as u128 + (count - 1) as u128 * stride as u128;
    if off + 4 <= end as u128 {
        let old_dur: u64 = read_be32(data.as_slice(), off as usize) as u64;
        let new_dur: u64 = old_dur + shortfall_ticks;
        proof {
            lemma_low_bytes(new_dur as nat);
        }
        write_be32(data, off as usize, (new_dur % 0x100000000) as u32);
    }
}

proof fn lemma_track_ticks_grow(d: Seq<u8>, m: nat, n: nat, track: u32)
    requires
        m <= n,
    ensures
        track_ticks(d, m, track) <= track_ticks(d, n, track),
    decreases n,
{
    if m < n {
        lemma_track_ticks_grow(d, m, (n - 1) as nat, track);
    }
}

pub proof fn lemma_retimed_len(d: Seq<u8>, n: nat, timescales: Map<u32, u64>, start_ms: nat)
    ensures
        retimed(d, n, timescales, start_ms).len() == d.len(),
    decreases n,
{
    if n > 0 {
        lemma_retimed_len(d, (n - 1) as nat, timescales, start_ms);
    }
}

pub proof fn lemma_filled_len(d: Seq<u8>, cur: Seq<u8>, n: nat, timescales: Map<u32, u64>, extinf_ms: nat)
    ensures
        filled(d, cur, n, timescales, extinf_ms).len() == cur.len(),
    decreases n,
{
    if n > 0 {
        lemma_filled_len(d, cur, (n - 1) as nat, timescales, extinf_ms);
    }
}

/// The decode time of a `traf` box, with the offset and width of its field.
fn read_time_field(data: &[u8], traf_start: usize, traf_end: usize) -> (r: Option<(usize, bool, u64)>)
    requires
        traf_start + 8 <= traf_end <= data@.len(),
    ensures
        match r {
            Some((off, wide, value)) => {
                &&& time_field(data@, (traf_start as int, traf_end as int)) == Some((off as int, if wide {
                        8int
                    } else {
                        4int
                    }))
                &&& value == field_value(data@, (off as int, if wide {
                        8int
                    } else {
                        4int
                    }))
                &&& off + 4 <= traf_end
                &&& wide ==> off + 8 <= traf_end
            },
            None => time_field(data@, (traf_start as int, traf_end as int)) is None,
        },
{
    match find_box_in_range(data, traf_start + 8, traf_end, TFDT) {
        Some(tfdt) => {
            let end: usize = read_box_limit(data, tfdt, traf_end);
            if end < tfdt || end - tfdt < 16 {
                return None;
            }
            let version: u8 = data[tfdt + 8];
            if version == 0 {
                Some((tfdt + 12, false, read_be32(data, tfdt + 12) as u64))
            } else if version == 1 && end - tfdt >= 20 {
                Some((tfdt + 12, true, read_be64(data, tfdt + 12)))
            } else {
                None
            }
        },
        None => None,
    }
}

/// The bounds within which a track's shift stays.
spec fn small_shift(shift: int) -> bool {
    -0x1_0000_0000_0000_0000 <= shift <= 0x1_0000_0000_0000_0000_0000_0000_0000_0000int / 1000
}

/// Rewrite the baseMediaDecodeTime in every tfdt box found inside every traf in the data,
/// and extend the last sample's duration in the final fragment so the segment fills
/// exactly the declared EXTINF window.
///
/// Every independent TS-segment transmux starts its own decode timeline (FFmpeg picks
/// whatever start offset it likes — sometimes 0, sometimes a 1 s reset — depending on
/// muxer flags), so left unpatched, the DASH player would overwrite the same buffer
/// position for every segment. This function shifts every tfdt in the segment by a
/// constant per-track delta so that the *first* fragment lands at
/// `cumulative_ms × timescale / 1000` — the sum of actual #EXTINF durations for all
/// preceding segments — while preserving the original spacing between fragments. The
/// timescale must come from the real `mdhd` box (see `read_track_timescales`): the raw
/// tfdt value cannot be assumed to equal the timescale.
///
/// A single TS segment can produce more than one moof/traf pair: FFmpeg's
/// `frag_keyframe` starts a new fragment at every keyframe, so a segment whose GOP is
/// shorter than its EXTINF duration (e.g. 2 s GOP inside a 6 s segment) yields several
/// fragments. The delta is computed once per track from the first fragment only, then
/// added everywhere, preserving FFmpeg's correct internal spacing between fragments.
///
/// Some source HLS segments are sparse: EXTINF declares e.g. 4 s but the actual media
/// frames only span ~1 s. The remaining time appears as an MSE buffer hole, causing the
/// gap controller to seek repeatedly. Extending the last sample's decode duration in the
/// final fragment to fill the full EXTINF window eliminates those holes without changing
/// any box sizes.
#[verifier::rlimit(40)]
pub fn patch_media_timestamps(
    media: &[u8],
    timescales: &HashMap<u32, u64>,
    cumulative_ms: u64,
    extinf_ms: u64,
) -> (r: Vec<u8>)
    requires
        patchable(media@, timescales@, cumulative_ms as nat, extinf_ms as nat),
    ensures
        r@ == patched_media(media@, timescales@, cumulative_ms as nat, extinf_ms as nat),
        r@.len() == media@.len(),
{
    let ghost d = media@;
    let ghost ts = timescales@;
    let ghost start_ms = cumulative_ms as nat;
    let list = list_trafs(media);
    let n: usize = list.len();
    let mut data: Vec<u8> = Vec::new();
    data.extend_from_slice(media);
    assert(data@ == d);
    // Per-track shift, fixed from the first fragment seen for that track so every later
    // fragment's original spacing relative to it is preserved.
    let mut shifts: HashMap<u32, i128> = HashMap::new();
    // The most recently seen traf per track, so the last one is known when the segment ends.
    let mut last_of: HashMap<u32, usize> = HashMap::new();
    // Running total of decoded ticks per track, across every fragment, for the hole check.
    let mut totals: HashMap<u32, u64> = HashMap::new();
    let mut k: usize = 0;
    while k < n
        invariant
            0 <= k <= n,
            n == list@.len(),
            n == trafs(d).len(),
            d == media@,
            ts == timescales@,
            start_ms == cumulative_ms as nat,
            patchable(d, ts, start_ms, extinf_ms as nat),
            forall|i: int|
                0 <= i < n ==> (#[trigger] list@[i]).0 == trafs(d)[i].0 && list@[i].1 == trafs(d)[i].1
                    && list@[i].0 + 8 <= list@[i].1 <= d.len(),
            data@ == retimed(d, k as nat, ts, start_ms),
            data@.len() == d.len(),
            forall|t: u32| #[trigger]
                shifts@.contains_key(t) <==> track_shift(d, k as nat, ts, start_ms, t) is Some,
            forall|t: u32| #[trigger]
                shifts@.contains_key(t) ==> track_shift(d, k as nat, ts, start_ms, t) == Some(
                    shifts@[t] as int,
                ) && small_shift(shifts@[t] as int),
            forall|t: u32|
                #[trigger] totals@.contains_key(t) ==> totals@[t] == track_ticks(d, k as nat, t),
            forall|t: u32| !#[trigger] totals@.contains_key(t) ==> track_ticks(d, k as nat, t) == 0,
            forall|t: u32| #[trigger]
                last_of@.contains_key(t) ==> last_of@[t] < k && traf_track(d, trafs(d)[last_of@[t] as int])
                    == Some(t),
            forall|t: u32, j: int|
                #![trigger last_of@.contains_key(t), trafs(d)[j]]
                last_of@.contains_key(t) && last_of@[t] < j < k ==> traf_track(d, trafs(d)[j]) != Some(t),
            forall|t: u32, j: int|
                #![trigger last_of@.contains_key(t), trafs(d)[j]]
                !last_of@.contains_key(t) && 0 <= j < k ==> traf_track(d, trafs(d)[j]) != Some(t),
        decreases n - k,
    {
        let (start, end) = list[k];
        let ghost traf = trafs(d)[k as int];
        assert(traf == (start as int, end as int));
        assert(traf_patchable(d, k as int, ts, start_ms, extinf_ms as nat));
        match read_tfhd_track_id(media, start, end) {
            Some(track) => {
                last_of.insert(track, k);
                let here: u64 = sum_trun_durations(media, start, end);
                let so_far: u64 = match totals.get(&track) {
                    Some(t) => *t,
                    None => 0,
                };
                proof {
                    lemma_track_ticks_grow(d, (k + 1) as nat, n as nat, track);
                    assert(track_ticks(d, (k + 1) as nat, track) == so_far + here);
                }
                totals.insert(track, so_far + here);
                match read_time_field(media, start, end) {
                    Some((off, wide, value)) => {
                        let scale: u64 = match timescales.get(&track) {
                            Some(x) => *x,
                            None => 90_000,
                        };
                        assert(scale == timescale_or_default(ts, track));
                        let shift: i128 = match shifts.get(&track) {
                            Some(x) => *x,
                            None => {
                                assert(cumulative_ms * scale <= i128::MAX);
                                let target: u128 = cumulative_ms as u128 * scale as u128 / 1000;
                                target as i128 - value as i128
                            },
                        };
                        assert(track_shift(d, (k + 1) as nat, ts, start_ms, track) == Some(shift as int));
                        assert(small_shift(shift as int));
                        shifts.insert(track, shift);
                        let moved: i128 = value as i128 + shift;
                        let time: u128 = if moved < 0 {
                            0
                        } else {
                            moved as u128
                        };
                        assert(time == shifted_time(d, k as int, ts, start_ms));
                        if wide {
                            proof {
                                lemma_low_bytes_wide(time as nat);
                            }
                            write_be64(&mut data, off, (time % 0x1_0000_0000_0000_0000) as u64);
                        } else {
                            proof {
                                lemma_low_bytes(time as nat);
                            }
                            write_be32(&mut data, off, (time % 0x1_0000_0000) as u32);
                        }
                    },
                    None => {},
                }
            },
            None => {},
        }
        k += 1;
    }
    if extinf_ms > 0 {
        let ghost cur = data@;
        let mut i: usize = 0;
        while i < n
            invariant
                0 <= i <= n,
                n == list@.len(),
                n == trafs(d).len(),
                d == media@,
                ts == timescales@,
                start_ms == cumulative_ms as nat,
                extinf_ms > 0,
                patchable(d, ts, start_ms, extinf_ms as nat),
                forall|j: int|
                    0 <= j < n ==> (#[trigger] list@[j]).0 == trafs(d)[j].0 && list@[j].1 == trafs(d)[j].1
                        && list@[j].0 + 8 <= list@[j].1 <= d.len(),
                cur == retimed(d, n as nat, ts, start_ms),
                data@ == filled(d, cur, i as nat, ts, extinf_ms as nat),
                data@.len() == d.len(),
                forall|t: u32|
                    #[trigger] totals@.contains_key(t) ==> totals@[t] == track_ticks(d, n as nat, t),
                forall|t: u32|
                    !#[trigger] totals@.contains_key(t) ==> track_ticks(d, n as nat, t) == 0,
                forall|t: u32| #[trigger]
                    last_of@.contains_key(t) ==> last_of@[t] < n && traf_track(
                        d,
                        trafs(d)[last_of@[t] as int],
                    ) == Some(t),
                forall|t: u32, j: int|
                    #![trigger last_of@.contains_key(t), trafs(d)[j]]
                    last_of@.contains_key(t) && last_of@[t] < j < n ==> traf_track(d, trafs(d)[j])
                        != Some(t),
                forall|t: u32, j: int|
                    #![trigger last_of@.contains_key(t), trafs(d)[j]]
                    !last_of@.contains_key(t) && 0 <= j < n ==> traf_track(d, trafs(d)[j]) != Some(t),
            decreases n - i,
        {
            let (start, end) = list[i];
            assert(trafs(d)[i as int] == (start as int, end as int));
            assert(traf_patchable(d, i as int, ts, start_ms, extinf_ms as nat));
            match read_tfhd_track_id(media, start, end) {
                Some(track) => {
                    let is_last: bool = match last_of.get(&track) {
                        Some(x) => *x == i,
                        None => false,
                    };
                    assert(last_of@.contains_key(track));
                    assert(is_last == is_last_of_track(d, i as int)) by {
                        if !is_last {
                            let j = last_of@[track] as int;
                            assert(traf_track(d, trafs(d)[j]) == Some(track));
                        }
                    }
                    if is_last {
                        match timescales.get(&track) {
                            Some(scale) => {
                                let expected: u64 = extinf_ms * *scale / 1000;
                                let total: u64 = match totals.get(&track) {
                                    Some(t) => *t,
                                    None => 0,
                                };
                                if total < expected {
                                    assert(shortfall(d, i as int, ts, extinf_ms as nat) == expected - total);
                                    extend_traf_last_sample(&mut data, start, end, expected - total);
                                }
                            },
                            None => {},
                        }
                    }
                },
                None => {},
            }
            i += 1;
        }
    } else {
        proof {
            lemma_nothing_to_fill(d, data@, n as nat, ts);
        }
    }
    data
}

proof fn lemma_nothing_to_fill(d: Seq<u8>, cur: Seq<u8>, n: nat, timescales: Map<u32, u64>)
    ensures
        filled(d, cur, n, timescales, 0) == cur,
    decreases n,
{
    if n > 0 {
        lemma_nothing_to_fill(d, cur, (n - 1) as nat, timescales);
        match traf_track(d, trafs(d)[n - 1]) {
            Some(track) => {
                assert(ticks(0, timescales[track] as nat) == 0);
            },
            None => {},
        }
    }
}

proof fn lemma_low_words(v: nat)
    ensures
        v / 0x100000000 % 0x100000000 == v % 0x1_0000_0000_0000_0000 / 0x100000000 % 0x100000000,
        v % 0x100000000 == v % 0x1_0000_0000_0000_0000 % 0x100000000,
{
    let q: int = v as int / 0x1_0000_0000_0000_0000;
    let w: int = v as int % 0x1_0000_0000_0000_0000;
    let h: int = w / 0x100000000;
    let l: int = w % 0x100000000;
    assert(v == q * 0x1_0000_0000_0000_0000 + h * 0x100000000 + l);
    assert(v as int / 0x100000000 == q * 0x100000000 + h);
    assert((q * 0x100000000 + h) % 0x100000000 == h % 0x100000000);
}

proof fn lemma_low_bytes_wide(v: nat)
    ensures
        be64_bytes(v) == be64_bytes(v % 0x1_0000_0000_0000_0000),
{
    let w = v % 0x1_0000_0000_0000_0000;
    lemma_low_words(v);
    assert(be32_bytes(v) == be32_bytes(w)) by {
        lemma_low_bytes(v);
        lemma_low_bytes(w);
    }
    assert(be32_bytes(v / 0x100000000) == be32_bytes(w / 0x100000000)) by {
        lemma_low_bytes(v / 0x100000000);
        lemma_low_bytes(w / 0x100000000);
    }
}

} // verus!
