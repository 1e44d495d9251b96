//! What patching does to a media segment that is built fragment by fragment.

use vstd::prelude::*;
use vstd::arithmetic::div_mod::{lemma_fundamental_div_mod_converse, lemma_small_mod};
use crate::mp4::{boxes_of, MOOF, TFDT, TFHD, TRAF, TRUN};
use crate::mp4_laws::{
    boxed, chain, first_of, holds_at, law_box_read, law_boxes_listed, lemma_box_in_chain, lemma_holds_parts,
    lemma_word_len, sizes_fit, spans,
};
use super::fragment_laws::{
    decode_time, last_longer, law_cut_run_kept, law_decode_time, law_no_run, law_run_extended, law_run_total,
    law_track_read, run_bytes, run_fits, time_fits, total_duration, track_header, traf_holds, Run,
};
use super::init_laws::agree;
use super::media::{
    extended, field_value, is_last_of_track, lemma_retimed_len, patched_media, retimed, shifted_time, shortfall,
    ticks, time_field, timescale_or_default, track_shift, track_ticks, traf_ticks, traf_track, trafs, trafs_in,
    with_field,
};
use super::media_laws::{
    field_range, law_patching_keeps_structure, lemma_field_bytes_same, lemma_filled_traf, lemma_no_shift_yet,
    lemma_patched_bytes, lemma_retimed_traf, lemma_shift_settles, lemma_time_field_bounds, lemma_trafs_sorted, timed,
};

verus! {

/// A track fragment: its child boxes, where its `tfhd`, `tfdt` and `trun` boxes are among them, and
/// what they hold. `tfdt` and `trun` may be missing.
pub struct Fragment {
    pub boxes: Seq<(u32, Seq<u8>)>,
    pub tfhd: int,
    pub tfhd_flags: Seq<u8>,
    pub tfhd_rest: Seq<u8>,
    pub track: u32,
    pub tfdt: int,
    pub tfdt_flags: Seq<u8>,
    pub wide: bool,
    pub time: nat,
    pub trun: int,
    pub run: Run,
}

/// The fragment has a decode time.
pub open spec fn has_time(f: Fragment) -> bool {
    f.tfdt < f.boxes.len()
}

/// The fragment holds its last sample's duration.
pub open spec fn has_last_duration(f: Fragment) -> bool {
    has_durations(f) && f.run.samples.len() > 0 && f.run.count == f.run.samples.len()
}

/// The fragment has samples with durations.
pub open spec fn has_durations(f: Fragment) -> bool {
    f.trun < f.boxes.len() && f.run.flags & 0x100 != 0
}

/// The boxes hold what the fragment says, and nothing is too large for its field.
pub open spec fn fragment_built(f: Fragment) -> bool {
    &&& first_of(f.boxes, TFHD, f.tfhd)
    &&& first_of(f.boxes, TFDT, f.tfdt)
    &&& first_of(f.boxes, TRUN, f.trun)
    &&& f.tfhd < f.boxes.len()
    &&& f.tfhd_flags.len() == 4
    &&& f.boxes[f.tfhd].1 == track_header(f.tfhd_flags, f.track, f.tfhd_rest)
    &&& time_fits(f.wide, f.time)
    &&& has_time(f) ==> f.tfdt_flags.len() == 3 && f.boxes[f.tfdt].1 == decode_time(f.wide, f.tfdt_flags, f.time)
    &&& f.trun < f.boxes.len() ==> run_fits(f.run) && f.run.count >= f.run.samples.len() && f.boxes[f.trun].1 == run_bytes(
        f.run,
    )
}

/// The `traf` boxes of the segment are built from the given fragments.
pub open spec fn segment_built(d: Seq<u8>, fragments: Seq<Fragment>) -> bool {
    &&& fragments.len() == trafs(d).len()
    &&& forall|k: int|
        0 <= k < fragments.len() ==> fragment_built(#[trigger] fragments[k]) && traf_holds(
            d,
            trafs(d)[k],
            fragments[k].boxes,
        )
}

/// The ticks that the samples of a track last, over all its fragments.
pub open spec fn track_length(fragments: Seq<Fragment>, track: u32) -> nat
    decreases fragments.len(),
{
    if fragments.len() == 0 {
        0
    } else {
        let f = fragments.last();
        track_length(fragments.drop_last(), track) + if f.track == track && has_durations(f) {
            total_duration(f.run.samples)
        } else {
            0
        }
    }
}

/// The fragment is the first one of its track that has a decode time.
pub open spec fn starts_track(fragments: Seq<Fragment>, k: int) -> bool {
    &&& 0 <= k < fragments.len()
    &&& has_time(fragments[k])
    &&& forall|j: int|
        0 <= j < k ==> (#[trigger] fragments[j]).track != fragments[k].track || !has_time(fragments[j])
}

/// The fragment is the last one of its track.
pub open spec fn ends_track(fragments: Seq<Fragment>, k: int) -> bool {
    forall|j: int| k < j < fragments.len() ==> (#[trigger] fragments[j]).track != fragments[k].track
}

/// `n` is `ms` milliseconds in whole ticks.
pub open spec fn whole_ticks(n: nat, ms: nat, timescale: nat) -> bool {
    1000 * n <= ms * timescale < 1000 * (n + 1)
}

/// The fragment's boxes with another decode time.
pub open spec fn with_time(f: Fragment, time: nat) -> Seq<(u32, Seq<u8>)> {
    if has_time(f) {
        f.boxes.update(f.tfdt, (TFDT, decode_time(f.wide, f.tfdt_flags, time)))
    } else {
        f.boxes
    }
}

/// The fragment's boxes with another decode time and a longer last sample.
pub open spec fn with_time_and_length(f: Fragment, time: nat, more: nat) -> Seq<(u32, Seq<u8>)> {
    if has_last_duration(f) && more > 0 {
        with_time(f, time).update(f.trun, (TRUN, run_bytes(last_longer(f.run, more))))
    } else {
        with_time(f, time)
    }
}

proof fn lemma_fragment_read(d: Seq<u8>, traf: (int, int), f: Fragment)
    requires
        fragment_built(f),
        traf_holds(d, traf, f.boxes),
    ensures
        traf_track(d, traf) == Some(f.track),
        time_field(d, traf) is Some == has_time(f),
        has_time(f) ==> field_value(d, time_field(d, traf).unwrap()) == f.time,
        traf_ticks(d, traf) == if has_durations(f) {
            total_duration(f.run.samples)
        } else {
            0
        },
{
    law_track_read(d, traf, f.boxes, f.tfhd, f.tfhd_flags, f.track, f.tfhd_rest);
    law_decode_time(d, traf, f.boxes, f.tfdt, f.wide, f.tfdt_flags, f.time, f.time);
    if f.trun < f.boxes.len() {
        law_run_total(d, traf, f.boxes, f.trun, f.run);
    } else {
        law_no_run(d, traf, f.boxes, 0);
    }
}

proof fn lemma_segment_read(d: Seq<u8>, fragments: Seq<Fragment>, k: int)
    requires
        segment_built(d, fragments),
        0 <= k < fragments.len(),
    ensures
        traf_track(d, trafs(d)[k]) == Some(fragments[k].track),
        timed(d, k) == has_time(fragments[k]),
        has_time(fragments[k]) ==> field_value(d, time_field(d, trafs(d)[k]).unwrap()) == fragments[k].time,
        traf_ticks(d, trafs(d)[k]) == if has_durations(fragments[k]) {
            total_duration(fragments[k].run.samples)
        } else {
            0
        },
{
    lemma_fragment_read(d, trafs(d)[k], fragments[k]);
}

proof fn lemma_track_length(d: Seq<u8>, fragments: Seq<Fragment>, n: int, track: u32)
    requires
        segment_built(d, fragments),
        0 <= n <= fragments.len(),
    ensures
        track_ticks(d, n as nat, track) == track_length(fragments.take(n), track),
    decreases n,
{
    if n > 0 {
        lemma_track_length(d, fragments, n - 1, track);
        lemma_segment_read(d, fragments, n - 1);
        assert(fragments.take(n).drop_last() =~= fragments.take(n - 1));
        assert(fragments.take(n).last() == fragments[n - 1]);
    }
}

proof fn lemma_whole_ticks(n: nat, ms: nat, timescale: nat)
    requires
        whole_ticks(n, ms, timescale),
    ensures
        ticks(ms, timescale) == n,
{
    let x = (ms * timescale) as int;
    lemma_fundamental_div_mod_converse(x, 1000, n as int, x - 1000 * n);
}

/// Where a fragment of a track is moved to.
proof fn lemma_new_time(
    d: Seq<u8>,
    fragments: Seq<Fragment>,
    timescales: Map<u32, u64>,
    start_ms: nat,
    first: int,
    k: int,
    start: nat,
)
    requires
        segment_built(d, fragments),
        starts_track(fragments, first),
        first <= k < fragments.len(),
        has_time(fragments[k]),
        fragments[k].track == fragments[first].track,
        whole_ticks(
            start,
            start_ms,
            if timescales.contains_key(fragments[k].track) {
                timescales[fragments[k].track] as nat
            } else {
                90000
            },
        ),
    ensures
        shifted_time(d, k, timescales, start_ms) == if start + fragments[k].time >= fragments[first].time {
            start + fragments[k].time - fragments[first].time
        } else {
            0
        },
{
    let track = fragments[k].track;
    lemma_segment_read(d, fragments, first);
    lemma_segment_read(d, fragments, k);
    assert forall|j: int| 0 <= j < first && #[trigger] timed(d, j) implies traf_track(d, trafs(d)[j]) != Some(track) by {
        lemma_segment_read(d, fragments, j);
        assert(fragments[j].track != track);
    }
    lemma_no_shift_yet(d, first as nat, timescales, start_ms, track);
    lemma_whole_ticks(start, start_ms, timescale_or_default(timescales, track));
    assert(track_shift(d, (first + 1) as nat, timescales, start_ms, track) == Some(start - fragments[first].time));
    lemma_shift_settles(d, (first + 1) as nat, (k + 1) as nat, timescales, start_ms, track);
}

/// How much longer a fragment is made.
#[verifier::rlimit(40)]
proof fn lemma_more(
    d: Seq<u8>,
    fragments: Seq<Fragment>,
    timescales: Map<u32, u64>,
    extinf_ms: nat,
    k: int,
    declared: nat,
)
    requires
        segment_built(d, fragments),
        0 <= k < fragments.len(),
        timescales.contains_key(fragments[k].track) ==> whole_ticks(
            declared,
            extinf_ms,
            timescales[fragments[k].track] as nat,
        ),
    ensures
        shortfall(d, k, timescales, extinf_ms) == if ends_track(fragments, k) && timescales.contains_key(
            fragments[k].track,
        ) && track_length(fragments, fragments[k].track) < declared {
            (declared - track_length(fragments, fragments[k].track)) as nat
        } else {
            0
        },
{
    let track = fragments[k].track;
    lemma_segment_read(d, fragments, k);
    assert(is_last_of_track(d, k) == ends_track(fragments, k)) by {
        if ends_track(fragments, k) {
            assert forall|j: int| k < j < trafs(d).len() implies traf_track(d, #[trigger] trafs(d)[j]) != traf_track(
                d,
                trafs(d)[k],
            ) by {
                lemma_segment_read(d, fragments, j);
                assert(fragments[j].track != track);
            }
        }
        if is_last_of_track(d, k) {
            assert forall|j: int| k < j < fragments.len() implies (#[trigger] fragments[j]).track != track by {
                lemma_segment_read(d, fragments, j);
                assert(traf_track(d, trafs(d)[j]) != traf_track(d, trafs(d)[k]));
            }
        }
    }
    lemma_track_length(d, fragments, fragments.len() as int, track);
    assert(fragments.take(fragments.len() as int) =~= fragments);
    if timescales.contains_key(track) {
        lemma_whole_ticks(declared, extinf_ms, timescales[track] as nat);
    }
}

proof fn lemma_holds_agree(d: Seq<u8>, e: Seq<u8>, traf: (int, int), boxes: Seq<(u32, Seq<u8>)>)
    requires
        traf_holds(d, traf, boxes),
        agree(d, e, traf.0, traf.1),
    ensures
        traf_holds(e, traf, boxes),
{
    let b = boxed(TRAF, chain(boxes));
    lemma_word_len(chain(boxes).len() + 8);
    lemma_word_len(TRAF as nat);
    assert forall|i: int| 0 <= i < b.len() implies e[traf.0 + i] == #[trigger] b[i] by {
        assert(d[traf.0 + i] == b[i]);
    }
}

/// Two segments that hold the same number in a field and differ from a third nowhere else.
proof fn lemma_same_but_field(
    d: Seq<u8>,
    e: Seq<u8>,
    cur: Seq<u8>,
    traf: (int, int),
    field: (int, int),
    time: nat,
)
    requires
        field.1 == 4 || field.1 == 8,
        e == with_field(d, field, time),
        field_value(e, field) == time,
        field_value(cur, field) == time,
        agree(d, cur, traf.0, field.0),
        agree(d, cur, field.0 + field.1, traf.1),
        0 <= traf.0,
        traf.1 <= d.len(),
    ensures
        agree(e, cur, traf.0, traf.1),
{
    assert forall|i: int| traf.0 <= i < traf.1 implies #[trigger] e[i] == cur[i] by {
        if field.0 <= i < field.0 + field.1 {
            lemma_field_bytes_same(e, cur, field, i);
        } else {
            assert(e[i] == d[i]);
        }
    }
}

/// The fragment with its new decode time.
#[verifier::rlimit(40)]
proof fn lemma_retimed_holds(
    d: Seq<u8>,
    fragments: Seq<Fragment>,
    timescales: Map<u32, u64>,
    start_ms: nat,
    k: int,
    time: nat,
)
    requires
        segment_built(d, fragments),
        0 <= k < fragments.len(),
        has_time(fragments[k]) ==> shifted_time(d, k, timescales, start_ms) == time && time_fits(
            fragments[k].wide,
            time,
        ),
    ensures
        traf_holds(
            retimed(d, trafs(d).len(), timescales, start_ms),
            trafs(d)[k],
            with_time(fragments[k], time),
        ),
{
    let f = fragments[k];
    let traf = trafs(d)[k];
    let cur = retimed(d, trafs(d).len(), timescales, start_ms);
    lemma_segment_read(d, fragments, k);
    lemma_retimed_len(d, trafs(d).len(), timescales, start_ms);
    lemma_retimed_traf(d, trafs(d).len(), timescales, start_ms, k);
    lemma_trafs_sorted(d);
    if has_time(f) {
        let field = time_field(d, traf).unwrap();
        lemma_time_field_bounds(d, traf);
        law_decode_time(d, traf, f.boxes, f.tfdt, f.wide, f.tfdt_flags, f.time, time);
        let e = with_field(d, field, time);
        assert(time % field_range(field.1) == time) by {
            lemma_small_mod(time, field_range(field.1));
        }
        lemma_same_but_field(d, e, cur, traf, field, time);
        lemma_holds_agree(e, cur, traf, with_time(f, time));
    } else {
        lemma_holds_agree(d, cur, traf, f.boxes);
    }
}

/// Patching a segment gives the segment that is built from the same fragments with other decode times
/// and with longer last samples, and from nothing else: each fragment of a track is moved by what moves
/// the first one to `start_ms`, with 90000 ticks in a second where the timescale is not known, and none
/// is moved below 0; and the last sample of the last fragment of a track with a known timescale
/// lasts as much longer as the track falls short of `extinf_ms`.
#[verifier::rlimit(40)]
pub proof fn law_segment_patched(
    d: Seq<u8>,
    fragments: Seq<Fragment>,
    timescales: Map<u32, u64>,
    start_ms: nat,
    extinf_ms: nat,
    first: int,
    k: int,
    start: nat,
    declared: nat,
    time: nat,
    more: nat,
)
    requires
        segment_built(d, fragments),
        0 <= k < fragments.len(),
        has_time(fragments[k]) ==> {
            &&& starts_track(fragments, first)
            &&& first <= k
            &&& fragments[first].track == fragments[k].track
            &&& whole_ticks(
                start,
                start_ms,
                if timescales.contains_key(fragments[k].track) {
                    timescales[fragments[k].track] as nat
                } else {
                    90000
                },
            )
            &&& time == if start + fragments[k].time >= fragments[first].time {
                start + fragments[k].time - fragments[first].time
            } else {
                0
            }
            &&& time_fits(fragments[k].wide, time)
        },
        timescales.contains_key(fragments[k].track) ==> whole_ticks(
            declared,
            extinf_ms,
            timescales[fragments[k].track] as nat,
        ),
        more == if ends_track(fragments, k) && timescales.contains_key(fragments[k].track) && track_length(
            fragments,
            fragments[k].track,
        ) < declared {
            declared - track_length(fragments, fragments[k].track)
        } else {
            0
        },
        has_last_duration(fragments[k]) ==> fragments[k].run.samples.last().duration + more < 0x100000000,
    ensures
        traf_holds(
            patched_media(d, timescales, start_ms, extinf_ms),
            trafs(d)[k],
            with_time_and_length(fragments[k], time, more),
        ),
{
    let f = fragments[k];
    let traf = trafs(d)[k];
    let cur = retimed(d, trafs(d).len(), timescales, start_ms);
    let r = patched_media(d, timescales, start_ms, extinf_ms);
    if has_time(f) {
        lemma_new_time(d, fragments, timescales, start_ms, first, k, start);
    }
    lemma_more(d, fragments, timescales, extinf_ms, k, declared);
    lemma_retimed_holds(d, fragments, timescales, start_ms, k, time);
    lemma_retimed_len(d, trafs(d).len(), timescales, start_ms);
    lemma_filled_traf(d, cur, trafs(d).len(), timescales, extinf_ms, k);
    let boxes = with_time(f, time);
    if more > 0 {
        let x = extended(cur, traf, more);
        assert(first_of(boxes, TRUN, f.trun)) by {
            assert forall|j: int| 0 <= j < f.trun implies (#[trigger] boxes[j]).0 != TRUN by {
                assert(f.boxes[j].0 != TRUN);
            }
        }
        if f.trun < f.boxes.len() {
            assert(boxes[f.trun] == f.boxes[f.trun]);
            if f.run.count == f.run.samples.len() {
                law_run_extended(cur, traf, boxes, f.trun, f.run, more);
            } else {
                law_cut_run_kept(cur, traf, boxes, f.trun, f.run, more);
            }
        } else {
            law_no_run(cur, traf, boxes, more);
        }
        lemma_holds_agree(x, r, traf, with_time_and_length(f, time, more));
    } else {
        lemma_holds_agree(cur, r, traf, boxes);
    }
}

/// Start and end of every track fragment of a chain of boxes that starts at `pos`: those in each movie
/// fragment, whose own boxes are given in `inner`, one movie fragment behind the other.
pub open spec fn fragment_spans(
    top: Seq<(u32, Seq<u8>)>,
    inner: Seq<Seq<(u32, Seq<u8>)>>,
    pos: int,
) -> Seq<(int, int)>
    decreases top.len(),
{
    if top.len() == 0 {
        Seq::empty()
    } else {
        let rest = fragment_spans(top.skip(1), inner.skip(1), pos + top[0].1.len() + 8);
        if top[0].0 == MOOF {
            spans(inner[0], pos + 8, TRAF) + rest
        } else {
            rest
        }
    }
}

/// Each movie fragment of the chain is built from its boxes.
pub open spec fn movie_fragments_built(top: Seq<(u32, Seq<u8>)>, inner: Seq<Seq<(u32, Seq<u8>)>>) -> bool {
    &&& sizes_fit(top)
    &&& inner.len() == top.len()
    &&& forall|i: int|
        0 <= i < top.len() && (#[trigger] top[i]).0 == MOOF ==> top[i].1 == chain(inner[i]) && sizes_fit(inner[i])
}

proof fn lemma_trafs_in_front(d: Seq<u8>, moofs: Seq<(int, int)>)
    requires
        moofs.len() > 0,
    ensures
        trafs_in(d, moofs) == boxes_of(d, moofs[0].0 + 8, moofs[0].1, TRAF) + trafs_in(d, moofs.skip(1)),
    decreases moofs.len(),
{
    let first = boxes_of(d, moofs[0].0 + 8, moofs[0].1, TRAF);
    if moofs.len() == 1 {
        assert(moofs.drop_last() =~= Seq::empty());
        assert(moofs.skip(1) =~= Seq::empty());
        assert(trafs_in(d, moofs.drop_last()) =~= Seq::empty());
        assert(trafs_in(d, moofs.skip(1)) =~= Seq::empty());
        assert(moofs.last() == moofs[0]);
        assert(trafs_in(d, moofs) =~= first);
        assert(first + trafs_in(d, moofs.skip(1)) =~= first);
    } else {
        let front = moofs.drop_last();
        let last = boxes_of(d, moofs.last().0 + 8, moofs.last().1, TRAF);
        lemma_trafs_in_front(d, front);
        assert(moofs.skip(1).drop_last() =~= front.skip(1));
        assert(moofs.skip(1).last() == moofs.last());
        assert((first + trafs_in(d, front.skip(1))) + last =~= first + (trafs_in(d, front.skip(1)) + last));
    }
}

#[verifier::rlimit(40)]
proof fn lemma_trafs_of_chain(
    d: Seq<u8>,
    pos: int,
    top: Seq<(u32, Seq<u8>)>,
    inner: Seq<Seq<(u32, Seq<u8>)>>,
)
    requires
        movie_fragments_built(top, inner),
        holds_at(d, pos, chain(top)),
    ensures
        trafs_in(d, spans(top, pos, MOOF)) == fragment_spans(top, inner, pos),
    decreases top.len(),
{
    if top.len() > 0 {
        let rest = top.skip(1);
        let next = pos + top[0].1.len() + 8;
        lemma_box_in_chain(d, pos, top, 0);
        lemma_holds_parts(d, pos, boxed(top[0].0, top[0].1), chain(rest));
        lemma_word_len(top[0].1.len() + 8);
        lemma_word_len(top[0].0 as nat);
        assert forall|i: int| 0 <= i < rest.len() implies (#[trigger] rest[i]).1.len() + 8 < 0x100000000 by {
            assert(rest[i] == top[i + 1]);
        }
        assert forall|i: int| 0 <= i < rest.len() && (#[trigger] rest[i]).0 == MOOF implies rest[i].1 == chain(
            inner.skip(1)[i],
        ) && sizes_fit(inner.skip(1)[i]) by {
            assert(rest[i] == top[i + 1]);
        }
        lemma_trafs_of_chain(d, next, rest, inner.skip(1));
        if top[0].0 == MOOF {
            let moofs = spans(top, pos, MOOF);
            assert(moofs == seq![(pos, next)] + spans(rest, next, MOOF));
            assert(moofs.skip(1) =~= spans(rest, next, MOOF));
            lemma_trafs_in_front(d, moofs);
            law_box_read(d, pos, MOOF, top[0].1);
            law_boxes_listed(d, pos + 8, inner[0], TRAF);
        }
    }
}

/// The track fragments of a segment are those of all its movie fragments, in order.
pub proof fn law_track_fragments_of_all_movie_fragments(
    top: Seq<(u32, Seq<u8>)>,
    inner: Seq<Seq<(u32, Seq<u8>)>>,
)
    requires
        movie_fragments_built(top, inner),
    ensures
        trafs(chain(top)) == fragment_spans(top, inner, 0),
{
    let d = chain(top);
    assert(holds_at(d, 0, d));
    law_boxes_listed(d, 0, top, MOOF);
    lemma_trafs_of_chain(d, 0, top, inner);
}

/// A fragment of which no track is known is kept as it is.
pub proof fn law_fragment_without_track_kept(
    d: Seq<u8>,
    timescales: Map<u32, u64>,
    start_ms: nat,
    extinf_ms: nat,
    k: int,
)
    requires
        0 <= k < trafs(d).len(),
        traf_track(d, trafs(d)[k]) is None,
    ensures
        agree(d, patched_media(d, timescales, start_ms, extinf_ms), trafs(d)[k].0, trafs(d)[k].1),
{
    lemma_patched_bytes(d, timescales, start_ms, extinf_ms, k);
    law_patching_keeps_structure(d, timescales, start_ms, extinf_ms);
}

} // verus!
