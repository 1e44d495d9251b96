//! What is read from, and cleared in, a movie that is built box by box.

use vstd::prelude::*;
use crate::mp4::{
    be32, box_kind, box_limit, box_size, boxes_of, find_box, min, whole_box, MDHD, MDIA, MOOF, MOOV, MVHD, TFDT, TKHD,
    TRAF, TRAK,
};
use crate::mp4_laws::{
    boxed, chain, first_of, holds_at, law_box_read, law_first_box_found, law_long_word_read, law_word_read,
    lemma_box_in_chain, lemma_holds_parts, long_word, place, sizes_fit, word,
};
use super::fragment_laws::time_fits;
use super::init::{
    duration_field, durations_cleared, field_after_times, first_decode_time, init_part, is_container,
    lemma_cleared_len, media_part, tfdt_time, timescales_from, track_timescales, trak_id, trak_timescale, zeroed,
};

verus! {

broadcast use crate::mp4_laws::lemma_word_len;

/// What a `trak` box says of its track: the track_ID of its `tkhd` box and the timescale of the
/// `mdhd` box in its `mdia` box, where both are there.
pub open spec fn track_entry(d: Seq<u8>, trak: (int, int)) -> Option<(u32, u64)> {
    let end = min(trak.1, d.len() as int);
    match (trak_id(d, trak.0, end), trak_timescale(d, trak.0, end)) {
        (Some(id), Some(timescale)) => Some((id as u32, timescale as u64)),
        _ => None,
    }
}

/// None of the `trak` boxes behind the `k`-th speaks of the track.
pub open spec fn none_later(d: Seq<u8>, traks: Seq<(int, int)>, k: int, id: u32) -> bool {
    forall|j: int|
        k < j < traks.len() ==> (track_entry(d, #[trigger] traks[j]) matches Some(other) ==> other.0 != id)
}

/// What the `trak` boxes say, each in its turn.
spec fn track_entries(d: Seq<u8>, traks: Seq<(int, int)>) -> Seq<Option<(u32, u64)>> {
    Seq::new(traks.len(), |k: int| track_entry(d, traks[k]))
}

spec fn collected(entries: Seq<Option<(u32, u64)>>, known: Map<u32, u64>) -> Map<u32, u64>
    decreases entries.len(),
{
    if entries.len() == 0 {
        known
    } else {
        collected(
            entries.skip(1),
            match entries[0] {
                Some(e) => known.insert(e.0, e.1),
                None => known,
            },
        )
    }
}

proof fn lemma_timescales_collected(d: Seq<u8>, pos: int, end: int, known: Map<u32, u64>)
    ensures
        timescales_from(d, pos, end, known) == collected(track_entries(d, boxes_of(d, pos, end, TRAK)), known),
    decreases end - pos,
{
    if whole_box(d, pos, end) {
        let next = pos + box_size(d, pos);
        let rest = boxes_of(d, next, end, TRAK);
        if box_kind(d, pos) == TRAK {
            let traks = seq![(pos, next)] + rest;
            assert(traks.skip(1) =~= rest);
            assert(track_entries(d, traks).skip(1) =~= track_entries(d, rest));
            let more = match track_entry(d, (pos, next)) {
                Some(e) => known.insert(e.0, e.1),
                None => known,
            };
            lemma_timescales_collected(d, next, end, more);
            assert(track_entries(d, traks)[0] == track_entry(d, (pos, next)));
        } else {
            lemma_timescales_collected(d, next, end, known);
        }
    }
}

spec fn speaks_of(entries: Seq<Option<(u32, u64)>>, k: int, id: u32) -> bool {
    entries[k] is Some && entries[k].unwrap().0 == id
}

proof fn lemma_collected(entries: Seq<Option<(u32, u64)>>, known: Map<u32, u64>, id: u32)
    ensures
        collected(entries, known).contains_key(id) ==> known.contains_key(id) || exists|k: int|
            0 <= k < entries.len() && #[trigger] speaks_of(entries, k, id),
        known.contains_key(id) ==> collected(entries, known).contains_key(id),
        known.contains_key(id) && (forall|j: int| 0 <= j < entries.len() ==> !#[trigger] speaks_of(entries, j, id))
            ==> collected(entries, known)[id] == known[id],
    decreases entries.len(),
{
    if entries.len() > 0 {
        let rest = entries.skip(1);
        let more = match entries[0] {
            Some(e) => known.insert(e.0, e.1),
            None => known,
        };
        lemma_collected(rest, more, id);
        if forall|j: int| 0 <= j < entries.len() ==> !#[trigger] speaks_of(entries, j, id) {
            assert(!speaks_of(entries, 0, id));
            assert forall|j: int| 0 <= j < rest.len() implies !#[trigger] speaks_of(rest, j, id) by {
                assert(!speaks_of(entries, j + 1, id));
            }
        }
        if collected(entries, known).contains_key(id) && !known.contains_key(id) {
            if more.contains_key(id) {
                assert(speaks_of(entries, 0, id));
            } else {
                let k = choose|k: int| 0 <= k < rest.len() && #[trigger] speaks_of(rest, k, id);
                assert(speaks_of(entries, k + 1, id));
            }
        }
    }
}

proof fn lemma_last_one_counts(entries: Seq<Option<(u32, u64)>>, known: Map<u32, u64>, k: int)
    requires
        0 <= k < entries.len(),
        entries[k] is Some,
        forall|j: int| k < j < entries.len() ==> !#[trigger] speaks_of(entries, j, entries[k].unwrap().0),
    ensures
        collected(entries, known).contains_pair(entries[k].unwrap().0, entries[k].unwrap().1),
    decreases entries.len(),
{
    let e = entries[k].unwrap();
    let rest = entries.skip(1);
    let more = match entries[0] {
        Some(e) => known.insert(e.0, e.1),
        None => known,
    };
    assert forall|j: int| k - 1 < j < rest.len() implies !#[trigger] speaks_of(rest, j, e.0) by {
        assert(!speaks_of(entries, j + 1, e.0));
    }
    if k == 0 {
        lemma_collected(rest, more, e.0);
    } else {
        lemma_last_one_counts(rest, more, k - 1);
    }
}

/// Every whole `trak` box in the first `moov` box that gives a track_ID and a timescale, and whose
/// track no later one speaks of, has its timescale under its track_ID; nothing else is in the map.
#[verifier::rlimit(40)]
pub proof fn law_every_track_has_its_timescale(d: Seq<u8>, moov: int)
    requires
        find_box(d, 0, d.len() as int, MOOV) == Some(moov),
    ensures
        ({
            let traks = boxes_of(d, moov + 8, moov + box_size(d, moov), TRAK);
            &&& forall|k: int|
                0 <= k < traks.len() ==> (track_entry(d, #[trigger] traks[k]) matches Some(e) ==> (none_later(
                    d,
                    traks,
                    k,
                    e.0,
                ) ==> track_timescales(d).contains_pair(e.0, e.1)))
            &&& forall|id: u32| #[trigger]
                track_timescales(d).contains_key(id) ==> exists|k: int|
                    0 <= k < traks.len() && (track_entry(d, #[trigger] traks[k]) matches Some(e) && e.0 == id)
        }),
{
    let traks = boxes_of(d, moov + 8, moov + box_size(d, moov), TRAK);
    let entries = track_entries(d, traks);
    lemma_timescales_collected(d, moov + 8, moov + box_size(d, moov), Map::empty());
    assert forall|k: int| 0 <= k < traks.len() implies (track_entry(d, #[trigger] traks[k]) matches Some(e) ==> (
    none_later(d, traks, k, e.0) ==> track_timescales(d).contains_pair(e.0, e.1))) by {
        let entry = track_entry(d, traks[k]);
        assert(entries[k] == entry);
        if entry is Some && none_later(d, traks, k, entry.unwrap().0) {
            let id = entry.unwrap().0;
            assert forall|j: int| k < j < entries.len() implies !#[trigger] speaks_of(entries, j, id) by {
                assert(entries[j] == track_entry(d, traks[j]));
            }
            lemma_last_one_counts(entries, Map::empty(), k);
        }
    }
    assert forall|id: u32| #[trigger] track_timescales(d).contains_key(id) implies exists|k: int|
        0 <= k < traks.len() && (track_entry(d, #[trigger] traks[k]) matches Some(e) && e.0 == id) by {
        lemma_collected(entries, Map::empty(), id);
        let k = choose|k: int| 0 <= k < entries.len() && #[trigger] speaks_of(entries, k, id);
        assert(entries[k] == track_entry(d, traks[k]));
    }
}

/// Without a `moov` box no timescale is known.
pub proof fn law_no_movie_no_timescales(d: Seq<u8>)
    requires
        find_box(d, 0, d.len() as int, MOOV) is None,
    ensures
        track_timescales(d) == Map::<u32, u64>::empty(),
{
}

/// What the header boxes of a movie, a track and its media have in common: version and flags, two
/// times of 32 bits (version 0) or 64 bits, a number, and what follows.
pub open spec fn header(version: u8, flags: Seq<u8>, times: Seq<u8>, number: u32, rest: Seq<u8>) -> Seq<u8> {
    seq![version] + flags + times + word(number as nat) + rest
}

/// The parts of a header have their lengths.
pub open spec fn header_parts(version: u8, flags: Seq<u8>, times: Seq<u8>) -> bool {
    &&& flags.len() == 3
    &&& times.len() == if version == 0 {
        8nat
    } else {
        16nat
    }
}

proof fn lemma_header_read(
    d: Seq<u8>,
    pos: int,
    kind: u32,
    version: u8,
    flags: Seq<u8>,
    times: Seq<u8>,
    number: u32,
    rest: Seq<u8>,
)
    requires
        header_parts(version, flags, times),
        header(version, flags, times, number, rest).len() + 8 < 0x100000000,
        holds_at(d, pos, boxed(kind, header(version, flags, times, number, rest))),
    ensures
        field_after_times(d, pos, pos + box_size(d, pos)) == Some(number as nat),
        box_size(d, pos) == header(version, flags, times, number, rest).len() + 8,
{
    let front = seq![version] + flags + times;
    law_box_read(d, pos, kind, header(version, flags, times, number, rest));
    lemma_holds_parts(d, pos + 8, front + word(number as nat), rest);
    lemma_holds_parts(d, pos + 8, front, word(number as nat));
    law_word_read(d, pos + 8 + front.len(), number as nat);
    assert(d[pos + 8 + 0] == front[0]);
}

/// A `trak` box that is built from child boxes, among them a track header with the track_ID `id` and
/// media with a header with the timescale `timescale`, is read as that track_ID and that timescale.
#[verifier::rlimit(40)]
pub proof fn law_track_read(
    d: Seq<u8>,
    trak: (int, int),
    boxes: Seq<(u32, Seq<u8>)>,
    t: int,
    m: int,
    media: Seq<(u32, Seq<u8>)>,
    h: int,
    track_header: (u8, Seq<u8>, Seq<u8>, Seq<u8>),
    media_header: (u8, Seq<u8>, Seq<u8>, Seq<u8>),
    id: u32,
    timescale: u32,
)
    requires
        holds_at(d, trak.0, boxed(TRAK, chain(boxes))),
        trak.1 == trak.0 + chain(boxes).len() + 8,
        sizes_fit(boxes),
        sizes_fit(media),
        chain(boxes).len() + 8 < 0x100000000,
        first_of(boxes, TKHD, t),
        t < boxes.len(),
        first_of(boxes, MDIA, m),
        m < boxes.len(),
        first_of(media, MDHD, h),
        h < media.len(),
        header_parts(track_header.0, track_header.1, track_header.2),
        header_parts(media_header.0, media_header.1, media_header.2),
        boxes[t].1 == header(track_header.0, track_header.1, track_header.2, id, track_header.3),
        boxes[m].1 == chain(media),
        media[h].1 == header(media_header.0, media_header.1, media_header.2, timescale, media_header.3),
    ensures
        track_entry(d, trak) == Some((id, timescale as u64)),
{
    let at = trak.0 + 8;
    law_box_read(d, trak.0, TRAK, chain(boxes));
    law_first_box_found(d, at, boxes, TKHD, t);
    lemma_box_in_chain(d, at, boxes, t);
    lemma_header_read(
        d,
        at + place(boxes, t),
        TKHD,
        track_header.0,
        track_header.1,
        track_header.2,
        id,
        track_header.3,
    );
    law_first_box_found(d, at, boxes, MDIA, m);
    lemma_box_in_chain(d, at, boxes, m);
    let mdia = at + place(boxes, m);
    law_box_read(d, mdia, MDIA, chain(media));
    law_first_box_found(d, mdia + 8, media, MDHD, h);
    lemma_box_in_chain(d, mdia + 8, media, h);
    lemma_header_read(
        d,
        mdia + 8 + place(media, h),
        MDHD,
        media_header.0,
        media_header.1,
        media_header.2,
        timescale,
        media_header.3,
    );
}

/// The decode time of a segment is the one of its first fragment's first track fragment, of 32 bits in
/// version 0 and of 64 bits otherwise; where there is no fragment, no track fragment or no decode time in it,
/// there is none.
#[verifier::rlimit(40)]
pub proof fn law_first_decode_time(
    top: Seq<(u32, Seq<u8>)>,
    moof: int,
    fragment: Seq<(u32, Seq<u8>)>,
    traf: int,
    boxes: Seq<(u32, Seq<u8>)>,
    tfdt: int,
    version: u8,
    flags: Seq<u8>,
    time: nat,
)
    requires
        sizes_fit(top),
        sizes_fit(fragment),
        sizes_fit(boxes),
        first_of(top, MOOF, moof),
        moof < top.len() ==> top[moof].1 == chain(fragment) && first_of(fragment, TRAF, traf),
        moof < top.len() && traf < fragment.len() ==> fragment[traf].1 == chain(boxes) && first_of(boxes, TFDT, tfdt),
        moof < top.len() && traf < fragment.len() && tfdt < boxes.len() ==> flags.len() == 3 && time_fits(
            version != 0,
            time,
        ) && boxes[tfdt].1 == seq![version] + flags + if version == 0 {
            word(time)
        } else {
            long_word(time)
        },
    ensures
        first_decode_time(chain(top)) == if moof < top.len() && traf < fragment.len() && tfdt < boxes.len() {
            Some(time)
        } else {
            None
        },
{
    let d = chain(top);
    assert(holds_at(d, 0, d));
    law_first_box_found(d, 0, top, MOOF, moof);
    if moof < top.len() {
        let a = place(top, moof);
        lemma_box_in_chain(d, 0, top, moof);
        lemma_inner_box(d, a, d.len() as int, MOOF, fragment, TRAF, traf);
        if traf < fragment.len() {
            let b = a + 8 + place(fragment, traf);
            let end = box_limit(d, a, d.len() as int);
            lemma_inner_box(d, b, end, TRAF, boxes, TFDT, tfdt);
            if tfdt < boxes.len() {
                let c = b + 8 + place(boxes, tfdt);
                lemma_decode_time_read(d, c, version, flags, time);
            }
        }
    }
}

/// The first box of a type in a box that is built from child boxes.
proof fn lemma_inner_box(
    d: Seq<u8>,
    pos: int,
    limit: int,
    outer: u32,
    boxes: Seq<(u32, Seq<u8>)>,
    kind: u32,
    k: int,
)
    requires
        sizes_fit(boxes),
        chain(boxes).len() + 8 < 0x100000000,
        holds_at(d, pos, boxed(outer, chain(boxes))),
        pos + chain(boxes).len() + 8 <= limit,
        first_of(boxes, kind, k),
    ensures
        box_limit(d, pos, limit) == pos + chain(boxes).len() + 8,
        find_box(d, pos + 8, box_limit(d, pos, limit), kind) == if k < boxes.len() {
            Some(pos + 8 + place(boxes, k))
        } else {
            None
        },
        k < boxes.len() ==> holds_at(d, pos + 8 + place(boxes, k), boxed(boxes[k].0, boxes[k].1)) && pos + 8 + place(
            boxes,
            k,
        ) + boxes[k].1.len() + 8 <= box_limit(d, pos, limit) && boxes[k].1.len() + 8 < 0x100000000 && boxes[k].0 == kind,
{
    law_box_read(d, pos, outer, chain(boxes));
    law_first_box_found(d, pos + 8, boxes, kind, k);
    if k < boxes.len() {
        lemma_box_in_chain(d, pos + 8, boxes, k);
    }
}

proof fn lemma_decode_time_read(d: Seq<u8>, pos: int, version: u8, flags: Seq<u8>, time: nat)
    requires
        flags.len() == 3,
        time_fits(version != 0, time),
        holds_at(
            d,
            pos,
            boxed(
                TFDT,
                seq![version] + flags + if version == 0 {
                    word(time)
                } else {
                    long_word(time)
                },
            ),
        ),
    ensures
        box_size(d, pos) == if version == 0 {
            16nat
        } else {
            20nat
        },
        tfdt_time(d, pos, pos + box_size(d, pos)) == Some(time),
{
    let head = seq![version] + flags;
    let number = if version == 0 {
        word(time)
    } else {
        long_word(time)
    };
    law_box_read(d, pos, TFDT, head + number);
    lemma_holds_parts(d, pos + 8, head, number);
    assert(d[pos + 8 + 0] == head[0]);
    if version == 0 {
        law_word_read(d, pos + 12, time);
    } else {
        law_long_word_read(d, pos + 12, time);
    }
}

proof fn lemma_chain_cut(boxes: Seq<(u32, Seq<u8>)>, k: int)
    requires
        0 <= k <= boxes.len(),
    ensures
        chain(boxes) == chain(boxes.take(k)) + chain(boxes.skip(k)),
        k < boxes.len() ==> place(boxes, k) == chain(boxes.take(k)).len(),
    decreases boxes.len(),
{
    if k == 0 {
        assert(boxes.skip(0) =~= boxes);
        assert(chain(boxes.take(0)) + chain(boxes) =~= chain(boxes));
    } else {
        let rest = boxes.skip(1);
        lemma_chain_cut(rest, k - 1);
        assert(boxes.take(k).skip(1) =~= rest.take(k - 1));
        assert(boxes.take(k)[0] == boxes[0]);
        assert(rest.skip(k - 1) =~= boxes.skip(k));
        let b = boxed(boxes[0].0, boxes[0].1);
        assert(chain(boxes.take(k)) == b + chain(rest.take(k - 1)));
        assert(b + (chain(rest.take(k - 1)) + chain(boxes.skip(k))) =~= (b + chain(rest.take(k - 1))) + chain(
            boxes.skip(k),
        ));
    }
}

/// A file is cut in front of its first fragment: the boxes before it are the initialization, the
/// fragment and all that follows are the media. A file without a fragment has neither.
pub proof fn law_cut_before_first_fragment(boxes: Seq<(u32, Seq<u8>)>, k: int)
    requires
        sizes_fit(boxes),
        first_of(boxes, MOOF, k),
    ensures
        k < boxes.len() ==> init_part(chain(boxes)) == Some(chain(boxes.take(k))) && media_part(chain(boxes)) == Some(
            chain(boxes.skip(k)),
        ),
        k == boxes.len() ==> init_part(chain(boxes)) is None && media_part(chain(boxes)) is None,
{
    let d = chain(boxes);
    assert(holds_at(d, 0, d));
    law_first_box_found(d, 0, boxes, MOOF, k);
    lemma_chain_cut(boxes, k);
    if k < boxes.len() {
        let n = chain(boxes.take(k)).len() as int;
        assert(d.subrange(0, n) =~= chain(boxes.take(k)));
        assert(d.subrange(n, d.len() as int) =~= chain(boxes.skip(k)));
    }
}

/// The movie with the durations of all its boxes cleared.
pub open spec fn cleared(d: Seq<u8>) -> Seq<u8> {
    durations_cleared(d, 0, d.len() as int)
}

proof fn lemma_inside(pre: Seq<u8>, c: Seq<u8>, post: Seq<u8>, i: int)
    requires
        0 <= i,
        i + 4 <= c.len(),
    ensures
        be32(pre + c + post, pre.len() + i) == be32(c, i),
{
}

/// Clearing the boxes of some bytes does not depend on what stands before and behind them.
#[verifier::rlimit(40)]
proof fn lemma_cleared_inside(pre: Seq<u8>, c: Seq<u8>, post: Seq<u8>, pos: int, end: int)
    requires
        0 <= pos,
        end <= c.len(),
    ensures
        durations_cleared(pre + c + post, pre.len() + pos, pre.len() + end) == pre + durations_cleared(c, pos, end) + post,
    decreases end - pos,
{
    let d = pre + c + post;
    let n = pre.len() as int;
    if pos + 8 <= end {
        lemma_inside(pre, c, post, pos);
        lemma_inside(pre, c, post, pos + 4);
        assert(be32(d, n + pos) == be32(c, pos));
        assert(be32(d, n + pos + 4) == be32(c, pos + 4));
        if whole_box(c, pos, end) {
            let next = pos + box_size(c, pos);
            let here = if is_container(box_kind(c, pos)) {
                durations_cleared(c, pos + 8, next)
            } else {
                match duration_field(c, pos, next) {
                    Some((off, len)) => zeroed(c, off, len),
                    None => c,
                }
            };
            let there = if is_container(box_kind(d, n + pos)) {
                durations_cleared(d, n + pos + 8, n + next)
            } else {
                match duration_field(d, n + pos, n + next) {
                    Some((off, len)) => zeroed(d, off, len),
                    None => d,
                }
            };
            lemma_cleared_inside(pre, c, post, pos + 8, next);
            lemma_cleared_len(c, pos + 8, next);
            if !is_container(box_kind(c, pos)) {
                if pos + 9 <= next {
                    assert(d[n + pos + 8] == c[pos + 8]);
                }
                match duration_field(c, pos, next) {
                    Some((off, len)) => {
                        assert(duration_field(d, n + pos, n + next) == Some((n + off, len)));
                        assert(zeroed(d, n + off, len) =~= pre + zeroed(c, off, len) + post);
                    },
                    None => {
                        assert(duration_field(d, n + pos, n + next) is None);
                    },
                }
            }
            assert(there == pre + here + post);
            lemma_cleared_inside(pre, here, post, next, end);
        }
    }
}

proof fn lemma_boxed_parts(kind: u32, payload: Seq<u8>, rest: Seq<u8>)
    requires
        payload.len() + 8 < 0x100000000,
    ensures
        ({
            let d = boxed(kind, payload) + rest;
            &&& box_size(d, 0) == payload.len() + 8
            &&& box_kind(d, 0) == kind
            &&& holds_at(d, 8, payload)
            &&& whole_box(d, 0, d.len() as int)
        }),
{
    let b = boxed(kind, payload);
    let d = b + rest;
    assert forall|i: int| 0 <= i < b.len() implies d[0 + i] == #[trigger] b[i] by {}
    assert(holds_at(d, 0, b));
    law_box_read(d, 0, kind, payload);
}

/// What is done to the first box of a chain and what is done to the boxes behind it do not
/// depend on each other.
pub proof fn law_cleared_box_by_box(kind: u32, payload: Seq<u8>, rest: Seq<u8>)
    requires
        payload.len() + 8 < 0x100000000,
    ensures
        cleared(boxed(kind, payload) + rest) == cleared(boxed(kind, payload)) + cleared(rest),
{
    let b = boxed(kind, payload);
    let d = b + rest;
    let n = b.len() as int;
    let none = Seq::<u8>::empty();
    lemma_boxed_parts(kind, payload, rest);
    lemma_boxed_parts(kind, payload, none);
    assert(b + none =~= b);
    assert(none + b + rest =~= d);
    lemma_cleared_len(b, 0, n);
    lemma_cleared_inside(none, b, rest, 0, n);
    let first = cleared(b);
    assert(none + first + rest =~= first + rest);
    assert(durations_cleared(d, 0, n) == first + rest);
    assert(durations_cleared(d, 0, d.len() as int) == durations_cleared(first + rest, n, d.len() as int)) by {
        lemma_one_box(d, n, d.len() as int);
    }
    lemma_cleared_inside(first, rest, none, 0, rest.len() as int);
    assert(first + rest + none =~= first + rest);
    assert(first + cleared(rest) + none =~= first + cleared(rest));
}

proof fn lemma_one_box(d: Seq<u8>, next: int, end: int)
    requires
        whole_box(d, 0, end),
        next == box_size(d, 0),
    ensures
        durations_cleared(d, 0, end) == durations_cleared(durations_cleared(d, 0, next), next, end),
{
    let here = if is_container(box_kind(d, 0)) {
        durations_cleared(d, 8, next)
    } else {
        match duration_field(d, 0, next) {
            Some((off, len)) => zeroed(d, off, len),
            None => d,
        }
    };
    assert(whole_box(d, 0, next));
    assert(!whole_box(here, next, next));
    assert(durations_cleared(here, next, next) == here);
    assert(durations_cleared(d, 0, next) == here);
}

/// In a movie, a track and its media, the boxes inside are cleared and the box itself is kept.
pub proof fn law_cleared_inside_containers(kind: u32, payload: Seq<u8>)
    requires
        kind == MOOV || kind == TRAK || kind == MDIA,
        payload.len() + 8 < 0x100000000,
    ensures
        cleared(boxed(kind, payload)) == boxed(kind, cleared(payload)),
{
    let b = boxed(kind, payload);
    let n = b.len() as int;
    let none = Seq::<u8>::empty();
    let head = word(payload.len() + 8) + word(kind as nat);
    lemma_boxed_parts(kind, payload, none);
    assert(b + none =~= b);
    assert(head + payload + none =~= b);
    lemma_cleared_inside(head, payload, none, 0, payload.len() as int);
    lemma_cleared_len(payload, 0, payload.len() as int);
    let here = durations_cleared(b, 8, n);
    assert(here =~= head + cleared(payload));
    assert(!whole_box(here, n, n));
    assert(durations_cleared(here, n, n) == here);
}

/// A box that is no container and no header is kept as it is.
pub proof fn law_other_boxes_kept(kind: u32, payload: Seq<u8>)
    requires
        kind != MOOV && kind != TRAK && kind != MDIA && kind != MVHD && kind != TKHD && kind != MDHD,
        payload.len() + 8 < 0x100000000,
    ensures
        cleared(boxed(kind, payload)) == boxed(kind, payload),
{
    let b = boxed(kind, payload);
    let none = Seq::<u8>::empty();
    lemma_boxed_parts(kind, payload, none);
    assert(b + none =~= b);
    assert(!whole_box(b, b.len() as int, b.len() as int));
    assert(durations_cleared(b, b.len() as int, b.len() as int) == b);
}

/// A header keeps everything but its duration, which becomes 0. The duration has 32 bits in version 0
/// and 64 bits otherwise. It follows the number behind the times (movie and media headers) or that
/// number and four reserved bytes (track headers).
#[verifier::rlimit(40)]
pub proof fn law_header_duration_cleared(
    kind: u32,
    version: u8,
    flags: Seq<u8>,
    times: Seq<u8>,
    number: u32,
    reserved: Seq<u8>,
    duration: Seq<u8>,
    rest: Seq<u8>,
)
    requires
        kind == MVHD || kind == MDHD || kind == TKHD,
        header_parts(version, flags, times),
        reserved.len() == if kind == TKHD {
            4nat
        } else {
            0nat
        },
        duration.len() == if version == 0 {
            4nat
        } else {
            8nat
        },
        header(version, flags, times, number, reserved + duration + rest).len() + 8 < 0x100000000,
    ensures
        cleared(boxed(kind, header(version, flags, times, number, reserved + duration + rest))) == boxed(
            kind,
            header(
                version,
                flags,
                times,
                number,
                reserved + Seq::new(duration.len(), |i: int| 0u8) + rest,
            ),
        ),
{
    let payload = header(version, flags, times, number, reserved + duration + rest);
    let b = boxed(kind, payload);
    let zeros = Seq::new(duration.len(), |i: int| 0u8);
    let front = header_front(kind, payload.len(), version, flags, times, number) + reserved;
    lemma_header_pieces(kind, payload.len(), version, flags, times, number, reserved, duration, rest);
    lemma_header_pieces(kind, payload.len(), version, flags, times, number, reserved, zeros, rest);
    lemma_header_field(kind, version, flags, times, number, reserved, duration, rest);
    let n = b.len() as int;
    let off = front.len() as int;
    let r = zeroed(b, off, duration.len() as int);
    assert(r =~= front + zeros + rest);
    assert(!whole_box(r, n, n));
    assert(durations_cleared(r, n, n) == r);
}

/// A header box up to the number behind its times.
spec fn header_front(kind: u32, len: nat, version: u8, flags: Seq<u8>, times: Seq<u8>, number: u32) -> Seq<u8> {
    word(len + 8) + word(kind as nat) + seq![version] + flags + times + word(number as nat)
}

proof fn lemma_header_pieces(
    kind: u32,
    len: nat,
    version: u8,
    flags: Seq<u8>,
    times: Seq<u8>,
    number: u32,
    reserved: Seq<u8>,
    duration: Seq<u8>,
    rest: Seq<u8>,
)
    requires
        len == header(version, flags, times, number, reserved + duration + rest).len(),
    ensures
        boxed(kind, header(version, flags, times, number, reserved + duration + rest)) == header_front(
            kind,
            len,
            version,
            flags,
            times,
            number,
        ) + reserved + duration + rest,
{
    assert(boxed(kind, header(version, flags, times, number, reserved + duration + rest)) =~= header_front(
        kind,
        len,
        version,
        flags,
        times,
        number,
    ) + reserved + duration + rest);
}

proof fn lemma_header_field(
    kind: u32,
    version: u8,
    flags: Seq<u8>,
    times: Seq<u8>,
    number: u32,
    reserved: Seq<u8>,
    duration: Seq<u8>,
    rest: Seq<u8>,
)
    requires
        kind == MVHD || kind == MDHD || kind == TKHD,
        header_parts(version, flags, times),
        reserved.len() == if kind == TKHD {
            4nat
        } else {
            0nat
        },
        duration.len() == if version == 0 {
            4nat
        } else {
            8nat
        },
        header(version, flags, times, number, reserved + duration + rest).len() + 8 < 0x100000000,
    ensures
        ({
            let payload = header(version, flags, times, number, reserved + duration + rest);
            let b = boxed(kind, payload);
            let front = header_front(kind, payload.len(), version, flags, times, number) + reserved;
            &&& whole_box(b, 0, b.len() as int)
            &&& box_size(b, 0) == b.len()
            &&& box_kind(b, 0) == kind
            &&& duration_field(b, 0, b.len() as int) == Some((front.len() as int, duration.len() as int))
        }),
{
    let payload = header(version, flags, times, number, reserved + duration + rest);
    let b = boxed(kind, payload);
    lemma_boxed_parts(kind, payload, Seq::empty());
    assert(b + Seq::<u8>::empty() =~= b);
    assert(b[8] == payload[0] && payload[0] == version);
}

/// A header that is too short for a duration is kept as it is.
pub proof fn law_short_header_kept(kind: u32, payload: Seq<u8>)
    requires
        kind == MVHD || kind == MDHD || kind == TKHD,
        ({
            let reserved: nat = if kind == TKHD {
                4
            } else {
                0
            };
            payload.len() == 0 || payload.len() < reserved + if payload[0] == 0 {
                20nat
            } else {
                32nat
            }
        }),
    ensures
        cleared(boxed(kind, payload)) == boxed(kind, payload),
{
    let b = boxed(kind, payload);
    let n = b.len() as int;
    let none = Seq::<u8>::empty();
    lemma_boxed_parts(kind, payload, none);
    assert(b + none =~= b);
    if payload.len() > 0 {
        assert(b[8] == payload[0]);
    }
    assert(!whole_box(b, n, n));
    assert(durations_cleared(b, n, n) == b);
}

/// What is cut off behind whole boxes is kept as it is.
pub proof fn law_cut_off_kept(d: Seq<u8>)
    requires
        !whole_box(d, 0, d.len() as int),
    ensures
        cleared(d) == d,
{
}

/// A header that is too short for the number behind its times gives none; and neither does one that is
/// missing.
pub proof fn law_short_track_header(d: Seq<u8>, trak: (int, int), boxes: Seq<(u32, Seq<u8>)>, k: int)
    requires
        holds_at(d, trak.0, boxed(TRAK, chain(boxes))),
        trak.1 == trak.0 + chain(boxes).len() + 8,
        sizes_fit(boxes),
        chain(boxes).len() + 8 < 0x100000000,
        first_of(boxes, TKHD, k),
        k < boxes.len() ==> boxes[k].1.len() == 0 || boxes[k].1.len() < if boxes[k].1[0] == 0 {
            16int
        } else {
            24int
        },
    ensures
        track_entry(d, trak) is None,
{
    let at = trak.0 + 8;
    law_box_read(d, trak.0, TRAK, chain(boxes));
    law_first_box_found(d, at, boxes, TKHD, k);
    if k < boxes.len() {
        lemma_box_in_chain(d, at, boxes, k);
        let pos = at + place(boxes, k);
        law_box_read(d, pos, TKHD, boxes[k].1);
        if boxes[k].1.len() > 0 {
            assert(d[pos + 8 + 0] == boxes[k].1[0]);
        }
    }
}

/// The same for media and their header.
pub proof fn law_short_media_header(
    d: Seq<u8>,
    trak: (int, int),
    boxes: Seq<(u32, Seq<u8>)>,
    m: int,
    media: Seq<(u32, Seq<u8>)>,
    h: int,
)
    requires
        holds_at(d, trak.0, boxed(TRAK, chain(boxes))),
        trak.1 == trak.0 + chain(boxes).len() + 8,
        sizes_fit(boxes),
        sizes_fit(media),
        chain(boxes).len() + 8 < 0x100000000,
        first_of(boxes, MDIA, m),
        m < boxes.len() ==> boxes[m].1 == chain(media) && first_of(media, MDHD, h),
        m < boxes.len() && h < media.len() ==> media[h].1.len() == 0 || media[h].1.len() < if media[h].1[0] == 0 {
            16int
        } else {
            24int
        },
    ensures
        track_entry(d, trak) is None,
{
    let at = trak.0 + 8;
    law_box_read(d, trak.0, TRAK, chain(boxes));
    law_first_box_found(d, at, boxes, MDIA, m);
    if m < boxes.len() {
        lemma_box_in_chain(d, at, boxes, m);
        let mdia = at + place(boxes, m);
        law_box_read(d, mdia, MDIA, chain(media));
        law_first_box_found(d, mdia + 8, media, MDHD, h);
        if h < media.len() {
            lemma_box_in_chain(d, mdia + 8, media, h);
            let pos = mdia + 8 + place(media, h);
            law_box_read(d, pos, MDHD, media[h].1);
            if media[h].1.len() > 0 {
                assert(d[pos + 8 + 0] == media[h].1[0]);
            }
        }
    }
}

} // verus!
