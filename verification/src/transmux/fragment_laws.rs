//! What is read from, and written into, a track fragment that is built box by box.

use vstd::prelude::*;
use crate::mp4::{be32, box_limit, boxes_of, find_box, lemma_found_is_first, TFDT, TFHD, TRAF, TRUN};
use crate::mp4_laws::{
    boxed, chain, first_of, holds_at, law_box_read, law_cut_off_chain, law_first_box_found, law_long_word_read,
    law_word_read, lemma_box_in_chain, lemma_holds_parts, lemma_payload_replaced, long_word, place, sizes_fit, spans,
    word,
};
use super::media::{
    be32_bytes, be64_bytes, bit, extended, field_value, last_duration, overwritten, sum_entries, time_field,
    traf_ticks, traf_track, trun_entries, trun_has_durations, trun_samples, trun_stride, with_field,
};
use super::media_laws::lemma_be32_of_bytes;

verus! {

broadcast use crate::mp4_laws::lemma_word_len;

/// What a run says of one sample.
pub struct Sample {
    pub duration: nat,
    pub size: nat,
    pub flags: nat,
    pub offset: nat,
}

/// A run of samples. The flags say which of its fields are written; the number of samples that it
/// announces is written too.
pub struct Run {
    pub version: u8,
    pub flags: u32,
    pub count: nat,
    pub data_offset: nat,
    pub first_flags: nat,
    pub samples: Seq<Sample>,
}

/// A word that is written exactly when its flag is set.
pub open spec fn optional(flags: u32, flag: u32, n: nat) -> Seq<u8> {
    if flags & flag != 0 {
        word(n)
    } else {
        Seq::empty()
    }
}

/// The entry of one sample: duration, size, flags and composition time offset.
pub open spec fn sample_bytes(flags: u32, s: Sample) -> Seq<u8> {
    optional(flags, 0x100, s.duration) + optional(flags, 0x200, s.size) + optional(flags, 0x400, s.flags) + optional(
        flags,
        0x800,
        s.offset,
    )
}

/// The entries of the samples, one behind the other.
pub open spec fn samples_bytes(flags: u32, samples: Seq<Sample>) -> Seq<u8>
    decreases samples.len(),
{
    if samples.len() == 0 {
        Seq::empty()
    } else {
        sample_bytes(flags, samples[0]) + samples_bytes(flags, samples.skip(1))
    }
}

/// What stands in front of the entries: version, flags, number of samples, data offset and first
/// sample flags.
pub open spec fn run_head(run: Run) -> Seq<u8> {
    seq![
        run.version,
        (run.flags / 0x10000 % 0x100) as u8,
        (run.flags / 0x100 % 0x100) as u8,
        (run.flags % 0x100) as u8,
    ] + word(run.count) + optional(run.flags, 0x1, run.data_offset) + optional(run.flags, 0x4, run.first_flags)
}

/// The payload of the `trun` box of a run.
pub open spec fn run_bytes(run: Run) -> Seq<u8> {
    run_head(run) + samples_bytes(run.flags, run.samples)
}

/// The durations of the samples, summed up.
pub open spec fn total_duration(samples: Seq<Sample>) -> nat
    decreases samples.len(),
{
    if samples.len() == 0 {
        0
    } else {
        samples[0].duration + total_duration(samples.skip(1))
    }
}

/// The same run with its last sample lasting `more` ticks longer.
pub open spec fn last_longer(run: Run, more: nat) -> Run {
    let n = run.samples.len() - 1;
    let s = run.samples[n];
    Run { samples: run.samples.update(n, Sample { duration: s.duration + more, ..s }), ..run }
}

/// The numbers of the run can be written as 32-bit numbers.
pub open spec fn run_fits(run: Run) -> bool {
    &&& run.count < 0x100000000
    &&& forall|i: int| 0 <= i < run.samples.len() ==> (#[trigger] run.samples[i]).duration < 0x100000000
}

/// A `traf` box with the given child boxes stands at `traf`.
pub open spec fn traf_holds(d: Seq<u8>, traf: (int, int), boxes: Seq<(u32, Seq<u8>)>) -> bool {
    &&& sizes_fit(boxes)
    &&& chain(boxes).len() + 8 < 0x100000000
    &&& traf.1 == traf.0 + chain(boxes).len() + 8
    &&& holds_at(d, traf.0, boxed(TRAF, chain(boxes)))
}

/// Outside `from..to` nothing differs.
pub open spec fn same_outside(d: Seq<u8>, e: Seq<u8>, from: int, to: int) -> bool {
    &&& d.len() == e.len()
    &&& forall|i: int| 0 <= i < d.len() && !(from <= i < to) ==> #[trigger] e[i] == d[i]
}

spec fn stride(flags: u32) -> nat {
    sample_bytes(flags, Sample { duration: 0, size: 0, flags: 0, offset: 0 }).len()
}

proof fn lemma_flag_bits(flags: u32)
    ensures
        bit((flags / 0x100 % 0x100) as u8, 1) == if flags & 0x100 != 0 { 1nat } else { 0nat },
        bit((flags / 0x100 % 0x100) as u8, 2) == if flags & 0x200 != 0 { 1nat } else { 0nat },
        bit((flags / 0x100 % 0x100) as u8, 4) == if flags & 0x400 != 0 { 1nat } else { 0nat },
        bit((flags / 0x100 % 0x100) as u8, 8) == if flags & 0x800 != 0 { 1nat } else { 0nat },
        bit((flags % 0x100) as u8, 1) == if flags & 0x1 != 0 { 1nat } else { 0nat },
        bit((flags % 0x100) as u8, 4) == if flags & 0x4 != 0 { 1nat } else { 0nat },
{
    assert((flags & 0x100 != 0) == (flags / 0x100 % 0x100 / 1 % 2 == 1)) by (bit_vector);
    assert((flags & 0x200 != 0) == (flags / 0x100 % 0x100 / 2 % 2 == 1)) by (bit_vector);
    assert((flags & 0x400 != 0) == (flags / 0x100 % 0x100 / 4 % 2 == 1)) by (bit_vector);
    assert((flags & 0x800 != 0) == (flags / 0x100 % 0x100 / 8 % 2 == 1)) by (bit_vector);
    assert((flags & 0x1 != 0) == (flags % 0x100 / 1 % 2 == 1)) by (bit_vector);
    assert((flags & 0x4 != 0) == (flags % 0x100 / 4 % 2 == 1)) by (bit_vector);
}

/// Where the entry of each sample starts.
proof fn lemma_entry_place(d: Seq<u8>, pos: int, flags: u32, samples: Seq<Sample>, k: int)
    requires
        0 <= k < samples.len(),
        holds_at(d, pos, samples_bytes(flags, samples)),
    ensures
        holds_at(d, pos + k * stride(flags), sample_bytes(flags, samples[k])),
        samples_bytes(flags, samples).len() == samples.len() * stride(flags),
    decreases samples.len(),
{
    let s = stride(flags);
    let n = samples.len();
    lemma_holds_parts(d, pos, sample_bytes(flags, samples[0]), samples_bytes(flags, samples.skip(1)));
    assert(sample_bytes(flags, samples[0]).len() == s);
    assert(n * s == s + (n - 1) * s) by (nonlinear_arith);
    if n == 1 {
        assert(k * s == 0) by (nonlinear_arith)
            requires
                k == 0,
        ;
    } else if k == 0 {
        lemma_entry_place(d, pos + s, flags, samples.skip(1), 0);
        assert(k * s == 0) by (nonlinear_arith)
            requires
                k == 0,
        ;
    } else {
        assert(samples.skip(1)[k - 1] == samples[k]);
        lemma_entry_place(d, pos + s, flags, samples.skip(1), k - 1);
        assert(k * s == s + (k - 1) * s) by (nonlinear_arith);
    }
}

proof fn lemma_sum_of_entries(d: Seq<u8>, pos: int, flags: u32, samples: Seq<Sample>, count: nat, end: int)
    requires
        flags & 0x100 != 0,
        forall|i: int| 0 <= i < samples.len() ==> (#[trigger] samples[i]).duration < 0x100000000,
        holds_at(d, pos, samples_bytes(flags, samples)),
        pos + samples_bytes(flags, samples).len() <= end,
        count >= samples.len(),
        count > samples.len() ==> end == pos + samples_bytes(flags, samples).len(),
    ensures
        sum_entries(d, pos, stride(flags), count, end) == total_duration(samples),
    decreases samples.len(),
{
    if samples.len() > 0 {
        let first = samples[0];
        let rest = samples.skip(1);
        let tail = optional(flags, 0x200, first.size) + optional(flags, 0x400, first.flags) + optional(
            flags,
            0x800,
            first.offset,
        );
        lemma_holds_parts(d, pos, sample_bytes(flags, first), samples_bytes(flags, rest));
        assert(sample_bytes(flags, first) =~= word(first.duration) + tail);
        lemma_holds_parts(d, pos, word(first.duration), tail);
        law_word_read(d, pos, first.duration);
        assert forall|i: int| 0 <= i < rest.len() implies (#[trigger] rest[i]).duration < 0x100000000 by {
            assert(rest[i] == samples[i + 1]);
        }
        lemma_sum_of_entries(d, pos + stride(flags), flags, rest, (count - 1) as nat, end);
    }
}

/// What the reader sees of a run.
#[verifier::rlimit(40)]
proof fn lemma_run_read(d: Seq<u8>, pos: int, run: Run)
    requires
        run_fits(run),
        holds_at(d, pos + 8, run_bytes(run)),
    ensures
        pos + 16 <= pos + run_bytes(run).len() + 8,
        trun_has_durations(d, pos) == (run.flags & 0x100 != 0),
        trun_samples(d, pos) == run.count,
        trun_stride(d, pos) == stride(run.flags),
        trun_entries(d, pos) == pos + 8 + run_head(run).len(),
        holds_at(d, pos + 8, run_head(run)),
        holds_at(d, pos + 8 + run_head(run).len(), samples_bytes(run.flags, run.samples)),
        run_bytes(run).len() == run_head(run).len() + samples_bytes(run.flags, run.samples).len(),
{
    let flags = run.flags;
    lemma_holds_parts(d, pos + 8, run_head(run), samples_bytes(flags, run.samples));
    let v = seq![
        run.version,
        (flags / 0x10000 % 0x100) as u8,
        (flags / 0x100 % 0x100) as u8,
        (flags % 0x100) as u8,
    ];
    let a = optional(flags, 0x1, run.data_offset);
    let b = optional(flags, 0x4, run.first_flags);
    lemma_holds_parts(d, pos + 8, v + word(run.count) + a, b);
    lemma_holds_parts(d, pos + 8, v + word(run.count), a);
    lemma_holds_parts(d, pos + 8, v, word(run.count));
    law_word_read(d, pos + 12, run.count);
    assert(d[pos + 8 + 2] == v[2]);
    assert(d[pos + 8 + 3] == v[3]);
    lemma_flag_bits(flags);
}

/// The `trun` box of a `traf` box that is built from child boxes.
proof fn lemma_run_found(d: Seq<u8>, traf: (int, int), boxes: Seq<(u32, Seq<u8>)>, k: int, run: Run)
    requires
        traf_holds(d, traf, boxes),
        first_of(boxes, TRUN, k),
        k < boxes.len(),
        boxes[k].1 == run_bytes(run),
        run_fits(run),
    ensures
        ({
            let pos = traf.0 + 8 + place(boxes, k);
            let end = pos + run_bytes(run).len() + 8;
            &&& find_box(d, traf.0 + 8, traf.1, TRUN) == Some(pos)
            &&& box_limit(d, pos, traf.1) == end
            &&& boxes_of(d, traf.0 + 8, traf.1, TRUN).len() > 0
            &&& boxes_of(d, traf.0 + 8, traf.1, TRUN)[0] == (pos, end)
            &&& traf.0 + 8 <= pos
            &&& end <= traf.1
            &&& holds_at(d, pos, boxed(TRUN, run_bytes(run)))
            &&& holds_at(d, pos + 8, run_bytes(run))
            &&& holds_at(d, traf.0 + 8, chain(boxes))
        }),
{
    law_box_read(d, traf.0, TRAF, chain(boxes));
    law_first_box_found(d, traf.0 + 8, boxes, TRUN, k);
    lemma_box_in_chain(d, traf.0 + 8, boxes, k);
    let pos = traf.0 + 8 + place(boxes, k);
    law_box_read(d, pos, TRUN, run_bytes(run));
    lemma_found_is_first(d, traf.0 + 8, traf.1, TRUN);
}

/// The ticks that are read from a fragment are the sum of its samples' durations, whichever of the
/// optional fields its run holds; without durations, none are read. Samples that the run announces but does
/// not hold do not count.
pub proof fn law_run_total(d: Seq<u8>, traf: (int, int), boxes: Seq<(u32, Seq<u8>)>, k: int, run: Run)
    requires
        traf_holds(d, traf, boxes),
        first_of(boxes, TRUN, k),
        k < boxes.len(),
        boxes[k].1 == run_bytes(run),
        run_fits(run),
        run.count >= run.samples.len(),
    ensures
        run.flags & 0x100 != 0 ==> traf_ticks(d, traf) == total_duration(run.samples),
        run.flags & 0x100 == 0 ==> traf_ticks(d, traf) == 0,
{
    lemma_run_found(d, traf, boxes, k, run);
    let pos = traf.0 + 8 + place(boxes, k);
    lemma_run_read(d, pos, run);
    if run.flags & 0x100 != 0 {
        lemma_sum_of_entries(
            d,
            pos + 8 + run_head(run).len(),
            run.flags,
            run.samples,
            run.count,
            pos + run_bytes(run).len() + 8,
        );
    }
}

/// Where no `trun` box is in a fragment, no ticks are read and nothing is extended.
pub proof fn law_no_run(d: Seq<u8>, traf: (int, int), boxes: Seq<(u32, Seq<u8>)>, more: nat)
    requires
        traf_holds(d, traf, boxes),
        first_of(boxes, TRUN, boxes.len() as int),
    ensures
        traf_ticks(d, traf) == 0,
        extended(d, traf, more) == d,
{
    law_box_read(d, traf.0, TRAF, chain(boxes));
    law_first_box_found(d, traf.0 + 8, boxes, TRUN, boxes.len() as int);
    lemma_found_is_first(d, traf.0 + 8, traf.1, TRUN);
}

/// Overwriting the middle of some bytes that stand at `pos` with others of the same length.
proof fn lemma_overwritten_holds(d: Seq<u8>, pos: int, head: Seq<u8>, was: Seq<u8>, new: Seq<u8>, tail: Seq<u8>)
    requires
        holds_at(d, pos, head + was + tail),
        was.len() == new.len(),
    ensures
        holds_at(overwritten(d, pos + head.len(), new), pos, head + new + tail),
        same_outside(
            d,
            overwritten(d, pos + head.len(), new),
            pos + head.len(),
            pos + head.len() + new.len(),
        ),
{
    let off = pos + head.len();
    let r = overwritten(d, off, new);
    lemma_holds_parts(d, pos, head + was, tail);
    lemma_holds_parts(d, pos, head, was);
    assert forall|i: int| 0 <= i < head.len() implies r[pos + i] == #[trigger] head[i] by {
        assert(d[pos + i] == head[i]);
    }
    assert forall|i: int| 0 <= i < new.len() implies r[off + i] == #[trigger] new[i] by {}
    assert forall|i: int| 0 <= i < tail.len() implies r[pos + (head + new).len() + i] == #[trigger] tail[i] by {
        assert(d[pos + (head + was).len() + i] == tail[i]);
    }
    lemma_holds_parts(r, pos, head, new);
    lemma_holds_parts(r, pos, head + new, tail);
}

proof fn lemma_words(v: nat)
    ensures
        be32_bytes(v) == word(v),
        v < 0x10000000000000000 ==> be64_bytes(v) == long_word(v),
{
    reveal(word);
    assert(be32_bytes(v) =~= word(v));
    let h = v / 0x100000000;
    let l = v % 0x100000000;
    assert(be32_bytes(h) =~= word(h));
    lemma_be32_of_bytes(v);
    law_word_read(word(l), 0, l);
    lemma_same_word(be32_bytes(v), word(l));
}

/// Four bytes are known by the number that they write.
proof fn lemma_same_word(a: Seq<u8>, b: Seq<u8>)
    requires
        a.len() == 4,
        b.len() == 4,
        be32(a, 0) == be32(b, 0),
    ensures
        a == b,
{
    let n = be32(a, 0) as int;
    lemma_leading_byte(n, a[0] as int, a[1] as int, a[2] as int, a[3] as int);
    lemma_leading_byte(n, b[0] as int, b[1] as int, b[2] as int, b[3] as int);
    assert(a =~= b);
}

proof fn lemma_leading_byte(n: int, a: int, b: int, c: int, d: int)
    requires
        0 <= a < 0x100,
        0 <= b < 0x100,
        0 <= c < 0x100,
        0 <= d < 0x100,
        n == a * 0x1000000 + b * 0x10000 + c * 0x100 + d,
    ensures
        a == n / 0x1000000,
        b == (n - a * 0x1000000) / 0x10000,
        c == (n - a * 0x1000000 - b * 0x10000) / 0x100,
        d == n - a * 0x1000000 - b * 0x10000 - c * 0x100,
{
}

#[verifier::rlimit(40)]
proof fn lemma_last_longer(flags: u32, samples: Seq<Sample>, last: Sample)
    requires
        samples.len() > 0,
    ensures
        samples_bytes(flags, samples) == samples_bytes(flags, samples.drop_last()) + sample_bytes(flags, samples.last()),
        samples_bytes(flags, samples.update(samples.len() - 1, last)) == samples_bytes(flags, samples.drop_last())
            + sample_bytes(flags, last),
    decreases samples.len(),
{
    let n = samples.len() as int;
    let changed = samples.update(n - 1, last);
    if n == 1 {
        assert(samples.skip(1) =~= Seq::empty());
        assert(changed.skip(1) =~= Seq::empty());
        assert(samples.drop_last() =~= Seq::empty());
        assert(samples_bytes(flags, samples.skip(1)) =~= Seq::empty());
        assert(samples_bytes(flags, samples.drop_last()) =~= Seq::empty());
        assert(samples_bytes(flags, samples) =~= sample_bytes(flags, samples.last()));
        assert(samples_bytes(flags, changed) =~= sample_bytes(flags, last));
        assert(Seq::<u8>::empty() + sample_bytes(flags, last) =~= sample_bytes(flags, last));
        assert(Seq::<u8>::empty() + sample_bytes(flags, samples.last()) =~= sample_bytes(flags, samples.last()));
    } else {
        let rest = samples.skip(1);
        let front = samples.drop_last();
        lemma_last_longer(flags, rest, last);
        assert(changed.skip(1) =~= rest.update(n - 2, last));
        assert(front.skip(1) =~= rest.drop_last());
        assert(front[0] == samples[0]);
        let a = sample_bytes(flags, samples[0]);
        let b = samples_bytes(flags, rest.drop_last());
        assert(samples_bytes(flags, front) == a + b);
        assert(a + (b + sample_bytes(flags, last)) =~= (a + b) + sample_bytes(flags, last));
        assert(a + (b + sample_bytes(flags, samples.last())) =~= (a + b) + sample_bytes(flags, samples.last()));
    }
}

/// Where the last sample's duration stands in a run, and what is around it.
#[verifier::rlimit(40)]
proof fn lemma_last_sample(d: Seq<u8>, pos: int, run: Run, more: nat) -> (parts: (Seq<u8>, Seq<u8>))
    requires
        run_fits(run),
        run_bytes(run).len() + 8 < 0x100000000,
        holds_at(d, pos, boxed(TRUN, run_bytes(run))),
        run.flags & 0x100 != 0,
        run.samples.len() > 0,
        run.count == run.samples.len(),
    ensures
        run_bytes(run) == parts.0 + word(run.samples.last().duration) + parts.1,
        run_bytes(last_longer(run, more)) == parts.0 + word(run.samples.last().duration + more) + parts.1,
        pos + 8 + parts.0.len() == trun_entries(d, pos) + (trun_samples(d, pos) - 1) * trun_stride(d, pos),
        be32(d, pos + 8 + parts.0.len() as int) == run.samples.last().duration,
{
    let flags = run.flags;
    let n = run.samples.len() - 1;
    let s = run.samples[n];
    let t = Sample { duration: s.duration + more, ..s };
    let longer = last_longer(run, more);
    law_box_read(d, pos, TRUN, run_bytes(run));
    lemma_run_read(d, pos, run);
    let entries = pos + 8 + run_head(run).len();
    lemma_entry_place(d, entries, flags, run.samples, n);
    let tail = optional(flags, 0x200, s.size) + optional(flags, 0x400, s.flags) + optional(flags, 0x800, s.offset);
    assert(sample_bytes(flags, s) =~= word(s.duration) + tail);
    assert(sample_bytes(flags, t) =~= word(t.duration) + tail);
    lemma_last_longer(flags, run.samples, t);
    let front = samples_bytes(flags, run.samples.drop_last());
    let m = run.samples.len();
    assert(m * stride(flags) == n * stride(flags) + stride(flags)) by (nonlinear_arith)
        requires
            n == m - 1,
    ;
    assert(run_head(longer) == run_head(run));
    let head = run_head(run) + front;
    assert(run_bytes(run) =~= head + word(s.duration) + tail);
    assert(run_bytes(longer) =~= head + word(t.duration) + tail);
    let off = entries + n * stride(flags);
    lemma_holds_parts(d, off, word(s.duration), tail);
    law_word_read(d, off, s.duration);
    (head, tail)
}

/// Extending a fragment gives the fragment that is built from the same boxes and the same samples,
/// but for the duration of the last sample, which is `more` ticks longer.
#[verifier::rlimit(40)]
pub proof fn law_run_extended(
    d: Seq<u8>,
    traf: (int, int),
    boxes: Seq<(u32, Seq<u8>)>,
    k: int,
    run: Run,
    more: nat,
)
    requires
        traf_holds(d, traf, boxes),
        first_of(boxes, TRUN, k),
        k < boxes.len(),
        boxes[k].1 == run_bytes(run),
        run_fits(run),
        run.count == run.samples.len(),
        run.flags & 0x100 != 0 && run.samples.len() > 0 ==> run.samples.last().duration + more < 0x100000000,
    ensures
        run.flags & 0x100 == 0 || run.samples.len() == 0 ==> extended(d, traf, more) == d,
        run.flags & 0x100 != 0 && run.samples.len() > 0 ==> {
            let r = extended(d, traf, more);
            &&& same_outside(d, r, traf.0, traf.1)
            &&& traf_holds(r, traf, boxes.update(k, (TRUN, run_bytes(last_longer(run, more)))))
        },
{
    lemma_run_found(d, traf, boxes, k, run);
    let pos = traf.0 + 8 + place(boxes, k);
    lemma_run_read(d, pos, run);
    if run.flags & 0x100 != 0 && run.samples.len() > 0 {
        let (head, tail) = lemma_last_sample(d, pos, run, more);
        let was = word(run.samples.last().duration);
        let new = word(run.samples.last().duration + more);
        let off = pos + 8 + head.len();
        assert(last_duration(d, traf) == Some(off));
        lemma_words(run.samples.last().duration + more);
        let r = overwritten(d, off, new);
        assert(r == extended(d, traf, more));
        law_box_read(d, pos, TRUN, run_bytes(run));
        lemma_overwritten_holds(d, pos + 8, head, was, new, tail);
        assert(same_outside(d, r, off, off + 4));
        lemma_field_replaced(d, r, traf, boxes, k, run_bytes(last_longer(run, more)), off);
    }
}

/// A `traf` box whose `k`-th child has another payload of the same length is built from the
/// same boxes with that payload.
proof fn lemma_traf_payload(
    d: Seq<u8>,
    e: Seq<u8>,
    traf: (int, int),
    boxes: Seq<(u32, Seq<u8>)>,
    k: int,
    payload: Seq<u8>,
)
    requires
        traf_holds(d, traf, boxes),
        0 <= k < boxes.len(),
        payload.len() == boxes[k].1.len(),
        e.len() == d.len(),
        forall|i: int| traf.0 <= i < traf.0 + 8 ==> #[trigger] e[i] == d[i],
        holds_at(e, traf.0 + 8, chain(boxes.update(k, (boxes[k].0, payload)))),
        chain(boxes.update(k, (boxes[k].0, payload))).len() == chain(boxes).len(),
    ensures
        traf_holds(e, traf, boxes.update(k, (boxes[k].0, payload))),
{
    let changed = boxes.update(k, (boxes[k].0, payload));
    let head = word(chain(boxes).len() + 8) + word(TRAF as nat);
    lemma_holds_parts(d, traf.0, head, chain(boxes));
    assert forall|i: int| 0 <= i < head.len() implies e[traf.0 + i] == #[trigger] head[i] by {
        assert(d[traf.0 + i] == head[i]);
    }
    lemma_holds_parts(e, traf.0, head, chain(changed));
    assert forall|i: int| 0 <= i < changed.len() implies (#[trigger] changed[i]).1.len() + 8 < 0x100000000 by {
        assert(boxes[i].1.len() + 8 < 0x100000000);
    }
}

/// A `traf` box in whose `k`-th child four or eight bytes have been overwritten.
proof fn lemma_field_replaced(
    d: Seq<u8>,
    e: Seq<u8>,
    traf: (int, int),
    boxes: Seq<(u32, Seq<u8>)>,
    k: int,
    payload: Seq<u8>,
    off: int,
)
    requires
        traf_holds(d, traf, boxes),
        0 <= k < boxes.len(),
        payload.len() == boxes[k].1.len(),
        holds_at(e, traf.0 + 8 + place(boxes, k) + 8, payload),
        traf.0 + 8 + place(boxes, k) + 8 <= off,
        exists|to: int|
            to <= traf.0 + 8 + place(boxes, k) + 8 + payload.len() && #[trigger] same_outside(d, e, off, to),
    ensures
        same_outside(d, e, traf.0, traf.1),
        traf_holds(e, traf, boxes.update(k, (boxes[k].0, payload))),
{
    law_box_read(d, traf.0, TRAF, chain(boxes));
    lemma_box_in_chain(d, traf.0 + 8, boxes, k);
    lemma_payload_replaced(d, e, traf.0 + 8, boxes, k, payload);
    lemma_traf_payload(d, e, traf, boxes, k, payload);
}

/// The payload of a `tfhd` box: version and flags, the track_ID, and what follows.
pub open spec fn track_header(flags: Seq<u8>, track: u32, rest: Seq<u8>) -> Seq<u8> {
    flags + word(track as nat) + rest
}

/// The track of a fragment is the number behind the version and flags of its `tfhd` box.
pub proof fn law_track_read(
    d: Seq<u8>,
    traf: (int, int),
    boxes: Seq<(u32, Seq<u8>)>,
    k: int,
    flags: Seq<u8>,
    track: u32,
    rest: Seq<u8>,
)
    requires
        traf_holds(d, traf, boxes),
        first_of(boxes, TFHD, k),
        k < boxes.len() ==> flags.len() == 4 && boxes[k].1 == track_header(flags, track, rest),
    ensures
        traf_track(d, traf) == if k < boxes.len() {
            Some(track)
        } else {
            None
        },
{
    law_box_read(d, traf.0, TRAF, chain(boxes));
    law_first_box_found(d, traf.0 + 8, boxes, TFHD, k);
    if k < boxes.len() {
        let pos = traf.0 + 8 + place(boxes, k);
        lemma_box_in_chain(d, traf.0 + 8, boxes, k);
        law_box_read(d, pos, TFHD, boxes[k].1);
        lemma_holds_parts(d, pos + 8, flags + word(track as nat), rest);
        lemma_holds_parts(d, pos + 8, flags, word(track as nat));
        law_word_read(d, pos + 12, track as nat);
    }
}

/// The payload of a `tfdt` box: version and flags, and the decode time in 32 bits (version 0) or in
/// 64 bits (version 1).
pub open spec fn decode_time(wide: bool, flags: Seq<u8>, time: nat) -> Seq<u8> {
    if wide {
        seq![1u8] + flags + long_word(time)
    } else {
        seq![0u8] + flags + word(time)
    }
}

/// The number can be written in the width.
pub open spec fn time_fits(wide: bool, time: nat) -> bool {
    if wide {
        time < 0x10000000000000000
    } else {
        time < 0x100000000
    }
}

/// The decode time of a fragment is the number in its `tfdt` box, and writing another one gives the
/// fragment that is built from the same boxes with that decode time.
#[verifier::rlimit(40)]
pub proof fn law_decode_time(
    d: Seq<u8>,
    traf: (int, int),
    boxes: Seq<(u32, Seq<u8>)>,
    k: int,
    wide: bool,
    flags: Seq<u8>,
    time: nat,
    new_time: nat,
)
    requires
        traf_holds(d, traf, boxes),
        first_of(boxes, TFDT, k),
        k < boxes.len() ==> flags.len() == 3 && boxes[k].1 == decode_time(wide, flags, time),
        time_fits(wide, time),
        time_fits(wide, new_time),
    ensures
        k == boxes.len() ==> time_field(d, traf) is None,
        k < boxes.len() ==> {
            &&& time_field(d, traf) is Some
            &&& time_field(d, traf).unwrap().1 == if wide {
                8int
            } else {
                4int
            }
            &&& field_value(d, time_field(d, traf).unwrap()) == time
            &&& field_value(
                with_field(d, time_field(d, traf).unwrap(), new_time),
                time_field(d, traf).unwrap(),
            ) == new_time
            &&& same_outside(d, with_field(d, time_field(d, traf).unwrap(), new_time), traf.0, traf.1)
            &&& traf_holds(
                with_field(d, time_field(d, traf).unwrap(), new_time),
                traf,
                boxes.update(k, (TFDT, decode_time(wide, flags, new_time))),
            )
        },
{
    law_box_read(d, traf.0, TRAF, chain(boxes));
    law_first_box_found(d, traf.0 + 8, boxes, TFDT, k);
    if k < boxes.len() {
        let pos = traf.0 + 8 + place(boxes, k);
        lemma_box_in_chain(d, traf.0 + 8, boxes, k);
        law_box_read(d, pos, TFDT, boxes[k].1);
        let head = if wide {
            seq![1u8] + flags
        } else {
            seq![0u8] + flags
        };
        let number = if wide {
            long_word(time)
        } else {
            word(time)
        };
        lemma_holds_parts(d, pos + 8, head, number);
        assert(d[pos + 8 + 0] == head[0]);
        if wide {
            law_long_word_read(d, pos + 12, time);
        } else {
            law_word_read(d, pos + 12, time);
        }
        let field = time_field(d, traf).unwrap();
        assert(field == (pos + 12, if wide { 8int } else { 4int }));
        let written = if wide {
            long_word(new_time)
        } else {
            word(new_time)
        };
        lemma_words(new_time);
        let r = overwritten(d, pos + 12, written);
        assert(r == with_field(d, field, new_time));
        let payload = decode_time(wide, flags, new_time);
        let none = Seq::<u8>::empty();
        assert(head + number + none =~= boxes[k].1);
        assert(head + written + none =~= payload);
        lemma_overwritten_holds(d, pos + 8, head, number, written, none);
        lemma_field_replaced(d, r, traf, boxes, k, payload, pos + 12);
        lemma_holds_parts(r, pos + 8, head, written);
        assert(head + written =~= payload);
        if wide {
            law_long_word_read(r, pos + 12, new_time);
        } else {
            law_word_read(r, pos + 12, new_time);
        }
    }
}

/// A run that announces more samples than it holds is not extended: its last duration is not there.
pub proof fn law_cut_run_kept(
    d: Seq<u8>,
    traf: (int, int),
    boxes: Seq<(u32, Seq<u8>)>,
    k: int,
    run: Run,
    more: nat,
)
    requires
        traf_holds(d, traf, boxes),
        first_of(boxes, TRUN, k),
        k < boxes.len(),
        boxes[k].1 == run_bytes(run),
        run_fits(run),
        run.count > run.samples.len(),
    ensures
        extended(d, traf, more) == d,
{
    lemma_run_found(d, traf, boxes, k, run);
    let pos = traf.0 + 8 + place(boxes, k);
    lemma_run_read(d, pos, run);
    if run.flags & 0x100 != 0 {
        let s = stride(run.flags);
        let n = run.samples.len();
        let entries = pos + 8 + run_head(run).len();
        if n > 0 {
            lemma_entry_place(d, entries, run.flags, run.samples, 0);
        } else {
            assert(n * s == 0) by (nonlinear_arith)
                requires
                    n == 0,
            ;
        }
        assert((run.count - 1) * s >= n * s) by (nonlinear_arith)
            requires
                run.count - 1 >= n,
                s >= 0,
        ;
    }
}

/// A box that is too short for what it should hold gives nothing: no track, no decode time, no ticks.
pub proof fn law_short_boxes(d: Seq<u8>, traf: (int, int), boxes: Seq<(u32, Seq<u8>)>, k: int, more: nat)
    requires
        traf_holds(d, traf, boxes),
        0 <= k < boxes.len(),
    ensures
        first_of(boxes, TFHD, k) && boxes[k].1.len() < 8 ==> traf_track(d, traf) is None,
        first_of(boxes, TFDT, k) && boxes[k].1.len() < 8 ==> time_field(d, traf) is None,
        first_of(boxes, TFDT, k) && boxes[k].1.len() < 12 && boxes[k].1[0] != 0 ==> time_field(d, traf) is None,
        first_of(boxes, TFDT, k) && boxes[k].1.len() > 0 && boxes[k].1[0] > 1 ==> time_field(d, traf) is None,
        first_of(boxes, TRUN, k) && boxes[k].1.len() < 8 ==> traf_ticks(d, traf) == 0 && extended(d, traf, more) == d,
{
    law_box_read(d, traf.0, TRAF, chain(boxes));
    let kind = boxes[k].0;
    if first_of(boxes, kind, k) {
        law_first_box_found(d, traf.0 + 8, boxes, kind, k);
        lemma_box_in_chain(d, traf.0 + 8, boxes, k);
        let pos = traf.0 + 8 + place(boxes, k);
        let payload = boxes[k].1;
        law_box_read(d, pos, kind, payload);
        lemma_found_is_first(d, traf.0 + 8, traf.1, kind);
        if payload.len() > 0 {
            assert(d[pos + 8 + 0] == payload[0]);
        }
    }
}

/// A `traf` box whose last box, behind the given ones, is cut off: its size reaches behind the end of the
/// `traf` box.
pub open spec fn cut_traf_holds(
    d: Seq<u8>,
    traf: (int, int),
    boxes: Seq<(u32, Seq<u8>)>,
    kind: u32,
    size: nat,
    payload: Seq<u8>,
) -> bool {
    &&& sizes_fit(boxes)
    &&& payload.len() + 8 < size < 0x100000000
    &&& traf.1 == traf.0 + 8 + chain(boxes).len() + 8 + payload.len()
    &&& holds_at(d, traf.0 + 8, chain(boxes) + (word(size) + word(kind as nat) + payload))
}

proof fn lemma_cut_box(
    d: Seq<u8>,
    traf: (int, int),
    boxes: Seq<(u32, Seq<u8>)>,
    kind: u32,
    size: nat,
    payload: Seq<u8>,
)
    requires
        cut_traf_holds(d, traf, boxes, kind, size, payload),
        first_of(boxes, kind, boxes.len() as int),
    ensures
        ({
            let pos = traf.0 + 8 + chain(boxes).len();
            &&& find_box(d, traf.0 + 8, traf.1, kind) == Some(pos)
            &&& box_limit(d, pos, traf.1) == traf.1
            &&& boxes_of(d, traf.0 + 8, traf.1, kind) == Seq::<(int, int)>::empty()
            &&& holds_at(d, pos + 8, payload)
        }),
{
    let pos = traf.0 + 8 + chain(boxes).len();
    let head = word(size) + word(kind as nat);
    lemma_holds_parts(d, traf.0 + 8, chain(boxes), head + payload);
    lemma_holds_parts(d, pos, head, payload);
    lemma_holds_parts(d, pos, word(size), word(kind as nat));
    law_word_read(d, pos, size);
    law_cut_off_chain(d, traf.0 + 8, boxes, traf.1, kind, kind, boxes.len() as int);
    lemma_no_spans(boxes, traf.0 + 8, kind);
}

proof fn lemma_no_spans(boxes: Seq<(u32, Seq<u8>)>, pos: int, kind: u32)
    requires
        first_of(boxes, kind, boxes.len() as int),
    ensures
        spans(boxes, pos, kind) == Seq::<(int, int)>::empty(),
    decreases boxes.len(),
{
    if boxes.len() > 0 {
        let rest = boxes.skip(1);
        assert(boxes[0].0 != kind);
        assert forall|j: int| 0 <= j < rest.len() implies (#[trigger] rest[j]).0 != kind by {
            assert(rest[j] == boxes[j + 1]);
        }
        lemma_no_spans(rest, pos + boxes[0].1.len() + 8, kind);
    }
}

/// What is there of a box that is cut off is read: its track, its decode time, its samples. Only a box that
/// is whole is extended.
#[verifier::rlimit(40)]
pub proof fn law_cut_box_read(
    d: Seq<u8>,
    traf: (int, int),
    boxes: Seq<(u32, Seq<u8>)>,
    size: nat,
    flags: Seq<u8>,
    track: u32,
    rest: Seq<u8>,
    wide: bool,
    time: nat,
    run: Run,
    more: nat,
)
    ensures
        flags.len() == 4 && first_of(boxes, TFHD, boxes.len() as int) && cut_traf_holds(
            d,
            traf,
            boxes,
            TFHD,
            size,
            track_header(flags, track, rest),
        ) ==> traf_track(d, traf) == Some(track),
        flags.len() == 3 && time_fits(wide, time) && first_of(boxes, TFDT, boxes.len() as int) && cut_traf_holds(
            d,
            traf,
            boxes,
            TFDT,
            size,
            decode_time(wide, flags, time),
        ) ==> time_field(d, traf) is Some && field_value(d, time_field(d, traf).unwrap()) == time,
        run_fits(run) && run.count >= run.samples.len() && first_of(boxes, TRUN, boxes.len() as int) && cut_traf_holds(
            d,
            traf,
            boxes,
            TRUN,
            size,
            run_bytes(run),
        ) ==> extended(d, traf, more) == d && traf_ticks(d, traf) == if run.flags & 0x100 != 0 {
            total_duration(run.samples)
        } else {
            0
        },
{
    let pos = traf.0 + 8 + chain(boxes).len();
    if flags.len() == 4 && first_of(boxes, TFHD, boxes.len() as int) && cut_traf_holds(
        d,
        traf,
        boxes,
        TFHD,
        size,
        track_header(flags, track, rest),
    ) {
        lemma_cut_box(d, traf, boxes, TFHD, size, track_header(flags, track, rest));
        lemma_holds_parts(d, pos + 8, flags + word(track as nat), rest);
        lemma_holds_parts(d, pos + 8, flags, word(track as nat));
        law_word_read(d, pos + 12, track as nat);
    }
    if flags.len() == 3 && time_fits(wide, time) && first_of(boxes, TFDT, boxes.len() as int) && cut_traf_holds(
        d,
        traf,
        boxes,
        TFDT,
        size,
        decode_time(wide, flags, time),
    ) {
        lemma_cut_box(d, traf, boxes, TFDT, size, decode_time(wide, flags, time));
        if wide {
            let head = seq![1u8] + flags;
            lemma_holds_parts(d, pos + 8, head, long_word(time));
            assert(d[pos + 8 + 0] == head[0]);
            law_long_word_read(d, pos + 12, time);
        } else {
            let head = seq![0u8] + flags;
            lemma_holds_parts(d, pos + 8, head, word(time));
            assert(d[pos + 8 + 0] == head[0]);
            law_word_read(d, pos + 12, time);
        }
    }
    if run_fits(run) && run.count >= run.samples.len() && first_of(boxes, TRUN, boxes.len() as int) && cut_traf_holds(
        d,
        traf,
        boxes,
        TRUN,
        size,
        run_bytes(run),
    ) {
        lemma_cut_box(d, traf, boxes, TRUN, size, run_bytes(run));
        lemma_run_read(d, pos, run);
        if run.flags & 0x100 != 0 {
            lemma_sum_of_entries(
                d,
                pos + 8 + run_head(run).len(),
                run.flags,
                run.samples,
                run.count,
                traf.1,
            );
        }
    }
}

} // verus!
