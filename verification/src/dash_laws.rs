//! Laws of manifests.

use vstd::prelude::*;
use crate::clock::{utc_formatted, utc_pattern};
use crate::dash::{
    is_vod, live_delay, live_depth, live_shift_ms, live_target, mpd, reference, segment_element, segment_elements,
    segment_url, timing_attrs, MpdView,
};
use crate::hls::MediaView;
use crate::rounding::{millis, rounded, unit, DOUBLE_LIMIT};
use crate::text::has_prefix;
use crate::url_utils::resolved;

verus! {

/// A presentation whose reference playlist has ended is static, shows the duration given, and does not
/// depend on the time. Without a reference playlist a presentation is static too.
pub proof fn law_vod_is_static(p: MpdView, total_secs: Seq<char>, now: int)
    requires
        is_vod(p),
    ensures
        timing_attrs(p, total_secs, now) == "type=\"static\" mediaPresentationDuration=\"PT"@ + total_secs + "S\""@,
        mpd(p, total_secs, now) == mpd(p, total_secs, 0),
{
}

/// A presentation whose reference playlist has not ended is dynamic, and does not depend on the
/// duration given.
pub proof fn law_live_is_dynamic(p: MpdView, total_secs: Seq<char>, now: int)
    requires
        !is_vod(p),
    ensures
        has_prefix(
            timing_attrs(p, total_secs, now),
            "type=\"dynamic\" availabilityStartTime=\""@ + utc_formatted(
                now - live_shift_ms(reference(p)->0),
                utc_pattern(),
            ),
        ),
        mpd(p, total_secs, now) == mpd(p, Seq::empty(), now),
{
    let front = "type=\"dynamic\" availabilityStartTime=\""@ + utc_formatted(
        now - live_shift_ms(reference(p)->0),
        utc_pattern(),
    );
    let text = timing_attrs(p, total_secs, now);
    assert(text.subrange(0, front.len() as int) == front);
}

proof fn lemma_small_exact(n: nat)
    requires
        n < DOUBLE_LIMIT,
    ensures
        rounded(n, DOUBLE_LIMIT as nat) == n,
{
    assert(unit(n, DOUBLE_LIMIT as nat) == 1);
    assert(n / 1 == n);
    assert(n % 1 == 0);
    assert(n * 1 == n);
}

/// For a live playlist whose segments span less than 2^53 milliseconds, the availability start lies
/// back by exactly the number of segments times the target duration, the time shift buffer is that
/// deep, and the suggested delay is three target durations. Beyond that, double precision rounds.
pub proof fn law_live_window(media: MediaView)
    requires
        media.segments.len() * media.target_duration * 1000 < DOUBLE_LIMIT,
        media.segments.len() < DOUBLE_LIMIT,
        media.target_duration * 3 < DOUBLE_LIMIT,
    ensures
        live_target(media) == media.target_duration,
        live_depth(media) == media.segments.len() * media.target_duration,
        live_shift_ms(media) == media.segments.len() * media.target_duration * 1000,
        live_delay(media) == 3 * media.target_duration,
{
    lemma_small_exact(media.segments.len());
    lemma_small_exact(media.target_duration);
    lemma_small_exact(media.segments.len() * media.target_duration);
    lemma_small_exact(media.segments.len() * media.target_duration * 1000);
    lemma_small_exact(media.target_duration * 3);
}

/// Every segment is listed: the elements for the first `n` segments of a playlist hold the one of
/// segment `i`, where its URI can be resolved. With transmuxing that is not even needed: the segment
/// is named by its number.
pub proof fn law_segments_listed(
    media: MediaView,
    n: nat,
    i: int,
    url: Seq<char>,
    dur_ms: nat,
    base: Seq<char>,
    transmuxed: bool,
)
    requires
        0 <= i < n,
        transmuxed || resolved(url, media.segments[i].uri) is Ok,
    ensures
        segment_url(media, i, url, dur_ms, base, transmuxed) is Some,
        exists|before: Seq<char>, after: Seq<char>|
            segment_elements(media, n, url, dur_ms, base, transmuxed) == #[trigger] (before + segment_element(
                segment_url(media, i, url, dur_ms, base, transmuxed)->0,
                millis(media.segments[i].duration_bits),
            ) + after),
    decreases n,
{
    let element = segment_element(
        segment_url(media, i, url, dur_ms, base, transmuxed)->0,
        millis(media.segments[i].duration_bits),
    );
    let all = segment_elements(media, n, url, dur_ms, base, transmuxed);
    let front = segment_elements(media, (n - 1) as nat, url, dur_ms, base, transmuxed);
    if i == n - 1 {
        assert(all == front + element + Seq::<char>::empty());
    } else {
        law_segments_listed(media, (n - 1) as nat, i, url, dur_ms, base, transmuxed);
        let (before, after) = choose|before: Seq<char>, after: Seq<char>|
            front == #[trigger] (before + element + after);
        let more = match segment_url(media, n - 1, url, dur_ms, base, transmuxed) {
            Some(u) => segment_element(u, millis(media.segments[n - 1].duration_bits)),
            None => Seq::empty(),
        };
        assert(all == front + more);
        assert(all == before + element + (after + more));
    }
}

} // verus!
