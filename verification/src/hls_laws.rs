//! Laws of playlists: which key, which map and which renditions are found.

use vstd::prelude::*;
use crate::dash::{first_map, first_rep_key, RepView};
use crate::handlers::manifest::with_uri;
use crate::hls::{first_key, key_uri, of_type, uses_fmp4, AlternativeView, MediaView, SegmentView};

verus! {

/// The segment is encrypted with AES-128, with the key under the URI.
pub open spec fn has_key(seg: SegmentView, uri: Seq<char>) -> bool {
    seg.key matches Some(key) && key.method == "AES-128"@ && key.uri == Some(uri)
}

/// The key of a playlist is the one of the first segment that is encrypted with AES-128 and says where its
/// key is; without such a segment there is none.
pub proof fn law_first_key(segments: Seq<SegmentView>)
    ensures
        first_key(segments) matches Some(uri) ==> exists|i: int|
            0 <= i < segments.len() && #[trigger] has_key(segments[i], uri) && forall|j: int, other: Seq<char>|
                0 <= j < i ==> !#[trigger] has_key(segments[j], other),
        first_key(segments) is None ==> forall|j: int, other: Seq<char>|
            0 <= j < segments.len() ==> !#[trigger] has_key(segments[j], other),
    decreases segments.len(),
{
    if segments.len() > 0 {
        let rest = segments.skip(1);
        law_first_key(rest);
        if key_uri(segments[0]) is Some {
            assert(has_key(segments[0], key_uri(segments[0])->0));
        } else {
            assert forall|other: Seq<char>| !#[trigger] has_key(segments[0], other) by {}
            match first_key(rest) {
                Some(uri) => {
                    let i = choose|i: int|
                        0 <= i < rest.len() && #[trigger] has_key(rest[i], uri) && forall|j: int, other: Seq<char>|
                            0 <= j < i ==> !#[trigger] has_key(rest[j], other);
                    assert(has_key(segments[i + 1], uri));
                    assert forall|j: int, other: Seq<char>| 0 <= j < i + 1 implies !#[trigger] has_key(
                        segments[j],
                        other,
                    ) by {
                        if j > 0 {
                            assert(rest[j - 1] == segments[j]);
                            assert(!has_key(rest[j - 1], other));
                        }
                    }
                },
                None => {
                    assert forall|j: int, other: Seq<char>| 0 <= j < segments.len() implies !#[trigger] has_key(
                        segments[j],
                        other,
                    ) by {
                        if j > 0 {
                            assert(rest[j - 1] == segments[j]);
                            assert(!has_key(rest[j - 1], other));
                        }
                    }
                },
            }
        }
    }
}

/// The initialization segment of a playlist is the first map; there is one exactly where the playlist
/// uses fMP4.
pub proof fn law_first_map(media: MediaView)
    ensures
        first_map(media.segments) matches Some(uri) ==> exists|i: int|
            0 <= i < media.segments.len() && (#[trigger] media.segments[i]).map_uri == Some(uri) && forall|j: int|
                0 <= j < i ==> (#[trigger] media.segments[j]).map_uri is None,
        first_map(media.segments) is Some <==> uses_fmp4(media),
        uses_fmp4(media) <==> exists|i: int|
            0 <= i < media.segments.len() && (#[trigger] media.segments[i]).map_uri is Some,
{
    lemma_first_map(media.segments);
}

proof fn lemma_first_map(segments: Seq<SegmentView>)
    ensures
        match first_map(segments) {
            Some(uri) => exists|i: int|
                0 <= i < segments.len() && (#[trigger] segments[i]).map_uri == Some(uri) && forall|j: int|
                    0 <= j < i ==> (#[trigger] segments[j]).map_uri is None,
            None => forall|j: int| 0 <= j < segments.len() ==> (#[trigger] segments[j]).map_uri is None,
        },
    decreases segments.len(),
{
    if segments.len() > 0 {
        let rest = segments.skip(1);
        lemma_first_map(rest);
        if segments[0].map_uri is None {
            match first_map(rest) {
                Some(uri) => {
                    let i = choose|i: int|
                        0 <= i < rest.len() && (#[trigger] rest[i]).map_uri == Some(uri) && forall|j: int|
                            0 <= j < i ==> (#[trigger] rest[j]).map_uri is None;
                    assert(segments[i + 1].map_uri == Some(uri));
                    assert forall|j: int| 0 <= j < i + 1 implies (#[trigger] segments[j]).map_uri is None by {
                        if j > 0 {
                            assert(rest[j - 1] == segments[j]);
                        }
                    }
                },
                None => {
                    assert forall|j: int| 0 <= j < segments.len() implies (#[trigger] segments[j]).map_uri is None by {
                        if j > 0 {
                            assert(rest[j - 1] == segments[j]);
                        }
                    }
                },
            }
        }
    }
}

/// The key of a presentation is the one that is found first when its video renditions are gone through in
/// order; whichever rendition has a key, one is found.
pub proof fn law_first_rendition_key(reps: Seq<RepView>)
    ensures
        first_rep_key(reps) matches Some(uri) ==> exists|i: int|
            0 <= i < reps.len() && first_key((#[trigger] reps[i]).media.segments) == Some(uri) && forall|j: int|
                0 <= j < i ==> first_key((#[trigger] reps[j]).media.segments) is None,
        first_rep_key(reps) is None ==> forall|j: int|
            0 <= j < reps.len() ==> first_key((#[trigger] reps[j]).media.segments) is None,
    decreases reps.len(),
{
    if reps.len() > 0 {
        let rest = reps.skip(1);
        law_first_rendition_key(rest);
        if first_key(reps[0].media.segments) is None {
            match first_rep_key(rest) {
                Some(uri) => {
                    let i = choose|i: int|
                        0 <= i < rest.len() && first_key((#[trigger] rest[i]).media.segments) == Some(uri) && forall|
                            j: int,
                        |
                            0 <= j < i ==> first_key((#[trigger] rest[j]).media.segments) is None;
                    assert(first_key(reps[i + 1].media.segments) == Some(uri));
                    assert forall|j: int| 0 <= j < i + 1 implies first_key((#[trigger] reps[j]).media.segments) is None by {
                        if j > 0 {
                            assert(rest[j - 1] == reps[j]);
                        }
                    }
                },
                None => {
                    assert forall|j: int| 0 <= j < reps.len() implies first_key(
                        (#[trigger] reps[j]).media.segments,
                    ) is None by {
                        if j > 0 {
                            assert(rest[j - 1] == reps[j]);
                        }
                    }
                },
            }
        }
    }
}

/// The renditions of a kind are all of that kind, in order, and no others; those with a playlist of their
/// own are all with a URI, in order, and no others.
pub proof fn law_renditions_of_a_kind(alternatives: Seq<AlternativeView>, media_type: Seq<char>)
    ensures
        of_type(alternatives, media_type) == alternatives.filter(|a: AlternativeView| a.media_type == media_type),
        with_uri(alternatives) == alternatives.filter(|a: AlternativeView| a.uri is Some),
        with_uri(of_type(alternatives, media_type)) == alternatives.filter(
            |a: AlternativeView| a.media_type == media_type && a.uri is Some,
        ),
    decreases alternatives.len(),
{
    reveal(Seq::filter);
    if alternatives.len() > 0 {
        let front = alternatives.drop_last();
        let last = alternatives.last();
        law_renditions_of_a_kind(front, media_type);
        if last.media_type == media_type {
            let kept = of_type(front, media_type);
            assert(kept.push(last).drop_last() =~= kept);
            assert(kept.push(last).last() == last);
        }
    }
}

} // verus!
