//! What a manifest lists: every rendition, in order, each with its number and its container.

use vstd::prelude::*;
use crate::dash::{
    adaptation_sets, audio_representation, audio_set, audio_sets, subtitle_set, subtitle_sets, video_representation,
    video_representations, video_set, AltRepView, MpdView, RepView,
};
use crate::text::has_prefix;
use crate::url_utils::xml_escaped;

verus! {

/// The parts stand somewhere in the text, in order, one right behind the other.
pub open spec fn lists(text: Seq<char>, parts: Seq<Seq<char>>) -> bool {
    exists|before: Seq<char>, after: Seq<char>| text == #[trigger] (before + parts.flatten() + after)
}

/// The part stands somewhere in the text.
pub open spec fn shows(text: Seq<char>, part: Seq<char>) -> bool {
    exists|before: Seq<char>, after: Seq<char>| text == #[trigger] (before + part + after)
}

/// Each of the parts that a text lists stands in the text.
pub proof fn lemma_each_part_shown(text: Seq<char>, parts: Seq<Seq<char>>, i: int)
    requires
        lists(text, parts),
        0 <= i < parts.len(),
    ensures
        shows(text, parts[i]),
{
    let (a, b) = choose|a: Seq<char>, b: Seq<char>| text == #[trigger] (a + parts.flatten() + b);
    let front = parts.take(i);
    let back = parts.skip(i + 1);
    assert(parts =~= front.push(parts[i]) + back);
    vstd::seq_lib::lemma_flatten_concat(front.push(parts[i]), back);
    front.lemma_flatten_push(parts[i]);
    assert(parts.flatten() == (front.flatten() + parts[i]) + back.flatten());
    assert(text =~= (a + front.flatten()) + parts[i] + (back.flatten() + b));
}

/// The Representation elements of the video renditions, one for each.
pub open spec fn video_parts(reps: Seq<RepView>, base: Seq<char>, transmux: bool) -> Seq<Seq<char>> {
    Seq::new(reps.len(), |i: int| video_representation(reps[i], base, transmux))
}

pub proof fn lemma_video_representations(reps: Seq<RepView>, n: nat, base: Seq<char>, transmux: bool)
    requires
        n <= reps.len(),
    ensures
        video_representations(reps, n, base, transmux) == video_parts(reps, base, transmux).take(n as int).flatten(),
    decreases n,
{
    let parts = video_parts(reps, base, transmux);
    if n > 0 {
        lemma_video_representations(reps, (n - 1) as nat, base, transmux);
        assert(parts.take(n as int) =~= parts.take(n - 1).push(parts[n - 1]));
        parts.take(n - 1).lemma_flatten_push(parts[n - 1]);
    } else {
        assert(parts.take(0) =~= Seq::empty());
    }
}

/// Every video rendition is listed: the video AdaptationSet holds the Representation elements of all
/// renditions, in order.
pub proof fn law_video_renditions_listed(id: nat, reps: Seq<RepView>, base: Seq<char>, transmux: bool)
    ensures
        lists(
            video_set(id, reps, base, transmux),
            Seq::new(reps.len(), |i: int| video_representation(reps[i], base, transmux)),
        ),
        forall|i: int|
            0 <= i < reps.len() ==> shows(
                video_set(id, reps, base, transmux),
                #[trigger] video_representation(reps[i], base, transmux),
            ),
{
    let parts = video_parts(reps, base, transmux);
    let text = video_set(id, reps, base, transmux);
    lemma_video_representations(reps, reps.len(), base, transmux);
    assert(parts.take(reps.len() as int) =~= parts);
    let all = parts.flatten();
    let end = "    </AdaptationSet>\n"@;
    let before = text.take(text.len() - all.len() - end.len());
    assert(text =~= before + all + end);
    assert forall|i: int| 0 <= i < reps.len() implies shows(
        text,
        #[trigger] video_representation(reps[i], base, transmux),
    ) by {
        lemma_each_part_shown(text, parts, i);
        assert(parts[i] == video_representation(reps[i], base, transmux));
    }
}

/// The AdaptationSet elements of the audio renditions: numbered from 1, behind the video set where
/// there is one.
pub open spec fn audio_parts(p: MpdView) -> Seq<Seq<char>> {
    Seq::new(
        p.audio.len(),
        |i: int|
            audio_set(
                (if p.video.len() > 0 {
                    2 + i
                } else {
                    1 + i
                }) as nat,
                p.audio[i],
                p.base,
                p.transmux,
            ),
    )
}

/// The AdaptationSet elements of the subtitle renditions: numbered behind the video set and all
/// audio sets.
pub open spec fn subtitle_parts(p: MpdView) -> Seq<Seq<char>> {
    Seq::new(
        p.subtitles.len(),
        |i: int|
            subtitle_set(
                (if p.video.len() > 0 {
                    2 + p.audio.len() + i
                } else {
                    1 + p.audio.len() + i
                }) as nat,
                p.subtitles[i],
                p.base,
            ),
    )
}

/// The video AdaptationSet, with number 1, where there is a video rendition.
pub open spec fn video_set_parts(p: MpdView) -> Seq<Seq<char>> {
    if p.video.len() > 0 {
        seq![video_set(1, p.video, p.base, p.transmux)]
    } else {
        Seq::empty()
    }
}

pub proof fn lemma_audio_sets(p: MpdView, n: nat)
    requires
        n <= p.audio.len(),
    ensures
        audio_sets(p, n) == audio_parts(p).take(n as int).flatten(),
    decreases n,
{
    let parts = audio_parts(p);
    if n > 0 {
        lemma_audio_sets(p, (n - 1) as nat);
        assert(parts.take(n as int) =~= parts.take(n - 1).push(parts[n - 1]));
        parts.take(n - 1).lemma_flatten_push(parts[n - 1]);
    } else {
        assert(parts.take(0) =~= Seq::empty());
    }
}

pub proof fn lemma_subtitle_sets(p: MpdView, n: nat)
    requires
        n <= p.subtitles.len(),
    ensures
        subtitle_sets(p, n) == subtitle_parts(p).take(n as int).flatten(),
    decreases n,
{
    let parts = subtitle_parts(p);
    if n > 0 {
        lemma_subtitle_sets(p, (n - 1) as nat);
        assert(parts.take(n as int) =~= parts.take(n - 1).push(parts[n - 1]));
        parts.take(n - 1).lemma_flatten_push(parts[n - 1]);
    } else {
        assert(parts.take(0) =~= Seq::empty());
    }
}

/// The adaptation sets of a manifest are the video set, a set for every audio rendition and a set for
/// every subtitle rendition, in this order, numbered from 1 without a gap; and nothing else.
pub proof fn law_all_renditions_have_sets(p: MpdView)
    ensures
        adaptation_sets(p) == (video_set_parts(p) + audio_parts(p) + subtitle_parts(p)).flatten(),
{
    lemma_audio_sets(p, p.audio.len());
    lemma_subtitle_sets(p, p.subtitles.len());
    assert(audio_parts(p).take(p.audio.len() as int) =~= audio_parts(p));
    assert(subtitle_parts(p).take(p.subtitles.len() as int) =~= subtitle_parts(p));
    vstd::seq_lib::lemma_flatten_concat(video_set_parts(p) + audio_parts(p), subtitle_parts(p));
    vstd::seq_lib::lemma_flatten_concat(video_set_parts(p), audio_parts(p));
    video_set_parts(p).lemma_flatten_one_element();
}

/// Every subtitle rendition is listed: the adaptation sets hold the text AdaptationSet of rendition `i`,
/// numbered behind the video set, all audio sets and the `i` subtitle sets before it.
pub proof fn law_subtitle_renditions_listed(p: MpdView, i: int)
    requires
        0 <= i < p.subtitles.len(),
    ensures
        shows(
            adaptation_sets(p),
            subtitle_set(
                (if p.video.len() > 0 {
                    2 + p.audio.len() + i
                } else {
                    1 + p.audio.len() + i
                }) as nat,
                p.subtitles[i],
                p.base,
            ),
        ),
{
    let parts = video_set_parts(p) + audio_parts(p) + subtitle_parts(p);
    law_all_renditions_have_sets(p);
    let none = Seq::<char>::empty();
    assert(parts.flatten() =~= none + parts.flatten() + none);
    let at = video_set_parts(p).len() + p.audio.len() + i;
    lemma_each_part_shown(adaptation_sets(p), parts, at);
    assert(parts[at] == subtitle_parts(p)[i]);
}

/// Every audio rendition is listed, numbered behind the video set and the `i` audio sets before it.
pub proof fn law_audio_renditions_listed(p: MpdView, i: int)
    requires
        0 <= i < p.audio.len(),
    ensures
        shows(
            adaptation_sets(p),
            audio_set(
                (if p.video.len() > 0 {
                    2 + i
                } else {
                    1 + i
                }) as nat,
                p.audio[i],
                p.base,
                p.transmux,
            ),
        ),
{
    let parts = video_set_parts(p) + audio_parts(p) + subtitle_parts(p);
    law_all_renditions_have_sets(p);
    let none = Seq::<char>::empty();
    assert(parts.flatten() =~= none + parts.flatten() + none);
    let at = video_set_parts(p).len() + i;
    lemma_each_part_shown(adaptation_sets(p), parts, at);
    assert(parts[at] == audio_parts(p)[i]);
}

/// A video rendition is announced as fMP4 exactly where its playlist has a map or its TS segments
/// are transmuxed, and as MPEG-2 TS otherwise.
pub proof fn law_video_container(rep: RepView, base: Seq<char>, transmux: bool)
    ensures
        ({
            let text = video_representation(rep, base, transmux);
            let start = "      <Representation id=\""@ + xml_escaped(rep.id);
            &&& rep.is_fmp4 ==> has_prefix(text, start + "\" mimeType=\"video/mp4\""@)
            &&& transmux ==> has_prefix(text, start + "\" mimeType=\"video/mp4\""@)
            &&& !rep.is_fmp4 && !transmux ==> has_prefix(text, start + "\" mimeType=\"video/MP2T\""@)
        }),
{
    let text = video_representation(rep, base, transmux);
    let start = "      <Representation id=\""@ + xml_escaped(rep.id);
    reveal_strlit("\" mimeType=\"video/mp4\"");
    reveal_strlit("\" mimeType=\"video/MP2T\"");
    reveal_strlit("\" mimeType=\"");
    reveal_strlit("video/mp4");
    reveal_strlit("video/MP2T");
    reveal_strlit("\"");
    let fmp4 = "\" mimeType=\"video/mp4\""@;
    let ts = "\" mimeType=\"video/MP2T\""@;
    assert(fmp4 =~= "\" mimeType=\""@ + "video/mp4"@ + "\""@);
    assert(ts =~= "\" mimeType=\""@ + "video/MP2T"@ + "\""@);
    if rep.is_fmp4 || transmux {
        assert(text.subrange(0, (start + fmp4).len() as int) =~= start + fmp4);
    } else {
        assert(text.subrange(0, (start + ts).len() as int) =~= start + ts);
    }
}

/// The same for an audio rendition whose playlist is known.
pub proof fn law_audio_container(rep: AltRepView, base: Seq<char>, transmux: bool)
    requires
        rep.media is Some,
        rep.url is Some,
    ensures
        ({
            let text = audio_representation(rep, base, transmux);
            let start = "      <Representation id=\""@ + xml_escaped(rep.id);
            &&& rep.is_fmp4 ==> has_prefix(text, start + "\" mimeType=\"audio/mp4\""@)
            &&& transmux ==> has_prefix(text, start + "\" mimeType=\"audio/mp4\""@)
            &&& !rep.is_fmp4 && !transmux ==> has_prefix(text, start + "\" mimeType=\"audio/MP2T\""@)
        }),
{
    let text = audio_representation(rep, base, transmux);
    let start = "      <Representation id=\""@ + xml_escaped(rep.id);
    let fmp4 = "\" mimeType=\"audio/mp4\""@;
    let ts = "\" mimeType=\"audio/MP2T\""@;
    reveal_strlit("\" mimeType=\"audio/mp4\"");
    reveal_strlit("\" mimeType=\"audio/MP2T\"");
    reveal_strlit("\" mimeType=\"");
    reveal_strlit("audio/mp4");
    reveal_strlit("audio/MP2T");
    reveal_strlit("\" bandwidth=\"128000\">\n");
    if rep.is_fmp4 || transmux {
        assert(text.subrange(0, (start + fmp4).len() as int) =~= start + fmp4);
    } else {
        assert(text.subrange(0, (start + ts).len() as int) =~= start + ts);
    }
}

} // verus!
