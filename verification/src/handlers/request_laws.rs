//! What a manifest request comes to, told from what is found under each URL.

use vstd::prelude::*;
use crate::dash::{AltRepView, MpdView, RepView};
use crate::error::ErrorView;
use crate::handlers::manifest::{
    audio_of, first_error, gathered, manifest_params, subtitles_of, wanted, ManifestView, RequestView, StepView,
};
use crate::handlers::manifest_laws::{
    alternative_outcome, answers, law_request_settles, lemma_all_ok, master_outcome, settled, variant_outcome, World,
};
use crate::hls::{m3u8_parsed, AlternativeView, MasterView, MediaView, PlaylistView, VariantView};
use crate::hls_laws::law_renditions_of_a_kind;
use crate::text::decimal;
use crate::url_utils::{resolved, url_parsed};

verus! {

/// The playlist under a URL. A failed fetch is reported as a parse error with the text of the failure, and
/// so is what the parser says.
pub open spec fn page(url: Seq<char>, world: World) -> Result<PlaylistView, ErrorView> {
    match world(url) {
        Ok(body) => match m3u8_parsed(body) {
            Ok(playlist) => Ok(playlist),
            Err(e) => Err(ErrorView::ParseError("m3u8 parse failure: "@ + e)),
        },
        Err(e) => Err(ErrorView::ParseError(e.message())),
    }
}

/// What is found under the URI of a variant (where another master playlist is an error) or of an audio or
/// subtitle rendition (where another master playlist is nothing).
pub open spec fn found(base: Seq<char>, uri: Seq<char>, variant: bool, world: World) -> Result<
    Option<(Seq<char>, MediaView)>,
    ErrorView,
> {
    match resolved(base, uri) {
        Err(reason) => Err(ErrorView::InvalidUrl(reason)),
        Ok(url) => match page(url, world) {
            Err(e) => Err(e),
            Ok(PlaylistView::Media(media)) => Ok(Some((url, media))),
            Ok(PlaylistView::Master(_)) => if variant {
                Err(ErrorView::ParseError("unexpected master playlist as variant"@))
            } else {
                Ok(None)
            },
        },
    }
}

/// The audio or subtitle renditions of a master playlist with a playlist of their own, in order.
pub open spec fn renditions(master: MasterView, media_type: Seq<char>) -> Seq<AlternativeView> {
    master.alternatives.filter(|a: AlternativeView| a.media_type == media_type && a.uri is Some)
}

/// What is found for each variant of a master playlist.
pub open spec fn variants_found(base: Seq<char>, master: MasterView, world: World) -> Seq<
    Result<Option<(Seq<char>, MediaView)>, ErrorView>,
> {
    Seq::new(master.variants.len(), |i: int| found(base, master.variants[i].uri, true, world))
}

/// What is found for each rendition of a kind.
pub open spec fn renditions_found(base: Seq<char>, list: Seq<AlternativeView>, world: World) -> Seq<
    Result<Option<(Seq<char>, MediaView)>, ErrorView>,
> {
    Seq::new(list.len(), |i: int| found(base, list[i].uri->0, false, world))
}

/// What is found for everything that a master playlist names: its variants, its audio renditions, its
/// subtitles.
pub open spec fn all_found(base: Seq<char>, master: MasterView, world: World) -> Seq<
    Result<Option<(Seq<char>, MediaView)>, ErrorView>,
> {
    variants_found(base, master, world) + renditions_found(base, renditions(master, "AUDIO"@), world) + renditions_found(
        base,
        renditions(master, "SUBTITLES"@),
        world,
    )
}

/// The first error among results is the one that no other comes before.
pub proof fn law_first_error<T>(results: Seq<Result<T, ErrorView>>)
    ensures
        match gathered(results) {
            Err(e) => exists|i: int|
                0 <= i < results.len() && #[trigger] results[i] == Err::<T, ErrorView>(e) && forall|j: int|
                    0 <= j < i ==> (#[trigger] results[j]) is Ok,
            Ok(list) => list.len() == results.len() && forall|i: int|
                0 <= i < results.len() ==> #[trigger] results[i] == Ok::<T, ErrorView>(list[i]),
        },
    decreases results.len(),
{
    match first_error(results) {
        None => {
            assert forall|i: int| 0 <= i < results.len() implies #[trigger] results[i] == Ok::<T, ErrorView>(
                gathered(results)->Ok_0[i],
            ) by {
                lemma_all_ok(results, i);
            }
        },
        Some(e) => {
            let rest = results.skip(1);
            law_first_error(rest);
            if results[0] is Ok {
                let i = choose|i: int|
                    0 <= i < rest.len() && #[trigger] rest[i] == Err::<T, ErrorView>(e) && forall|j: int|
                        0 <= j < i ==> (#[trigger] rest[j]) is Ok;
                assert(results[i + 1] == Err::<T, ErrorView>(e));
                assert forall|j: int| 0 <= j < i + 1 implies (#[trigger] results[j]) is Ok by {
                    if j > 0 {
                        assert(rest[j - 1] == results[j]);
                    }
                }
            } else {
                assert(results[0] == Err::<T, ErrorView>(e));
            }
        },
    }
}

/// A request fails with the error of the requested playlist, or with its URL being no URL, if the playlist
/// can be had. A media playlist is a manifest of its own, with one video rendition of which nothing but
/// the requested URL is known.
pub proof fn law_requested_playlist(url: Seq<char>, world: World)
    ensures
        match page(url, world) {
            Err(e) => settled(RequestView::Opening(url), world, 3) == StepView::Failed(e),
            Ok(playlist) => match url_parsed(url) {
                Err(reason) => settled(RequestView::Opening(url), world, 3) == StepView::Failed(
                    ErrorView::InvalidUrl(reason),
                ),
                Ok(base) => playlist matches PlaylistView::Media(media) ==> settled(
                    RequestView::Opening(url),
                    world,
                    3,
                ) == StepView::Ready(
                    ManifestView::Media(
                        (VariantView { uri: url, bandwidth: 0, codecs: None, resolution: None }),
                        media,
                        base,
                    ),
                ),
            },
        },
{
    law_request_settles(url, world);
}

/// The manifest, or the error, that a master playlist comes to.
#[verifier::rlimit(40)]
proof fn lemma_master(base: Seq<char>, master: MasterView, world: World)
    ensures
        ({
            let results = all_found(base, master, world);
            let n = master.variants.len() as int;
            let a = renditions(master, "AUDIO"@).len() as int;
            let s = renditions(master, "SUBTITLES"@).len() as int;
            match master_outcome(base, master, world) {
                Err(e) => exists|i: int|
                    0 <= i < results.len() && #[trigger] results[i] == Err::<
                        Option<(Seq<char>, MediaView)>,
                        ErrorView,
                    >(e) && forall|j: int| 0 <= j < i ==> (#[trigger] results[j]) is Ok,
                Ok(manifest) => manifest matches ManifestView::Master(m, variants, audio, subtitles) && {
                    &&& m == master
                    &&& variants.len() == n
                    &&& audio.len() == a
                    &&& subtitles.len() == s
                    &&& forall|i: int|
                        0 <= i < n ==> #[trigger] results[i] == Ok::<Option<(Seq<char>, MediaView)>, ErrorView>(
                            Some(variants[i]),
                        )
                    &&& forall|i: int|
                        0 <= i < a ==> #[trigger] results[n + i] == Ok::<Option<(Seq<char>, MediaView)>, ErrorView>(
                            audio[i],
                        )
                    &&& forall|i: int|
                        0 <= i < s ==> #[trigger] results[n + a + i] == Ok::<
                            Option<(Seq<char>, MediaView)>,
                            ErrorView,
                        >(subtitles[i])
                },
            }
        }),
{
    law_renditions_of_a_kind(master.alternatives, "AUDIO"@);
    law_renditions_of_a_kind(master.alternatives, "SUBTITLES"@);
    let results = all_found(base, master, world);
    let n = master.variants.len() as int;
    let a = renditions(master, "AUDIO"@).len() as int;
    let variants = Seq::new(
        master.variants.len(),
        |i: int| variant_outcome(base, master.variants[i].uri, world),
    );
    let audio = Seq::new(
        audio_of(master).len(),
        |i: int| alternative_outcome(base, audio_of(master)[i].uri->0, world),
    );
    let subtitles = Seq::new(
        subtitles_of(master).len(),
        |i: int| alternative_outcome(base, subtitles_of(master)[i].uri->0, world),
    );
    law_first_error(variants);
    law_first_error(audio);
    law_first_error(subtitles);
    assert forall|i: int| 0 <= i < n implies (match #[trigger] variants[i] {
        Ok(v) => results[i] == Ok::<Option<(Seq<char>, MediaView)>, ErrorView>(Some(v)),
        Err(e) => results[i] == Err::<Option<(Seq<char>, MediaView)>, ErrorView>(e),
    }) by {
        assert(results[i] == found(base, master.variants[i].uri, true, world));
    }
    assert forall|i: int| 0 <= i < audio.len() implies results[n + i] == #[trigger] audio[i] by {}
    assert forall|i: int| 0 <= i < subtitles.len() implies results[n + a + i] == #[trigger] subtitles[i] by {}
    match gathered(variants) {
        Err(e) => {
            let i = choose|i: int|
                0 <= i < variants.len() && #[trigger] variants[i] == Err::<(Seq<char>, MediaView), ErrorView>(e)
                    && forall|j: int| 0 <= j < i ==> (#[trigger] variants[j]) is Ok;
            assert(results[i] == Err::<Option<(Seq<char>, MediaView)>, ErrorView>(e));
            assert forall|j: int| 0 <= j < i implies (#[trigger] results[j]) is Ok by {
                assert(variants[j] is Ok);
            }
        },
        Ok(v) => {
            assert forall|j: int| 0 <= j < n implies #[trigger] results[j] == Ok::<
                Option<(Seq<char>, MediaView)>,
                ErrorView,
            >(Some(v[j])) by {
                assert(variants[j] is Ok);
            }
            match gathered(audio) {
                Err(e) => {
                    let i = choose|i: int|
                        0 <= i < audio.len() && #[trigger] audio[i] == Err::<
                            Option<(Seq<char>, MediaView)>,
                            ErrorView,
                        >(e) && forall|j: int| 0 <= j < i ==> (#[trigger] audio[j]) is Ok;
                    assert(results[n + i] == Err::<Option<(Seq<char>, MediaView)>, ErrorView>(e));
                    assert forall|j: int| 0 <= j < n + i implies (#[trigger] results[j]) is Ok by {
                        if j >= n {
                            assert(results[n + (j - n)] == audio[j - n]);
                        }
                    }
                },
                Ok(found_audio) => {
                    assert forall|j: int| 0 <= j < a implies #[trigger] results[n + j] == Ok::<
                        Option<(Seq<char>, MediaView)>,
                        ErrorView,
                    >(found_audio[j]) by {
                        assert(audio[j] is Ok);
                    }
                    match gathered(subtitles) {
                        Err(e) => {
                            let i = choose|i: int|
                                0 <= i < subtitles.len() && #[trigger] subtitles[i] == Err::<
                                    Option<(Seq<char>, MediaView)>,
                                    ErrorView,
                                >(e) && forall|j: int| 0 <= j < i ==> (#[trigger] subtitles[j]) is Ok;
                            assert(results[n + a + i] == Err::<Option<(Seq<char>, MediaView)>, ErrorView>(e));
                            assert forall|j: int| 0 <= j < n + a + i implies (#[trigger] results[j]) is Ok by {
                                if j >= n + a {
                                    assert(results[n + a + (j - n - a)] == subtitles[j - n - a]);
                                } else if j >= n {
                                    assert(results[n + (j - n)] == audio[j - n]);
                                }
                            }
                        },
                        Ok(found_subtitles) => {
                            assert forall|j: int| 0 <= j < subtitles.len() implies #[trigger] results[n + a + j] == Ok::<
                                Option<(Seq<char>, MediaView)>,
                                ErrorView,
                            >(found_subtitles[j]) by {
                                assert(subtitles[j] is Ok);
                            }
                        },
                    }
                },
            }
        },
    }
}

/// A request for a master playlist comes to a manifest exactly where everything that the playlist names is
/// found: with each variant, audio rendition and subtitle rendition as it was found, in order. Otherwise it
/// fails with the first error.
#[verifier::rlimit(40)]
pub proof fn law_named_playlists(url: Seq<char>, base: Seq<char>, master: MasterView, world: World)
    requires
        page(url, world) == Ok::<PlaylistView, ErrorView>(PlaylistView::Master(master)),
        url_parsed(url) == Ok::<Seq<char>, Seq<char>>(base),
    ensures
        ({
            let results = all_found(base, master, world);
            let n = master.variants.len() as int;
            let a = renditions(master, "AUDIO"@).len() as int;
            let s = renditions(master, "SUBTITLES"@).len() as int;
            let end = settled(RequestView::Opening(url), world, 3);
            &&& forall|i: int|
                0 <= i < results.len() && (#[trigger] results[i]) is Err && (forall|j: int|
                    0 <= j < i ==> (#[trigger] results[j]) is Ok) ==> end == StepView::Failed(results[i]->Err_0)
            &&& (forall|i: int| 0 <= i < results.len() ==> (#[trigger] results[i]) is Ok) ==> (end matches StepView::Ready(
                ManifestView::Master(m, variants, audio, subtitles),
            ) && {
                &&& m == master
                &&& variants.len() == n
                &&& audio.len() == a
                &&& subtitles.len() == s
                &&& forall|i: int|
                    0 <= i < n ==> #[trigger] results[i] == Ok::<Option<(Seq<char>, MediaView)>, ErrorView>(
                        Some(variants[i]),
                    )
                &&& forall|i: int|
                    0 <= i < a ==> #[trigger] results[n + i] == Ok::<Option<(Seq<char>, MediaView)>, ErrorView>(
                        audio[i],
                    )
                &&& forall|i: int|
                    0 <= i < s ==> #[trigger] results[n + a + i] == Ok::<Option<(Seq<char>, MediaView)>, ErrorView>(
                        subtitles[i],
                    )
            })
        }),
{
    law_request_settles(url, world);
    lemma_master(base, master, world);
    let results = all_found(base, master, world);
    let end = settled(RequestView::Opening(url), world, 3);
    assert forall|i: int|
        0 <= i < results.len() && (#[trigger] results[i]) is Err && (forall|j: int|
            0 <= j < i ==> (#[trigger] results[j]) is Ok) implies end == StepView::Failed(results[i]->Err_0) by {
        match master_outcome(base, master, world) {
            Err(e) => {
                let k = choose|k: int|
                    0 <= k < results.len() && #[trigger] results[k] == Err::<Option<(Seq<char>, MediaView)>, ErrorView>(e)
                        && forall|j: int| 0 <= j < k ==> (#[trigger] results[j]) is Ok;
                if k < i {
                    assert(results[k] is Ok);
                } else if i < k {
                    assert(results[i] is Ok);
                }
            },
            Ok(_) => {
                let n = master.variants.len() as int;
                let a = renditions(master, "AUDIO"@).len() as int;
                if i < n {
                    assert(results[i] is Ok);
                } else if i < n + a {
                    assert(results[n + (i - n)] is Ok);
                } else {
                    assert(results[n + a + (i - n - a)] is Ok);
                }
            },
        }
    }
    if forall|i: int| 0 <= i < results.len() ==> (#[trigger] results[i]) is Ok {
        assert(master_outcome(base, master, world) is Ok);
    }
}

/// The playlist has a segment with a map.
pub open spec fn has_map(media: MediaView) -> bool {
    exists|i: int| 0 <= i < media.segments.len() && (#[trigger] media.segments[i]).map_uri is Some
}

/// An audio or subtitle rendition as it is shown, with what was found for it.
pub open spec fn shown(id: Seq<char>, alt: AlternativeView, found: Option<(Seq<char>, MediaView)>) -> AltRepView {
    match found {
        Some((url, media)) => AltRepView {
            id,
            alt,
            media: Some(media),
            url: Some(url),
            is_fmp4: has_map(media),
        },
        None => AltRepView { id, alt, media: None, url: None, is_fmp4: false },
    }
}

/// A manifest of a master playlist shows each variant and each rendition with what was found for it, numbered
/// from 1 within its kind, and as fMP4 exactly where the playlist has a map.
pub proof fn law_shown_renditions(
    master: MasterView,
    variants: Seq<(Seq<char>, MediaView)>,
    audio: Seq<Option<(Seq<char>, MediaView)>>,
    subtitles: Seq<Option<(Seq<char>, MediaView)>>,
    base: Seq<char>,
    transmux: bool,
)
    requires
        variants.len() == master.variants.len(),
        audio.len() == renditions(master, "AUDIO"@).len(),
        subtitles.len() == renditions(master, "SUBTITLES"@).len(),
    ensures
        manifest_params(ManifestView::Master(master, variants, audio, subtitles), base, transmux) == (MpdView {
            video: Seq::new(
                master.variants.len(),
                |i: int|
                    RepView {
                        id: "v"@ + decimal((i + 1) as nat),
                        variant: master.variants[i],
                        media: variants[i].1,
                        url: variants[i].0,
                        is_fmp4: has_map(variants[i].1),
                    },
            ),
            audio: Seq::new(
                audio.len(),
                |i: int| shown("a"@ + decimal((i + 1) as nat), renditions(master, "AUDIO"@)[i], audio[i]),
            ),
            subtitles: Seq::new(
                subtitles.len(),
                |i: int| shown("s"@ + decimal((i + 1) as nat), renditions(master, "SUBTITLES"@)[i], subtitles[i]),
            ),
            base,
            transmux,
        }),
{
    law_renditions_of_a_kind(master.alternatives, "AUDIO"@);
    law_renditions_of_a_kind(master.alternatives, "SUBTITLES"@);
    let p = manifest_params(ManifestView::Master(master, variants, audio, subtitles), base, transmux);
    reveal_strlit("v");
    reveal_strlit("a");
    reveal_strlit("s");
    assert("v"@ =~= seq!['v']);
    assert("a"@ =~= seq!['a']);
    assert("s"@ =~= seq!['s']);
    assert(p.video =~= Seq::new(
        master.variants.len(),
        |i: int|
            RepView {
                id: "v"@ + decimal((i + 1) as nat),
                variant: master.variants[i],
                media: variants[i].1,
                url: variants[i].0,
                is_fmp4: has_map(variants[i].1),
            },
    ));
    assert(p.audio =~= Seq::new(
        audio.len(),
        |i: int| shown("a"@ + decimal((i + 1) as nat), renditions(master, "AUDIO"@)[i], audio[i]),
    ));
    assert(p.subtitles =~= Seq::new(
        subtitles.len(),
        |i: int| shown("s"@ + decimal((i + 1) as nat), renditions(master, "SUBTITLES"@)[i], subtitles[i]),
    ));
}

/// A manifest of a media playlist shows one video rendition.
pub proof fn law_shown_media(variant: VariantView, media: MediaView, url: Seq<char>, base: Seq<char>, transmux: bool)
    ensures
        manifest_params(ManifestView::Media(variant, media, url), base, transmux) == (MpdView {
            video: seq![RepView { id: "v1"@, variant, media, url, is_fmp4: has_map(media) }],
            audio: Seq::empty(),
            subtitles: Seq::empty(),
            base,
            transmux,
        }),
{
}

/// Everything that a request waits for and that has a URL is asked for under that URL, and nothing else: what
/// is fetched for the URLs asked for, in order, is what the request waits for.
pub proof fn law_asked_for(request: RequestView, world: World)
    ensures
        wanted(request.pending()).len() == request.pending().len(),
        answers(request.pending(), world) == Seq::new(
            wanted(request.pending()).len(),
            |i: int|
                match wanted(request.pending())[i] {
                    Some(url) => Some(world(url)),
                    None => None,
                },
        ),
        forall|i: int|
            0 <= i < request.pending().len() ==> (request.pending()[i] is Ok <==> #[trigger] wanted(
                request.pending(),
            )[i] is Some),
{
    let pending = request.pending();
    assert(answers(pending, world) =~= Seq::new(
        wanted(pending).len(),
        |i: int|
            match wanted(pending)[i] {
                Some(url) => Some(world(url)),
                None => None,
            },
    ));
}

} // verus!
