//! Laws of manifest requests.

use vstd::prelude::*;
use crate::dash::MpdView;
use crate::error::ErrorView;
use crate::handlers::manifest::{
    alternative_media, alternative_results, alternative_targets, audio_of, dummy_variant, fetched_playlist,
    first_error, gathered, manifest_params, numbered, opened, subtitles_of, variant_media, variant_results,
    variant_targets, ManifestView, RequestView, StepView,
};
use crate::hls::{MasterView, MediaView, PlaylistView};
use crate::text::{decimal, lemma_decimal_reads_back};
use crate::url_utils::{resolved, url_parsed};

verus! {

/// What fetching each URL brings.
pub type World = spec_fn(Seq<char>) -> Result<Seq<u8>, ErrorView>;

/// What fetching the targets of a request brings.
pub open spec fn answers(pending: Seq<Result<Seq<char>, Seq<char>>>, world: World) -> Seq<
    Option<Result<Seq<u8>, ErrorView>>,
> {
    Seq::new(
        pending.len(),
        |i: int|
            match pending[i] {
                Ok(url) => Some(world(url)),
                Err(_) => None,
            },
    )
}

/// How a request stands after up to `rounds` more rounds of fetching.
pub open spec fn settled(request: RequestView, world: World, rounds: nat) -> StepView
    decreases rounds,
{
    if rounds == 0 {
        StepView::Fetch(request)
    } else {
        match request.next(answers(request.pending(), world)) {
            StepView::Fetch(next) => settled(next, world, (rounds - 1) as nat),
            step => step,
        }
    }
}

/// A variant as its URI brings it.
pub open spec fn variant_outcome(base: Seq<char>, uri: Seq<char>, world: World) -> Result<
    (Seq<char>, MediaView),
    ErrorView,
> {
    match resolved(base, uri) {
        Err(reason) => Err(ErrorView::InvalidUrl(reason)),
        Ok(url) => match variant_media(fetched_playlist(world(url))) {
            Ok(media) => Ok((url, media)),
            Err(e) => Err(e),
        },
    }
}

/// An audio or subtitle rendition as its URI brings it.
pub open spec fn alternative_outcome(base: Seq<char>, uri: Seq<char>, world: World) -> Result<
    Option<(Seq<char>, MediaView)>,
    ErrorView,
> {
    match resolved(base, uri) {
        Err(reason) => Err(ErrorView::InvalidUrl(reason)),
        Ok(url) => match alternative_media(fetched_playlist(world(url))) {
            Ok(Some(media)) => Ok(Some((url, media))),
            Ok(None) => Ok(None),
            Err(e) => Err(e),
        },
    }
}

/// The contents of a master playlist's manifest, or the error to report: the first among the variants,
/// then among the audio renditions, then among the subtitles.
pub open spec fn master_outcome(base: Seq<char>, master: MasterView, world: World) -> Result<ManifestView, ErrorView> {
    let variants = Seq::new(
        master.variants.len(),
        |i: int| variant_outcome(base, master.variants[i].uri, world),
    );
    let audio = Seq::new(
        audio_of(master).len(),
        |i: int| alternative_outcome(base, audio_of(master)[i].uri->0, world),
    );
    let subtitles = Seq::new(
        subtitles_of(master).len(),
        |i: int| alternative_outcome(base, subtitles_of(master)[i].uri->0, world),
    );
    match gathered(variants) {
        Err(e) => Err(e),
        Ok(v) => match gathered(audio) {
            Err(e) => Err(e),
            Ok(a) => match gathered(subtitles) {
                Err(e) => Err(e),
                Ok(s) => Ok(ManifestView::Master(master, v, a, s)),
            },
        },
    }
}

/// The contents of the manifest for a playlist URL, or the error to report.
pub open spec fn manifest_outcome(url: Seq<char>, world: World) -> Result<ManifestView, ErrorView> {
    match opened(fetched_playlist(world(url)), url_parsed(url)) {
        Err(e) => Err(e),
        Ok((base, PlaylistView::Media(media))) => Ok(ManifestView::Media(dummy_variant(url, 0), media, base)),
        Ok((base, PlaylistView::Master(master))) => master_outcome(base, master, world),
    }
}

proof fn lemma_master_settles(base: Seq<char>, master: MasterView, world: World)
    ensures
        settled(RequestView::Variants(base, master, variant_targets(base, master.variants)), world, 2)
            == match master_outcome(base, master, world) {
            Ok(manifest) => StepView::Ready(manifest),
            Err(e) => StepView::Failed(e),
        },
{
    reveal_with_fuel(settled, 3);
    let targets = variant_targets(base, master.variants);
    let variants = Seq::new(
        master.variants.len(),
        |i: int| variant_outcome(base, master.variants[i].uri, world),
    );
    assert(variant_results(targets, answers(targets, world)) =~= variants);
    if let Ok(v) = gathered(variants) {
        let a = alternative_targets(base, audio_of(master));
        let s = alternative_targets(base, subtitles_of(master));
        let all = answers(a + s, world);
        let audio = Seq::new(
            audio_of(master).len(),
            |i: int| alternative_outcome(base, audio_of(master)[i].uri->0, world),
        );
        let subtitles = Seq::new(
            subtitles_of(master).len(),
            |i: int| alternative_outcome(base, subtitles_of(master)[i].uri->0, world),
        );
        assert(alternative_results(a, all.take(a.len() as int)) =~= audio);
        assert(alternative_results(s, all.skip(a.len() as int)) =~= subtitles);
    }
}

/// A manifest request is settled after at most three rounds of fetching, and comes out as its URL and
/// what the fetches bring determine: the requested playlist, then the playlists it names.
pub proof fn law_request_settles(url: Seq<char>, world: World)
    ensures
        settled(RequestView::Opening(url), world, 3) == match manifest_outcome(url, world) {
            Ok(manifest) => StepView::Ready(manifest),
            Err(e) => StepView::Failed(e),
        },
{
    let request = RequestView::Opening(url);
    let fetched = answers(request.pending(), world);
    assert(request.pending()[0] == Ok::<Seq<char>, Seq<char>>(url));
    assert(fetched[0] == Some(world(url)));
    reveal_with_fuel(settled, 2);
    if let Ok((base, PlaylistView::Master(master))) = opened(fetched_playlist(world(url)), url_parsed(url)) {
        lemma_master_settles(base, master, world);
    }
}

/// The manifest of a master playlist shows every variant, in order, with the playlist found under its
/// URI, and every audio and subtitle rendition that has a playlist of its own.
pub proof fn law_manifest_is_complete(
    url: Seq<char>,
    world: World,
    master: MasterView,
    variants: Seq<(Seq<char>, MediaView)>,
    audio: Seq<Option<(Seq<char>, MediaView)>>,
    subtitles: Seq<Option<(Seq<char>, MediaView)>>,
    base: Seq<char>,
    transmux: bool,
)
    requires
        manifest_outcome(url, world) == Ok::<ManifestView, ErrorView>(
            ManifestView::Master(master, variants, audio, subtitles),
        ),
    ensures
        ({
            let p = manifest_params(ManifestView::Master(master, variants, audio, subtitles), base, transmux);
            &&& p.video.len() == master.variants.len()
            &&& forall|i: int|
                0 <= i < master.variants.len() ==> {
                    &&& (#[trigger] p.video[i]).variant == master.variants[i]
                    &&& variant_outcome(url_parsed(url)->Ok_0, master.variants[i].uri, world) == Ok::<
                        (Seq<char>, MediaView),
                        ErrorView,
                    >((p.video[i].url, p.video[i].media))
                }
            &&& p.audio.len() == audio_of(master).len()
            &&& forall|i: int| 0 <= i < p.audio.len() ==> (#[trigger] p.audio[i]).alt == audio_of(master)[i]
            &&& p.subtitles.len() == subtitles_of(master).len()
            &&& forall|i: int|
                0 <= i < p.subtitles.len() ==> (#[trigger] p.subtitles[i]).alt == subtitles_of(master)[i]
        }),
{
    let here = url_parsed(url)->Ok_0;
    let results = Seq::new(
        master.variants.len(),
        |i: int| variant_outcome(here, master.variants[i].uri, world),
    );
    assert(gathered(results) == Ok::<Seq<(Seq<char>, MediaView)>, ErrorView>(variants));
    assert(variants.len() == results.len());
    let p = manifest_params(ManifestView::Master(master, variants, audio, subtitles), base, transmux);
    assert forall|i: int| 0 <= i < master.variants.len() implies {
        &&& (#[trigger] p.video[i]).variant == master.variants[i]
        &&& variant_outcome(here, master.variants[i].uri, world) == Ok::<(Seq<char>, MediaView), ErrorView>(
            (p.video[i].url, p.video[i].media),
        )
    } by {
        lemma_all_ok(results, i);
        assert(results[i] == variant_outcome(here, master.variants[i].uri, world));
        assert(variants[i] == results[i]->Ok_0);
    }
}

pub proof fn lemma_all_ok<T>(results: Seq<Result<T, ErrorView>>, i: int)
    requires
        first_error(results) is None,
        0 <= i < results.len(),
    ensures
        results[i] is Ok,
    decreases results.len(),
{
    if i > 0 {
        lemma_all_ok(results.skip(1), i - 1);
        assert(results.skip(1)[i - 1] == results[i]);
    }
}

proof fn lemma_numbered_differ(a: char, i: nat, b: char, j: nat)
    requires
        a != b || i != j,
    ensures
        numbered(a, i) != numbered(b, j),
{
    let s = numbered(a, i);
    let t = numbered(b, j);
    assert(s[0] == a);
    assert(t[0] == b);
    assert(s.skip(1) == decimal(i + 1));
    assert(t.skip(1) == decimal(j + 1));
    lemma_decimal_reads_back(i + 1);
    lemma_decimal_reads_back(j + 1);
}

/// The ids of all representations of a manifest: video, audio, subtitles.
pub open spec fn ids(p: MpdView) -> Seq<Seq<char>> {
    Seq::new(p.video.len(), |i: int| p.video[i].id) + Seq::new(p.audio.len(), |i: int| p.audio[i].id) + Seq::new(
        p.subtitles.len(),
        |i: int| p.subtitles[i].id,
    )
}

/// No two representations of a manifest have the same id.
pub proof fn law_ids_differ(manifest: ManifestView, base: Seq<char>, transmux: bool, i: int, j: int)
    requires
        0 <= i < j < ids(manifest_params(manifest, base, transmux)).len(),
    ensures
        ids(manifest_params(manifest, base, transmux))[i] != ids(manifest_params(manifest, base, transmux))[j],
{
    let p = manifest_params(manifest, base, transmux);
    let v = p.video.len();
    let a = p.audio.len();
    if let ManifestView::Master(_, _, _, _) = manifest {
        let one = if i < v {
            ('v', i as nat)
        } else if i < v + a {
            ('a', (i - v) as nat)
        } else {
            ('s', (i - v - a) as nat)
        };
        let other = if j < v {
            ('v', j as nat)
        } else if j < v + a {
            ('a', (j - v) as nat)
        } else {
            ('s', (j - v - a) as nat)
        };
        assert(ids(p)[i] == numbered(one.0, one.1));
        assert(ids(p)[j] == numbered(other.0, other.1));
        lemma_numbered_differ(one.0, one.1, other.0, other.1);
    }
}

} // verus!
