//! The steps of a manifest request.
//!
//! Between the steps, playlists are fetched: first the requested one, then those of all variants of a
//! master playlist, then those of its audio and subtitle renditions. Each step takes what was fetched
//! and decides how to go on.

use vstd::prelude::*;
use crate::dash::{AltRepData, AltRepView, MpdParams, MpdView, RepView, RepresentationData};
use crate::error::{AppError, ErrorView};
use crate::hls::{
    alternative_views, audio_alternatives, is_fmp4, m3u8_parsed, of_type, parse_playlist, reported, subtitle_alternatives,
    uses_fmp4, AlternativeMedia, AlternativeView, MasterPlaylist, MasterView, MediaPlaylist, MediaView, ParsedPlaylist,
    PlaylistView, VariantStream, VariantView,
};
use crate::text::{decimal, opt_text, opt_texts, push_decimal};
use crate::url_utils::{resolve_segment_url, resolved, url_parsed, Url};

verus! {

/// What a fetch brought, as a value.
pub open spec fn fetch_view(fetched: Result<Vec<u8>, AppError>) -> Result<Seq<u8>, ErrorView> {
    match fetched {
        Ok(body) => Ok(body@),
        Err(e) => Err(e@),
    }
}

/// How a failed playlist fetch is reported: as a parse error with the text of the failure.
pub open spec fn fetch_error(e: ErrorView) -> ErrorView {
    ErrorView::ParseError(e.message())
}

/// The error to report for a failed playlist fetch.
pub fn playlist_fetch_error(e: &AppError) -> (r: AppError)
    ensures
        r@ == fetch_error(e@),
{
    AppError::ParseError(e.message())
}

/// The playlist in a fetched body, or the error to report.
pub open spec fn fetched_playlist(fetched: Result<Seq<u8>, ErrorView>) -> Result<PlaylistView, ErrorView> {
    match fetched {
        Ok(body) => reported(m3u8_parsed(body)),
        Err(e) => Err(fetch_error(e)),
    }
}

fn read_fetched(fetched: Result<Vec<u8>, AppError>) -> (r: Result<ParsedPlaylist, AppError>)
    ensures
        match r {
            Ok(playlist) => fetched_playlist(fetch_view(fetched)) == Ok::<PlaylistView, ErrorView>(playlist@),
            Err(e) => fetched_playlist(fetch_view(fetched)) == Err::<PlaylistView, ErrorView>(e@),
        },
{
    match fetched {
        Ok(body) => parse_playlist(body.as_slice()),
        Err(e) => Err(playlist_fetch_error(&e)),
    }
}

// ---------------------------------------------------------------------------------------------
// The requested playlist
// ---------------------------------------------------------------------------------------------

/// What the requested playlist is: its URL and its contents, or the error to report. A body that is
/// no playlist is reported before a URL that is none.
pub open spec fn opened(
    playlist: Result<PlaylistView, ErrorView>,
    base: Result<Seq<char>, Seq<char>>,
) -> Result<(Seq<char>, PlaylistView), ErrorView> {
    match playlist {
        Err(e) => Err(e),
        Ok(pl) => match base {
            Err(reason) => Err(ErrorView::InvalidUrl(reason)),
            Ok(url) => Ok((url, pl)),
        },
    }
}

/// Puts the requested playlist and its URL together.
pub fn with_base(
    playlist: Result<ParsedPlaylist, AppError>,
    base: Result<Url, String>,
) -> (r: Result<(Url, ParsedPlaylist), AppError>)
    ensures
        (match r {
            Ok((url, pl)) => Ok((url@, pl@)),
            Err(e) => Err(e@),
        }) == opened(
            match playlist {
                Ok(pl) => Ok(pl@),
                Err(e) => Err(e@),
            },
            match base {
                Ok(url) => Ok(url@),
                Err(reason) => Err(reason@),
            },
        ),
{
    match playlist {
        Err(e) => Err(e),
        Ok(pl) => match base {
            Err(reason) => Err(AppError::InvalidUrl(reason)),
            Ok(url) => Ok((url, pl)),
        },
    }
}

/// The requested playlist, with its URL, from what fetching it brought.
pub fn open_manifest(upstream_url: &str, fetched: Result<Vec<u8>, AppError>) -> (r: Result<
    (Url, ParsedPlaylist),
    AppError,
>)
    ensures
        (match r {
            Ok((url, pl)) => Ok((url@, pl@)),
            Err(e) => Err(e@),
        }) == opened(fetched_playlist(fetch_view(fetched)), url_parsed(upstream_url@)),
{
    let playlist = read_fetched(fetched);
    with_base(playlist, Url::parse(upstream_url))
}

// ---------------------------------------------------------------------------------------------
// The playlists of a master playlist
// ---------------------------------------------------------------------------------------------

/// A variant's playlist has to be a media playlist.
pub open spec fn variant_media(playlist: Result<PlaylistView, ErrorView>) -> Result<MediaView, ErrorView> {
    match playlist {
        Ok(PlaylistView::Media(media)) => Ok(media),
        Ok(PlaylistView::Master(_)) => Err(ErrorView::ParseError("unexpected master playlist as variant"@)),
        Err(e) => Err(e),
    }
}

/// A rendition whose playlist is a master playlist has none.
pub open spec fn alternative_media(playlist: Result<PlaylistView, ErrorView>) -> Result<Option<MediaView>, ErrorView> {
    match playlist {
        Ok(PlaylistView::Media(media)) => Ok(Some(media)),
        Ok(PlaylistView::Master(_)) => Ok(None),
        Err(e) => Err(e),
    }
}

/// What stands for a variant, given its playlist.
pub fn as_variant(playlist: Result<ParsedPlaylist, AppError>) -> (r: Result<MediaPlaylist, AppError>)
    ensures
        (match r {
            Ok(media) => Ok(media@),
            Err(e) => Err(e@),
        }) == variant_media(
            match playlist {
                Ok(pl) => Ok(pl@),
                Err(e) => Err(e@),
            },
        ),
{
    match playlist {
        Ok(ParsedPlaylist::Media(media)) => Ok(media),
        Ok(ParsedPlaylist::Master(_)) => Err(
            AppError::ParseError("unexpected master playlist as variant".to_owned()),
        ),
        Err(e) => Err(e),
    }
}

/// What stands for an audio or subtitle rendition, given its playlist.
pub fn as_alternative(playlist: Result<ParsedPlaylist, AppError>) -> (r: Result<Option<MediaPlaylist>, AppError>)
    ensures
        (match r {
            Ok(Some(media)) => Ok(Some(media@)),
            Ok(None) => Ok(None),
            Err(e) => Err(e@),
        }) == alternative_media(
            match playlist {
                Ok(pl) => Ok(pl@),
                Err(e) => Err(e@),
            },
        ),
{
    match playlist {
        Ok(ParsedPlaylist::Media(media)) => Ok(Some(media)),
        Ok(ParsedPlaylist::Master(_)) => Ok(None),
        Err(e) => Err(e),
    }
}

/// How one variant came out: its URL and playlist, or the error to report. `target` is its URL, or
/// the reason why it has none.
pub open spec fn variant_result(
    target: Result<Seq<char>, Seq<char>>,
    fetched: Option<Result<Seq<u8>, ErrorView>>,
) -> Result<(Seq<char>, MediaView), ErrorView> {
    match target {
        Err(reason) => Err(ErrorView::InvalidUrl(reason)),
        Ok(url) => match variant_media(fetched_playlist(fetched->0)) {
            Ok(media) => Ok((url, media)),
            Err(e) => Err(e),
        },
    }
}

/// How one audio or subtitle rendition came out.
pub open spec fn alternative_result(
    target: Result<Seq<char>, Seq<char>>,
    fetched: Option<Result<Seq<u8>, ErrorView>>,
) -> Result<Option<(Seq<char>, MediaView)>, ErrorView> {
    match target {
        Err(reason) => Err(ErrorView::InvalidUrl(reason)),
        Ok(url) => match alternative_media(fetched_playlist(fetched->0)) {
            Ok(Some(media)) => Ok(Some((url, media))),
            Ok(None) => Ok(None),
            Err(e) => Err(e),
        },
    }
}

/// The first error among results.
pub open spec fn first_error<T>(results: Seq<Result<T, ErrorView>>) -> Option<ErrorView>
    decreases results.len(),
{
    if results.len() == 0 {
        None
    } else {
        match results[0] {
            Err(e) => Some(e),
            Ok(_) => first_error(results.skip(1)),
        }
    }
}

/// All results, if none is an error; otherwise the first error.
pub open spec fn gathered<T>(results: Seq<Result<T, ErrorView>>) -> Result<Seq<T>, ErrorView> {
    match first_error(results) {
        Some(e) => Err(e),
        None => Ok(Seq::new(results.len(), |i: int| results[i]->Ok_0)),
    }
}

proof fn lemma_no_error<T>(results: Seq<Result<T, ErrorView>>)
    requires
        forall|i: int| 0 <= i < results.len() ==> (#[trigger] results[i]) is Ok,
    ensures
        first_error(results) is None,
    decreases results.len(),
{
    if results.len() > 0 {
        assert(results[0] is Ok);
        assert forall|i: int| 0 <= i < results.skip(1).len() implies (#[trigger] results.skip(1)[i]) is Ok by {
            assert(results.skip(1)[i] == results[i + 1]);
        }
        lemma_no_error(results.skip(1));
    }
}

proof fn lemma_first_error<T>(results: Seq<Result<T, ErrorView>>, k: int)
    requires
        0 <= k < results.len(),
        results[k] is Err,
        forall|i: int| 0 <= i < k ==> (#[trigger] results[i]) is Ok,
    ensures
        first_error(results) == Some(results[k]->Err_0),
    decreases k,
{
    if k > 0 {
        assert(results[0] is Ok);
        assert forall|i: int| 0 <= i < k - 1 implies (#[trigger] results.skip(1)[i]) is Ok by {
            assert(results.skip(1)[i] == results[i + 1]);
        }
        assert(results.skip(1)[k - 1] == results[k]);
        lemma_first_error(results.skip(1), k - 1);
    }
}

/// What a list of targets says.
pub open spec fn target_views(targets: Seq<Result<Url, String>>) -> Seq<Result<Seq<char>, Seq<char>>> {
    Seq::new(
        targets.len(),
        |i: int|
            match targets[i] {
                Ok(url) => Ok(url@),
                Err(reason) => Err(reason@),
            },
    )
}

/// What a list of fetches says; there is none where there was nothing to fetch.
pub open spec fn fetch_views(fetched: Seq<Option<Result<Vec<u8>, AppError>>>) -> Seq<Option<Result<Seq<u8>, ErrorView>>> {
    Seq::new(
        fetched.len(),
        |i: int|
            match fetched[i] {
                Some(f) => Some(fetch_view(f)),
                None => None,
            },
    )
}

/// How all variants came out.
pub open spec fn variant_results(
    targets: Seq<Result<Seq<char>, Seq<char>>>,
    fetched: Seq<Option<Result<Seq<u8>, ErrorView>>>,
) -> Seq<Result<(Seq<char>, MediaView), ErrorView>> {
    Seq::new(targets.len(), |i: int| variant_result(targets[i], fetched[i]))
}

/// How all renditions of one kind came out.
pub open spec fn alternative_results(
    targets: Seq<Result<Seq<char>, Seq<char>>>,
    fetched: Seq<Option<Result<Seq<u8>, ErrorView>>>,
) -> Seq<Result<Option<(Seq<char>, MediaView)>, ErrorView>> {
    Seq::new(targets.len(), |i: int| alternative_result(targets[i], fetched[i]))
}

/// Every target with a URL was fetched.
pub open spec fn all_fetched(
    targets: Seq<Result<Seq<char>, Seq<char>>>,
    fetched: Seq<Option<Result<Seq<u8>, ErrorView>>>,
) -> bool {
    &&& fetched.len() == targets.len()
    &&& forall|i: int|
        #![trigger targets[i]]
        #![trigger fetched[i]]
        0 <= i < targets.len() && targets[i] is Ok ==> fetched[i] is Some
}

/// What a list of fetched variants says.
pub open spec fn playlist_views(list: Seq<(Url, MediaPlaylist)>) -> Seq<(Seq<char>, MediaView)> {
    Seq::new(list.len(), |i: int| (list[i].0@, list[i].1@))
}

/// What the URL and playlist of a rendition say.
pub open spec fn opt_playlist_view(found: Option<(Url, MediaPlaylist)>) -> Option<(Seq<char>, MediaView)> {
    match found {
        Some((url, media)) => Some((url@, media@)),
        None => None,
    }
}

/// What a list of fetched renditions says.
pub open spec fn opt_playlist_views(list: Seq<Option<(Url, MediaPlaylist)>>) -> Seq<Option<(Seq<char>, MediaView)>> {
    Seq::new(list.len(), |i: int| opt_playlist_view(list[i]))
}

fn gather_variants(targets: &Vec<Result<Url, String>>, fetched: Vec<Option<Result<Vec<u8>, AppError>>>) -> (r: Result<
    Vec<(Url, MediaPlaylist)>,
    AppError,
>)
    requires
        all_fetched(target_views(targets@), fetch_views(fetched@)),
    ensures
        (match r {
            Ok(list) => Ok(playlist_views(list@)),
            Err(e) => Err(e@),
        }) == gathered(variant_results(target_views(targets@), fetch_views(fetched@))),
{
    let ghost all = fetched@;
    let ghost views = fetch_views(fetched@);
    let ghost results = variant_results(target_views(targets@), views);
    let mut list: Vec<(Url, MediaPlaylist)> = Vec::new();
    let n: usize = targets.len();
    let mut i: usize = 0;
    for one in it: fetched
        invariant
            it.seq() == all,
            views == fetch_views(all),
            results == variant_results(target_views(targets@), views),
            all_fetched(target_views(targets@), views),
            all.len() == n,
            n == targets@.len(),
            i == it.index(),
            list@.len() == i,
            forall|j: int|
                0 <= j < i ==> #[trigger] results[j] == Ok::<(Seq<char>, MediaView), ErrorView>(
                    (list@[j].0@, list@[j].1@),
                ),
    {
        proof {
            assert(results[i as int] == variant_result(target_views(targets@)[i as int], views[i as int]));
            assert(one == all[i as int]);
        }
        match &targets[i] {
            Err(reason) => {
                proof {
                    lemma_first_error(results, i as int);
                }
                return Err(AppError::InvalidUrl(reason.clone()));
            },
            Ok(url) => {
                assert(target_views(targets@)[i as int] is Ok);
                assert(one is Some);
                if let Some(f) = one {
                    match as_variant(read_fetched(f)) {
                        Err(e) => {
                            proof {
                                lemma_first_error(results, i as int);
                            }
                            return Err(e);
                        },
                        Ok(media) => {
                            list.push((url.copy(), media));
                        },
                    }
                }
            },
        }
        i += 1;
    }
    proof {
        lemma_no_error(results);
        assert(playlist_views(list@) =~= Seq::new(results.len(), |i: int| results[i]->Ok_0));
    }
    Ok(list)
}

fn gather_alternatives(
    targets: &Vec<Result<Url, String>>,
    fetched: Vec<Option<Result<Vec<u8>, AppError>>>,
) -> (r: Result<Vec<Option<(Url, MediaPlaylist)>>, AppError>)
    requires
        all_fetched(target_views(targets@), fetch_views(fetched@)),
    ensures
        (match r {
            Ok(list) => Ok(opt_playlist_views(list@)),
            Err(e) => Err(e@),
        }) == gathered(alternative_results(target_views(targets@), fetch_views(fetched@))),
{
    let ghost all = fetched@;
    let ghost views = fetch_views(fetched@);
    let ghost results = alternative_results(target_views(targets@), views);
    let mut list: Vec<Option<(Url, MediaPlaylist)>> = Vec::new();
    let n: usize = targets.len();
    let mut i: usize = 0;
    for one in it: fetched
        invariant
            it.seq() == all,
            views == fetch_views(all),
            results == alternative_results(target_views(targets@), views),
            all_fetched(target_views(targets@), views),
            all.len() == n,
            n == targets@.len(),
            i == it.index(),
            list@.len() == i,
            forall|j: int|
                0 <= j < i ==> #[trigger] results[j] == Ok::<Option<(Seq<char>, MediaView)>, ErrorView>(
                    opt_playlist_view(list@[j]),
                ),
    {
        proof {
            assert(results[i as int] == alternative_result(target_views(targets@)[i as int], views[i as int]));
            assert(one == all[i as int]);
        }
        match &targets[i] {
            Err(reason) => {
                proof {
                    lemma_first_error(results, i as int);
                }
                return Err(AppError::InvalidUrl(reason.clone()));
            },
            Ok(url) => {
                assert(target_views(targets@)[i as int] is Ok);
                assert(one is Some);
                if let Some(f) = one {
                    match as_alternative(read_fetched(f)) {
                        Err(e) => {
                            proof {
                                lemma_first_error(results, i as int);
                            }
                            return Err(e);
                        },
                        Ok(Some(media)) => {
                            list.push(Some((url.copy(), media)));
                        },
                        Ok(None) => {
                            list.push(None);
                        },
                    }
                }
            },
        }
        i += 1;
    }
    proof {
        lemma_no_error(results);
        assert(opt_playlist_views(list@) =~= Seq::new(results.len(), |i: int| results[i]->Ok_0));
    }
    Ok(list)
}

/// The renditions that have a playlist of their own.
pub open spec fn with_uri(alternatives: Seq<AlternativeView>) -> Seq<AlternativeView>
    decreases alternatives.len(),
{
    if alternatives.len() == 0 {
        Seq::empty()
    } else if alternatives.last().uri is Some {
        with_uri(alternatives.drop_last()).push(alternatives.last())
    } else {
        with_uri(alternatives.drop_last())
    }
}

fn keep_with_uri<'a>(alternatives: Vec<&'a AlternativeMedia>) -> (r: Vec<&'a AlternativeMedia>)
    ensures
        alternative_views(r@) == with_uri(alternative_views(alternatives@)),
{
    let ghost views = alternative_views(alternatives@);
    let mut r: Vec<&'a AlternativeMedia> = Vec::new();
    let mut i: usize = 0;
    assert(alternative_views(r@) == with_uri(views.take(0)));
    while i < alternatives.len()
        invariant
            views == alternative_views(alternatives@),
            0 <= i <= alternatives@.len(),
            alternative_views(r@) == with_uri(views.take(i as int)),
        decreases alternatives@.len() - i,
    {
        let alt = alternatives[i];
        assert(views.take(i + 1).drop_last() =~= views.take(i as int));
        assert(views.take(i + 1).last() == alt@);
        let ghost before = r@;
        if alt.uri.is_some() {
            r.push(alt);
            assert(alternative_views(r@) =~= alternative_views(before).push(alt@));
        }
        i += 1;
    }
    assert(views.take(views.len() as int) =~= views);
    r
}

/// The audio renditions of a master playlist that have a playlist of their own.
pub fn audio_renditions(master: &MasterPlaylist) -> (r: Vec<&AlternativeMedia>)
    ensures
        alternative_views(r@) == with_uri(of_type(master@.alternatives, "AUDIO"@)),
{
    keep_with_uri(audio_alternatives(master))
}

/// The subtitle renditions of a master playlist that have a playlist of their own.
pub fn subtitle_renditions(master: &MasterPlaylist) -> (r: Vec<&AlternativeMedia>)
    ensures
        alternative_views(r@) == with_uri(of_type(master@.alternatives, "SUBTITLES"@)),
{
    keep_with_uri(subtitle_alternatives(master))
}

// ---------------------------------------------------------------------------------------------
// What the manifest is generated from
// ---------------------------------------------------------------------------------------------

/// A numbered name: a letter and the number, counted from one.
pub open spec fn numbered(letter: char, i: nat) -> Seq<char> {
    seq![letter] + decimal(i + 1)
}

fn number(letter: char, i: usize) -> (r: String)
    ensures
        r@ == numbered(letter, i as nat),
{
    let mut r = String::new();
    r.push(letter);
    push_decimal(&mut r, i as u128 + 1);
    assert(r@ == numbered(letter, i as nat));
    r
}

/// The video renditions of a master playlist, with the URLs and playlists of its variants.
pub open spec fn video_views(variants: Seq<VariantView>, playlists: Seq<(Seq<char>, MediaView)>) -> Seq<RepView> {
    Seq::new(
        if variants.len() <= playlists.len() {
            variants.len()
        } else {
            playlists.len()
        },
        |i: int|
            RepView {
                id: numbered('v', i as nat),
                variant: variants[i],
                media: playlists[i].1,
                url: playlists[i].0,
                is_fmp4: uses_fmp4(playlists[i].1),
            },
    )
}

/// The URL and playlist of a rendition, if there are any.
pub open spec fn nth_playlist(playlists: Seq<Option<(Seq<char>, MediaView)>>, i: int) -> Option<(Seq<char>, MediaView)> {
    if i < playlists.len() {
        playlists[i]
    } else {
        None
    }
}

/// The audio or subtitle renditions, with their URLs and playlists.
pub open spec fn rendition_views(
    letter: char,
    alternatives: Seq<AlternativeView>,
    playlists: Seq<Option<(Seq<char>, MediaView)>>,
) -> Seq<AltRepView> {
    Seq::new(
        alternatives.len(),
        |i: int|
            AltRepView {
                id: numbered(letter, i as nat),
                alt: alternatives[i],
                media: match nth_playlist(playlists, i) {
                    Some((_, media)) => Some(media),
                    None => None,
                },
                url: match nth_playlist(playlists, i) {
                    Some((url, _)) => Some(url),
                    None => None,
                },
                is_fmp4: match nth_playlist(playlists, i) {
                    Some((_, media)) => uses_fmp4(media),
                    None => false,
                },
            },
    )
}

fn video_reps<'a>(master: &'a MasterPlaylist, playlists: &'a Vec<(Url, MediaPlaylist)>) -> (r: Vec<
    RepresentationData<'a>,
>)
    ensures
        crate::dash::rep_views(r@) == video_views(master@.variants, playlist_views(playlists@)),
{
    let ghost all = video_views(master@.variants, playlist_views(playlists@));
    let mut r: Vec<RepresentationData<'a>> = Vec::new();
    let mut i: usize = 0;
    while i < master.variants.len() && i < playlists.len()
        invariant
            all == video_views(master@.variants, playlist_views(playlists@)),
            0 <= i <= master.variants@.len(),
            i <= playlists@.len(),
            r@.len() == i,
            forall|j: int| 0 <= j < i ==> (#[trigger] r@[j])@ == all[j],
        decreases master.variants@.len() - i,
    {
        let media = &playlists[i].1;
        let rep = RepresentationData {
            id: number('v', i),
            variant: &master.variants[i],
            media_playlist: media,
            playlist_url: playlists[i].0.copy(),
            is_fmp4: is_fmp4(media),
        };
        assert(rep@ == all[i as int]);
        r.push(rep);
        i += 1;
    }
    assert(crate::dash::rep_views(r@) =~= all);
    r
}

fn alt_reps<'a>(
    letter: char,
    alternatives: &Vec<&'a AlternativeMedia>,
    playlists: &'a Vec<Option<(Url, MediaPlaylist)>>,
) -> (r: Vec<AltRepData<'a>>)
    ensures
        crate::dash::alt_views(r@) == rendition_views(
            letter,
            alternative_views(alternatives@),
            opt_playlist_views(playlists@),
        ),
{
    let ghost all = rendition_views(letter, alternative_views(alternatives@), opt_playlist_views(playlists@));
    let mut r: Vec<AltRepData<'a>> = Vec::new();
    let mut i: usize = 0;
    while i < alternatives.len()
        invariant
            all == rendition_views(letter, alternative_views(alternatives@), opt_playlist_views(playlists@)),
            0 <= i <= alternatives@.len(),
            r@.len() == i,
            forall|j: int| 0 <= j < i ==> (#[trigger] r@[j])@ == all[j],
        decreases alternatives@.len() - i,
    {
        let id = number(letter, i);
        let alt = alternatives[i];
        let mut rep = AltRepData { id, alt, media_playlist: None, playlist_url: None, is_fmp4: false };
        if i < playlists.len() {
            assert(opt_playlist_views(playlists@)[i as int] == opt_playlist_view(playlists@[i as int]));
            if let Some(found) = &playlists[i] {
                rep.media_playlist = Some(&found.1);
                rep.playlist_url = Some(found.0.copy());
                rep.is_fmp4 = is_fmp4(&found.1);
            }
        }
        assert(rep@ == all[i as int]);
        r.push(rep);
        i += 1;
    }
    assert(crate::dash::alt_views(r@) =~= all);
    r
}

/// Builds what the manifest of a master playlist is generated from: its variants with their
/// playlists, and its audio and subtitle renditions with theirs.
pub fn master_params<'a>(
    master: &'a MasterPlaylist,
    variants: &'a Vec<(Url, MediaPlaylist)>,
    audio: &'a Vec<Option<(Url, MediaPlaylist)>>,
    subtitles: &'a Vec<Option<(Url, MediaPlaylist)>>,
    proxy_base: &'a str,
    transmux_ts: bool,
) -> (r: MpdParams<'a>)
    ensures
        r@ == (MpdView {
            video: video_views(master@.variants, playlist_views(variants@)),
            audio: rendition_views(
                'a',
                with_uri(of_type(master@.alternatives, "AUDIO"@)),
                opt_playlist_views(audio@),
            ),
            subtitles: rendition_views(
                's',
                with_uri(of_type(master@.alternatives, "SUBTITLES"@)),
                opt_playlist_views(subtitles@),
            ),
            base: proxy_base@,
            transmux: transmux_ts,
        }),
{
    let audio_alts = audio_renditions(master);
    let subtitle_alts = subtitle_renditions(master);
    MpdParams {
        video_reps: video_reps(master, variants),
        audio_reps: alt_reps('a', &audio_alts, audio),
        subtitle_reps: alt_reps('s', &subtitle_alts, subtitles),
        proxy_base,
        transmux_ts,
    }
}

/// A variant of which nothing is known but its URI and bandwidth.
pub open spec fn dummy_variant(uri: Seq<char>, bandwidth: nat) -> VariantView {
    VariantView { uri, bandwidth, codecs: None, resolution: None }
}

/// Build a minimal `VariantStream` for use when there is no master playlist.
pub fn make_dummy_variant(uri: String, bandwidth: u64) -> (r: VariantStream)
    ensures
        r@ == dummy_variant(uri@, bandwidth as nat),
{
    VariantStream { uri, bandwidth, codecs: None, resolution: None }
}

/// Builds what the manifest of a media playlist, requested without a master playlist, is generated
/// from: a single video rendition.
pub fn media_params<'a>(
    variant: &'a VariantStream,
    media: &'a MediaPlaylist,
    url: Url,
    proxy_base: &'a str,
    transmux_ts: bool,
) -> (r: MpdParams<'a>)
    ensures
        r@ == (MpdView {
            video: seq![
                RepView {
                    id: "v1"@,
                    variant: variant@,
                    media: media@,
                    url: url@,
                    is_fmp4: uses_fmp4(media@),
                },
            ],
            audio: Seq::empty(),
            subtitles: Seq::empty(),
            base: proxy_base@,
            transmux: transmux_ts,
        }),
{
    let rep = RepresentationData {
        id: "v1".to_owned(),
        variant,
        media_playlist: media,
        playlist_url: url,
        is_fmp4: is_fmp4(media),
    };
    let mut video_reps: Vec<RepresentationData<'a>> = Vec::new();
    video_reps.push(rep);
    let r = MpdParams { video_reps, audio_reps: Vec::new(), subtitle_reps: Vec::new(), proxy_base, transmux_ts };
    assert(r@.video =~= seq![rep@]);
    assert(r@.audio =~= Seq::empty());
    assert(r@.subtitles =~= Seq::empty());
    r
}

// ---------------------------------------------------------------------------------------------
// A manifest request
// ---------------------------------------------------------------------------------------------

/// A manifest request that waits for playlists to be fetched.
#[derive(Debug)]
pub enum ManifestRequest {
    /// The requested playlist is to be fetched.
    Opening { upstream_url: String },
    /// The playlists of a master playlist's variants are to be fetched.
    Variants { base_url: Url, master: MasterPlaylist, targets: Vec<Result<Url, String>> },
    /// The playlists of the audio and subtitle renditions are to be fetched.
    Alternatives {
        master: MasterPlaylist,
        variants: Vec<(Url, MediaPlaylist)>,
        audio: Vec<Result<Url, String>>,
        subtitles: Vec<Result<Url, String>>,
    },
}

/// All that the manifest shows.
#[derive(Debug)]
pub enum Manifest {
    Master {
        master: MasterPlaylist,
        variants: Vec<(Url, MediaPlaylist)>,
        audio: Vec<Option<(Url, MediaPlaylist)>>,
        subtitles: Vec<Option<(Url, MediaPlaylist)>>,
    },
    /// A media playlist that was requested without a master playlist.
    Media { variant: VariantStream, media: MediaPlaylist, url: Url },
}

/// How a manifest request goes on.
#[derive(Debug)]
pub enum Step {
    Fetch(ManifestRequest),
    Ready(Manifest),
    Failed(AppError),
}

/// What a [`ManifestRequest`] says.
pub enum RequestView {
    Opening(Seq<char>),
    Variants(Seq<char>, MasterView, Seq<Result<Seq<char>, Seq<char>>>),
    Alternatives(
        MasterView,
        Seq<(Seq<char>, MediaView)>,
        Seq<Result<Seq<char>, Seq<char>>>,
        Seq<Result<Seq<char>, Seq<char>>>,
    ),
}

/// What a [`Manifest`] says.
pub enum ManifestView {
    Master(
        MasterView,
        Seq<(Seq<char>, MediaView)>,
        Seq<Option<(Seq<char>, MediaView)>>,
        Seq<Option<(Seq<char>, MediaView)>>,
    ),
    Media(VariantView, MediaView, Seq<char>),
}

/// What a [`Step`] says.
pub enum StepView {
    Fetch(RequestView),
    Ready(ManifestView),
    Failed(ErrorView),
}

impl View for ManifestRequest {
    type V = RequestView;

    open spec fn view(&self) -> RequestView {
        match self {
            ManifestRequest::Opening { upstream_url } => RequestView::Opening(upstream_url@),
            ManifestRequest::Variants { base_url, master, targets } => RequestView::Variants(
                base_url@,
                master@,
                target_views(targets@),
            ),
            ManifestRequest::Alternatives { master, variants, audio, subtitles } => RequestView::Alternatives(
                master@,
                playlist_views(variants@),
                target_views(audio@),
                target_views(subtitles@),
            ),
        }
    }
}

impl View for Manifest {
    type V = ManifestView;

    open spec fn view(&self) -> ManifestView {
        match self {
            Manifest::Master { master, variants, audio, subtitles } => ManifestView::Master(
                master@,
                playlist_views(variants@),
                opt_playlist_views(audio@),
                opt_playlist_views(subtitles@),
            ),
            Manifest::Media { variant, media, url } => ManifestView::Media(variant@, media@, url@),
        }
    }
}

impl View for Step {
    type V = StepView;

    open spec fn view(&self) -> StepView {
        match self {
            Step::Fetch(request) => StepView::Fetch(request@),
            Step::Ready(manifest) => StepView::Ready(manifest@),
            Step::Failed(e) => StepView::Failed(e@),
        }
    }
}

/// The URLs of a master playlist's variants.
pub open spec fn variant_targets(base: Seq<char>, variants: Seq<VariantView>) -> Seq<Result<Seq<char>, Seq<char>>> {
    Seq::new(variants.len(), |i: int| resolved(base, variants[i].uri))
}

/// The URLs of renditions that have a playlist of their own.
pub open spec fn alternative_targets(base: Seq<char>, alternatives: Seq<AlternativeView>) -> Seq<
    Result<Seq<char>, Seq<char>>,
> {
    Seq::new(alternatives.len(), |i: int| resolved(base, alternatives[i].uri->0))
}

/// The audio renditions of a master playlist that have a playlist of their own.
pub open spec fn audio_of(master: MasterView) -> Seq<AlternativeView> {
    with_uri(of_type(master.alternatives, "AUDIO"@))
}

/// The subtitle renditions of a master playlist that have a playlist of their own.
pub open spec fn subtitles_of(master: MasterView) -> Seq<AlternativeView> {
    with_uri(of_type(master.alternatives, "SUBTITLES"@))
}

/// The URLs that are to be fetched, in order: `None` where a URI cannot be resolved.
pub open spec fn wanted(targets: Seq<Result<Seq<char>, Seq<char>>>) -> Seq<Option<Seq<char>>> {
    Seq::new(
        targets.len(),
        |i: int|
            match targets[i] {
                Ok(url) => Some(url),
                Err(_) => None,
            },
    )
}

impl RequestView {
    /// The targets that the request waits for.
    pub open spec fn pending(self) -> Seq<Result<Seq<char>, Seq<char>>> {
        match self {
            RequestView::Opening(url) => seq![Ok(url)],
            RequestView::Variants(_, _, targets) => targets,
            RequestView::Alternatives(_, _, audio, subtitles) => audio + subtitles,
        }
    }

    /// How the request goes on when what it waits for was fetched.
    pub open spec fn next(self, fetched: Seq<Option<Result<Seq<u8>, ErrorView>>>) -> StepView {
        match self {
            RequestView::Opening(url) => match opened(fetched_playlist(fetched[0]->0), url_parsed(url)) {
                Err(e) => StepView::Failed(e),
                Ok((base, PlaylistView::Media(media))) => StepView::Ready(
                    ManifestView::Media(dummy_variant(url, 0), media, base),
                ),
                Ok((base, PlaylistView::Master(master))) => StepView::Fetch(
                    RequestView::Variants(base, master, variant_targets(base, master.variants)),
                ),
            },
            RequestView::Variants(base, master, targets) => match gathered(variant_results(targets, fetched)) {
                Err(e) => StepView::Failed(e),
                Ok(variants) => StepView::Fetch(
                    RequestView::Alternatives(
                        master,
                        variants,
                        alternative_targets(base, audio_of(master)),
                        alternative_targets(base, subtitles_of(master)),
                    ),
                ),
            },
            RequestView::Alternatives(master, variants, audio, subtitles) => {
                let n = audio.len() as int;
                match gathered(alternative_results(audio, fetched.take(n))) {
                    Err(e) => StepView::Failed(e),
                    Ok(a) => match gathered(alternative_results(subtitles, fetched.skip(n))) {
                        Err(e) => StepView::Failed(e),
                        Ok(s) => StepView::Ready(ManifestView::Master(master, variants, a, s)),
                    },
                }
            },
        }
    }
}

fn resolve_variants(base_url: &Url, master: &MasterPlaylist) -> (r: Vec<Result<Url, String>>)
    ensures
        target_views(r@) == variant_targets(base_url@, master@.variants),
{
    let ghost all = variant_targets(base_url@, master@.variants);
    let mut r: Vec<Result<Url, String>> = Vec::new();
    let mut i: usize = 0;
    while i < master.variants.len()
        invariant
            all == variant_targets(base_url@, master@.variants),
            0 <= i <= master.variants@.len(),
            r@.len() == i,
            forall|j: int| 0 <= j < i ==> #[trigger] target_views(r@)[j] == all[j],
        decreases master.variants@.len() - i,
    {
        let ghost before = r@;
        let target = resolve_segment_url(base_url, master.variants[i].uri.as_str());
        r.push(target);
        assert forall|j: int| 0 <= j < i + 1 implies #[trigger] target_views(r@)[j] == all[j] by {
            if j < i {
                assert(target_views(before)[j] == all[j]);
                assert(r@[j] == before[j]);
            }
        }
        i += 1;
    }
    assert(target_views(r@) =~= all);
    r
}

fn resolve_alternatives(base_url: &Url, alternatives: &Vec<&AlternativeMedia>) -> (r: Vec<Result<Url, String>>)
    requires
        forall|i: int| 0 <= i < alternatives@.len() ==> (#[trigger] alternative_views(alternatives@)[i]).uri is Some,
    ensures
        target_views(r@) == alternative_targets(base_url@, alternative_views(alternatives@)),
{
    let ghost views = alternative_views(alternatives@);
    let ghost all = alternative_targets(base_url@, views);
    let mut r: Vec<Result<Url, String>> = Vec::new();
    let mut i: usize = 0;
    while i < alternatives.len()
        invariant
            views == alternative_views(alternatives@),
            all == alternative_targets(base_url@, views),
            forall|i: int| 0 <= i < alternatives@.len() ==> (#[trigger] views[i]).uri is Some,
            0 <= i <= alternatives@.len(),
            r@.len() == i,
            forall|j: int| 0 <= j < i ==> #[trigger] target_views(r@)[j] == all[j],
        decreases alternatives@.len() - i,
    {
        let ghost before = r@;
        assert(views[i as int] == alternatives@[i as int]@);
        assert(views[i as int].uri is Some);
        if let Some(uri) = &alternatives[i].uri {
            let target = resolve_segment_url(base_url, uri.as_str());
            r.push(target);
        }
        assert forall|j: int| 0 <= j < i + 1 implies #[trigger] target_views(r@)[j] == all[j] by {
            if j < i {
                assert(target_views(before)[j] == all[j]);
                assert(r@[j] == before[j]);
            }
        }
        i += 1;
    }
    assert(target_views(r@) =~= all);
    r
}

proof fn lemma_with_uri(alternatives: Seq<AlternativeView>)
    ensures
        forall|i: int| 0 <= i < with_uri(alternatives).len() ==> (#[trigger] with_uri(alternatives)[i]).uri is Some,
    decreases alternatives.len(),
{
    if alternatives.len() > 0 {
        lemma_with_uri(alternatives.drop_last());
        let kept = with_uri(alternatives.drop_last());
        let all = with_uri(alternatives);
        assert forall|i: int| 0 <= i < all.len() implies (#[trigger] all[i]).uri is Some by {
            if i < kept.len() {
                assert(all[i] == kept[i]);
            }
        }
    }
}

fn push_wanted(out: &mut Vec<Option<String>>, targets: &Vec<Result<Url, String>>)
    ensures
        opt_texts(final(out)@) == opt_texts(old(out)@) + wanted(target_views(targets@)),
{
    let ghost start = opt_texts(out@);
    let ghost all = wanted(target_views(targets@));
    let mut i: usize = 0;
    assert(opt_texts(out@) =~= start + all.take(0));
    while i < targets.len()
        invariant
            all == wanted(target_views(targets@)),
            0 <= i <= targets@.len(),
            opt_texts(out@) == start + all.take(i as int),
        decreases targets@.len() - i,
    {
        let ghost before = out@;
        let one: Option<String> = match &targets[i] {
            Ok(url) => Some(url.as_str().to_owned()),
            Err(_) => None,
        };
        let ghost text = opt_text(one);
        assert(text == all[i as int]);
        out.push(one);
        assert(opt_texts(out@) =~= opt_texts(before).push(text));
        assert(all.take(i + 1) =~= all.take(i as int).push(text));
        assert(opt_texts(out@) =~= start + all.take(i + 1));
        i += 1;
    }
    assert(all.take(all.len() as int) =~= all);
}

/// Splits what was fetched into the first `n` and the rest.
fn split_fetched(fetched: Vec<Option<Result<Vec<u8>, AppError>>>, n: usize) -> (r: (
    Vec<Option<Result<Vec<u8>, AppError>>>,
    Vec<Option<Result<Vec<u8>, AppError>>>,
))
    requires
        n <= fetched@.len(),
    ensures
        r.0@ == fetched@.take(n as int),
        r.1@ == fetched@.skip(n as int),
{
    let mut first = fetched;
    let rest = first.split_off(n);
    (first, rest)
}

impl ManifestRequest {
    /// Starts a manifest request.
    pub fn start(upstream_url: String) -> (r: ManifestRequest)
        ensures
            r@ == RequestView::Opening(upstream_url@),
    {
        ManifestRequest::Opening { upstream_url }
    }

    /// The URLs that are to be fetched next; there is `None` for a playlist whose URI cannot be
    /// resolved.
    pub fn targets(&self) -> (r: Vec<Option<String>>)
        ensures
            opt_texts(r@) == wanted(self@.pending()),
    {
        let mut out: Vec<Option<String>> = Vec::new();
        match self {
            ManifestRequest::Opening { upstream_url } => {
                out.push(Some(upstream_url.clone()));
            },
            ManifestRequest::Variants { targets, .. } => {
                push_wanted(&mut out, targets);
            },
            ManifestRequest::Alternatives { audio, subtitles, .. } => {
                push_wanted(&mut out, audio);
                push_wanted(&mut out, subtitles);
            },
        }
        assert(opt_texts(out@) =~= wanted(self@.pending()));
        out
    }

    /// Goes on with what was fetched: for each target that has a URL, the body or the failure.
    pub fn advance(self, fetched: Vec<Option<Result<Vec<u8>, AppError>>>) -> (r: Step)
        requires
            all_fetched(self@.pending(), fetch_views(fetched@)),
        ensures
            r@ == self@.next(fetch_views(fetched@)),
    {
        let ghost views = fetch_views(fetched@);
        match self {
            ManifestRequest::Opening { upstream_url } => {
                let mut fetched = fetched;
                assert(self@.pending()[0] is Ok);
                assert(views[0] is Some);
                let body = match fetched.pop() {
                    Some(Some(body)) => body,
                    _ => Ok(Vec::new()),
                };
                assert(fetch_view(body) == views[0]->0);
                match open_manifest(upstream_url.as_str(), body) {
                    Err(e) => Step::Failed(e),
                    Ok((url, ParsedPlaylist::Media(media))) => {
                        let variant = make_dummy_variant(upstream_url, 0);
                        Step::Ready(Manifest::Media { variant, media, url })
                    },
                    Ok((base_url, ParsedPlaylist::Master(master))) => {
                        let targets = resolve_variants(&base_url, &master);
                        Step::Fetch(ManifestRequest::Variants { base_url, master, targets })
                    },
                }
            },
            ManifestRequest::Variants { base_url, master, targets } => {
                match gather_variants(&targets, fetched) {
                    Err(e) => Step::Failed(e),
                    Ok(variants) => {
                        proof {
                            lemma_with_uri(of_type(master@.alternatives, "AUDIO"@));
                            lemma_with_uri(of_type(master@.alternatives, "SUBTITLES"@));
                        }
                        let audio = resolve_alternatives(&base_url, &audio_renditions(&master));
                        let subtitles = resolve_alternatives(&base_url, &subtitle_renditions(&master));
                        Step::Fetch(ManifestRequest::Alternatives { master, variants, audio, subtitles })
                    },
                }
            },
            ManifestRequest::Alternatives { master, variants, audio, subtitles } => {
                let (audio_fetched, subtitle_fetched) = split_fetched(fetched, audio.len());
                proof {
                    let n = audio@.len() as int;
                    let a = target_views(audio@);
                    let s = target_views(subtitles@);
                    assert(fetch_views(audio_fetched@) =~= views.take(n));
                    assert(fetch_views(subtitle_fetched@) =~= views.skip(n));
                    assert forall|i: int| 0 <= i < a.len() && a[i] is Ok implies views.take(n)[i] is Some by {
                        assert((a + s)[i] == a[i]);
                    }
                    assert forall|i: int| 0 <= i < s.len() && s[i] is Ok implies views.skip(n)[i] is Some by {
                        assert((a + s)[n + i] == s[i]);
                    }
                }
                match gather_alternatives(&audio, audio_fetched) {
                    Err(e) => Step::Failed(e),
                    Ok(audio) => match gather_alternatives(&subtitles, subtitle_fetched) {
                        Err(e) => Step::Failed(e),
                        Ok(subtitles) => Step::Ready(Manifest::Master { master, variants, audio, subtitles }),
                    },
                }
            },
        }
    }
}

/// What the manifest is generated from.
pub open spec fn manifest_params(manifest: ManifestView, base: Seq<char>, transmux: bool) -> MpdView {
    match manifest {
        ManifestView::Master(master, variants, audio, subtitles) => MpdView {
            video: video_views(master.variants, variants),
            audio: rendition_views('a', audio_of(master), audio),
            subtitles: rendition_views('s', subtitles_of(master), subtitles),
            base,
            transmux,
        },
        ManifestView::Media(variant, media, url) => MpdView {
            video: seq![RepView { id: "v1"@, variant, media, url, is_fmp4: uses_fmp4(media) }],
            audio: Seq::empty(),
            subtitles: Seq::empty(),
            base,
            transmux,
        },
    }
}

impl Manifest {
    /// What the manifest is generated from.
    pub fn params<'a>(&'a self, proxy_base: &'a str, transmux_ts: bool) -> (r: MpdParams<'a>)
        ensures
            r@ == manifest_params(self@, proxy_base@, transmux_ts),
    {
        match self {
            Manifest::Master { master, variants, audio, subtitles } => master_params(
                master,
                variants,
                audio,
                subtitles,
                proxy_base,
                transmux_ts,
            ),
            Manifest::Media { variant, media, url } => media_params(
                variant,
                media,
                url.copy(),
                proxy_base,
                transmux_ts,
            ),
        }
    }
}

} // verus!
