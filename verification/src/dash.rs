//! DASH MPD generation.

use vstd::prelude::*;
use crate::clock::{utc_formatted, utc_now, utc_pattern, utc_text, MAX_UTC_MILLIS, MIN_UTC_MILLIS};
use crate::hls::{
    first_key, first_key_uri, AlternativeMedia, AlternativeView, MediaPlaylist, MediaView, SegmentView, VariantStream,
    VariantView,
};
use crate::rounding::{duration_millis, lemma_rounded_bounds, millis, round_to, rounded, DOUBLE_LIMIT};
use crate::text::{decimal, opt_text, push_decimal};
use crate::url_utils::{
    proxied, proxy_init_from_playlist_url, proxy_init_url, proxy_ts_pl_url, proxy_url, resolve_segment_url, resolved,
    segment_params, xml_escape, xml_escaped, Url,
};

verus! {

/// All data needed to generate one Representation.
pub struct RepresentationData<'a> {
    pub id: String,
    pub variant: &'a VariantStream,
    pub media_playlist: &'a MediaPlaylist,
    pub playlist_url: Url,
    pub is_fmp4: bool,
}

/// All data needed to generate one audio/subtitle AdaptationSet.
pub struct AltRepData<'a> {
    pub id: String,
    pub alt: &'a AlternativeMedia,
    pub media_playlist: Option<&'a MediaPlaylist>,
    pub playlist_url: Option<Url>,
    pub is_fmp4: bool,
}

/// Top-level parameters for MPD generation.
pub struct MpdParams<'a> {
    pub video_reps: Vec<RepresentationData<'a>>,
    pub audio_reps: Vec<AltRepData<'a>>,
    pub subtitle_reps: Vec<AltRepData<'a>>,
    pub proxy_base: &'a str,
    pub transmux_ts: bool,
}

/// What a [`RepresentationData`] says.
#[verifier::ext_equal]
pub struct RepView {
    pub id: Seq<char>,
    pub variant: VariantView,
    pub media: MediaView,
    pub url: Seq<char>,
    pub is_fmp4: bool,
}

/// What an [`AltRepData`] says.
#[verifier::ext_equal]
pub struct AltRepView {
    pub id: Seq<char>,
    pub alt: AlternativeView,
    pub media: Option<MediaView>,
    pub url: Option<Seq<char>>,
    pub is_fmp4: bool,
}

/// What an [`MpdParams`] says.
#[verifier::ext_equal]
pub struct MpdView {
    pub video: Seq<RepView>,
    pub audio: Seq<AltRepView>,
    pub subtitles: Seq<AltRepView>,
    pub base: Seq<char>,
    pub transmux: bool,
}

impl<'a> View for RepresentationData<'a> {
    type V = RepView;

    open spec fn view(&self) -> RepView {
        RepView {
            id: self.id@,
            variant: self.variant@,
            media: self.media_playlist@,
            url: self.playlist_url@,
            is_fmp4: self.is_fmp4,
        }
    }
}

impl<'a> View for AltRepData<'a> {
    type V = AltRepView;

    open spec fn view(&self) -> AltRepView {
        AltRepView {
            id: self.id@,
            alt: self.alt@,
            media: match self.media_playlist {
                Some(media) => Some(media@),
                None => None,
            },
            url: match self.playlist_url {
                Some(url) => Some(url@),
                None => None,
            },
            is_fmp4: self.is_fmp4,
        }
    }
}

/// What a list of video renditions says.
pub open spec fn rep_views(reps: Seq<RepresentationData<'_>>) -> Seq<RepView> {
    Seq::new(reps.len(), |i: int| reps[i]@)
}

/// What a list of alternative renditions says.
pub open spec fn alt_views(reps: Seq<AltRepData<'_>>) -> Seq<AltRepView> {
    Seq::new(reps.len(), |i: int| reps[i]@)
}

impl<'a> View for MpdParams<'a> {
    type V = MpdView;

    open spec fn view(&self) -> MpdView {
        MpdView {
            video: rep_views(self.video_reps@),
            audio: alt_views(self.audio_reps@),
            subtitles: alt_views(self.subtitle_reps@),
            base: self.proxy_base@,
            transmux: self.transmux_ts,
        }
    }
}

// ---------------------------------------------------------------------------------------------
// Segment lists
// ---------------------------------------------------------------------------------------------

/// The URI of the first `#EXT-X-MAP` among segments.
pub open spec fn first_map(segments: Seq<SegmentView>) -> Option<Seq<char>>
    decreases segments.len(),
{
    if segments.len() == 0 {
        None
    } else if segments[0].map_uri is Some {
        segments[0].map_uri
    } else {
        first_map(segments.skip(1))
    }
}

/// The proxy URL of a URI of a playlist, where it can be resolved.
pub open spec fn proxied_uri(playlist_url: Seq<char>, uri: Seq<char>, base: Seq<char>, route: Seq<char>) -> Option<
    Seq<char>,
> {
    match resolved(playlist_url, uri) {
        Ok(url) => Some(proxied(url, base, route)),
        Err(_) => None,
    }
}

/// Where the initialization segment of transmuxed TS segments is served. In a VOD playlist the first
/// segment is stable and is referenced itself; live segments expire, so there the playlist is
/// referenced.
pub open spec fn transmuxed_init(media: MediaView, url: Seq<char>, is_fmp4: bool, base: Seq<char>, transmux: bool) -> Option<
    Seq<char>,
> {
    if is_fmp4 || !transmux {
        None
    } else if !media.end_list {
        Some(proxied(url, base, "/hls2dash-init-pl/"@))
    } else if media.segments.len() == 0 {
        None
    } else {
        proxied_uri(url, media.segments[0].uri, base, "/hls2dash-init/"@)
    }
}

/// The initialization segment of a segment list: with fMP4 the playlist's map, otherwise the one
/// given.
pub open spec fn init_url(
    media: MediaView,
    url: Seq<char>,
    is_fmp4: bool,
    base: Seq<char>,
    first_seg_url: Option<Seq<char>>,
) -> Option<Seq<char>> {
    if !is_fmp4 {
        first_seg_url
    } else {
        match first_map(media.segments) {
            Some(uri) => proxied_uri(url, uri, base, "/hls2dash/"@),
            None => None,
        }
    }
}

/// Where segment number `idx` of a playlist is served: transmuxed through the playlist, or as it is.
pub open spec fn segment_url(
    media: MediaView,
    idx: int,
    url: Seq<char>,
    dur_ms: nat,
    base: Seq<char>,
    transmuxed: bool,
) -> Option<Seq<char>> {
    if transmuxed {
        Some(proxied(url, base, "/hls2dash-ts-pl/"@) + segment_params(url, idx as nat, dur_ms))
    } else {
        proxied_uri(url, media.segments[idx].uri, base, "/hls2dash/"@)
    }
}

/// The element for an initialization segment.
pub open spec fn init_element(url: Seq<char>) -> Seq<char> {
    "          <Initialization sourceURL=\""@ + xml_escaped(url) + "\"/>\n"@
}

/// The element for a media segment.
pub open spec fn segment_element(url: Seq<char>, ms: nat) -> Seq<char> {
    "          <SegmentURL media=\""@ + xml_escaped(url) + "\" duration=\""@ + decimal(ms) + "\"/>\n"@
}

/// The elements for the first `n` segments of a playlist; a segment whose URI cannot be resolved has
/// none.
pub open spec fn segment_elements(
    media: MediaView,
    n: nat,
    url: Seq<char>,
    dur_ms: nat,
    base: Seq<char>,
    transmuxed: bool,
) -> Seq<char>
    decreases n,
{
    if n == 0 {
        Seq::empty()
    } else {
        let before = segment_elements(media, (n - 1) as nat, url, dur_ms, base, transmuxed);
        match segment_url(media, n - 1, url, dur_ms, base, transmuxed) {
            Some(segment) => before + segment_element(segment, millis(media.segments[n - 1].duration_bits)),
            None => before,
        }
    }
}

/// The SegmentList element of a playlist.
pub open spec fn segment_list(
    media: MediaView,
    url: Seq<char>,
    is_fmp4: bool,
    dur_ms: nat,
    base: Seq<char>,
    first_seg_url: Option<Seq<char>>,
    transmux: bool,
) -> Seq<char> {
    let init = match init_url(media, url, is_fmp4, base, first_seg_url) {
        Some(u) => init_element(u),
        None => Seq::empty(),
    };
    let segments = segment_elements(media, media.segments.len(), url, dur_ms, base, !is_fmp4 && transmux);
    "        <SegmentList timescale=\"1000\" duration=\""@ + decimal(dur_ms) + "\">\n"@ + init + segments
        + "        </SegmentList>\n"@
}

/// The URI of the playlist's first map.
fn first_map_uri(pl: &MediaPlaylist) -> (r: Option<String>)
    ensures
        opt_text(r) == first_map(pl@.segments),
{
    let mut i: usize = 0;
    assert(pl@.segments.skip(0) == pl@.segments);
    while i < pl.segments.len()
        invariant
            0 <= i <= pl.segments@.len(),
            first_map(pl@.segments) == first_map(pl@.segments.skip(i as int)),
        decreases pl.segments@.len() - i,
    {
        let ghost rest = pl@.segments.skip(i as int);
        assert(rest[0] == pl.segments@[i as int]@);
        assert(rest.skip(1) == pl@.segments.skip(i + 1));
        if let Some(uri) = &pl.segments[i].map_uri {
            return Some(uri.clone());
        }
        i += 1;
    }
    None
}

fn push_init(out: &mut String, url: &str)
    ensures
        final(out)@ == old(out)@ + init_element(url@),
{
    let ghost start = out@;
    let escaped = xml_escape(url);
    out.append("          <Initialization sourceURL=\"");
    out.append(escaped.as_str());
    out.append("\"/>\n");
    assert(out@ == start + init_element(url@));
}

fn push_segment(out: &mut String, url: &str, ms: u64)
    ensures
        final(out)@ == old(out)@ + segment_element(url@, ms as nat),
{
    let ghost start = out@;
    let escaped = xml_escape(url);
    out.append("          <SegmentURL media=\"");
    out.append(escaped.as_str());
    out.append("\" duration=\"");
    push_decimal(out, ms as u128);
    out.append("\"/>\n");
    assert(out@ == start + segment_element(url@, ms as nat));
}

fn generate_segment_list(
    pl: &MediaPlaylist,
    base_url: &Url,
    is_fmp4: bool,
    target_dur_ms: u64,
    proxy_base: &str,
    first_seg_url: Option<String>,
    transmux_ts: bool,
) -> (r: String)
    ensures
        r@ == segment_list(
            pl@,
            base_url@,
            is_fmp4,
            target_dur_ms as nat,
            proxy_base@,
            opt_text(first_seg_url),
            transmux_ts,
        ),
{
    let ghost dur = target_dur_ms as nat;
    let ghost init = init_url(pl@, base_url@, is_fmp4, proxy_base@, opt_text(first_seg_url));
    let mut lines = "        <SegmentList timescale=\"1000\" duration=\"".to_owned();
    push_decimal(&mut lines, target_dur_ms as u128);
    lines.append("\">\n");
    let ghost head = lines@;

    if is_fmp4 {
        if let Some(map_uri) = first_map_uri(pl) {
            if let Ok(abs_url) = resolve_segment_url(base_url, map_uri.as_str()) {
                let proxied_map = proxy_url(abs_url.as_str(), proxy_base);
                push_init(&mut lines, proxied_map.as_str());
            }
        }
    } else if let Some(given) = &first_seg_url {
        push_init(&mut lines, given.as_str());
    }
    let ghost init_text = match init {
        Some(u) => init_element(u),
        None => Seq::empty(),
    };
    assert(lines@ == head + init_text);

    let transmuxed = !is_fmp4 && transmux_ts;
    let mut idx: usize = 0;
    while idx < pl.segments.len()
        invariant
            0 <= idx <= pl.segments@.len(),
            transmuxed == (!is_fmp4 && transmux_ts),
            dur == target_dur_ms,
            lines@ == head + init_text + segment_elements(pl@, idx as nat, base_url@, dur, proxy_base@, transmuxed),
        decreases pl.segments@.len() - idx,
    {
        let ghost before = lines@;
        let seg = &pl.segments[idx];
        assert(pl@.segments[idx as int] == seg@);
        let place: Option<String> = if transmuxed {
            Some(proxy_ts_pl_url(base_url.as_str(), idx, target_dur_ms, proxy_base))
        } else {
            match resolve_segment_url(base_url, seg.uri.as_str()) {
                Ok(abs_url) => Some(proxy_url(abs_url.as_str(), proxy_base)),
                Err(_) => None,
            }
        };
        assert(opt_text(place) == segment_url(pl@, idx as int, base_url@, dur, proxy_base@, transmuxed));
        if let Some(url) = &place {
            push_segment(&mut lines, url.as_str(), duration_millis(seg.duration_bits));
        }
        proof {
            let old_text = segment_elements(pl@, idx as nat, base_url@, dur, proxy_base@, transmuxed);
            let new_text = segment_elements(pl@, (idx + 1) as nat, base_url@, dur, proxy_base@, transmuxed);
            assert(before == head + init_text + old_text);
            assert(lines@ == head + init_text + new_text);
        }
        idx += 1;
    }
    lines.append("        </SegmentList>\n");
    lines
}

// ---------------------------------------------------------------------------------------------
// Adaptation sets
// ---------------------------------------------------------------------------------------------

/// The MIME type of a representation, given those of fMP4 and of TS.
pub open spec fn mime(is_fmp4: bool, transmux: bool, fmp4: Seq<char>, ts: Seq<char>) -> Seq<char> {
    if is_fmp4 || transmux {
        fmp4
    } else {
        ts
    }
}

/// The codecs attribute.
pub open spec fn codecs_attr(codecs: Option<Seq<char>>) -> Seq<char> {
    match codecs {
        Some(c) => " codecs=\""@ + xml_escaped(c) + "\""@,
        None => Seq::empty(),
    }
}

/// The width and height attributes.
pub open spec fn resolution_attrs(resolution: Option<(nat, nat)>) -> Seq<char> {
    match resolution {
        Some((width, height)) => " width=\""@ + decimal(width) + "\" height=\""@ + decimal(height) + "\""@,
        None => Seq::empty(),
    }
}

/// The segment list of a playlist whose segments are video or audio.
pub open spec fn media_segments(media: MediaView, url: Seq<char>, is_fmp4: bool, base: Seq<char>, transmux: bool) -> Seq<
    char,
> {
    segment_list(
        media,
        url,
        is_fmp4,
        media.target_duration * 1000,
        base,
        transmuxed_init(media, url, is_fmp4, base, transmux),
        transmux,
    )
}

/// The Representation element of a video rendition.
pub open spec fn video_representation(rep: RepView, base: Seq<char>, transmux: bool) -> Seq<char> {
    "      <Representation id=\""@ + xml_escaped(rep.id) + "\" mimeType=\""@ + mime(
        rep.is_fmp4,
        transmux,
        "video/mp4"@,
        "video/MP2T"@,
    ) + "\""@ + codecs_attr(rep.variant.codecs) + resolution_attrs(rep.variant.resolution) + "  bandwidth=\""@
        + decimal(rep.variant.bandwidth) + "\">\n"@ + media_segments(rep.media, rep.url, rep.is_fmp4, base, transmux)
        + "      </Representation>\n"@
}

/// The Representation elements of the first `n` video renditions.
pub open spec fn video_representations(reps: Seq<RepView>, n: nat, base: Seq<char>, transmux: bool) -> Seq<char>
    decreases n,
{
    if n == 0 {
        Seq::empty()
    } else {
        video_representations(reps, (n - 1) as nat, base, transmux) + video_representation(reps[n - 1], base, transmux)
    }
}

/// The first AES-128 key URI among video renditions.
pub open spec fn first_rep_key(reps: Seq<RepView>) -> Option<Seq<char>>
    decreases reps.len(),
{
    if reps.len() == 0 {
        None
    } else if first_key(reps[0].media.segments) is Some {
        first_key(reps[0].media.segments)
    } else {
        first_rep_key(reps.skip(1))
    }
}

/// The ContentProtection element, which names the proxied key.
pub open spec fn content_protection(key: Option<Seq<char>>, base: Seq<char>) -> Seq<char> {
    match key {
        Some(uri) =>
            "    <ContentProtection schemeIdUri=\"urn:ietf:rfc:8216\" value=\"AES-128\">\n      <ms:pro>"@
            + xml_escaped(proxied(uri, base, "/hls2dash/"@)) + "</ms:pro>\n    </ContentProtection>\n"@,
        None => Seq::empty(),
    }
}

/// The AdaptationSet element of the video renditions.
pub open spec fn video_set(id: nat, reps: Seq<RepView>, base: Seq<char>, transmux: bool) -> Seq<char> {
    "    <AdaptationSet id=\""@ + decimal(id)
        + "\" contentType=\"video\" segmentAlignment=\"true\" bitstreamSwitching=\"true\">\n"@ + content_protection(
        first_rep_key(reps),
        base,
    ) + video_representations(reps, reps.len(), base, transmux) + "    </AdaptationSet>\n"@
}

/// The language of a rendition, `und` where it is not known.
pub open spec fn language(alt: AlternativeView) -> Seq<char> {
    match alt.language {
        Some(lang) => lang,
        None => "und"@,
    }
}

/// The Representation element of an audio rendition, where its playlist is known.
pub open spec fn audio_representation(rep: AltRepView, base: Seq<char>, transmux: bool) -> Seq<char> {
    match (rep.media, rep.url) {
        (Some(media), Some(url)) => "      <Representation id=\""@ + xml_escaped(rep.id) + "\" mimeType=\""@ + mime(
            rep.is_fmp4,
            transmux,
            "audio/mp4"@,
            "audio/MP2T"@,
        ) + "\" bandwidth=\"128000\">\n"@ + media_segments(media, url, rep.is_fmp4, base, transmux)
            + "      </Representation>\n"@,
        _ => Seq::empty(),
    }
}

/// The AdaptationSet element of an audio rendition.
pub open spec fn audio_set(id: nat, rep: AltRepView, base: Seq<char>, transmux: bool) -> Seq<char> {
    "    <AdaptationSet id=\""@ + decimal(id) + "\" contentType=\"audio\" lang=\""@ + xml_escaped(language(rep.alt))
        + "\" label=\""@ + xml_escaped(rep.alt.name) + "\">\n"@ + audio_representation(rep, base, transmux)
        + "    </AdaptationSet>\n"@
}

/// The Representation element of a subtitle rendition, where its playlist is known. Subtitles are
/// never transmuxed.
pub open spec fn subtitle_representation(rep: AltRepView, base: Seq<char>) -> Seq<char> {
    match (rep.media, rep.url) {
        (Some(media), Some(url)) => "      <Representation id=\""@ + xml_escaped(rep.id)
            + "\" mimeType=\"text/vtt\" bandwidth=\"10000\">\n"@ + segment_list(
            media,
            url,
            false,
            media.target_duration * 1000,
            base,
            None,
            false,
        ) + "      </Representation>\n"@,
        _ => Seq::empty(),
    }
}

/// The AdaptationSet element of a subtitle rendition.
pub open spec fn subtitle_set(id: nat, rep: AltRepView, base: Seq<char>) -> Seq<char> {
    "    <AdaptationSet id=\""@ + decimal(id) + "\" contentType=\"text\" lang=\""@ + xml_escaped(language(rep.alt))
        + "\" label=\""@ + xml_escaped(rep.alt.name) + "\" mimeType=\"text/vtt\">\n"@ + subtitle_representation(
        rep,
        base,
    ) + "    </AdaptationSet>\n"@
}

/// A playlist's target duration, in milliseconds, is a `u64`.
pub open spec fn media_fits(media: MediaView) -> bool {
    media.target_duration * 1000 <= u64::MAX
}

/// A rendition's playlist fits, where it is known.
pub open spec fn alt_fits(rep: AltRepView) -> bool {
    match (rep.media, rep.url) {
        (Some(media), Some(_)) => media_fits(media),
        _ => true,
    }
}

fn find_transmuxed_init(pl: &MediaPlaylist, url: &Url, is_fmp4: bool, proxy_base: &str, transmux_ts: bool) -> (r: Option<
    String,
>)
    ensures
        opt_text(r) == transmuxed_init(pl@, url@, is_fmp4, proxy_base@, transmux_ts),
{
    if is_fmp4 || !transmux_ts {
        return None;
    }
    if !pl.end_list {
        return Some(proxy_init_from_playlist_url(url.as_str(), proxy_base));
    }
    if pl.segments.len() == 0 {
        return None;
    }
    let seg = &pl.segments[0];
    assert(pl@.segments[0] == seg@);
    match resolve_segment_url(url, seg.uri.as_str()) {
        Ok(abs_url) => Some(proxy_init_url(abs_url.as_str(), proxy_base)),
        Err(_) => None,
    }
}

fn generate_media_segments(pl: &MediaPlaylist, url: &Url, is_fmp4: bool, proxy_base: &str, transmux_ts: bool) -> (r: String)
    requires
        media_fits(pl@),
    ensures
        r@ == media_segments(pl@, url@, is_fmp4, proxy_base@, transmux_ts),
{
    let target_dur_ms: u64 = pl.target_duration * 1000;
    let first_seg_url = find_transmuxed_init(pl, url, is_fmp4, proxy_base, transmux_ts);
    generate_segment_list(pl, url, is_fmp4, target_dur_ms, proxy_base, first_seg_url, transmux_ts)
}

fn generate_video_representation(rep: &RepresentationData<'_>, proxy_base: &str, transmux_ts: bool) -> (r: String)
    requires
        media_fits(rep@.media),
    ensures
        r@ == video_representation(rep@, proxy_base@, transmux_ts),
{
    let mut codecs = String::new();
    if let Some(c) = &rep.variant.codecs {
        codecs.append(" codecs=\"");
        let escaped = xml_escape(c.as_str());
        codecs.append(escaped.as_str());
        codecs.append("\"");
        assert(codecs@ == codecs_attr(Some(c@)));
    }
    assert(codecs@ == codecs_attr(rep@.variant.codecs));
    let mut resolution = String::new();
    if let Some(r) = rep.variant.resolution {
        resolution.append(" width=\"");
        push_decimal(&mut resolution, r.width as u128);
        resolution.append("\" height=\"");
        push_decimal(&mut resolution, r.height as u128);
        resolution.append("\"");
        assert(resolution@ == resolution_attrs(Some((r.width as nat, r.height as nat))));
    }
    assert(resolution@ == resolution_attrs(rep@.variant.resolution));
    let segments = generate_media_segments(
        rep.media_playlist,
        &rep.playlist_url,
        rep.is_fmp4,
        proxy_base,
        transmux_ts,
    );
    let id = xml_escape(rep.id.as_str());
    let mut out = "      <Representation id=\"".to_owned();
    out.append(id.as_str());
    out.append("\" mimeType=\"");
    if rep.is_fmp4 || transmux_ts {
        out.append("video/mp4");
    } else {
        out.append("video/MP2T");
    }
    out.append("\"");
    out.append(codecs.as_str());
    out.append(resolution.as_str());
    out.append("  bandwidth=\"");
    push_decimal(&mut out, rep.variant.bandwidth as u128);
    out.append("\">\n");
    out.append(segments.as_str());
    out.append("      </Representation>\n");
    out
}

/// The first AES-128 key URI among video renditions.
fn find_rep_key(reps: &Vec<RepresentationData<'_>>) -> (r: Option<String>)
    ensures
        opt_text(r) == first_rep_key(rep_views(reps@)),
{
    let ghost views = rep_views(reps@);
    let mut i: usize = 0;
    assert(views.skip(0) =~= views);
    while i < reps.len()
        invariant
            views == rep_views(reps@),
            0 <= i <= reps@.len(),
            first_rep_key(views) == first_rep_key(views.skip(i as int)),
        decreases reps@.len() - i,
    {
        let ghost rest = views.skip(i as int);
        assert(rest[0] == reps@[i as int]@);
        assert(rest.skip(1) =~= views.skip(i + 1));
        let key = first_key_uri(reps[i].media_playlist);
        if key.is_some() {
            return key;
        }
        i += 1;
    }
    None
}

fn generate_video_adaptation_set(
    id: u128,
    reps: &Vec<RepresentationData<'_>>,
    proxy_base: &str,
    transmux_ts: bool,
) -> (r: String)
    requires
        forall|i: int| 0 <= i < reps@.len() ==> media_fits((#[trigger] reps@[i])@.media),
    ensures
        r@ == video_set(id as nat, rep_views(reps@), proxy_base@, transmux_ts),
{
    let ghost views = rep_views(reps@);
    let key = find_rep_key(reps);
    let mut protection = String::new();
    if let Some(uri) = &key {
        let proxied_key = proxy_url(uri.as_str(), proxy_base);
        let escaped = xml_escape(proxied_key.as_str());
        protection.append(
            "    <ContentProtection schemeIdUri=\"urn:ietf:rfc:8216\" value=\"AES-128\">\n      <ms:pro>",
        );
        protection.append(escaped.as_str());
        protection.append("</ms:pro>\n    </ContentProtection>\n");
        assert(protection@ == content_protection(Some(uri@), proxy_base@));
    }
    assert(protection@ == content_protection(first_rep_key(views), proxy_base@));

    let mut representations = String::new();
    let mut i: usize = 0;
    while i < reps.len()
        invariant
            views == rep_views(reps@),
            forall|i: int| 0 <= i < reps@.len() ==> media_fits((#[trigger] reps@[i])@.media),
            0 <= i <= reps@.len(),
            representations@ == video_representations(views, i as nat, proxy_base@, transmux_ts),
        decreases reps@.len() - i,
    {
        assert(views[i as int] == reps@[i as int]@);
        let representation = generate_video_representation(&reps[i], proxy_base, transmux_ts);
        representations.append(representation.as_str());
        i += 1;
    }

    let mut out = "    <AdaptationSet id=\"".to_owned();
    push_decimal(&mut out, id);
    out.append("\" contentType=\"video\" segmentAlignment=\"true\" bitstreamSwitching=\"true\">\n");
    out.append(protection.as_str());
    out.append(representations.as_str());
    out.append("    </AdaptationSet>\n");
    out
}

/// Appends a rendition's language, `und` where it is not known, and its name, as the values of the
/// lang and label attributes.
fn push_lang_and_label(out: &mut String, alt: &AlternativeMedia)
    ensures
        final(out)@ == old(out)@ + xml_escaped(language(alt@)) + "\" label=\""@ + xml_escaped(alt@.name),
{
    let lang = match &alt.language {
        Some(lang) => xml_escape(lang.as_str()),
        None => xml_escape("und"),
    };
    let label = xml_escape(alt.name.as_str());
    out.append(lang.as_str());
    out.append("\" label=\"");
    out.append(label.as_str());
}

fn generate_audio_adaptation_set(id: u128, rep: &AltRepData<'_>, proxy_base: &str, transmux_ts: bool) -> (r: String)
    requires
        alt_fits(rep@),
    ensures
        r@ == audio_set(id as nat, rep@, proxy_base@, transmux_ts),
{
    let mut representation = String::new();
    if let Some(pl) = rep.media_playlist {
        if let Some(url) = &rep.playlist_url {
            let segments = generate_media_segments(pl, url, rep.is_fmp4, proxy_base, transmux_ts);
            let escaped_id = xml_escape(rep.id.as_str());
            representation = "      <Representation id=\"".to_owned();
            representation.append(escaped_id.as_str());
            representation.append("\" mimeType=\"");
            if rep.is_fmp4 || transmux_ts {
                representation.append("audio/mp4");
            } else {
                representation.append("audio/MP2T");
            }
            representation.append("\" bandwidth=\"128000\">\n");
            representation.append(segments.as_str());
            representation.append("      </Representation>\n");
        }
    }
    assert(representation@ == audio_representation(rep@, proxy_base@, transmux_ts));

    let mut out = "    <AdaptationSet id=\"".to_owned();
    push_decimal(&mut out, id);
    out.append("\" contentType=\"audio\" lang=\"");
    push_lang_and_label(&mut out, rep.alt);
    out.append("\">\n");
    out.append(representation.as_str());
    out.append("    </AdaptationSet>\n");
    out
}

fn generate_subtitle_adaptation_set(id: u128, rep: &AltRepData<'_>, proxy_base: &str) -> (r: String)
    requires
        alt_fits(rep@),
    ensures
        r@ == subtitle_set(id as nat, rep@, proxy_base@),
{
    let mut representation = String::new();
    if let Some(pl) = rep.media_playlist {
        if let Some(url) = &rep.playlist_url {
            let target_dur_ms: u64 = pl.target_duration * 1000;
            let segments = generate_segment_list(pl, url, false, target_dur_ms, proxy_base, None, false);
            let escaped_id = xml_escape(rep.id.as_str());
            representation = "      <Representation id=\"".to_owned();
            representation.append(escaped_id.as_str());
            representation.append("\" mimeType=\"text/vtt\" bandwidth=\"10000\">\n");
            representation.append(segments.as_str());
            representation.append("      </Representation>\n");
        }
    }
    assert(representation@ == subtitle_representation(rep@, proxy_base@));

    let mut out = "    <AdaptationSet id=\"".to_owned();
    push_decimal(&mut out, id);
    out.append("\" contentType=\"text\" lang=\"");
    push_lang_and_label(&mut out, rep.alt);
    out.append("\" mimeType=\"text/vtt\">\n");
    out.append(representation.as_str());
    out.append("    </AdaptationSet>\n");
    out
}

// ---------------------------------------------------------------------------------------------
// The manifest
// ---------------------------------------------------------------------------------------------

/// The playlist that decides between VOD and live, and that gives the timing: the first video
/// rendition's, or without video the first audio rendition's.
pub open spec fn reference(p: MpdView) -> Option<MediaView> {
    if p.video.len() > 0 {
        Some(p.video[0].media)
    } else if p.audio.len() > 0 {
        p.audio[0].media
    } else {
        None
    }
}

/// The reference playlist has ended; without one, the presentation counts as VOD.
pub open spec fn is_vod(p: MpdView) -> bool {
    match reference(p) {
        Some(media) => media.end_list,
        None => true,
    }
}

/// The target duration in seconds, as a double-precision number.
pub open spec fn live_target(media: MediaView) -> nat {
    rounded(media.target_duration, DOUBLE_LIMIT as nat)
}

/// The seconds that the segments of a live playlist span: their number times the target duration, in
/// double precision.
pub open spec fn live_depth(media: MediaView) -> nat {
    rounded(rounded(media.segments.len(), DOUBLE_LIMIT as nat) * live_target(media), DOUBLE_LIMIT as nat)
}

/// The milliseconds that the segments of a live playlist span, in double precision.
pub open spec fn live_shift_ms(media: MediaView) -> nat {
    rounded(live_depth(media) * 1000, DOUBLE_LIMIT as nat)
}

/// The delay in seconds at which a live stream is best presented: three segments.
pub open spec fn live_delay(media: MediaView) -> nat {
    rounded(live_target(media) * 3, DOUBLE_LIMIT as nat)
}

/// The timing attributes of the MPD element. `total_secs` is the shown duration of a VOD
/// presentation, `now` the current time in milliseconds since the Unix epoch. The availability start
/// of a live presentation lies as far back as its segments span, so that the first one of the list
/// is the oldest of the live window.
pub open spec fn timing_attrs(p: MpdView, total_secs: Seq<char>, now: int) -> Seq<char> {
    match reference(p) {
        Some(media) if !media.end_list => "type=\"dynamic\" availabilityStartTime=\""@ + utc_formatted(
            now - live_shift_ms(media),
            utc_pattern(),
        ) + "\" minimumUpdatePeriod=\"PT"@ + decimal(live_target(media)) + ".0S\" timeShiftBufferDepth=\"PT"@
            + decimal(live_depth(media)) + ".0S\" suggestedPresentationDelay=\"PT"@ + decimal(live_delay(media))
            + ".0S\""@,
        _ => "type=\"static\" mediaPresentationDuration=\"PT"@ + total_secs + "S\""@,
    }
}

/// The number of the first audio adaptation set.
pub open spec fn first_audio_id(p: MpdView) -> nat {
    if p.video.len() > 0 {
        2
    } else {
        1
    }
}

/// The first `n` audio adaptation sets.
pub open spec fn audio_sets(p: MpdView, n: nat) -> Seq<char>
    decreases n,
{
    if n == 0 {
        Seq::empty()
    } else {
        audio_sets(p, (n - 1) as nat) + audio_set(
            (first_audio_id(p) + n - 1) as nat,
            p.audio[n - 1],
            p.base,
            p.transmux,
        )
    }
}

/// The first `n` subtitle adaptation sets, which are numbered after the audio ones.
pub open spec fn subtitle_sets(p: MpdView, n: nat) -> Seq<char>
    decreases n,
{
    if n == 0 {
        Seq::empty()
    } else {
        subtitle_sets(p, (n - 1) as nat) + subtitle_set(
            (first_audio_id(p) + p.audio.len() + n - 1) as nat,
            p.subtitles[n - 1],
            p.base,
        )
    }
}

/// All adaptation sets: video, audio, subtitles.
pub open spec fn adaptation_sets(p: MpdView) -> Seq<char> {
    (if p.video.len() > 0 {
        video_set(1, p.video, p.base, p.transmux)
    } else {
        Seq::empty()
    }) + audio_sets(p, p.audio.len()) + subtitle_sets(p, p.subtitles.len())
}

/// The start of a manifest, up to the timing attributes.
pub open spec fn mpd_head() -> Seq<char> {
    "<?xml version=\"1.0\" encoding=\"UTF-8\"?>\n"@ + "<MPD xmlns=\"urn:mpeg:dash:schema:mpd:2011\"\n"@
        + "     xmlns:xsi=\"http://www.w3.org/2001/XMLSchema-instance\"\n"@
        + "     xsi:schemaLocation=\"urn:mpeg:dash:schema:mpd:2011 DASH-MPD.xsd\"\n"@
        + "     profiles=\"urn:mpeg:dash:profile:isoff-live:2011\"\n     "@
}

/// The whole manifest.
pub open spec fn mpd(p: MpdView, total_secs: Seq<char>, now: int) -> Seq<char> {
    mpd_head() + timing_attrs(p, total_secs, now)
        + "\n     minBufferTime=\"PT2S\">\n  <Period id=\"1\" start=\"PT0S\">\n"@ + adaptation_sets(p)
        + "  </Period>\n</MPD>"@
}

/// The longest span of a live playlist, in milliseconds, for which the availability start can be
/// shown at any time since the Unix epoch.
pub const MAX_LIVE_SHIFT_MS: u64 = 8334601228800000;

/// Every playlist's target duration, in milliseconds, is a `u64`.
pub open spec fn durations_fit(p: MpdView) -> bool {
    &&& forall|i: int| 0 <= i < p.video.len() ==> media_fits((#[trigger] p.video[i]).media)
    &&& forall|i: int| 0 <= i < p.audio.len() ==> alt_fits(#[trigger] p.audio[i])
    &&& forall|i: int| 0 <= i < p.subtitles.len() ==> alt_fits(#[trigger] p.subtitles[i])
}

/// The availability start of a live presentation can be shown, at any time since the Unix epoch.
pub open spec fn live_span_fits(p: MpdView) -> bool {
    match reference(p) {
        Some(media) if !media.end_list => live_shift_ms(media) <= MAX_LIVE_SHIFT_MS,
        _ => true,
    }
}

/// The manifest can be generated at any time since the Unix epoch.
pub open spec fn mpd_fits(p: MpdView) -> bool {
    durations_fit(p) && live_span_fits(p)
}

proof fn lemma_live_product(media: MediaView)
    ensures
        rounded(media.segments.len(), DOUBLE_LIMIT as nat) * live_target(media) <= 2 * live_depth(media),
        1000 * live_depth(media) <= 2 * live_shift_ms(media),
{
    let n = rounded(media.segments.len(), DOUBLE_LIMIT as nat);
    lemma_rounded_bounds(n * live_target(media), DOUBLE_LIMIT as nat);
    lemma_rounded_bounds(live_depth(media) * 1000, DOUBLE_LIMIT as nat);
}

/// The playlist that decides between VOD and live: the first video rendition's, or without video the
/// first audio rendition's.
pub fn reference_playlist<'a>(params: &MpdParams<'a>) -> (r: Option<&'a MediaPlaylist>)
    ensures
        match r {
            Some(media) => reference(params@) == Some(media@),
            None => reference(params@) is None,
        },
{
    if params.video_reps.len() > 0 {
        Some(params.video_reps[0].media_playlist)
    } else if params.audio_reps.len() > 0 {
        params.audio_reps[0].media_playlist
    } else {
        None
    }
}

fn alts_fit(reps: &Vec<AltRepData<'_>>) -> (b: bool)
    ensures
        b == (forall|i: int| 0 <= i < reps@.len() ==> alt_fits(#[trigger] alt_views(reps@)[i])),
{
    let ghost views = alt_views(reps@);
    let mut i: usize = 0;
    while i < reps.len()
        invariant
            views == alt_views(reps@),
            0 <= i <= reps@.len(),
            forall|j: int| 0 <= j < i ==> alt_fits(#[trigger] views[j]),
        decreases reps@.len() - i,
    {
        assert(views[i as int] == reps@[i as int]@);
        if let Some(pl) = reps[i].media_playlist {
            if reps[i].playlist_url.is_some() && pl.target_duration > u64::MAX / 1000 {
                assert(!alt_fits(views[i as int]));
                return false;
            }
        }
        i += 1;
    }
    true
}

fn live_playlist_fits(pl: &MediaPlaylist) -> (b: bool)
    ensures
        b == (live_shift_ms(pl@) <= MAX_LIVE_SHIFT_MS),
{
    let count: u128 = round_to(pl.segments.len() as u128, DOUBLE_LIMIT);
    let target: u128 = round_to(pl.target_duration as u128, DOUBLE_LIMIT);
    let max: u128 = MAX_LIVE_SHIFT_MS as u128;
    proof {
        lemma_rounded_bounds(pl@.segments.len(), DOUBLE_LIMIT as nat);
        lemma_rounded_bounds(pl@.target_duration, DOUBLE_LIMIT as nat);
        lemma_live_product(pl@);
        assert(count == rounded(pl@.segments.len(), DOUBLE_LIMIT as nat));
        assert(target == live_target(pl@));
    }
    if count > 0 && target > max / count {
        proof {
            assert(count * target > max) by (nonlinear_arith)
                requires
                    count > 0,
                    target > max / count,
            ;
        }
        return false;
    }
    proof {
        assert(count * target <= max) by (nonlinear_arith)
            requires
                count == 0 || target <= max / count,
        ;
    }
    let depth: u128 = round_to(count * target, DOUBLE_LIMIT);
    proof {
        lemma_rounded_bounds((count * target) as nat, DOUBLE_LIMIT as nat);
    }
    let shift: u128 = round_to(depth * 1000, DOUBLE_LIMIT);
    shift <= max
}

/// Whether the manifest can be generated at any time since the Unix epoch: the target durations, in
/// milliseconds, and the span of a live presentation are in range.
pub fn check_mpd_params(params: &MpdParams<'_>) -> (b: bool)
    ensures
        b == mpd_fits(params@),
{
    let ghost views = rep_views(params.video_reps@);
    let mut i: usize = 0;
    while i < params.video_reps.len()
        invariant
            views == rep_views(params.video_reps@),
            0 <= i <= params.video_reps@.len(),
            forall|j: int| 0 <= j < i ==> media_fits((#[trigger] views[j]).media),
        decreases params.video_reps@.len() - i,
    {
        assert(views[i as int] == params.video_reps@[i as int]@);
        if params.video_reps[i].media_playlist.target_duration > u64::MAX / 1000 {
            assert(!media_fits(params@.video[i as int].media));
            return false;
        }
        i += 1;
    }
    assert(params@.audio == alt_views(params.audio_reps@));
    assert(params@.subtitles == alt_views(params.subtitle_reps@));
    let alternatives_fit = alts_fit(&params.audio_reps) && alts_fit(&params.subtitle_reps);
    assert(alternatives_fit == durations_fit(params@));
    if !alternatives_fit {
        return false;
    }
    match reference_playlist(params) {
        Some(pl) => pl.end_list || live_playlist_fits(pl),
        None => true,
    }
}

/// The timing attributes of a live presentation.
fn generate_live_timing(pl: &MediaPlaylist, now_ms: i64) -> (r: String)
    requires
        now_ms <= MAX_UTC_MILLIS,
        now_ms - live_shift_ms(pl@) >= MIN_UTC_MILLIS,
    ensures
        r@ == "type=\"dynamic\" availabilityStartTime=\""@ + utc_formatted(now_ms - live_shift_ms(pl@), utc_pattern())
            + "\" minimumUpdatePeriod=\"PT"@ + decimal(live_target(pl@)) + ".0S\" timeShiftBufferDepth=\"PT"@ + decimal(
            live_depth(pl@),
        ) + ".0S\" suggestedPresentationDelay=\"PT"@ + decimal(live_delay(pl@)) + ".0S\""@,
{
    let count: u128 = round_to(pl.segments.len() as u128, DOUBLE_LIMIT);
    let target: u128 = round_to(pl.target_duration as u128, DOUBLE_LIMIT);
    proof {
        lemma_rounded_bounds(pl@.segments.len(), DOUBLE_LIMIT as nat);
        lemma_rounded_bounds(pl@.target_duration, DOUBLE_LIMIT as nat);
        lemma_live_product(pl@);
        assert(count == rounded(pl@.segments.len(), DOUBLE_LIMIT as nat));
        assert(target == live_target(pl@));
        assert(count * target >= 0) by (nonlinear_arith);
    }
    let depth: u128 = round_to(count * target, DOUBLE_LIMIT);
    let shift: u128 = round_to(depth * 1000, DOUBLE_LIMIT);
    let delay: u128 = round_to(target * 3, DOUBLE_LIMIT);
    let start = utc_text(now_ms - shift as i64, "%Y-%m-%dT%H:%M:%SZ");
    let mut out = "type=\"dynamic\" availabilityStartTime=\"".to_owned();
    out.append(start.as_str());
    out.append("\" minimumUpdatePeriod=\"PT");
    push_decimal(&mut out, target);
    out.append(".0S\" timeShiftBufferDepth=\"PT");
    push_decimal(&mut out, depth);
    out.append(".0S\" suggestedPresentationDelay=\"PT");
    push_decimal(&mut out, delay);
    out.append(".0S\"");
    out
}

fn generate_timing(params: &MpdParams<'_>, total_secs: &str, now_ms: i64) -> (r: String)
    requires
        now_ms <= MAX_UTC_MILLIS,
        match reference(params@) {
            Some(media) if !media.end_list => now_ms - live_shift_ms(media) >= MIN_UTC_MILLIS,
            _ => true,
        },
    ensures
        r@ == timing_attrs(params@, total_secs@, now_ms as int),
{
    if let Some(pl) = reference_playlist(params) {
        if !pl.end_list {
            return generate_live_timing(pl, now_ms);
        }
    }
    let mut out = "type=\"static\" mediaPresentationDuration=\"PT".to_owned();
    out.append(total_secs);
    out.append("S\"");
    out
}

fn generate_adaptation_sets(params: &MpdParams<'_>) -> (r: String)
    requires
        durations_fit(params@),
    ensures
        r@ == adaptation_sets(params@),
{
    let ghost p = params@;
    let mut out = String::new();
    let mut id: u128 = 1;
    if params.video_reps.len() > 0 {
        assert forall|i: int| 0 <= i < params.video_reps@.len() implies media_fits(
            (#[trigger] params.video_reps@[i])@.media,
        ) by {
            assert(p.video[i] == params.video_reps@[i]@);
        }
        let video = generate_video_adaptation_set(id, &params.video_reps, params.proxy_base, params.transmux_ts);
        out.append(video.as_str());
        id = 2;
    }
    let ghost video_text = out@;
    assert(video_text == (if p.video.len() > 0 {
        video_set(1, p.video, p.base, p.transmux)
    } else {
        Seq::empty()
    }));

    let mut i: usize = 0;
    while i < params.audio_reps.len()
        invariant
            p == params@,
            durations_fit(p),
            0 <= i <= params.audio_reps@.len(),
            id == first_audio_id(p) + i,
            out@ == video_text + audio_sets(p, i as nat),
        decreases params.audio_reps@.len() - i,
    {
        assert(p.audio[i as int] == params.audio_reps@[i as int]@);
        let audio = generate_audio_adaptation_set(id, &params.audio_reps[i], params.proxy_base, params.transmux_ts);
        let ghost before = out@;
        out.append(audio.as_str());
        assert(out@ == video_text + audio_sets(p, (i + 1) as nat));
        id += 1;
        i += 1;
    }
    let ghost audio_text = audio_sets(p, p.audio.len());

    let mut k: usize = 0;
    while k < params.subtitle_reps.len()
        invariant
            p == params@,
            durations_fit(p),
            0 <= k <= params.subtitle_reps@.len(),
            id == first_audio_id(p) + params.audio_reps@.len() + k,
            params.audio_reps@.len() <= usize::MAX,
            out@ == video_text + audio_text + subtitle_sets(p, k as nat),
        decreases params.subtitle_reps@.len() - k,
    {
        assert(p.subtitles[k as int] == params.subtitle_reps@[k as int]@);
        let subtitles = generate_subtitle_adaptation_set(id, &params.subtitle_reps[k], params.proxy_base);
        let ghost before = out@;
        out.append(subtitles.as_str());
        assert(out@ == video_text + audio_text + subtitle_sets(p, (k + 1) as nat));
        id += 1;
        k += 1;
    }
    out
}

/// Generate a complete DASH MPD XML string, as of a given time. `total_secs` is the duration of a VOD
/// presentation in seconds, as it is to be shown; `now_ms` is the current time in milliseconds since
/// the Unix epoch.
pub fn generate_mpd_at(params: &MpdParams<'_>, total_secs: &str, now_ms: i64) -> (r: String)
    requires
        durations_fit(params@),
        now_ms <= MAX_UTC_MILLIS,
        match reference(params@) {
            Some(media) if !media.end_list => now_ms - live_shift_ms(media) >= MIN_UTC_MILLIS,
            _ => true,
        },
    ensures
        r@ == mpd(params@, total_secs@, now_ms as int),
{
    let timing = generate_timing(params, total_secs, now_ms);
    let sets = generate_adaptation_sets(params);
    let mut out = "<?xml version=\"1.0\" encoding=\"UTF-8\"?>\n".to_owned();
    out.append("<MPD xmlns=\"urn:mpeg:dash:schema:mpd:2011\"\n");
    out.append("     xmlns:xsi=\"http://www.w3.org/2001/XMLSchema-instance\"\n");
    out.append("     xsi:schemaLocation=\"urn:mpeg:dash:schema:mpd:2011 DASH-MPD.xsd\"\n");
    out.append("     profiles=\"urn:mpeg:dash:profile:isoff-live:2011\"\n     ");
    out.append(timing.as_str());
    out.append("\n     minBufferTime=\"PT2S\">\n  <Period id=\"1\" start=\"PT0S\">\n");
    out.append(sets.as_str());
    out.append("  </Period>\n</MPD>");
    out
}

/// Generate a complete DASH MPD XML string. `total_secs` is the duration of a VOD presentation in
/// seconds, as it is to be shown. A live manifest is one as of the current time, whatever that is.
pub fn generate_mpd(params: &MpdParams<'_>, total_secs: &str) -> (r: String)
    requires
        mpd_fits(params@),
    ensures
        is_vod(params@) ==> r@ == mpd(params@, total_secs@, 0),
        exists|now: int|
            0 <= now <= MAX_UTC_MILLIS && r@ == #[trigger] mpd(params@, total_secs@, now),
{
    let now_ms: i64 = match reference_playlist(params) {
        Some(pl) if !pl.end_list => utc_now(),
        _ => 0,
    };
    generate_mpd_at(params, total_secs, now_ms)
}

} // verus!
