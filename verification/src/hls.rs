//! HLS playlists: parsing, and what the MPD generator asks of them.

use vstd::prelude::*;
use crate::error::{AppError, ErrorView};
use crate::text::{opt_text, same_text};

verus! {

/// `#EXT-X-KEY`: how segments are encrypted.
#[derive(Debug)]
pub struct Key {
    /// The encryption method by its name in the playlist, such as `AES-128`.
    pub method: String,
    pub uri: Option<String>,
}

/// One media segment.
#[derive(Debug)]
pub struct MediaSegment {
    pub uri: String,
    /// The duration in seconds: the bits of an IEEE 754 single-precision number.
    pub duration_bits: u32,
    pub key: Option<Key>,
    /// The URI of the segment's `#EXT-X-MAP`.
    pub map_uri: Option<String>,
}

/// A media playlist.
#[derive(Debug)]
pub struct MediaPlaylist {
    /// `#EXT-X-TARGETDURATION`, in seconds.
    pub target_duration: u64,
    pub media_sequence: u64,
    /// Whether the playlist carries `#EXT-X-ENDLIST`.
    pub end_list: bool,
    pub segments: Vec<MediaSegment>,
}

/// Picture size of a variant.
#[derive(Debug, Clone, Copy)]
pub struct Resolution {
    pub width: u64,
    pub height: u64,
}

/// `#EXT-X-STREAM-INF`: one variant of a stream.
#[derive(Debug)]
pub struct VariantStream {
    pub uri: String,
    pub bandwidth: u64,
    pub codecs: Option<String>,
    pub resolution: Option<Resolution>,
}

/// `#EXT-X-MEDIA`: an alternative rendition.
#[derive(Debug)]
pub struct AlternativeMedia {
    /// The kind of rendition by its name in the playlist, such as `AUDIO`.
    pub media_type: String,
    pub uri: Option<String>,
    pub language: Option<String>,
    pub name: String,
}

/// A master playlist.
#[derive(Debug)]
pub struct MasterPlaylist {
    pub variants: Vec<VariantStream>,
    pub alternatives: Vec<AlternativeMedia>,
}

/// Result of parsing an HLS playlist byte buffer.
#[derive(Debug)]
pub enum ParsedPlaylist {
    Master(MasterPlaylist),
    Media(MediaPlaylist),
}

/// What a [`Key`] says.
#[verifier::ext_equal]
pub struct KeyView {
    pub method: Seq<char>,
    pub uri: Option<Seq<char>>,
}

/// What a [`MediaSegment`] says.
#[verifier::ext_equal]
pub struct SegmentView {
    pub uri: Seq<char>,
    pub duration_bits: u32,
    pub key: Option<KeyView>,
    pub map_uri: Option<Seq<char>>,
}

/// What a [`MediaPlaylist`] says.
#[verifier::ext_equal]
pub struct MediaView {
    pub target_duration: nat,
    pub media_sequence: nat,
    pub end_list: bool,
    pub segments: Seq<SegmentView>,
}

/// What a [`VariantStream`] says; the resolution is a pair of width and height.
#[verifier::ext_equal]
pub struct VariantView {
    pub uri: Seq<char>,
    pub bandwidth: nat,
    pub codecs: Option<Seq<char>>,
    pub resolution: Option<(nat, nat)>,
}

/// What an [`AlternativeMedia`] says.
#[verifier::ext_equal]
pub struct AlternativeView {
    pub media_type: Seq<char>,
    pub uri: Option<Seq<char>>,
    pub language: Option<Seq<char>>,
    pub name: Seq<char>,
}

/// What a [`MasterPlaylist`] says.
#[verifier::ext_equal]
pub struct MasterView {
    pub variants: Seq<VariantView>,
    pub alternatives: Seq<AlternativeView>,
}

/// What a [`ParsedPlaylist`] says.
#[verifier::ext_equal]
pub enum PlaylistView {
    Master(MasterView),
    Media(MediaView),
}

impl View for Key {
    type V = KeyView;

    open spec fn view(&self) -> KeyView {
        KeyView { method: self.method@, uri: opt_text(self.uri) }
    }
}

impl View for MediaSegment {
    type V = SegmentView;

    open spec fn view(&self) -> SegmentView {
        SegmentView {
            uri: self.uri@,
            duration_bits: self.duration_bits,
            key: match self.key {
                Some(key) => Some(key@),
                None => None,
            },
            map_uri: opt_text(self.map_uri),
        }
    }
}

impl View for MediaPlaylist {
    type V = MediaView;

    open spec fn view(&self) -> MediaView {
        MediaView {
            target_duration: self.target_duration as nat,
            media_sequence: self.media_sequence as nat,
            end_list: self.end_list,
            segments: Seq::new(self.segments@.len(), |i: int| self.segments@[i]@),
        }
    }
}

impl View for VariantStream {
    type V = VariantView;

    open spec fn view(&self) -> VariantView {
        VariantView {
            uri: self.uri@,
            bandwidth: self.bandwidth as nat,
            codecs: opt_text(self.codecs),
            resolution: match self.resolution {
                Some(r) => Some((r.width as nat, r.height as nat)),
                None => None,
            },
        }
    }
}

impl View for AlternativeMedia {
    type V = AlternativeView;

    open spec fn view(&self) -> AlternativeView {
        AlternativeView {
            media_type: self.media_type@,
            uri: opt_text(self.uri),
            language: opt_text(self.language),
            name: self.name@,
        }
    }
}

impl View for MasterPlaylist {
    type V = MasterView;

    open spec fn view(&self) -> MasterView {
        MasterView {
            variants: Seq::new(self.variants@.len(), |i: int| self.variants@[i]@),
            alternatives: Seq::new(self.alternatives@.len(), |i: int| self.alternatives@[i]@),
        }
    }
}

impl View for ParsedPlaylist {
    type V = PlaylistView;

    open spec fn view(&self) -> PlaylistView {
        match self {
            ParsedPlaylist::Master(master) => PlaylistView::Master(master@),
            ParsedPlaylist::Media(media) => PlaylistView::Media(media@),
        }
    }
}

/// The playlist that the bytes hold, or the debug text of the parser's error, as
/// `m3u8_rs::parse_playlist_res` finds it.
pub uninterp spec fn m3u8_parsed(data: Seq<u8>) -> Result<PlaylistView, Seq<char>>;

/// `m3u8_rs::parse_playlist_res`, of which this function hands on a media playlist: `None` stands for
/// a master playlist. The contract says that the outcome is determined by the bytes.
#[verifier::external_body]
fn read_media(data: &[u8]) -> (r: Result<Option<MediaPlaylist>, String>)
    ensures
        match r {
            Ok(Some(media)) => m3u8_parsed(data@) == Ok::<PlaylistView, Seq<char>>(PlaylistView::Media(media@)),
            Ok(None) => m3u8_parsed(data@) is Ok && m3u8_parsed(data@)->Ok_0 is Master,
            Err(e) => m3u8_parsed(data@) == Err::<PlaylistView, Seq<char>>(e@),
        },
{
    match m3u8_rs::parse_playlist_res(data) {
        Ok(m3u8_rs::Playlist::MediaPlaylist(p)) => Ok(Some(MediaPlaylist {
            target_duration: p.target_duration,
            media_sequence: p.media_sequence,
            end_list: p.end_list,
            segments: p.segments.into_iter().map(|s| MediaSegment {
                uri: s.uri,
                duration_bits: s.duration.to_bits(),
                key: s.key.map(|k| Key { method: k.method.to_string(), uri: k.uri }),
                map_uri: s.map.map(|m| m.uri),
            }).collect(),
        })),
        Ok(m3u8_rs::Playlist::MasterPlaylist(_)) => Ok(None),
        Err(e) => Err(format!("{:?}", e)),
    }
}

/// `m3u8_rs::parse_playlist_res`, of which this function hands on a master playlist: `None` stands for
/// a media playlist. The contract says that the outcome is determined by the bytes.
#[verifier::external_body]
fn read_master(data: &[u8]) -> (r: Result<Option<MasterPlaylist>, String>)
    ensures
        match r {
            Ok(Some(master)) => m3u8_parsed(data@) == Ok::<PlaylistView, Seq<char>>(PlaylistView::Master(master@)),
            Ok(None) => m3u8_parsed(data@) is Ok && m3u8_parsed(data@)->Ok_0 is Media,
            Err(e) => m3u8_parsed(data@) == Err::<PlaylistView, Seq<char>>(e@),
        },
{
    match m3u8_rs::parse_playlist_res(data) {
        Ok(m3u8_rs::Playlist::MasterPlaylist(p)) => Ok(Some(MasterPlaylist {
            variants: p.variants.into_iter().map(|v| VariantStream {
                uri: v.uri, bandwidth: v.bandwidth, codecs: v.codecs,
                resolution: v.resolution.map(|r| Resolution { width: r.width, height: r.height }),
            }).collect(),
            alternatives: p.alternatives.into_iter().map(|a| AlternativeMedia {
                media_type: a.media_type.to_string(), uri: a.uri, language: a.language, name: a.name,
            }).collect(),
        })),
        Ok(m3u8_rs::Playlist::MediaPlaylist(_)) => Ok(None),
        Err(e) => Err(format!("{:?}", e)),
    }
}

/// What a parser outcome is reported as.
pub open spec fn reported(outcome: Result<PlaylistView, Seq<char>>) -> Result<PlaylistView, ErrorView> {
    match outcome {
        Ok(playlist) => Ok(playlist),
        Err(e) => Err(ErrorView::ParseError("m3u8 parse failure: "@ + e)),
    }
}

/// The outcome of a fallible function over values.
pub open spec fn outcome(r: Result<ParsedPlaylist, AppError>) -> Result<PlaylistView, ErrorView> {
    match r {
        Ok(playlist) => Ok(playlist@),
        Err(e) => Err(e@),
    }
}

/// Reports a parser outcome: the playlist, or the parser's error as a parse error.
pub fn report(parsed: Result<ParsedPlaylist, String>) -> (r: Result<ParsedPlaylist, AppError>)
    ensures
        outcome(r) == reported(match parsed {
            Ok(playlist) => Ok(playlist@),
            Err(e) => Err(e@),
        }),
{
    match parsed {
        Ok(playlist) => Ok(playlist),
        Err(e) => {
            let mut message = String::new();
            message.append("m3u8 parse failure: ");
            message.append(e.as_str());
            Err(AppError::ParseError(message))
        },
    }
}

/// Parse raw HLS bytes into a `ParsedPlaylist`.
pub fn parse_playlist(data: &[u8]) -> (r: Result<ParsedPlaylist, AppError>)
    ensures
        outcome(r) == reported(m3u8_parsed(data@)),
{
    match read_media(data) {
        Ok(Some(media)) => report(Ok(ParsedPlaylist::Media(media))),
        Err(e) => report(Err(e)),
        Ok(None) => match read_master(data) {
            Ok(Some(master)) => report(Ok(ParsedPlaylist::Master(master))),
            Err(e) => report(Err(e)),
            // Not reached: what is no media playlist is a master playlist.
            Ok(None) => report(Err(String::new())),
        },
    }
}

/// Some segment of the playlist has an `#EXT-X-MAP`.
pub open spec fn uses_fmp4(pl: MediaView) -> bool {
    exists|i: int| 0 <= i < pl.segments.len() && (#[trigger] pl.segments[i]).map_uri is Some
}

/// Determine if a media playlist uses fMP4 segments (any segment has a map).
pub fn is_fmp4(pl: &MediaPlaylist) -> (b: bool)
    ensures
        b == uses_fmp4(pl@),
{
    let mut i: usize = 0;
    while i < pl.segments.len()
        invariant
            0 <= i <= pl.segments@.len(),
            forall|j: int| 0 <= j < i ==> (#[trigger] pl@.segments[j]).map_uri is None,
        decreases pl.segments@.len() - i,
    {
        if pl.segments[i].map_uri.is_some() {
            assert(pl@.segments[i as int].map_uri is Some);
            return true;
        }
        i += 1;
    }
    false
}

/// The AES-128 key URI of a segment.
pub open spec fn key_uri(seg: SegmentView) -> Option<Seq<char>> {
    match seg.key {
        Some(key) if key.method == "AES-128"@ => key.uri,
        _ => None,
    }
}

/// The first AES-128 key URI among segments.
pub open spec fn first_key(segments: Seq<SegmentView>) -> Option<Seq<char>>
    decreases segments.len(),
{
    if segments.len() == 0 {
        None
    } else if key_uri(segments[0]) is Some {
        key_uri(segments[0])
    } else {
        first_key(segments.skip(1))
    }
}

/// Return the first AES-128 key URI found in a media playlist, if any.
pub fn first_key_uri(pl: &MediaPlaylist) -> (r: Option<String>)
    ensures
        opt_text(r) == first_key(pl@.segments),
{
    let mut i: usize = 0;
    assert(pl@.segments.skip(0) == pl@.segments);
    while i < pl.segments.len()
        invariant
            0 <= i <= pl.segments@.len(),
            first_key(pl@.segments) == first_key(pl@.segments.skip(i as int)),
        decreases pl.segments@.len() - i,
    {
        let ghost rest = pl@.segments.skip(i as int);
        assert(rest[0] == pl.segments@[i as int]@);
        assert(rest.skip(1) == pl@.segments.skip(i + 1));
        if let Some(key) = &pl.segments[i].key {
            if same_text(key.method.as_str(), "AES-128") {
                if let Some(uri) = &key.uri {
                    return Some(uri.clone());
                }
            }
        }
        i += 1;
    }
    None
}

/// The renditions of one kind, in order.
pub open spec fn of_type(alternatives: Seq<AlternativeView>, media_type: Seq<char>) -> Seq<AlternativeView>
    decreases alternatives.len(),
{
    if alternatives.len() == 0 {
        Seq::empty()
    } else if alternatives.last().media_type == media_type {
        of_type(alternatives.drop_last(), media_type).push(alternatives.last())
    } else {
        of_type(alternatives.drop_last(), media_type)
    }
}

/// What a list of renditions says.
pub open spec fn alternative_views(list: Seq<&AlternativeMedia>) -> Seq<AlternativeView> {
    Seq::new(list.len(), |i: int| list[i]@)
}

fn alternatives_of<'a>(master: &'a MasterPlaylist, media_type: &str) -> (r: Vec<&'a AlternativeMedia>)
    ensures
        alternative_views(r@) == of_type(master@.alternatives, media_type@),
{
    let mut r: Vec<&'a AlternativeMedia> = Vec::new();
    let mut i: usize = 0;
    let ghost all = master@.alternatives;
    assert(alternative_views(r@) == of_type(all.take(0), media_type@));
    while i < master.alternatives.len()
        invariant
            all == master@.alternatives,
            0 <= i <= master.alternatives@.len(),
            alternative_views(r@) == of_type(all.take(i as int), media_type@),
        decreases master.alternatives@.len() - i,
    {
        let alt = &master.alternatives[i];
        assert(all.take(i + 1).drop_last() == all.take(i as int));
        assert(all.take(i + 1).last() == alt@);
        let ghost before = r@;
        if same_text(alt.media_type.as_str(), media_type) {
            r.push(alt);
            assert(alternative_views(r@) == alternative_views(before).push(alt@));
        }
        i += 1;
    }
    assert(all.take(all.len() as int) == all);
    r
}

/// Collect audio alternative media entries from a master playlist.
pub fn audio_alternatives(master: &MasterPlaylist) -> (r: Vec<&AlternativeMedia>)
    ensures
        alternative_views(r@) == of_type(master@.alternatives, "AUDIO"@),
{
    alternatives_of(master, "AUDIO")
}

/// Collect subtitle alternative media entries from a master playlist.
pub fn subtitle_alternatives(master: &MasterPlaylist) -> (r: Vec<&AlternativeMedia>)
    ensures
        alternative_views(r@) == of_type(master@.alternatives, "SUBTITLES"@),
{
    alternatives_of(master, "SUBTITLES")
}

} // verus!
