use hls2dash::dash::{
    check_mpd_params, generate_mpd, generate_mpd_at, reference_playlist, AltRepData, MpdParams, RepresentationData,
};
use hls2dash::hls::{AlternativeMedia, Key, MediaPlaylist, MediaSegment, Resolution, VariantStream};
use hls2dash::url_utils::Url;

const HEAD: &str = r#"<?xml version="1.0" encoding="UTF-8"?>
<MPD xmlns="urn:mpeg:dash:schema:mpd:2011"
     xmlns:xsi="http://www.w3.org/2001/XMLSchema-instance"
     xsi:schemaLocation="urn:mpeg:dash:schema:mpd:2011 DASH-MPD.xsd"
     profiles="urn:mpeg:dash:profile:isoff-live:2011"
     "#;

const MIDDLE: &str = r#"
     minBufferTime="PT2S">
  <Period id="1" start="PT0S">
"#;

const TAIL: &str = r#"  </Period>
</MPD>"#;

fn segment(uri: &str, seconds: f32) -> MediaSegment {
    MediaSegment { uri: uri.to_string(), duration_bits: seconds.to_bits(), key: None, map_uri: None }
}

fn playlist(end_list: bool, segments: Vec<MediaSegment>) -> MediaPlaylist {
    MediaPlaylist { target_duration: 6, media_sequence: 7, end_list, segments }
}

fn variant() -> VariantStream {
    VariantStream {
        uri: "v.m3u8".to_string(),
        bandwidth: 1280000,
        codecs: Some("avc1,\"x\"".to_string()),
        resolution: Some(Resolution { width: 1280, height: 720 }),
    }
}

fn plain_variant() -> VariantStream {
    VariantStream { uri: "v.m3u8".to_string(), bandwidth: 0, codecs: None, resolution: None }
}

fn url(text: &str) -> Url {
    Url::parse(text).unwrap()
}

fn video<'a>(variant: &'a VariantStream, media: &'a MediaPlaylist, is_fmp4: bool) -> RepresentationData<'a> {
    RepresentationData {
        id: "v1".to_string(),
        variant,
        media_playlist: media,
        playlist_url: url("https://h/v/p.m3u8?t=1"),
        is_fmp4,
    }
}

fn params<'a>(video_reps: Vec<RepresentationData<'a>>, proxy_base: &'a str, transmux_ts: bool) -> MpdParams<'a> {
    MpdParams { video_reps, audio_reps: vec![], subtitle_reps: vec![], proxy_base, transmux_ts }
}

#[test]
fn a_vod_manifest_of_ts_segments() {
    let media = playlist(true, vec![segment("s0.ts", 6.006), segment("https://", 6.0), segment("s1.ts?a&b", 4.5)]);
    let variant = variant();
    let params = params(vec![video(&variant, &media, false)], "https://b/", false);
    assert!(check_mpd_params(&params));
    let body = r#"    <AdaptationSet id="1" contentType="video" segmentAlignment="true" bitstreamSwitching="true">
      <Representation id="v1" mimeType="video/MP2T" codecs="avc1,&quot;x&quot;" width="1280" height="720"  bandwidth="1280000">
        <SegmentList timescale="1000" duration="6000">
          <SegmentURL media="https://b/hls2dash/h/v/s0.ts" duration="6006"/>
          <SegmentURL media="https://b/hls2dash/h/v/s1.ts?a&amp;b" duration="4500"/>
        </SegmentList>
      </Representation>
    </AdaptationSet>
"#;
    let timing = r#"type="static" mediaPresentationDuration="PT10.506S""#;
    let expected = format!("{}{}{}{}{}", HEAD, timing, MIDDLE, body, TAIL);
    assert_eq!(generate_mpd(&params, "10.506"), expected);
    assert_eq!(generate_mpd_at(&params, "10.506", 1700000000000), expected);
}

#[test]
fn a_vod_manifest_of_transmuxed_segments() {
    let media = playlist(true, vec![segment("s0.ts", 6.0), segment("s1.ts", 6.0)]);
    let variant = plain_variant();
    let params = params(vec![video(&variant, &media, false)], "", true);
    let mpd = generate_mpd(&params, "12.000");
    let body = r#"      <Representation id="v1" mimeType="video/mp4"  bandwidth="0">
        <SegmentList timescale="1000" duration="6000">
          <Initialization sourceURL="/hls2dash-init/h/v/s0.ts"/>
          <SegmentURL media="/hls2dash-ts-pl/h/v/p.m3u8?t=1&amp;_idx=0&amp;_dur=6000" duration="6000"/>
          <SegmentURL media="/hls2dash-ts-pl/h/v/p.m3u8?t=1&amp;_idx=1&amp;_dur=6000" duration="6000"/>
        </SegmentList>
      </Representation>
"#;
    assert!(mpd.contains(body), "{}", mpd);
}

#[test]
fn a_vod_playlist_without_segments_has_no_init() {
    let media = playlist(true, vec![]);
    let variant = plain_variant();
    let mpd = generate_mpd(&params(vec![video(&variant, &media, false)], "", true), "0.000");
    assert!(!mpd.contains("Initialization"));
    assert!(!mpd.contains("SegmentURL"));
}

#[test]
fn an_fmp4_manifest_has_the_map_as_init() {
    let mut first = segment("s0.m4s", 6.0);
    first.map_uri = Some("init.mp4".to_string());
    let media = playlist(true, vec![first, segment("s1.m4s", 6.0)]);
    let variant = plain_variant();
    let mpd = generate_mpd(&params(vec![video(&variant, &media, true)], "", true), "12.000");
    let body = r#"      <Representation id="v1" mimeType="video/mp4"  bandwidth="0">
        <SegmentList timescale="1000" duration="6000">
          <Initialization sourceURL="/hls2dash/h/v/init.mp4"/>
          <SegmentURL media="/hls2dash/h/v/s0.m4s" duration="6000"/>
          <SegmentURL media="/hls2dash/h/v/s1.m4s" duration="6000"/>
        </SegmentList>
      </Representation>
"#;
    assert!(mpd.contains(body), "{}", mpd);
}

#[test]
fn a_live_manifest_is_dynamic() {
    let media = playlist(false, vec![segment("s0.ts", 6.0), segment("s1.ts", 6.0)]);
    let variant = plain_variant();
    let params = params(vec![video(&variant, &media, false)], "", true);
    assert!(check_mpd_params(&params));
    // 2023-11-14T22:13:20.999Z, less two segments of six seconds.
    let mpd = generate_mpd_at(&params, "", 1700000000999);
    let timing = r#"type="dynamic" availabilityStartTime="2023-11-14T22:13:08Z" minimumUpdatePeriod="PT6.0S" timeShiftBufferDepth="PT12.0S" suggestedPresentationDelay="PT18.0S""#;
    assert!(mpd.starts_with(&format!("{}{}{}", HEAD, timing, MIDDLE)), "{}", mpd);
    assert!(mpd.contains(r#"<Initialization sourceURL="/hls2dash-init-pl/h/v/p.m3u8?t=1"/>"#), "{}", mpd);
}

#[test]
fn a_live_manifest_is_of_this_time() {
    let media = playlist(false, vec![]);
    let variant = plain_variant();
    let params = params(vec![video(&variant, &media, false)], "", false);
    let mpd = generate_mpd(&params, "");
    let start = mpd.split("availabilityStartTime=\"").nth(1).unwrap();
    let year: u32 = start[..4].parse().unwrap();
    assert!((2024..9999).contains(&year), "{}", start);
    assert_eq!(&start[19..21], "Z\"");
}

#[test]
fn instants_at_the_limits() {
    let media = playlist(false, vec![]);
    let variant = plain_variant();
    let params = params(vec![video(&variant, &media, false)], "", false);
    let first = generate_mpd_at(&params, "", hls2dash::clock::MIN_UTC_MILLIS);
    assert!(first.contains(r#"availabilityStartTime="-262143-01-01T00:00:00Z""#), "{}", first);
    let last = generate_mpd_at(&params, "", hls2dash::clock::MAX_UTC_MILLIS);
    assert!(last.contains(r#"availabilityStartTime="+262142-12-31T23:59:59Z""#), "{}", last);
}

#[test]
fn durations_out_of_range_are_found() {
    let variant = plain_variant();
    let mut media = playlist(true, vec![]);
    media.target_duration = u64::MAX / 1000;
    assert!(check_mpd_params(&params(vec![video(&variant, &media, false)], "", false)));
    media.target_duration = u64::MAX / 1000 + 1;
    assert!(!check_mpd_params(&params(vec![video(&variant, &media, false)], "", false)));

    let mut live = playlist(false, vec![segment("a", 1.0)]);
    live.target_duration = 8334601228800;
    assert!(check_mpd_params(&params(vec![video(&variant, &live, false)], "", false)));
    live.target_duration = 8334601228801;
    assert!(!check_mpd_params(&params(vec![video(&variant, &live, false)], "", false)));
}

#[test]
fn large_durations_are_shown_as_doubles() {
    let variant = plain_variant();
    let mut live = playlist(false, vec![]);
    live.target_duration = 9007199254740993;
    let mpd = generate_mpd_at(&params(vec![video(&variant, &live, false)], "", false), "", 0);
    let shown = 9007199254740993u64 as f64;
    assert!(mpd.contains(&format!("minimumUpdatePeriod=\"PT{:.1}S\"", shown)), "{}", mpd);
    assert!(mpd.contains(&format!("suggestedPresentationDelay=\"PT{:.1}S\"", shown * 3.0)), "{}", mpd);
}

#[test]
fn keys_are_proxied() {
    let mut keyed = segment("s0.ts", 6.0);
    keyed.key = Some(Key { method: "AES-128".to_string(), uri: Some("https://k/key?a=1&b=2".to_string()) });
    let clear = playlist(true, vec![segment("s0.ts", 6.0)]);
    let media = playlist(true, vec![keyed]);
    let variant = plain_variant();
    let params = params(vec![video(&variant, &clear, false), video(&variant, &media, false)], "https://b", false);
    let mpd = generate_mpd(&params, "6.000");
    let protection = r#"bitstreamSwitching="true">
    <ContentProtection schemeIdUri="urn:ietf:rfc:8216" value="AES-128">
      <ms:pro>https://b/hls2dash/k/key?a=1&amp;b=2</ms:pro>
    </ContentProtection>
      <Representation"#;
    assert!(mpd.contains(protection), "{}", mpd);
}

#[test]
fn audio_and_subtitles_follow_video() {
    let media = playlist(true, vec![segment("s0.ts", 6.0)]);
    let variant = plain_variant();
    let english = AlternativeMedia {
        media_type: "AUDIO".to_string(),
        uri: Some("a.m3u8".to_string()),
        language: Some("en".to_string()),
        name: "A & B".to_string(),
    };
    let unknown = AlternativeMedia {
        media_type: "AUDIO".to_string(),
        uri: Some("x.m3u8".to_string()),
        language: None,
        name: "x".to_string(),
    };
    let german = AlternativeMedia {
        media_type: "SUBTITLES".to_string(),
        uri: Some("s.m3u8".to_string()),
        language: Some("de".to_string()),
        name: "Deutsch".to_string(),
    };
    let params = MpdParams {
        video_reps: vec![video(&variant, &media, false)],
        audio_reps: vec![
            AltRepData {
                id: "a1".to_string(),
                alt: &english,
                media_playlist: Some(&media),
                playlist_url: Some(url("https://h/a/p.m3u8")),
                is_fmp4: false,
            },
            AltRepData {
                id: "a2".to_string(),
                alt: &unknown,
                media_playlist: None,
                playlist_url: None,
                is_fmp4: false,
            },
        ],
        subtitle_reps: vec![
            AltRepData {
                id: "s1".to_string(),
                alt: &german,
                media_playlist: Some(&media),
                playlist_url: Some(url("https://h/s/p.m3u8")),
                is_fmp4: false,
            },
        ],
        proxy_base: "",
        transmux_ts: true,
    };
    let mpd = generate_mpd(&params, "6.000");
    let tail = r#"    </AdaptationSet>
    <AdaptationSet id="2" contentType="audio" lang="en" label="A &amp; B">
      <Representation id="a1" mimeType="audio/mp4" bandwidth="128000">
        <SegmentList timescale="1000" duration="6000">
          <Initialization sourceURL="/hls2dash-init/h/a/s0.ts"/>
          <SegmentURL media="/hls2dash-ts-pl/h/a/p.m3u8?_idx=0&amp;_dur=6000" duration="6000"/>
        </SegmentList>
      </Representation>
    </AdaptationSet>
    <AdaptationSet id="3" contentType="audio" lang="und" label="x">
    </AdaptationSet>
    <AdaptationSet id="4" contentType="text" lang="de" label="Deutsch" mimeType="text/vtt">
      <Representation id="s1" mimeType="text/vtt" bandwidth="10000">
        <SegmentList timescale="1000" duration="6000">
          <SegmentURL media="/hls2dash/h/s/s0.ts" duration="6000"/>
        </SegmentList>
      </Representation>
    </AdaptationSet>
  </Period>
</MPD>"#;
    assert!(mpd.ends_with(tail), "{}", mpd);
}

#[test]
fn audio_alone_is_the_reference() {
    let media = playlist(false, vec![segment("s0.aac", 6.0)]);
    let english = AlternativeMedia {
        media_type: "AUDIO".to_string(),
        uri: Some("a.m3u8".to_string()),
        language: None,
        name: "en".to_string(),
    };
    let params = MpdParams {
        video_reps: vec![],
        audio_reps: vec![
            AltRepData {
                id: "a1".to_string(),
                alt: &english,
                media_playlist: Some(&media),
                playlist_url: Some(url("https://h/a/p.m3u8")),
                is_fmp4: false,
            },
        ],
        subtitle_reps: vec![],
        proxy_base: "",
        transmux_ts: false,
    };
    assert!(!reference_playlist(&params).unwrap().end_list);
    let mpd = generate_mpd(&params, "");
    assert!(mpd.contains("type=\"dynamic\""));
    assert!(mpd.contains(r#"<AdaptationSet id="1" contentType="audio" lang="und" label="en">"#), "{}", mpd);
    assert!(mpd.contains(r#"mimeType="audio/MP2T""#), "{}", mpd);
}

#[test]
fn nothing_at_all_is_a_vod_presentation() {
    let params = params(vec![], "", false);
    assert!(reference_playlist(&params).is_none());
    assert_eq!(
        generate_mpd(&params, "0.000"),
        format!("{}{}{}{}", HEAD, r#"type="static" mediaPresentationDuration="PT0.000S""#, MIDDLE, TAIL)
    );
}
