use hls2dash::error::AppError;
use hls2dash::handlers::manifest::{
    as_alternative, as_variant, audio_renditions, make_dummy_variant, playlist_fetch_error, subtitle_renditions, with_base,
    Manifest, ManifestRequest, Step,
};
use hls2dash::handlers::reply::{
    health_reply, mpd_response, playlist_segment_reply, release_notes_reply, ts_init_reply, ts_segment_reply,
};
use hls2dash::handlers::route::{dash_upstream_url, route_hls2dash, split_segment_query, Route};
use hls2dash::hls::{parse_playlist, ParsedPlaylist};
use hls2dash::url_utils::{build_upstream_url, proxy_ts_pl_url, Url};

const MASTER: &str = "#EXTM3U
#EXT-X-MEDIA:TYPE=AUDIO,GROUP-ID=\"aud\",NAME=\"English\",URI=\"audio/en.m3u8\"
#EXT-X-MEDIA:TYPE=AUDIO,GROUP-ID=\"aud\",NAME=\"Muxed\"
#EXT-X-MEDIA:TYPE=AUDIO,GROUP-ID=\"aud\",NAME=\"French\",URI=\"audio/fr.m3u8\"
#EXT-X-MEDIA:TYPE=SUBTITLES,GROUP-ID=\"subs\",NAME=\"Deutsch\",LANGUAGE=\"de\",URI=\"subs/de.m3u8\"
#EXT-X-STREAM-INF:BANDWIDTH=1280000,AUDIO=\"aud\"
video/720.m3u8
#EXT-X-STREAM-INF:BANDWIDTH=640000,AUDIO=\"aud\"
video/360.m3u8
";

const MEDIA: &str = "#EXTM3U\n#EXT-X-TARGETDURATION:6\n#EXTINF:6,\nseg0.ts\n#EXT-X-ENDLIST\n";

const URL: &str = "https://cdn.example.com/live/master.m3u8";

fn body(text: &str) -> Option<Result<Vec<u8>, AppError>> {
    Some(Ok(text.as_bytes().to_vec()))
}

fn failed(status: u16) -> Option<Result<Vec<u8>, AppError>> {
    Some(Err(AppError::UpstreamStatus { status, body: "no".to_string() }))
}

fn fetching(step: Step) -> ManifestRequest {
    match step {
        Step::Fetch(request) => request,
        other => panic!("not fetching: {:?}", other),
    }
}

fn failure(step: Step) -> String {
    match step {
        Step::Failed(error) => error.message(),
        other => panic!("not failed: {:?}", other),
    }
}

fn at_variants() -> ManifestRequest {
    fetching(ManifestRequest::start(URL.to_string()).advance(vec![body(MASTER)]))
}

fn at_alternatives() -> ManifestRequest {
    fetching(at_variants().advance(vec![body(MEDIA), body(MEDIA)]))
}

fn texts(targets: Vec<Option<String>>) -> Vec<String> {
    targets.into_iter().map(|t| t.unwrap_or("-".to_string())).collect()
}

#[test]
fn routes_by_extension() {
    assert_eq!(route_hls2dash("h/a.m3u8", None, false), (Route::Manifest, "https://h/a.m3u8".to_string()));
    assert_eq!(route_hls2dash("h/a.m3u8", Some("t=1"), true), (Route::Manifest, "https://h/a.m3u8?t=1".to_string()));
    assert_eq!(route_hls2dash("h/a.ts", None, true), (Route::TsSegment, "https://h/a.ts".to_string()));
    assert_eq!(route_hls2dash("h/a.ts", None, false), (Route::Passthrough, "https://h/a.ts".to_string()));
    assert_eq!(route_hls2dash("h/a.key", None, true), (Route::Passthrough, "https://h/a.key".to_string()));
    assert_eq!(route_hls2dash("h/a.ts?x.m3u8", None, true), (Route::TsSegment, "https://h/a.ts?x.m3u8".to_string()));
    assert_eq!(route_hls2dash("", None, true), (Route::Passthrough, "https://".to_string()));
}

#[test]
fn dash_paths_become_hls_paths() {
    assert_eq!(dash_upstream_url("h/master.mpd", None), "https://h/master.m3u8");
    assert_eq!(dash_upstream_url("h/master.m3u8", Some("t=1")), "https://h/master.m3u8?t=1");
    assert_eq!(dash_upstream_url("h/master", None), "https://h/master");
    assert_eq!(dash_upstream_url(".mpd", None), "https://.m3u8");
    assert_eq!(dash_upstream_url("mpd", None), "https://mpd");
}

#[test]
fn dash_and_hls_endpoints_agree() {
    let (route, url) = route_hls2dash("h/live/x.m3u8", Some("t=1"), true);
    assert_eq!(route, Route::Manifest);
    assert_eq!(dash_upstream_url("h/live/x.mpd", Some("t=1")), url);
}

fn split(query: Option<&str>) -> (usize, u64, Option<String>) {
    let request = split_segment_query(query);
    (request.idx, request.target_dur_ms, request.playlist_query)
}

#[test]
fn segment_queries_are_split() {
    assert_eq!(split(None), (0, 6000, None));
    assert_eq!(split(Some("_idx=3&_dur=4000")), (3, 4000, None));
    assert_eq!(split(Some("a=1&_idx=3&b=2&_dur=4000")), (3, 4000, Some("a=1&b=2".to_string())));
    assert_eq!(split(Some("_idx=x&_dur=")), (0, 6000, None));
    assert_eq!(split(Some("_idx=1&_idx=2")), (2, 6000, None));
    assert_eq!(split(Some("_idx=2&_idx=x")), (0, 6000, None));
    assert_eq!(split(Some("")), (0, 6000, Some("".to_string())));
    assert_eq!(split(Some("a&&b")), (0, 6000, Some("a&&b".to_string())));
    assert_eq!(split(Some("idx=1")), (0, 6000, Some("idx=1".to_string())));
}

#[test]
fn segment_urls_lead_back() {
    for playlist in vec!["https://cdn.example.com/v/p.m3u8", "https://cdn.example.com/v/p.m3u8?token=x&e=1"] {
        let proxied = proxy_ts_pl_url(playlist, 17, 6006, "https://b/");
        let target = proxied.strip_prefix("https://b/hls2dash-ts-pl/").unwrap();
        let (path, query) = target.split_once('?').unwrap();
        let request = split_segment_query(Some(query));
        assert_eq!(request.idx, 17);
        assert_eq!(request.target_dur_ms, 6006);
        assert_eq!(build_upstream_url(path, request.playlist_query.as_deref()), playlist);
    }
}

#[test]
fn a_master_playlist_is_settled_in_three_rounds() {
    let start = ManifestRequest::start(URL.to_string());
    assert_eq!(texts(start.targets()), vec![URL]);
    let variants = fetching(start.advance(vec![body(MASTER)]));
    assert_eq!(
        texts(variants.targets()),
        vec!["https://cdn.example.com/live/video/720.m3u8", "https://cdn.example.com/live/video/360.m3u8"]
    );
    let alternatives = fetching(variants.advance(vec![body(MEDIA), body(MEDIA)]));
    assert_eq!(
        texts(alternatives.targets()),
        vec![
            "https://cdn.example.com/live/audio/en.m3u8",
            "https://cdn.example.com/live/audio/fr.m3u8",
            "https://cdn.example.com/live/subs/de.m3u8",
        ]
    );
    let manifest = match alternatives.advance(vec![body(MEDIA), body(MASTER), body(MEDIA)]) {
        Step::Ready(manifest) => manifest,
        other => panic!("not ready: {:?}", other),
    };
    let params = manifest.params("https://b", true);
    assert_eq!(params.proxy_base, "https://b");
    assert!(params.transmux_ts);
    assert_eq!(params.video_reps.len(), 2);
    assert_eq!(params.video_reps[0].id, "v1");
    assert_eq!(params.video_reps[0].variant.bandwidth, 1280000);
    assert_eq!(params.video_reps[0].playlist_url.as_str(), "https://cdn.example.com/live/video/720.m3u8");
    assert_eq!(params.video_reps[1].id, "v2");
    assert_eq!(params.video_reps[1].variant.bandwidth, 640000);
    assert_eq!(params.audio_reps.len(), 2);
    assert_eq!(params.audio_reps[0].id, "a1");
    assert_eq!(params.audio_reps[0].alt.name, "English");
    assert!(params.audio_reps[0].media_playlist.is_some());
    assert_eq!(params.audio_reps[1].id, "a2");
    assert_eq!(params.audio_reps[1].alt.name, "French");
    assert!(params.audio_reps[1].media_playlist.is_none());
    assert!(params.audio_reps[1].playlist_url.is_none());
    assert_eq!(params.subtitle_reps.len(), 1);
    assert_eq!(params.subtitle_reps[0].id, "s1");

    let mut ids: Vec<&str> = params.video_reps.iter().map(|r| r.id.as_str()).collect();
    ids.extend(params.audio_reps.iter().map(|r| r.id.as_str()));
    ids.extend(params.subtitle_reps.iter().map(|r| r.id.as_str()));
    let count = ids.len();
    ids.sort();
    ids.dedup();
    assert_eq!(ids.len(), count);
}

#[test]
fn a_media_playlist_is_settled_at_once() {
    let url = "https://cdn.example.com/live/index.m3u8";
    let manifest = match ManifestRequest::start(url.to_string()).advance(vec![body(MEDIA)]) {
        Step::Ready(manifest) => manifest,
        other => panic!("not ready: {:?}", other),
    };
    let params = manifest.params("", false);
    assert_eq!(params.video_reps.len(), 1);
    assert_eq!(params.video_reps[0].id, "v1");
    assert_eq!(params.video_reps[0].variant.uri, url);
    assert_eq!(params.video_reps[0].variant.bandwidth, 0);
    assert_eq!(params.video_reps[0].playlist_url.as_str(), url);
    assert!(!params.video_reps[0].is_fmp4);
    assert!(params.audio_reps.is_empty());
    assert!(params.subtitle_reps.is_empty());
    assert!(matches!(manifest, Manifest::Media { .. }));
}

#[test]
fn a_failed_fetch_is_a_parse_error() {
    let step = ManifestRequest::start(URL.to_string()).advance(vec![failed(404)]);
    assert_eq!(failure(step), "HLS parse error: upstream returned non-2xx status 404: no");
    let error = playlist_fetch_error(&AppError::UpstreamFetch("timeout".to_string()));
    assert_eq!(error.message(), "HLS parse error: upstream fetch failed: timeout");
    assert_eq!(error.status_code(), 400);
}

#[test]
fn an_invalid_url_is_reported_after_the_body() {
    let step = ManifestRequest::start("https://".to_string()).advance(vec![body(MEDIA)]);
    assert_eq!(failure(step), "invalid URL: empty host");
    let step = ManifestRequest::start("https://".to_string()).advance(vec![body("<html>")]);
    assert!(failure(step).starts_with("HLS parse error: m3u8 parse failure: "));
}

#[test]
fn the_first_failed_variant_is_reported() {
    assert_eq!(
        failure(at_variants().advance(vec![failed(500), failed(404)])),
        "HLS parse error: upstream returned non-2xx status 500: no"
    );
    assert_eq!(
        failure(at_variants().advance(vec![body(MEDIA), failed(404)])),
        "HLS parse error: upstream returned non-2xx status 404: no"
    );
    assert_eq!(
        failure(at_variants().advance(vec![body(MASTER), failed(404)])),
        "HLS parse error: unexpected master playlist as variant"
    );
}

#[test]
fn audio_failures_come_before_subtitle_failures() {
    assert_eq!(
        failure(at_alternatives().advance(vec![body(MEDIA), failed(501), failed(502)])),
        "HLS parse error: upstream returned non-2xx status 501: no"
    );
    assert_eq!(
        failure(at_alternatives().advance(vec![body(MEDIA), body(MEDIA), failed(502)])),
        "HLS parse error: upstream returned non-2xx status 502: no"
    );
}

#[test]
fn a_variant_that_cannot_be_resolved_fails() {
    let master = "#EXTM3U\n#EXT-X-STREAM-INF:BANDWIDTH=1\nhttps://\n#EXT-X-STREAM-INF:BANDWIDTH=2\nb.m3u8\n";
    let request = fetching(ManifestRequest::start(URL.to_string()).advance(vec![body(master)]));
    assert_eq!(texts(request.targets()), vec!["-", "https://cdn.example.com/live/b.m3u8"]);
    assert_eq!(failure(request.advance(vec![None, failed(404)])), "invalid URL: empty host");
}

#[test]
fn outcomes_of_playlists() {
    let media = || parse_playlist(MEDIA.as_bytes());
    let master = || parse_playlist(MASTER.as_bytes());
    assert_eq!(as_variant(media()).unwrap().target_duration, 6);
    assert_eq!(
        as_variant(master()).unwrap_err().message(),
        "HLS parse error: unexpected master playlist as variant"
    );
    assert_eq!(as_variant(Err(AppError::InvalidUrl("x".to_string()))).unwrap_err().message(), "invalid URL: x");
    assert_eq!(as_alternative(media()).unwrap().unwrap().target_duration, 6);
    assert!(as_alternative(master()).unwrap().is_none());
    assert!(as_alternative(Err(AppError::InvalidUrl("x".to_string()))).is_err());
    let (url, _) = with_base(media(), Url::parse("https://h/p")).unwrap();
    assert_eq!(url.as_str(), "https://h/p");
    assert_eq!(with_base(media(), Err("why".to_string())).unwrap_err().message(), "invalid URL: why");
}

#[test]
fn renditions_need_a_playlist() {
    let master = match parse_playlist(MASTER.as_bytes()).unwrap() {
        ParsedPlaylist::Master(master) => master,
        ParsedPlaylist::Media(_) => panic!("a master playlist"),
    };
    let audio: Vec<&str> = audio_renditions(&master).into_iter().map(|a| a.name.as_str()).collect();
    assert_eq!(audio, vec!["English", "French"]);
    let subtitles: Vec<&str> = subtitle_renditions(&master).into_iter().map(|a| a.name.as_str()).collect();
    assert_eq!(subtitles, vec!["Deutsch"]);
}

#[test]
fn dummy_variants() {
    let variant = make_dummy_variant("u".to_string(), 5);
    assert_eq!(variant.uri, "u");
    assert_eq!(variant.bandwidth, 5);
    assert!(variant.codecs.is_none());
    assert!(variant.resolution.is_none());
}

#[test]
fn simple_replies() {
    let health = health_reply();
    assert_eq!((health.status, health.body.as_str()), (200, "OK"));
    let notes = release_notes_reply(Some("1.0".to_string()));
    assert_eq!((notes.status, notes.body.as_str()), (200, "1.0"));
    assert_eq!(notes.content_type, "text/plain; charset=utf-8");
    let missing = release_notes_reply(None);
    assert_eq!((missing.status, missing.body.as_str()), (404, "releasenotes.txt not found"));
    let mpd = mpd_response("<MPD/>".to_string());
    assert_eq!((mpd.status, mpd.content_type.as_str(), mpd.body.as_str()), (200, "application/dash+xml", "<MPD/>"));
}

#[test]
fn transmuxed_replies() {
    let fmp4: Vec<u8> = vec![0, 0, 0, 9, b'm', b'o', b'o', b'v', 1, 0, 0, 0, 8, b'm', b'o', b'o', b'f', 7];
    let init = ts_init_reply(Ok(fmp4.clone())).unwrap();
    assert_eq!((init.status, init.content_type.as_str()), (200, "video/mp4"));
    assert_eq!(init.body, fmp4[..9].to_vec());
    let media = ts_segment_reply(Ok(fmp4.clone())).unwrap();
    assert_eq!((media.status, media.content_type.as_str()), (200, "video/mp4"));
    assert_eq!(media.body, fmp4[9..].to_vec());
    assert_eq!(playlist_segment_reply(Ok(fmp4.clone())).unwrap().body, media.body);
}

#[test]
fn transmuxed_replies_fail() {
    let empty: Vec<u8> = vec![];
    assert_eq!(
        ts_init_reply(Ok(empty.clone())).unwrap_err().message(),
        "HLS parse error: no moov box found in transmuxed output"
    );
    assert_eq!(
        ts_segment_reply(Ok(empty.clone())).unwrap_err().message(),
        "HLS parse error: no moof box in transmuxed output"
    );
    assert_eq!(
        playlist_segment_reply(Ok(empty)).unwrap_err().message(),
        "HLS parse error: no moof box in transmuxed segment output"
    );
    let reason = "ffmpeg transmux failed: x";
    for error in vec![
        ts_init_reply(Err(reason.to_string())).unwrap_err(),
        ts_segment_reply(Err(reason.to_string())).unwrap_err(),
        playlist_segment_reply(Err(reason.to_string())).unwrap_err(),
    ] {
        assert_eq!(error.message(), "HLS parse error: ffmpeg transmux failed: x");
        assert_eq!(error.status_code(), 400);
    }
}
