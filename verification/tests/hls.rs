use hls2dash::hls::{
    audio_alternatives, first_key_uri, is_fmp4, parse_playlist, report, subtitle_alternatives, Key, MediaPlaylist,
    MediaSegment, ParsedPlaylist,
};

const MASTER: &str = "#EXTM3U
#EXT-X-MEDIA:TYPE=AUDIO,GROUP-ID=\"aud\",NAME=\"English\",LANGUAGE=\"en\",URI=\"audio/en.m3u8\"
#EXT-X-MEDIA:TYPE=SUBTITLES,GROUP-ID=\"subs\",NAME=\"Deutsch\",LANGUAGE=\"de\",URI=\"subs/de.m3u8\"
#EXT-X-MEDIA:TYPE=AUDIO,GROUP-ID=\"aud\",NAME=\"Muxed\"
#EXT-X-MEDIA:TYPE=CLOSED-CAPTIONS,GROUP-ID=\"cc\",NAME=\"CC\",INSTREAM-ID=\"CC1\"
#EXT-X-STREAM-INF:BANDWIDTH=1280000,CODECS=\"avc1.4d401f,mp4a.40.2\",RESOLUTION=1280x720
video/720.m3u8
#EXT-X-STREAM-INF:BANDWIDTH=640000
video/360.m3u8
";

const MEDIA: &str = "#EXTM3U
#EXT-X-VERSION:7
#EXT-X-TARGETDURATION:6
#EXT-X-MEDIA-SEQUENCE:42
#EXT-X-KEY:METHOD=AES-128,URI=\"https://keys.example.com/k1\"
#EXTINF:6.006,
seg0.ts
#EXT-X-KEY:METHOD=NONE
#EXTINF:4,
seg1.ts
#EXT-X-ENDLIST
";

fn segment(uri: &str) -> MediaSegment {
    MediaSegment { uri: uri.to_string(), duration_bits: 6.0f32.to_bits(), key: None, map_uri: None }
}

fn media(segments: Vec<MediaSegment>) -> MediaPlaylist {
    MediaPlaylist { target_duration: 6, media_sequence: 0, end_list: true, segments }
}

fn key(method: &str, uri: Option<&str>) -> Option<Key> {
    Some(Key { method: method.to_string(), uri: uri.map(|u| u.to_string()) })
}

#[test]
fn parses_a_master_playlist() {
    let master = match parse_playlist(MASTER.as_bytes()).unwrap() {
        ParsedPlaylist::Master(master) => master,
        ParsedPlaylist::Media(_) => panic!("a master playlist"),
    };
    assert_eq!(master.variants.len(), 2);
    assert_eq!(master.variants[0].uri, "video/720.m3u8");
    assert_eq!(master.variants[0].bandwidth, 1280000);
    assert_eq!(master.variants[0].codecs.as_deref(), Some("avc1.4d401f,mp4a.40.2"));
    let resolution = master.variants[0].resolution.unwrap();
    assert_eq!((resolution.width, resolution.height), (1280, 720));
    assert_eq!(master.variants[1].uri, "video/360.m3u8");
    assert!(master.variants[1].codecs.is_none());
    assert!(master.variants[1].resolution.is_none());
    assert_eq!(master.alternatives.len(), 4);
    assert_eq!(master.alternatives[0].media_type, "AUDIO");
    assert_eq!(master.alternatives[0].name, "English");
    assert_eq!(master.alternatives[0].language.as_deref(), Some("en"));
    assert_eq!(master.alternatives[0].uri.as_deref(), Some("audio/en.m3u8"));
    assert_eq!(master.alternatives[3].media_type, "CLOSED-CAPTIONS");
}

#[test]
fn parses_a_media_playlist() {
    let media = match parse_playlist(MEDIA.as_bytes()).unwrap() {
        ParsedPlaylist::Media(media) => media,
        ParsedPlaylist::Master(_) => panic!("a media playlist"),
    };
    assert_eq!(media.target_duration, 6);
    assert_eq!(media.media_sequence, 42);
    assert!(media.end_list);
    assert_eq!(media.segments.len(), 2);
    assert_eq!(media.segments[0].uri, "seg0.ts");
    assert_eq!(media.segments[0].duration_bits, 6.006f32.to_bits());
    assert_eq!(media.segments[1].duration_bits, 4.0f32.to_bits());
    let first = media.segments[0].key.as_ref().unwrap();
    assert_eq!(first.method, "AES-128");
    assert_eq!(first.uri.as_deref(), Some("https://keys.example.com/k1"));
    assert!(media.segments[0].map_uri.is_none());
}

#[test]
fn parses_a_map() {
    let text = "#EXTM3U\n#EXT-X-TARGETDURATION:4\n#EXT-X-MAP:URI=\"init.mp4\"\n#EXTINF:4,\na.m4s\n#EXTINF:4,\nb.m4s\n";
    match parse_playlist(text.as_bytes()).unwrap() {
        ParsedPlaylist::Media(media) => {
            assert_eq!(media.segments[0].map_uri.as_deref(), Some("init.mp4"));
            assert!(is_fmp4(&media));
            assert!(!media.end_list);
        },
        ParsedPlaylist::Master(_) => panic!("a media playlist"),
    }
}

#[test]
fn reports_what_is_no_playlist() {
    let error = parse_playlist(b"<html>").unwrap_err();
    assert_eq!(error.status_code(), 400);
    assert!(error.message().starts_with("HLS parse error: m3u8 parse failure: Error("), "{}", error.message());
}

#[test]
fn reports_parser_outcomes() {
    let error = report(Err("Incomplete".to_string())).unwrap_err();
    assert_eq!(error.message(), "HLS parse error: m3u8 parse failure: Incomplete");
    match report(Ok(ParsedPlaylist::Media(media(vec![])))).unwrap() {
        ParsedPlaylist::Media(media) => assert_eq!(media.target_duration, 6),
        ParsedPlaylist::Master(_) => panic!("a media playlist"),
    }
}

#[test]
fn fmp4_needs_a_map() {
    assert!(!is_fmp4(&media(vec![])));
    assert!(!is_fmp4(&media(vec![segment("a")])));
    let mut mapped = segment("b");
    mapped.map_uri = Some("init.mp4".to_string());
    assert!(is_fmp4(&media(vec![segment("a"), mapped])));
}

#[test]
fn the_first_aes_key_is_found() {
    assert_eq!(first_key_uri(&media(vec![segment("a")])), None);
    let mut sample = segment("a");
    sample.key = key("SAMPLE-AES", Some("k0"));
    let mut without = segment("b");
    without.key = key("AES-128", None);
    let mut first = segment("c");
    first.key = key("AES-128", Some("k1"));
    let mut second = segment("d");
    second.key = key("AES-128", Some("k2"));
    assert_eq!(first_key_uri(&media(vec![sample, without, first, second])).as_deref(), Some("k1"));
}

#[test]
fn alternatives_by_kind() {
    let master = match parse_playlist(MASTER.as_bytes()).unwrap() {
        ParsedPlaylist::Master(master) => master,
        ParsedPlaylist::Media(_) => panic!("a master playlist"),
    };
    let audio: Vec<&str> = audio_alternatives(&master).into_iter().map(|a| a.name.as_str()).collect();
    assert_eq!(audio, vec!["English", "Muxed"]);
    let subtitles: Vec<&str> = subtitle_alternatives(&master).into_iter().map(|a| a.name.as_str()).collect();
    assert_eq!(subtitles, vec!["Deutsch"]);
}
