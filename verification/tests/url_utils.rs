use hls2dash::url_utils::{
    build_upstream_url, proxy_init_from_playlist_url, proxy_init_url, proxy_ts_pl_url, proxy_url, resolve_segment_url,
    xml_escape, Url,
};

#[test]
fn test_proxy_url_no_base() {
    assert_eq!(
        proxy_url("https://cdn.example.com/live/master.m3u8", ""),
        "/hls2dash/cdn.example.com/live/master.m3u8"
    );
}

#[test]
fn test_proxy_url_with_base() {
    assert_eq!(
        proxy_url("https://cdn.example.com/live/seg.ts", "https://myapp.com"),
        "https://myapp.com/hls2dash/cdn.example.com/live/seg.ts"
    );
}

#[test]
fn test_resolve_absolute() {
    let base = Url::parse("https://cdn.example.com/live/playlist.m3u8").unwrap();
    let resolved = resolve_segment_url(&base, "https://other.example.com/seg.ts").unwrap();
    assert_eq!(resolved.as_str(), "https://other.example.com/seg.ts");
}

#[test]
fn test_resolve_relative() {
    let base = Url::parse("https://cdn.example.com/live/playlist.m3u8").unwrap();
    let resolved = resolve_segment_url(&base, "seg001.ts").unwrap();
    assert_eq!(resolved.as_str(), "https://cdn.example.com/live/seg001.ts");
}

#[test]
fn test_xml_escape() {
    assert_eq!(xml_escape("a&b<c>d\"e"), "a&amp;b&lt;c&gt;d&quot;e");
}

#[test]
fn xml_escape_quotes_and_entities() {
    assert_eq!(xml_escape("it's"), "it&apos;s");
    assert_eq!(xml_escape("&amp;"), "&amp;amp;");
    assert_eq!(xml_escape(""), "");
    assert_eq!(xml_escape("naïve ünïcode"), "naïve ünïcode");
}

#[test]
fn xml_escape_goes_part_by_part() {
    let whole = xml_escape("a<b&c");
    assert_eq!(whole, format!("{}{}", xml_escape("a<"), xml_escape("b&c")));
    assert!(!whole.contains('<'));
    let read_back = whole.replace("&lt;", "<").replace("&amp;", "&");
    assert_eq!(read_back, "a<b&c");
}

#[test]
fn url_parse_normalizes() {
    assert_eq!(Url::parse("HTTPS://CDN.Example.com").unwrap().as_str(), "https://cdn.example.com/");
    assert_eq!(Url::parse("https://h/a/../b").unwrap().as_str(), "https://h/b");
}

#[test]
fn url_parse_errors_have_text() {
    assert_eq!(Url::parse("not a url").unwrap_err(), "relative URL without a base");
    assert_eq!(Url::parse("https://").unwrap_err(), "empty host");
}

#[test]
fn resolve_relative_forms() {
    let base = Url::parse("https://cdn.example.com/live/a/playlist.m3u8?token=1").unwrap();
    assert_eq!(resolve_segment_url(&base, "../seg.ts").unwrap().as_str(), "https://cdn.example.com/live/seg.ts");
    assert_eq!(resolve_segment_url(&base, "/seg.ts").unwrap().as_str(), "https://cdn.example.com/seg.ts");
    assert_eq!(resolve_segment_url(&base, "//o.example/x").unwrap().as_str(), "https://o.example/x");
    assert_eq!(resolve_segment_url(&base, "http://o.example/x").unwrap().as_str(), "http://o.example/x");
    assert_eq!(resolve_segment_url(&base, "https://").unwrap_err(), "empty host");
    assert_eq!(resolve_segment_url(&base, "//[bad/x").unwrap_err(), "invalid IPv6 address");
}

#[test]
fn url_copies_are_equal() {
    let url = Url::parse("https://h/p").unwrap();
    assert_eq!(url.copy().as_str(), url.as_str());
}

#[test]
fn proxy_url_schemes() {
    assert_eq!(proxy_url("http://h/p", ""), "/hls2dash/h/p");
    assert_eq!(proxy_url("key.bin", ""), "/hls2dash/key.bin");
    assert_eq!(proxy_url("https://http://h", ""), "/hls2dash/http://h");
}

#[test]
fn proxy_base_slashes_are_not_doubled() {
    assert_eq!(proxy_url("https://h/p", "https://b//"), "https://b/hls2dash/h/p");
    assert_eq!(proxy_url("https://h/p", "/"), "/hls2dash/h/p");
}

#[test]
fn init_urls() {
    assert_eq!(proxy_init_url("https://h/s.ts", "https://b"), "https://b/hls2dash-init/h/s.ts");
    assert_eq!(proxy_init_from_playlist_url("https://h/p.m3u8", ""), "/hls2dash-init-pl/h/p.m3u8");
}

#[test]
fn segment_urls_of_a_playlist() {
    assert_eq!(
        proxy_ts_pl_url("https://h/p.m3u8", 3, 6000, ""),
        "/hls2dash-ts-pl/h/p.m3u8?_idx=3&_dur=6000"
    );
    assert_eq!(
        proxy_ts_pl_url("https://h/p.m3u8?t=1", 0, 10, "https://b"),
        "https://b/hls2dash-ts-pl/h/p.m3u8?t=1&_idx=0&_dur=10"
    );
}

#[test]
fn upstream_urls() {
    assert_eq!(build_upstream_url("h/p", None), "https://h/p");
    assert_eq!(build_upstream_url("//h/p", None), "https://h/p");
    assert_eq!(build_upstream_url("h/p", Some("a=1&b=2")), "https://h/p?a=1&b=2");
    assert_eq!(build_upstream_url("h/p", Some("")), "https://h/p");
    assert_eq!(build_upstream_url("", None), "https://");
}

#[test]
fn proxy_urls_lead_back() {
    let upstream = "https://cdn.example.com/live/seg.ts?token=a/b";
    let proxied = proxy_url(upstream, "https://b");
    let target = proxied.strip_prefix("https://b/hls2dash/").unwrap();
    let (path, query) = target.split_once('?').unwrap();
    assert_eq!(build_upstream_url(path, Some(query)), upstream);
}
