//! URL resolution, proxy URLs, and XML escaping.

use vstd::prelude::*;
use crate::text::{chars_of, decimal, has_char, has_prefix, matches_at, push_decimal, push_range, slice_text, starts_with};

verus! {

/// The serialization of the URL that the text is, or the reason why it is none, as
/// `url::Url::parse` finds it.
pub uninterp spec fn url_parsed(text: Seq<char>) -> Result<Seq<char>, Seq<char>>;

/// The serialization of the URL that a reference stands for, seen from a base URL, or the reason why
/// there is none, as `url::Url::join` finds it.
pub uninterp spec fn url_joined(base: Seq<char>, reference: Seq<char>) -> Result<Seq<char>, Seq<char>>;

/// `url::Url::parse`: reads an absolute URL. The contract says that the serialization, or the text
/// of the error, is determined by the input.
#[verifier::external_body]
fn url_parse(text: &str) -> (r: Result<String, String>)
    ensures
        match r {
            Ok(url) => url_parsed(text@) == Ok::<Seq<char>, Seq<char>>(url@),
            Err(reason) => url_parsed(text@) == Err::<Seq<char>, Seq<char>>(reason@),
        },
{
    match url::Url::parse(text) {
        Ok(url) => Ok(String::from(url)),
        Err(e) => Err(e.to_string()),
    }
}

/// `url::Url::join`: resolves a reference against a base URL, which is given by its serialization
/// and turned into a `url::Url` for the call. The contract says that the serialization of the
/// result, or the text of the error, is determined by the base and the reference.
#[verifier::external_body]
fn url_join(base: &str, reference: &str) -> (r: Result<String, String>)
    ensures
        match r {
            Ok(url) => url_joined(base@, reference@) == Ok::<Seq<char>, Seq<char>>(url@),
            Err(reason) => url_joined(base@, reference@) == Err::<Seq<char>, Seq<char>>(reason@),
        },
{
    match url::Url::parse(base).and_then(|b| b.join(reference)) {
        Ok(url) => Ok(String::from(url)),
        Err(e) => Err(e.to_string()),
    }
}

/// An absolute URL, held as its serialization.
#[derive(Debug)]
pub struct Url {
    text: String,
}

impl View for Url {
    type V = Seq<char>;

    closed spec fn view(&self) -> Seq<char> {
        self.text@
    }
}

impl Url {
    /// Reads an absolute URL; the error says why the text is none.
    pub fn parse(text: &str) -> (r: Result<Url, String>)
        ensures
            match r {
                Ok(url) => url_parsed(text@) == Ok::<Seq<char>, Seq<char>>(url@),
                Err(reason) => url_parsed(text@) == Err::<Seq<char>, Seq<char>>(reason@),
            },
    {
        match url_parse(text) {
            Ok(text) => Ok(Url { text }),
            Err(reason) => Err(reason),
        }
    }

    /// Resolves a reference against this URL.
    pub fn join(&self, reference: &str) -> (r: Result<Url, String>)
        ensures
            match r {
                Ok(url) => url_joined(self@, reference@) == Ok::<Seq<char>, Seq<char>>(url@),
                Err(reason) => url_joined(self@, reference@) == Err::<Seq<char>, Seq<char>>(reason@),
            },
    {
        match url_join(self.text.as_str(), reference) {
            Ok(text) => Ok(Url { text }),
            Err(reason) => Err(reason),
        }
    }

    /// The serialization of this URL.
    pub fn as_str(&self) -> (r: &str)
        ensures
            r@ == self@,
    {
        self.text.as_str()
    }

    /// A copy of this URL.
    pub fn copy(&self) -> (r: Url)
        ensures
            r@ == self@,
    {
        Url { text: self.text.clone() }
    }
}

/// What a segment URI stands for, seen from the URL of its playlist.
pub open spec fn resolved(base: Seq<char>, uri: Seq<char>) -> Result<Seq<char>, Seq<char>> {
    if has_prefix(uri, "http://"@) || has_prefix(uri, "https://"@) {
        url_parsed(uri)
    } else {
        url_joined(base, uri)
    }
}

/// Resolve a (possibly relative) segment URI against a base URL.
pub fn resolve_segment_url(base_url: &Url, segment_uri: &str) -> (r: Result<Url, String>)
    ensures
        match r {
            Ok(url) => resolved(base_url@, segment_uri@) == Ok::<Seq<char>, Seq<char>>(url@),
            Err(reason) => resolved(base_url@, segment_uri@) == Err::<Seq<char>, Seq<char>>(reason@),
        },
{
    if starts_with(segment_uri, "http://") || starts_with(segment_uri, "https://") {
        Url::parse(segment_uri)
    } else {
        base_url.join(segment_uri)
    }
}

/// A URL without a leading `https://` or `http://`.
pub open spec fn without_scheme(url: Seq<char>) -> Seq<char> {
    if has_prefix(url, "https://"@) {
        url.skip("https://"@.len() as int)
    } else if has_prefix(url, "http://"@) {
        url.skip("http://"@.len() as int)
    } else {
        url
    }
}

/// `s` without the slashes at its end.
pub open spec fn trim_end_slashes(s: Seq<char>) -> Seq<char>
    decreases s.len(),
{
    if s.len() > 0 && s.last() == '/' {
        trim_end_slashes(s.drop_last())
    } else {
        s
    }
}

/// `s` without the slashes at its start.
pub open spec fn trim_start_slashes(s: Seq<char>) -> Seq<char>
    decreases s.len(),
{
    if s.len() > 0 && s[0] == '/' {
        trim_start_slashes(s.skip(1))
    } else {
        s
    }
}

/// The URL under which the proxy serves an upstream URL on a route: the public base without slashes
/// at its end, the route, and the upstream URL without its scheme.
pub open spec fn proxied(upstream: Seq<char>, proxy_base: Seq<char>, route: Seq<char>) -> Seq<char> {
    trim_end_slashes(proxy_base) + route + without_scheme(upstream)
}

fn push_without_scheme(out: &mut String, url: &str)
    ensures
        final(out)@ == old(out)@ + without_scheme(url@),
{
    let v = chars_of(url);
    let https = chars_of("https://");
    let http = chars_of("http://");
    let from: usize = if matches_at(v.as_slice(), 0, https.as_slice()) {
        https.len()
    } else if matches_at(v.as_slice(), 0, http.as_slice()) {
        http.len()
    } else {
        0
    };
    assert(v@.subrange(from as int, v@.len() as int) == without_scheme(url@));
    push_range(out, v.as_slice(), from, v.len());
}

fn push_trimmed_end(out: &mut String, s: &str)
    ensures
        final(out)@ == old(out)@ + trim_end_slashes(s@),
{
    let v = chars_of(s);
    let mut end: usize = v.len();
    assert(v@.subrange(0, end as int) == s@);
    while end > 0 && v[end - 1] == '/'
        invariant
            end <= v@.len(),
            trim_end_slashes(s@) == trim_end_slashes(v@.subrange(0, end as int)),
        decreases end,
    {
        assert(v@.subrange(0, end as int).drop_last() == v@.subrange(0, end - 1));
        end -= 1;
    }
    assert(trim_end_slashes(v@.subrange(0, end as int)) == v@.subrange(0, end as int));
    push_range(out, v.as_slice(), 0, end);
}

fn proxied_url(upstream_url: &str, proxy_base: &str, route: &str) -> (r: String)
    ensures
        r@ == proxied(upstream_url@, proxy_base@, route@),
{
    let mut out = String::new();
    push_trimmed_end(&mut out, proxy_base);
    out.append(route);
    push_without_scheme(&mut out, upstream_url);
    out
}

/// Convert an upstream HTTPS URL into a proxy URL path.
pub fn proxy_url(upstream_url: &str, proxy_base: &str) -> (r: String)
    ensures
        r@ == proxied(upstream_url@, proxy_base@, "/hls2dash/"@),
{
    proxied_url(upstream_url, proxy_base, "/hls2dash/")
}

/// Convert an upstream TS segment URL into a proxy init-segment URL.
pub fn proxy_init_url(upstream_url: &str, proxy_base: &str) -> (r: String)
    ensures
        r@ == proxied(upstream_url@, proxy_base@, "/hls2dash-init/"@),
{
    proxied_url(upstream_url, proxy_base, "/hls2dash-init/")
}

/// Convert a media playlist URL into a playlist-based init-segment proxy URL.
/// Used for live streams so the init segment is always derived from the current playlist.
pub fn proxy_init_from_playlist_url(playlist_url: &str, proxy_base: &str) -> (r: String)
    ensures
        r@ == proxied(playlist_url@, proxy_base@, "/hls2dash-init-pl/"@),
{
    proxied_url(playlist_url, proxy_base, "/hls2dash-init-pl/")
}

/// The query parameters that name one segment of a playlist, behind whatever query the URL of the
/// playlist has already.
pub open spec fn segment_params(playlist_url: Seq<char>, idx: nat, dur_ms: nat) -> Seq<char> {
    (if playlist_url.contains('?') {
        "&_idx="@
    } else {
        "?_idx="@
    }) + decimal(idx) + "&_dur="@ + decimal(dur_ms)
}

/// Convert a media playlist URL into the proxy URL of the playlist's segment number `idx`, for
/// segments of `target_dur_ms` milliseconds.
pub fn proxy_ts_pl_url(playlist_url: &str, idx: usize, target_dur_ms: u64, proxy_base: &str) -> (r: String)
    ensures
        r@ == proxied(playlist_url@, proxy_base@, "/hls2dash-ts-pl/"@) + segment_params(
            playlist_url@,
            idx as nat,
            target_dur_ms as nat,
        ),
{
    let mut out = proxied_url(playlist_url, proxy_base, "/hls2dash-ts-pl/");
    let ghost path = out@;
    if has_char(playlist_url, '?') {
        out.append("&_idx=");
    } else {
        out.append("?_idx=");
    }
    push_decimal(&mut out, idx as u128);
    out.append("&_dur=");
    push_decimal(&mut out, target_dur_ms as u128);
    assert(out@ == path + segment_params(playlist_url@, idx as nat, target_dur_ms as nat));
    out
}

/// The upstream HTTPS URL for a captured path and an optional query string.
pub open spec fn upstream_url(path: Seq<char>, query: Option<Seq<char>>) -> Seq<char> {
    let base = "https://"@ + trim_start_slashes(path);
    match query {
        Some(q) if q.len() > 0 => base + "?"@ + q,
        _ => base,
    }
}

/// Build the upstream HTTPS URL from the captured path segment and optional query string.
pub fn build_upstream_url(path: &str, query: Option<&str>) -> (r: String)
    ensures
        r@ == upstream_url(path@, slice_text(query)),
{
    let v = chars_of(path);
    let mut start: usize = 0;
    assert(v@.skip(0) == path@);
    while start < v.len() && v[start] == '/'
        invariant
            start <= v@.len(),
            trim_start_slashes(path@) == trim_start_slashes(v@.skip(start as int)),
        decreases v@.len() - start,
    {
        assert(v@.skip(start as int).skip(1) == v@.skip(start + 1));
        start += 1;
    }
    assert(trim_start_slashes(v@.skip(start as int)) == v@.skip(start as int));
    assert(v@.subrange(start as int, v@.len() as int) == v@.skip(start as int));
    let mut out = String::new();
    out.append("https://");
    push_range(&mut out, v.as_slice(), start, v.len());
    match query {
        Some(q) => {
            if !q.is_empty() {
                out.append("?");
                out.append(q);
            }
        },
        None => {},
    }
    out
}

/// What stands for a character in XML text and attribute values.
pub open spec fn escape(c: char) -> Seq<char> {
    if c == '&' {
        "&amp;"@
    } else if c == '<' {
        "&lt;"@
    } else if c == '>' {
        "&gt;"@
    } else if c == '"' {
        "&quot;"@
    } else if c == '\'' {
        "&apos;"@
    } else {
        seq![c]
    }
}

/// `s` with every character that is special in XML escaped.
pub open spec fn xml_escaped(s: Seq<char>) -> Seq<char>
    decreases s.len(),
{
    if s.len() == 0 {
        Seq::empty()
    } else {
        xml_escaped(s.drop_last()) + escape(s.last())
    }
}

/// XML-escape a string for safe embedding in MPD attributes or text.
pub fn xml_escape(s: &str) -> (r: String)
    ensures
        r@ == xml_escaped(s@),
{
    let v = chars_of(s);
    let mut out = String::new();
    let mut i: usize = 0;
    while i < v.len()
        invariant
            v@ == s@,
            0 <= i <= v@.len(),
            out@ == xml_escaped(s@.take(i as int)),
        decreases v@.len() - i,
    {
        let c = v[i];
        assert(s@.take(i + 1).drop_last() == s@.take(i as int));
        assert(s@.take(i + 1).last() == c);
        if c == '&' {
            out.append("&amp;");
        } else if c == '<' {
            out.append("&lt;");
        } else if c == '>' {
            out.append("&gt;");
        } else if c == '"' {
            out.append("&quot;");
        } else if c == '\'' {
            out.append("&apos;");
        } else {
            out.push(c);
        }
        assert(out@ == xml_escaped(s@.take(i + 1)));
        i += 1;
    }
    assert(s@.take(s@.len() as int) == s@);
    out
}

} // verus!
