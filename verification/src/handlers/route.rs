//! How a request is routed, and which upstream URL it stands for.

use vstd::prelude::*;
use crate::text::{
    chars_of, ends_with, has_prefix, has_suffix, joined, matches_at, opt_text, parse_unsigned, slice_text, split,
    split_on, string_of_range, texts, unsigned,
};
use crate::url_utils::{build_upstream_url, upstream_url};

verus! {

/// What a request under `/hls2dash/` is for.
#[derive(Debug, Clone, Copy, PartialEq, Eq, Structural)]
pub enum Route {
    /// An HLS playlist, to be converted to a manifest.
    Manifest,
    /// A TS segment, to be transmuxed.
    TsSegment,
    /// Anything else, to be passed through.
    Passthrough,
}

/// `s` up to its first question mark.
pub open spec fn before_query(s: Seq<char>) -> Seq<char>
    decreases s.len(),
{
    if s.len() == 0 || s[0] == '?' {
        Seq::empty()
    } else {
        seq![s[0]] + before_query(s.skip(1))
    }
}

/// The route of a path, by its extension.
pub open spec fn route(path: Seq<char>, transmux: bool) -> Route {
    if has_suffix(before_query(path), ".m3u8"@) {
        Route::Manifest
    } else if has_suffix(before_query(path), ".ts"@) && transmux {
        Route::TsSegment
    } else {
        Route::Passthrough
    }
}

fn cut_query(s: &str) -> (r: String)
    ensures
        r@ == before_query(s@),
{
    let v = chars_of(s);
    let mut end: usize = 0;
    assert(s@.take(0) + before_query(s@.skip(0)) == before_query(s@)) by {
        assert(s@.skip(0) == s@);
    }
    while end < v.len() && v[end] != '?'
        invariant
            v@ == s@,
            0 <= end <= v@.len(),
            s@.take(end as int) + before_query(s@.skip(end as int)) == before_query(s@),
        decreases v@.len() - end,
    {
        proof {
            let rest = s@.skip(end as int);
            assert(rest.skip(1) == s@.skip(end + 1));
            assert(rest[0] == s@[end as int]);
            assert(s@.take(end + 1) + before_query(rest.skip(1)) == s@.take(end as int) + (seq![rest[0]] + before_query(
                rest.skip(1),
            )));
        }
        end += 1;
    }
    assert(before_query(s@.skip(end as int)) == Seq::<char>::empty());
    assert(v@.subrange(0, end as int) == s@.take(end as int) + Seq::<char>::empty());
    string_of_range(v.as_slice(), 0, end)
}

/// Where a request for a path under `/hls2dash/` goes: the route, and the upstream URL.
pub fn route_hls2dash(path: &str, query: Option<&str>, transmux_ts: bool) -> (r: (Route, String))
    ensures
        r.0 == route(path@, transmux_ts),
        r.1@ == upstream_url(path@, slice_text(query)),
{
    let url = build_upstream_url(path, query);
    let file = cut_query(path);
    let route = if ends_with(file.as_str(), ".m3u8") {
        Route::Manifest
    } else if ends_with(file.as_str(), ".ts") && transmux_ts {
        Route::TsSegment
    } else {
        Route::Passthrough
    };
    (route, url)
}

/// The HLS path that a path under `/dash/` stands for: `.mpd` at the end becomes `.m3u8`.
pub open spec fn hls_path(path: Seq<char>) -> Seq<char> {
    if has_suffix(path, ".mpd"@) {
        path.take(path.len() - ".mpd"@.len()) + ".m3u8"@
    } else {
        path
    }
}

/// The upstream playlist URL for a path under `/dash/`, which always is a manifest request.
pub fn dash_upstream_url(path: &str, query: Option<&str>) -> (r: String)
    ensures
        r@ == upstream_url(hls_path(path@), slice_text(query)),
{
    let v = chars_of(path);
    let extension = chars_of(".mpd");
    if ends_with(path, ".mpd") {
        let mut hls = string_of_range(v.as_slice(), 0, v.len() - extension.len());
        assert(hls@ == path@.take(path@.len() - ".mpd"@.len()));
        hls.append(".m3u8");
        build_upstream_url(hls.as_str(), query)
    } else {
        build_upstream_url(path, query)
    }
}

/// What a request for one segment of a playlist asks for.
#[derive(Debug)]
pub struct SegmentRequest {
    pub idx: usize,
    pub target_dur_ms: u64,
    /// The query of the playlist's own URL.
    pub playlist_query: Option<String>,
}

/// What the parts of a query ask for: the number of the segment, the duration of segments in
/// milliseconds, and the parts that belong to the playlist's URL.
pub open spec fn read_parts(parts: Seq<Seq<char>>) -> (nat, nat, Seq<Seq<char>>)
    decreases parts.len(),
{
    if parts.len() == 0 {
        (0, 6000, Seq::empty())
    } else {
        let (idx, dur_ms, others) = read_parts(parts.drop_last());
        let part = parts.last();
        if has_prefix(part, "_idx="@) {
            (
                match unsigned(part.skip("_idx="@.len() as int), usize::MAX as nat) {
                    Some(n) => n,
                    None => 0,
                },
                dur_ms,
                others,
            )
        } else if has_prefix(part, "_dur="@) {
            (
                idx,
                match unsigned(part.skip("_dur="@.len() as int), u64::MAX as nat) {
                    Some(n) => n,
                    None => 6000,
                },
                others,
            )
        } else {
            (idx, dur_ms, others.push(part))
        }
    }
}

/// What the query of a segment request asks for, with the playlist's own query, if anything is left
/// for it.
pub open spec fn segment_request(query: Option<Seq<char>>) -> (nat, nat, Option<Seq<char>>) {
    match query {
        None => (0, 6000, None),
        Some(q) => {
            let (idx, dur_ms, others) = read_parts(split_on(q, '&'));
            (idx, dur_ms, if others.len() == 0 {
                None
            } else {
                Some(joined(others, '&'))
            })
        },
    }
}

/// The rest of `s` behind a prefix.
fn after_prefix(s: &str, prefix: &str) -> (r: Option<String>)
    ensures
        match r {
            Some(t) => has_prefix(s@, prefix@) && t@ == s@.skip(prefix@.len() as int),
            None => !has_prefix(s@, prefix@),
        },
{
    let v = chars_of(s);
    let p = chars_of(prefix);
    if matches_at(v.as_slice(), 0, p.as_slice()) {
        assert(v@.subrange(p@.len() as int, v@.len() as int) == s@.skip(prefix@.len() as int));
        Some(string_of_range(v.as_slice(), p.len(), v.len()))
    } else {
        None
    }
}

/// Splits the segment's number and duration out of a query; the rest belongs to the playlist's URL.
/// A number that is missing or cannot be read counts as zero, such a duration as six seconds.
pub fn split_segment_query(query: Option<&str>) -> (r: SegmentRequest)
    ensures
        (r.idx as nat, r.target_dur_ms as nat, opt_text(r.playlist_query)) == segment_request(slice_text(query)),
{
    let mut idx: usize = 0;
    let mut target_dur_ms: u64 = 6000;
    let mut playlist_query: Option<String> = None;
    if let Some(q) = query {
        let parts = split(q, '&');
        let ghost views = split_on(q@, '&');
        let mut i: usize = 0;
        assert(views.take(0) == Seq::<Seq<char>>::empty());
        while i < parts.len()
            invariant
                texts(parts@) == views,
                0 <= i <= parts@.len(),
                read_parts(views.take(i as int)).0 == idx,
                read_parts(views.take(i as int)).1 == target_dur_ms,
                ({
                    let others = read_parts(views.take(i as int)).2;
                    opt_text(playlist_query) == if others.len() == 0 {
                        None
                    } else {
                        Some(joined(others, '&'))
                    }
                }),
            decreases parts@.len() - i,
        {
            let part = parts[i].as_str();
            let ghost others = read_parts(views.take(i as int)).2;
            proof {
                assert(views.take(i + 1).drop_last() == views.take(i as int));
                assert(views.take(i + 1).last() == texts(parts@)[i as int]);
                assert(part@ == views[i as int]);
                assert(others.push(part@).drop_last() == others);
            }
            if let Some(v) = after_prefix(part, "_idx=") {
                idx = match parse_unsigned(v.as_str(), usize::MAX as u64) {
                    Some(n) => n as usize,
                    None => 0,
                };
            } else if let Some(v) = after_prefix(part, "_dur=") {
                target_dur_ms = match parse_unsigned(v.as_str(), u64::MAX) {
                    Some(n) => n,
                    None => 6000,
                };
            } else {
                let mut rest = String::new();
                if let Some(before) = &playlist_query {
                    rest.append(before.as_str());
                    rest.push('&');
                }
                rest.append(part);
                assert(rest@ == joined(others.push(part@), '&'));
                playlist_query = Some(rest);
            }
            i += 1;
        }
        assert(views.take(views.len() as int) == views);
    }
    SegmentRequest { idx, target_dur_ms, playlist_query }
}

} // verus!
