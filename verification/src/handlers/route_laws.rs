//! Laws of routing.

use vstd::prelude::*;
use crate::handlers::route::{before_query, hls_path, read_parts, route, segment_request, Route};
use crate::text::{
    decimal, has_prefix, has_suffix, is_digit, joined, lemma_decimal_reads_back, lemma_join_split, lemma_split_append,
    lemma_split_nonempty, lemma_split_one, lemma_unsigned_decimal, split_on, unsigned,
};
use crate::text_laws::law_prefix_and_suffix;
use crate::url_laws::law_proxy_url_leads_back;
use crate::url_utils::{proxied, segment_params, trim_end_slashes, trim_start_slashes, upstream_url};

verus! {

/// The part of a query belongs to the playlist's URL.
pub open spec fn is_playlist_part(part: Seq<char>) -> bool {
    !has_prefix(part, "_idx="@) && !has_prefix(part, "_dur="@)
}

/// No part of a query is one of those that name a segment.
pub open spec fn is_playlist_query(query: Seq<char>) -> bool {
    forall|i: int| 0 <= i < split_on(query, '&').len() ==> is_playlist_part(#[trigger] split_on(query, '&')[i])
}

/// The query under which a segment of a playlist is requested.
pub open spec fn sent_query(query: Option<Seq<char>>, idx: nat, dur_ms: nat) -> Seq<char> {
    (match query {
        Some(q) => q.push('&'),
        None => Seq::empty(),
    }) + "_idx="@ + decimal(idx) + "&_dur="@ + decimal(dur_ms)
}

proof fn lemma_playlist_parts(parts: Seq<Seq<char>>)
    requires
        forall|i: int| 0 <= i < parts.len() ==> is_playlist_part(#[trigger] parts[i]),
    ensures
        read_parts(parts) == (0nat, 6000nat, parts),
    decreases parts.len(),
{
    if parts.len() == 0 {
        assert(parts == Seq::<Seq<char>>::empty());
    } else {
        assert forall|i: int| 0 <= i < parts.drop_last().len() implies is_playlist_part(
            #[trigger] parts.drop_last()[i],
        ) by {
            assert(parts.drop_last()[i] == parts[i]);
        }
        lemma_playlist_parts(parts.drop_last());
        assert(is_playlist_part(parts[parts.len() - 1]));
        assert(parts.drop_last().push(parts.last()) == parts);
    }
}

proof fn lemma_param(name: Seq<char>, n: nat)
    requires
        !name.contains('&'),
    ensures
        !(name + decimal(n)).contains('&'),
        has_prefix(name + decimal(n), name),
        (name + decimal(n)).skip(name.len() as int) == decimal(n),
{
    let s = name + decimal(n);
    lemma_decimal_reads_back(n);
    assert forall|i: int| 0 <= i < s.len() implies s[i] != '&' by {
        if i < name.len() {
            assert(s[i] == name[i]);
        } else {
            assert(is_digit(decimal(n)[i - name.len()]));
        }
    }
    assert(s.subrange(0, name.len() as int) == name);
}

proof fn lemma_sent_query_reads_back(query: Option<Seq<char>>, idx: nat, dur_ms: nat)
    requires
        idx <= usize::MAX,
        dur_ms <= u64::MAX,
        query matches Some(q) ==> is_playlist_query(q),
    ensures
        segment_request(Some(sent_query(query, idx, dur_ms))) == (idx, dur_ms, query),
{
    reveal_strlit("_idx=");
    reveal_strlit("_dur=");
    reveal_strlit("&_dur=");
    let first = "_idx="@ + decimal(idx);
    let second = "_dur="@ + decimal(dur_ms);
    lemma_param("_idx="@, idx);
    lemma_param("_dur="@, dur_ms);
    lemma_unsigned_decimal(idx, usize::MAX as nat);
    lemma_unsigned_decimal(dur_ms, u64::MAX as nat);
    let sent = sent_query(query, idx, dur_ms);
    let front = match query {
        Some(q) => q.push('&') + first,
        None => first,
    };
    assert(sent == front.push('&') + second) by {
        assert("&_dur="@ == seq!['&'] + "_dur="@);
        assert(Seq::<char>::empty() + first == first);
    }
    lemma_split_append(front, second, '&');
    let own = match query {
        Some(q) => split_on(q, '&'),
        None => Seq::empty(),
    };
    match query {
        Some(q) => {
            lemma_split_append(q, first, '&');
            lemma_join_split(q, '&');
            lemma_split_nonempty(q, '&');
        },
        None => {
            lemma_split_one(first, '&');
        },
    }
    assert(split_on(front, '&') == own.push(first));
    let parts = split_on(sent, '&');
    assert(parts == own.push(first).push(second));
    assert(parts.drop_last() == own.push(first));
    assert(own.push(first).drop_last() == own);
    lemma_playlist_parts(own);
    assert(second[1] == 'd');
    assert(!has_prefix(second, "_idx="@)) by {
        assert(second.subrange(0, 5)[1] == 'd');
    }
    assert(read_parts(own.push(first)) == (idx, 6000nat, own));
    assert(read_parts(parts) == (idx, dur_ms, own));
}

/// A segment's URL leads back to it. The URL under which segment `idx` of a playlist is listed is the
/// public base, the segment route, the path of the playlist, and a query; and that query asks for
/// this segment, this duration, and the playlist's own query, so that the playlist's URL is found
/// again. The playlist's URL is one that a request can stand for, its path holds no question mark,
/// and its query is neither empty nor uses the names of the two parameters.
pub proof fn law_segment_url_leads_back(
    path: Seq<char>,
    query: Option<Seq<char>>,
    idx: nat,
    dur_ms: nat,
    base: Seq<char>,
)
    requires
        path.len() == 0 || path[0] != '/',
        !path.contains('?'),
        query matches Some(q) ==> q.len() > 0 && is_playlist_query(q),
        idx <= usize::MAX,
        dur_ms <= u64::MAX,
    ensures
        ({
            let playlist = upstream_url(path, query);
            let sent = sent_query(query, idx, dur_ms);
            &&& proxied(playlist, base, "/hls2dash-ts-pl/"@) + segment_params(playlist, idx, dur_ms)
                == trim_end_slashes(base) + "/hls2dash-ts-pl/"@ + path + "?"@ + sent
            &&& segment_request(Some(sent)) == (idx, dur_ms, query)
            &&& upstream_url(path, segment_request(Some(sent)).2) == playlist
        }),
{
    reveal_strlit("https://");
    reveal_strlit("?");
    reveal_strlit("?_idx=");
    reveal_strlit("&_idx=");
    reveal_strlit("_idx=");
    let playlist = upstream_url(path, query);
    let sent = sent_query(query, idx, dur_ms);
    let front = trim_end_slashes(base) + "/hls2dash-ts-pl/"@;
    law_proxy_url_leads_back(path, query, base, "/hls2dash-ts-pl/"@);
    lemma_sent_query_reads_back(query, idx, dur_ms);
    assert(trim_start_slashes(path) == path);
    let tail = "_idx="@ + decimal(idx) + "&_dur="@ + decimal(dur_ms);
    match query {
        Some(q) => {
            assert(playlist == "https://"@ + path + "?"@ + q);
            assert(playlist[("https://"@.len() + path.len()) as int] == '?');
            assert("&_idx="@ == seq!['&'] + "_idx="@);
            assert(segment_params(playlist, idx, dur_ms) == seq!['&'] + tail);
            assert(sent == q.push('&') + tail);
            assert(front + (path + "?"@ + q) + (seq!['&'] + tail) == front + path + "?"@ + (q.push('&') + tail));
        },
        None => {
            assert(playlist == "https://"@ + path);
            assert(!playlist.contains('?')) by {
                assert forall|i: int| 0 <= i < playlist.len() implies playlist[i] != '?' by {
                    if i >= "https://"@.len() {
                        assert(playlist[i] == path[i - "https://"@.len()]);
                    }
                }
            }
            assert("?_idx="@ == "?"@ + "_idx="@);
            assert(segment_params(playlist, idx, dur_ms) == "?"@ + tail);
            assert(sent == tail);
            assert(front + path + ("?"@ + tail) == front + path + "?"@ + tail);
        },
    }
}

proof fn lemma_before_query_same(s: Seq<char>)
    requires
        !s.contains('?'),
    ensures
        before_query(s) == s,
    decreases s.len(),
{
    if s.len() > 0 {
        assert(s[0] != '?');
        assert forall|i: int| 0 <= i < s.skip(1).len() implies s.skip(1)[i] != '?' by {
            assert(s.skip(1)[i] == s[i + 1]);
        }
        lemma_before_query_same(s.skip(1));
        assert(seq![s[0]] + s.skip(1) == s);
    } else {
        assert(s == Seq::<char>::empty());
    }
}

/// The DASH endpoint serves the same presentation as the HLS one: `name.mpd` there stands for the same
/// upstream URL as `name.m3u8` here, and the latter is a manifest request. Any other path is kept,
/// so a path that was rewritten is not rewritten again.
pub proof fn law_dash_path(name: Seq<char>, query: Option<Seq<char>>, transmux: bool)
    ensures
        upstream_url(hls_path(name + ".mpd"@), query) == upstream_url(name + ".m3u8"@, query),
        !name.contains('?') ==> route(name + ".m3u8"@, transmux) == Route::Manifest,
        !has_suffix(name, ".mpd"@) ==> hls_path(name) == name,
        hls_path(hls_path(name)) == hls_path(name),
{
    reveal_strlit(".mpd");
    reveal_strlit(".m3u8");
    let dash = name + ".mpd"@;
    let hls = name + ".m3u8"@;
    assert(dash.subrange(dash.len() - 4, dash.len() as int) == ".mpd"@);
    assert(dash.take(dash.len() - 4) == name);
    assert(hls.subrange(hls.len() - 5, hls.len() as int) == ".m3u8"@);
    if !name.contains('?') {
        assert forall|i: int| 0 <= i < hls.len() implies hls[i] != '?' by {
            if i < name.len() {
                assert(hls[i] == name[i]);
            }
        }
        lemma_before_query_same(hls);
    }
    if has_suffix(name, ".mpd"@) {
        let new = hls_path(name);
        assert(new.last() == '8');
        assert(!has_suffix(new, ".mpd"@)) by {
            if has_suffix(new, ".mpd"@) {
                assert(new.subrange(new.len() - 4, new.len() as int)[3] == 'd');
            }
        }
    }
}

proof fn lemma_before_query_cut(name: Seq<char>, query: Seq<char>)
    requires
        !name.contains('?'),
    ensures
        before_query(name + "?"@ + query) == name,
    decreases name.len(),
{
    reveal_strlit("?");
    let s = name + "?"@ + query;
    if name.len() == 0 {
        assert(s[0] == '?');
        assert(name =~= Seq::<char>::empty());
    } else {
        let rest = name.skip(1);
        assert(s[0] == name[0]);
        assert(name.contains(name[0]));
        assert forall|i: int| 0 <= i < rest.len() implies rest[i] != '?' by {
            assert(rest[i] == name[i + 1]);
        }
        lemma_before_query_cut(rest, query);
        assert(s.skip(1) =~= rest + "?"@ + query);
        assert(seq![name[0]] + rest =~= name);
    }
}

/// The extension of a path decides how it is served, whatever its query is: `.m3u8` is a manifest, `.ts` a
/// segment to transmux if there is transmuxing, and anything else is passed through.
pub proof fn law_route_by_extension(name: Seq<char>, query: Seq<char>, transmux: bool)
    requires
        !name.contains('?'),
    ensures
        route(name + "?"@ + query, transmux) == route(name, transmux),
        route(name + ".m3u8"@, transmux) == Route::Manifest,
        route(name + ".ts"@, true) == Route::TsSegment,
        route(name + ".ts"@, false) == Route::Passthrough,
        !(exists|stem: Seq<char>| name == #[trigger] (stem + ".m3u8"@)) && !(exists|stem: Seq<char>|
            name == #[trigger] (stem + ".ts"@)) ==> route(name, transmux) == Route::Passthrough,
{
    reveal_strlit(".m3u8");
    reveal_strlit(".ts");
    lemma_before_query_cut(name, query);
    lemma_before_query_same(name);
    let hls = name + ".m3u8"@;
    let ts = name + ".ts"@;
    assert forall|i: int| 0 <= i < hls.len() implies hls[i] != '?' by {
        if i < name.len() {
            assert(hls[i] == name[i]);
            assert(name.contains(name[i]));
        }
    }
    assert forall|i: int| 0 <= i < ts.len() implies ts[i] != '?' by {
        if i < name.len() {
            assert(ts[i] == name[i]);
            assert(name.contains(name[i]));
        }
    }
    lemma_before_query_same(hls);
    lemma_before_query_same(ts);
    law_prefix_and_suffix(hls, ".m3u8"@);
    law_prefix_and_suffix(ts, ".ts"@);
    law_prefix_and_suffix(name, ".m3u8"@);
    law_prefix_and_suffix(name, ".ts"@);
    if has_suffix(ts, ".m3u8"@) {
        assert(ts.subrange(ts.len() - 5, ts.len() as int)[4] == 's');
        assert(".m3u8"@[4] == '8');
    }
}

/// The `k`-th part gives the value of the parameter whose prefix is given, and no later part does.
pub open spec fn gives(parts: Seq<Seq<char>>, prefix: Seq<char>, k: int) -> bool {
    &&& 0 <= k < parts.len()
    &&& has_prefix(parts[k], prefix)
    &&& forall|j: int| k < j < parts.len() ==> !has_prefix(#[trigger] parts[j], prefix)
}

/// No part gives a value of the parameter.
pub open spec fn gives_none(parts: Seq<Seq<char>>, prefix: Seq<char>) -> bool {
    forall|j: int| 0 <= j < parts.len() ==> !has_prefix(#[trigger] parts[j], prefix)
}

/// The last `_idx=` and the last `_dur=` of a query count: what cannot be read as a number is segment 0 or
/// six seconds, and so is what is missing. All other parts belong to the playlist, in order.
pub proof fn law_segment_query(parts: Seq<Seq<char>>, k: int)
    ensures
        gives(parts, "_idx="@, k) ==> read_parts(parts).0 == match unsigned(parts[k].skip(5), usize::MAX as nat) {
            Some(n) => n,
            None => 0,
        },
        gives_none(parts, "_idx="@) ==> read_parts(parts).0 == 0,
        gives(parts, "_dur="@, k) ==> read_parts(parts).1 == match unsigned(parts[k].skip(5), u64::MAX as nat) {
            Some(n) => n,
            None => 6000,
        },
        gives_none(parts, "_dur="@) ==> read_parts(parts).1 == 6000,
        read_parts(parts).2 == parts.filter(
            |part: Seq<char>| !has_prefix(part, "_idx="@) && !has_prefix(part, "_dur="@),
        ),
    decreases parts.len(),
{
    reveal(Seq::filter);
    reveal_strlit("_idx=");
    reveal_strlit("_dur=");
    if parts.len() > 0 {
        let front = parts.drop_last();
        let last = parts.last();
        law_segment_query(front, k);
        assert(forall|j: int| 0 <= j < front.len() ==> front[j] == parts[j]);
        assert(!(has_prefix(last, "_idx="@) && has_prefix(last, "_dur="@))) by {
            if has_prefix(last, "_idx="@) && has_prefix(last, "_dur="@) {
                assert(last.subrange(0, 5)[1] == 'i');
            }
        }
        if gives(parts, "_idx="@, k) && k < front.len() {
            assert(!has_prefix(parts[parts.len() - 1], "_idx="@));
            assert(gives(front, "_idx="@, k));
        }
        if gives(parts, "_dur="@, k) && k < front.len() {
            assert(!has_prefix(parts[parts.len() - 1], "_dur="@));
            assert(gives(front, "_dur="@, k));
        }
        if gives_none(parts, "_idx="@) {
            assert(!has_prefix(parts[parts.len() - 1], "_idx="@));
        }
        if gives_none(parts, "_dur="@) {
            assert(!has_prefix(parts[parts.len() - 1], "_dur="@));
        }
    }
}

/// Splitting undoes joining: parts without an ampersand are found again.
proof fn lemma_split_joined(parts: Seq<Seq<char>>)
    requires
        parts.len() > 0,
        forall|i: int| 0 <= i < parts.len() ==> !(#[trigger] parts[i]).contains('&'),
    ensures
        split_on(joined(parts, '&'), '&') == parts,
    decreases parts.len(),
{
    assert(!parts[parts.len() - 1].contains('&'));
    if parts.len() == 1 {
        lemma_split_one(parts[0], '&');
        assert(parts =~= seq![parts[0]]);
    } else {
        let front = parts.drop_last();
        assert forall|i: int| 0 <= i < front.len() implies !(#[trigger] front[i]).contains('&') by {
            assert(front[i] == parts[i]);
        }
        lemma_split_joined(front);
        lemma_split_append(joined(front, '&'), parts.last(), '&');
        assert(front.push(parts.last()) =~= parts);
    }
}

/// A segment request asks for the playlist with what is left of its query without the two parameters: the
/// other parts, joined as they were, or no query where there is none.
pub proof fn law_segment_request(parts: Seq<Seq<char>>)
    requires
        parts.len() > 0,
        forall|i: int| 0 <= i < parts.len() ==> !(#[trigger] parts[i]).contains('&'),
    ensures
        ({
            let others = parts.filter(|part: Seq<char>| !has_prefix(part, "_idx="@) && !has_prefix(part, "_dur="@));
            let request = segment_request(Some(joined(parts, '&')));
            &&& request.0 == read_parts(parts).0
            &&& request.1 == read_parts(parts).1
            &&& request.2 == if others.len() == 0 {
                None
            } else {
                Some(joined(others, '&'))
            }
        }),
        segment_request(None) == (0nat, 6000nat, None::<Seq<char>>),
{
    lemma_split_joined(parts);
    law_segment_query(parts, 0);
}

} // verus!
