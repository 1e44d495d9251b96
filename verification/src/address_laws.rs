//! Laws of proxy URLs, upstream URLs and resolved URIs.

use vstd::prelude::*;
use crate::text::has_prefix;
use crate::text_laws::law_prefix_and_suffix;
use crate::url_utils::{proxied, resolved, trim_end_slashes, trim_start_slashes, upstream_url, url_joined, url_parsed};

verus! {

/// A proxy URL is the public base, the route, and the upstream URL without `https://` or `http://`. A URL
/// without either is kept whole.
pub proof fn law_proxy_url(rest: Seq<char>, base: Seq<char>, route: Seq<char>)
    requires
        base.len() > 0 ==> base.last() != '/',
    ensures
        proxied("https://"@ + rest, base, route) == base + route + rest,
        proxied("http://"@ + rest, base, route) == base + route + rest,
        !has_prefix(rest, "https://"@) && !has_prefix(rest, "http://"@) ==> proxied(rest, base, route) == base + route
            + rest,
{
    reveal_strlit("https://");
    reveal_strlit("http://");
    assert(trim_end_slashes(base) == base);
    let secure = "https://"@ + rest;
    let open = "http://"@ + rest;
    assert(secure.subrange(0, 8) =~= "https://"@);
    assert(secure.skip(8) =~= rest);
    assert(open.subrange(0, 7) =~= "http://"@);
    assert(open.skip(7) =~= rest);
    if has_prefix(open, "https://"@) {
        assert(open.subrange(0, 8)[4] == ':');
        assert("https://"@[4] == 's');
    }
}

/// Slashes at the end of the public base do not matter, however many there are.
pub proof fn law_base_slashes(upstream: Seq<char>, base: Seq<char>, slashes: Seq<char>, route: Seq<char>)
    requires
        forall|i: int| 0 <= i < slashes.len() ==> #[trigger] slashes[i] == '/',
    ensures
        proxied(upstream, base + slashes, route) == proxied(upstream, base, route),
    decreases slashes.len(),
{
    if slashes.len() == 0 {
        assert(base + slashes =~= base);
    } else {
        let fewer = slashes.drop_last();
        assert(slashes[slashes.len() - 1] == '/');
        assert forall|i: int| 0 <= i < fewer.len() implies #[trigger] fewer[i] == '/' by {
            assert(fewer[i] == slashes[i]);
        }
        law_base_slashes(upstream, base, fewer, route);
        assert((base + slashes).drop_last() =~= base + fewer);
        assert((base + slashes).last() == '/');
    }
}

/// The upstream URL of a path is `https://` and the path, without the slashes in front of it, however many
/// there are; a query that is not empty follows behind a question mark.
pub proof fn law_upstream_url(slashes: Seq<char>, path: Seq<char>, query: Seq<char>)
    requires
        forall|i: int| 0 <= i < slashes.len() ==> #[trigger] slashes[i] == '/',
        path.len() > 0 ==> path[0] != '/',
    ensures
        upstream_url(slashes + path, None) == "https://"@ + path,
        query.len() == 0 ==> upstream_url(slashes + path, Some(query)) == "https://"@ + path,
        query.len() > 0 ==> upstream_url(slashes + path, Some(query)) == "https://"@ + path + "?"@ + query,
{
    lemma_slashes_gone(slashes, path);
}

proof fn lemma_slashes_gone(slashes: Seq<char>, path: Seq<char>)
    requires
        forall|i: int| 0 <= i < slashes.len() ==> #[trigger] slashes[i] == '/',
        path.len() > 0 ==> path[0] != '/',
    ensures
        trim_start_slashes(slashes + path) == path,
    decreases slashes.len(),
{
    let s = slashes + path;
    if slashes.len() == 0 {
        assert(s =~= path);
    } else {
        let fewer = slashes.skip(1);
        assert(s[0] == slashes[0]);
        assert forall|i: int| 0 <= i < fewer.len() implies #[trigger] fewer[i] == '/' by {
            assert(fewer[i] == slashes[i + 1]);
        }
        lemma_slashes_gone(fewer, path);
        assert(s.skip(1) =~= fewer + path);
    }
}

/// A URI with a scheme of the web stands for itself; any other is seen from the URL of its playlist.
pub proof fn law_resolved(base: Seq<char>, rest: Seq<char>)
    ensures
        resolved(base, "http://"@ + rest) == url_parsed("http://"@ + rest),
        resolved(base, "https://"@ + rest) == url_parsed("https://"@ + rest),
        !(exists|r: Seq<char>| rest == #[trigger] ("http://"@ + r)) && !(exists|r: Seq<char>|
            rest == #[trigger] ("https://"@ + r)) ==> resolved(base, rest) == url_joined(base, rest),
{
    law_prefix_and_suffix("http://"@ + rest, "http://"@);
    law_prefix_and_suffix("https://"@ + rest, "https://"@);
    law_prefix_and_suffix(rest, "http://"@);
    law_prefix_and_suffix(rest, "https://"@);
}

} // verus!
