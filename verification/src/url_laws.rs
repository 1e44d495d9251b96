//! Laws of proxy URLs and of XML escaping.

use vstd::prelude::*;
use crate::text::has_prefix;
use crate::url_utils::{
    escape, proxied, trim_end_slashes, trim_start_slashes, upstream_url, without_scheme, xml_escaped,
};

verus! {

/// A path with its query, as a request names them.
pub open spec fn request_target(path: Seq<char>, query: Option<Seq<char>>) -> Seq<char> {
    match query {
        Some(q) if q.len() > 0 => path + "?"@ + q,
        _ => path,
    }
}

/// A proxy URL leads back upstream. Where an upstream URL is the one that stands for a path and a
/// query, its proxy URL is the public base, the route, and that path and query. The path does not
/// start with a slash: leading slashes are not part of the upstream URL.
pub proof fn law_proxy_url_leads_back(path: Seq<char>, query: Option<Seq<char>>, base: Seq<char>, route: Seq<char>)
    requires
        path.len() == 0 || path[0] != '/',
    ensures
        proxied(upstream_url(path, query), base, route) == trim_end_slashes(base) + route + request_target(path, query),
{
    let url = upstream_url(path, query);
    let target = request_target(path, query);
    assert(trim_start_slashes(path) == path);
    assert(url == "https://"@ + target);
    assert(url.subrange(0, "https://"@.len() as int) == "https://"@);
    assert(without_scheme(url) == target);
}

/// Without a public base, a proxy URL is a path: the route, followed by the upstream URL without its
/// scheme. Slashes at the end of a public base are not doubled.
pub proof fn law_proxy_base(upstream: Seq<char>, base: Seq<char>, route: Seq<char>)
    ensures
        proxied(upstream, Seq::empty(), route) == route + without_scheme(upstream),
        proxied(upstream, base.push('/'), route) == proxied(upstream, base, route),
{
    assert(trim_end_slashes(Seq::empty()) == Seq::<char>::empty());
    assert(Seq::<char>::empty() + route == route);
    assert(base.push('/').drop_last() == base);
}

/// Escaping goes character by character: the parts of a text can be escaped separately.
pub proof fn law_escape_parts(a: Seq<char>, b: Seq<char>)
    ensures
        xml_escaped(a + b) == xml_escaped(a) + xml_escaped(b),
    decreases b.len(),
{
    if b.len() == 0 {
        assert(a + b == a);
        assert(xml_escaped(a) + xml_escaped(b) == xml_escaped(a));
    } else {
        law_escape_parts(a, b.drop_last());
        assert((a + b).drop_last() == a + b.drop_last());
        assert((a + b).last() == b.last());
        assert((xml_escaped(a) + xml_escaped(b.drop_last())) + escape(b.last()) == xml_escaped(a) + (xml_escaped(
            b.drop_last(),
        ) + escape(b.last())));
    }
}

/// One of the five predefined XML entities stands in `s` at index `i`.
pub open spec fn entity_at(s: Seq<char>, i: int) -> bool {
    let rest = s.skip(i);
    ||| has_prefix(rest, "&amp;"@)
    ||| has_prefix(rest, "&lt;"@)
    ||| has_prefix(rest, "&gt;"@)
    ||| has_prefix(rest, "&quot;"@)
    ||| has_prefix(rest, "&apos;"@)
}

/// A text that can stand in an XML attribute value or element content as it is: no angle brackets, no
/// quotes, and ampersands only as the start of an entity.
pub open spec fn xml_safe(s: Seq<char>) -> bool {
    forall|i: int|
        0 <= i < s.len() ==> {
            let c = #[trigger] s[i];
            &&& c != '<'
            &&& c != '>'
            &&& c != '"'
            &&& c != '\''
            &&& c == '&' ==> entity_at(s, i)
        }
}

proof fn lemma_escape_safe(c: char)
    ensures
        xml_safe(escape(c)),
        escape(c).len() > 0,
{
    reveal_strlit("&amp;");
    reveal_strlit("&lt;");
    reveal_strlit("&gt;");
    reveal_strlit("&quot;");
    reveal_strlit("&apos;");
    let s = escape(c);
    assert(s.skip(0) == s);
    assert forall|i: int| 0 <= i < s.len() implies ({
        let d = #[trigger] s[i];
        &&& d != '<'
        &&& d != '>'
        &&& d != '"'
        &&& d != '\''
        &&& d == '&' ==> entity_at(s, i)
    }) by {
        if s[i] == '&' {
            assert(i == 0);
            assert(s.subrange(0, s.len() as int) == s);
        }
    }
}

proof fn lemma_entity_stays(s: Seq<char>, t: Seq<char>, i: int, entity: Seq<char>)
    requires
        0 <= i <= s.len(),
        has_prefix(s.skip(i), entity),
    ensures
        has_prefix((s + t).skip(i), entity),
{
    assert((s + t).skip(i) == s.skip(i) + t);
    assert((s.skip(i) + t).subrange(0, entity.len() as int) == s.skip(i).subrange(0, entity.len() as int));
}

proof fn lemma_safe_parts(s: Seq<char>, t: Seq<char>)
    requires
        xml_safe(s),
        xml_safe(t),
    ensures
        xml_safe(s + t),
{
    let w = s + t;
    assert forall|i: int| 0 <= i < w.len() implies ({
        let c = #[trigger] w[i];
        &&& c != '<'
        &&& c != '>'
        &&& c != '"'
        &&& c != '\''
        &&& c == '&' ==> entity_at(w, i)
    }) by {
        if i < s.len() {
            assert(w[i] == s[i]);
            if s[i] == '&' {
                assert(entity_at(s, i));
                if has_prefix(s.skip(i), "&amp;"@) {
                    lemma_entity_stays(s, t, i, "&amp;"@);
                }
                if has_prefix(s.skip(i), "&lt;"@) {
                    lemma_entity_stays(s, t, i, "&lt;"@);
                }
                if has_prefix(s.skip(i), "&gt;"@) {
                    lemma_entity_stays(s, t, i, "&gt;"@);
                }
                if has_prefix(s.skip(i), "&quot;"@) {
                    lemma_entity_stays(s, t, i, "&quot;"@);
                }
                if has_prefix(s.skip(i), "&apos;"@) {
                    lemma_entity_stays(s, t, i, "&apos;"@);
                }
            }
        } else {
            assert(w[i] == t[i - s.len()]);
            assert(w.skip(i) == t.skip(i - s.len()));
        }
    }
}

/// Escaped text is safe to embed in XML attributes and content.
pub proof fn law_escaped_is_safe(s: Seq<char>)
    ensures
        xml_safe(xml_escaped(s)),
    decreases s.len(),
{
    if s.len() > 0 {
        law_escaped_is_safe(s.drop_last());
        lemma_escape_safe(s.last());
        lemma_safe_parts(xml_escaped(s.drop_last()), escape(s.last()));
    }
}

/// XML text with its entities replaced by the characters they stand for.
pub open spec fn xml_unescaped(s: Seq<char>) -> Seq<char>
    decreases s.len(),
{
    if s.len() == 0 {
        Seq::empty()
    } else if s.len() >= 5 && s.take(5) == "&amp;"@ {
        seq!['&'] + xml_unescaped(s.skip(5))
    } else if s.len() >= 4 && s.take(4) == "&lt;"@ {
        seq!['<'] + xml_unescaped(s.skip(4))
    } else if s.len() >= 4 && s.take(4) == "&gt;"@ {
        seq!['>'] + xml_unescaped(s.skip(4))
    } else if s.len() >= 6 && s.take(6) == "&quot;"@ {
        seq!['"'] + xml_unescaped(s.skip(6))
    } else if s.len() >= 6 && s.take(6) == "&apos;"@ {
        seq!['\''] + xml_unescaped(s.skip(6))
    } else {
        seq![s[0]] + xml_unescaped(s.skip(1))
    }
}

proof fn lemma_unescape_step(c: char, rest: Seq<char>)
    ensures
        xml_unescaped(escape(c) + rest) == seq![c] + xml_unescaped(rest),
{
    reveal_strlit("&amp;");
    reveal_strlit("&lt;");
    reveal_strlit("&gt;");
    reveal_strlit("&quot;");
    reveal_strlit("&apos;");
    let s = escape(c) + rest;
    let n = escape(c).len() as int;
    assert(s.take(n) == escape(c));
    assert(s.skip(n) == rest);
    if c == '&' {
    } else if c == '<' {
        assert(s[1] == 'l');
        assert(s.len() >= 5 ==> s.take(5)[1] == 'l');
    } else if c == '>' {
        assert(s[1] == 'g');
        assert(s.len() >= 5 ==> s.take(5)[1] == 'g');
        assert(s.take(4)[1] == 'g');
    } else if c == '"' {
        assert(s[1] == 'q');
        assert(s.take(5)[1] == 'q');
        assert(s.take(4)[1] == 'q');
    } else if c == '\'' {
        assert(s[1] == 'a');
        assert(s[2] == 'p');
        assert(s.take(5)[2] == 'p');
        assert(s.take(4)[1] == 'a');
        assert(s.take(6)[1] == 'a');
    } else {
        assert(s[0] == c);
        assert(s.len() >= 5 ==> s.take(5)[0] == c);
        assert(s.len() >= 4 ==> s.take(4)[0] == c);
        assert(s.len() >= 6 ==> s.take(6)[0] == c);
    }
}

/// Escaping loses nothing: reading the entities back gives the text. So different texts stay
/// different.
pub proof fn law_escape_undone(s: Seq<char>)
    ensures
        xml_unescaped(xml_escaped(s)) == s,
    decreases s.len(),
{
    if s.len() == 0 {
        assert(s == Seq::<char>::empty());
    } else {
        let first = seq![s[0]];
        let rest = s.skip(1);
        assert(s == first + rest);
        law_escape_parts(first, rest);
        assert(first.drop_last() == Seq::<char>::empty());
        assert(first.last() == s[0]);
        reveal_with_fuel(xml_escaped, 2);
        assert(xml_escaped(first) == escape(s[0]));
        law_escape_undone(rest);
        lemma_unescape_step(s[0], xml_escaped(rest));
    }
}

} // verus!
