//! Reading markup: what a reader of an XML text sees of it.

use vstd::prelude::*;
use crate::url_laws::{law_escape_parts, law_escape_undone, law_escaped_is_safe, xml_unescaped};
use crate::url_utils::{escape, xml_escaped};

verus! {

/// What a reader meets: the start of an element with its attributes, its end, or text.
pub enum Token {
    Open(Seq<char>, Seq<(Seq<char>, Seq<char>)>),
    Close(Seq<char>),
    Text(Seq<char>),
}

/// The number of characters in front of the first `c`.
pub open spec fn upto(s: Seq<char>, c: char) -> int
    decreases s.len(),
{
    if s.len() == 0 || s[0] == c {
        0
    } else {
        1 + upto(s.skip(1), c)
    }
}

/// White space between elements and between attributes.
pub open spec fn is_blank(c: char) -> bool {
    c == ' ' || c == '\n'
}

/// The attributes in the rest of a tag, with their values unescaped.
pub open spec fn attributes(s: Seq<char>) -> Seq<(Seq<char>, Seq<char>)>
    decreases s.len(),
{
    if s.len() == 0 {
        Seq::empty()
    } else if is_blank(s[0]) || s[0] == '/' {
        attributes(s.skip(1))
    } else {
        let e = upto(s, '=');
        if e < 0 || e + 2 > s.len() {
            Seq::empty()
        } else {
            let rest = s.skip(e + 2);
            let q = upto(rest, '"');
            if q < 0 || q + 1 > rest.len() {
                Seq::empty()
            } else {
                seq![(s.take(e), xml_unescaped(rest.take(q)))] + attributes(rest.skip(q + 1))
            }
        }
    }
}

/// What stands between `<` and `>`: a declaration, the end of an element, the start of one, or an
/// element without content, which is a start and an end.
pub open spec fn tag(inner: Seq<char>) -> Seq<Token> {
    if inner.len() == 0 || inner[0] == '?' {
        Seq::empty()
    } else if inner[0] == '/' {
        seq![Token::Close(inner.skip(1))]
    } else {
        let n = upto(inner, ' ');
        let name = inner.take(n);
        let open = Token::Open(name, attributes(inner.skip(n)));
        if inner.last() == '/' {
            seq![open, Token::Close(name)]
        } else {
            seq![open]
        }
    }
}

/// The tokens of a text.
pub open spec fn markup(s: Seq<char>) -> Seq<Token>
    decreases s.len(),
{
    if s.len() == 0 {
        Seq::empty()
    } else if is_blank(s[0]) {
        markup(s.skip(1))
    } else if s[0] == '<' {
        let e = upto(s, '>');
        if e < 1 || e >= s.len() {
            Seq::empty()
        } else {
            tag(s.subrange(1, e)) + markup(s.skip(e + 1))
        }
    } else {
        let e = upto(s, '<');
        if e < 1 || e > s.len() {
            Seq::empty()
        } else {
            seq![Token::Text(xml_unescaped(s.take(e)))] + markup(s.skip(e))
        }
    }
}

/// A text in which a character does not occur.
pub open spec fn without(s: Seq<char>, c: char) -> bool {
    forall|i: int| 0 <= i < s.len() ==> #[trigger] s[i] != c
}

/// A name of an element or an attribute.
pub open spec fn is_name(s: Seq<char>) -> bool {
    &&& s.len() > 0
    &&& forall|i: int|
        0 <= i < s.len() ==> {
            let c = #[trigger] s[i];
            &&& c != ' '
            &&& c != '\n'
            &&& c != '/'
            &&& c != '='
            &&& c != '>'
            &&& c != '?'
        }
}

/// One attribute as it is written: white space, its name and its value.
pub open spec fn attribute_text(a: (Seq<char>, Seq<char>, Seq<char>)) -> Seq<char> {
    a.0 + a.1 + seq!['=', '"'] + xml_escaped(a.2) + seq!['"']
}

/// Attributes as they are written, one behind the other.
pub open spec fn attribute_texts(list: Seq<(Seq<char>, Seq<char>, Seq<char>)>) -> Seq<char>
    decreases list.len(),
{
    if list.len() == 0 {
        Seq::empty()
    } else {
        attribute_texts(list.drop_last()) + attribute_text(list.last())
    }
}

/// Names and values of attributes.
pub open spec fn pairs(list: Seq<(Seq<char>, Seq<char>, Seq<char>)>) -> Seq<(Seq<char>, Seq<char>)> {
    Seq::new(list.len(), |i: int| (list[i].1, list[i].2))
}

/// White space, of one character at least.
pub open spec fn is_gap(s: Seq<char>) -> bool {
    s.len() > 0 && forall|i: int| 0 <= i < s.len() ==> is_blank(#[trigger] s[i])
}

/// Attributes that can be written: each behind a gap and with a name.
pub open spec fn writable(list: Seq<(Seq<char>, Seq<char>, Seq<char>)>) -> bool {
    forall|i: int| 0 <= i < list.len() ==> is_gap((#[trigger] list[i]).0) && is_name(list[i].1)
}

pub proof fn lemma_upto(a: Seq<char>, c: char, rest: Seq<char>)
    requires
        without(a, c),
    ensures
        upto(a + seq![c] + rest, c) == a.len(),
        upto(a, c) == a.len(),
    decreases a.len(),
{
    let s = a + seq![c] + rest;
    if a.len() > 0 {
        let b = a.skip(1);
        assert(s[0] == a[0]);
        assert forall|i: int| 0 <= i < b.len() implies #[trigger] b[i] != c by {
            assert(b[i] == a[i + 1]);
        }
        lemma_upto(b, c, rest);
        assert(s.skip(1) =~= b + seq![c] + rest);
    } else {
        assert(s[0] == c);
    }
}

proof fn lemma_skip_blank(gap: Seq<char>, rest: Seq<char>)
    requires
        forall|i: int| 0 <= i < gap.len() ==> is_blank(#[trigger] gap[i]),
    ensures
        attributes(gap + rest) == attributes(rest),
        markup(gap + rest) == markup(rest),
    decreases gap.len(),
{
    let s = gap + rest;
    if gap.len() > 0 {
        let b = gap.skip(1);
        assert(s[0] == gap[0]);
        assert forall|i: int| 0 <= i < b.len() implies is_blank(#[trigger] b[i]) by {
            assert(b[i] == gap[i + 1]);
        }
        lemma_skip_blank(b, rest);
        assert(s.skip(1) =~= b + rest);
    } else {
        assert(s =~= rest);
    }
}

/// White space between elements is not seen.
pub proof fn lemma_blank(gap: Seq<char>, rest: Seq<char>)
    requires
        forall|i: int| 0 <= i < gap.len() ==> is_blank(#[trigger] gap[i]),
    ensures
        markup(gap + rest) == markup(rest),
{
    lemma_skip_blank(gap, rest);
}

#[verifier::rlimit(40)]
proof fn lemma_attribute(a: (Seq<char>, Seq<char>, Seq<char>), rest: Seq<char>)
    requires
        is_gap(a.0),
        is_name(a.1),
    ensures
        attributes(attribute_text(a) + rest) == seq![(a.1, a.2)] + attributes(rest),
{
    let name = a.1;
    let value = xml_escaped(a.2);
    let s = name + seq!['=', '"'] + value + seq!['"'] + rest;
    assert(attribute_text(a) + rest =~= a.0 + s);
    lemma_skip_blank(a.0, s);
    assert(s[0] == name[0]);
    let after = value + seq!['"'] + rest;
    assert(s =~= name + seq!['='] + (seq!['"'] + after));
    lemma_upto(name, '=', seq!['"'] + after);
    assert(s.take(name.len() as int) =~= name);
    assert(s.skip((name.len() + 2) as int) =~= after);
    law_escaped_is_safe(a.2);
    lemma_upto(value, '"', rest);
    assert(after.take(value.len() as int) =~= value);
    assert(after.skip((value.len() + 1) as int) =~= rest);
    law_escape_undone(a.2);
}

proof fn lemma_attributes(list: Seq<(Seq<char>, Seq<char>, Seq<char>)>, rest: Seq<char>)
    requires
        writable(list),
    ensures
        attributes(attribute_texts(list) + rest) == pairs(list) + attributes(rest),
    decreases list.len(),
{
    if list.len() == 0 {
        assert(attribute_texts(list) + rest =~= rest);
        assert(pairs(list) + attributes(rest) =~= attributes(rest));
    } else {
        let front = list.drop_last();
        let last = list.last();
        assert forall|i: int| 0 <= i < front.len() implies is_gap((#[trigger] front[i]).0) && is_name(front[i].1) by {
            assert(front[i] == list[i]);
        }
        assert(is_gap(list[list.len() - 1].0));
        assert(attribute_texts(list) + rest =~= attribute_texts(front) + (attribute_text(last) + rest));
        lemma_attributes(front, attribute_text(last) + rest);
        lemma_attribute(last, rest);
        assert(pairs(front) + (seq![(last.1, last.2)] + attributes(rest)) =~= pairs(list) + attributes(rest));
    }
}

#[verifier::rlimit(40)]
proof fn lemma_attribute_texts_closed(list: Seq<(Seq<char>, Seq<char>, Seq<char>)>)
    requires
        writable(list),
    ensures
        without(attribute_texts(list), '>'),
        list.len() > 0 ==> attribute_texts(list).len() > 0 && attribute_texts(list)[0] == list[0].0[0]
            && attribute_texts(list).last() == '"',
    decreases list.len(),
{
    if list.len() > 0 {
        let front = list.drop_last();
        let last = list.last();
        assert forall|i: int| 0 <= i < front.len() implies is_gap((#[trigger] front[i]).0) && is_name(front[i].1) by {
            assert(front[i] == list[i]);
        }
        assert(is_gap(list[list.len() - 1].0) && is_name(list[list.len() - 1].1));
        lemma_attribute_texts_closed(front);
        law_escaped_is_safe(last.2);
        let t = attribute_text(last);
        let a = last.0;
        let b = last.0 + last.1;
        let c = b + seq!['=', '"'];
        let d = c + xml_escaped(last.2);
        assert forall|i: int| 0 <= i < t.len() implies #[trigger] t[i] != '>' by {
            if i < a.len() {
                assert(t[i] == a[i]);
            } else if i < b.len() {
                assert(t[i] == last.1[i - a.len()]);
            } else if i < c.len() {
                assert(t[i] == c[i]);
            } else if i < d.len() {
                assert(t[i] == xml_escaped(last.2)[i - c.len()]);
            }
        }
        assert(t[0] == last.0[0]);
        assert(t.last() == '"');
        let all = attribute_texts(list);
        assert(all == attribute_texts(front) + t);
        if front.len() == 0 {
            assert(all =~= t);
        } else {
            assert(front[0] == list[0]);
        }
    }
}

proof fn lemma_tag_end(inner: Seq<char>, rest: Seq<char>)
    requires
        without(inner, '>'),
    ensures
        markup(seq!['<'] + inner + seq!['>'] + rest) == tag(inner) + markup(rest),
{
    let a = seq!['<'] + inner;
    let s = a + seq!['>'] + rest;
    assert forall|i: int| 0 <= i < a.len() implies #[trigger] a[i] != '>' by {
        if i > 0 {
            assert(a[i] == inner[i - 1]);
        }
    }
    lemma_upto(a, '>', rest);
    assert(s[0] == '<');
    assert(s.subrange(1, a.len() as int) =~= inner);
    assert(s.skip((a.len() + 1) as int) =~= rest);
}

/// The start of an element, or an element without content.
#[verifier::rlimit(40)]
pub proof fn lemma_element(
    name: Seq<char>,
    list: Seq<(Seq<char>, Seq<char>, Seq<char>)>,
    empty: bool,
    rest: Seq<char>,
)
    requires
        is_name(name),
        writable(list),
        list.len() > 0 ==> list[0].0[0] == ' ',
        empty ==> list.len() > 0,
    ensures
        !empty ==> markup(seq!['<'] + name + attribute_texts(list) + seq!['>'] + rest) == seq![
            Token::Open(name, pairs(list)),
        ] + markup(rest),
        empty ==> markup(seq!['<'] + name + attribute_texts(list) + seq!['/', '>'] + rest) == seq![
            Token::Open(name, pairs(list)),
            Token::Close(name),
        ] + markup(rest),
{
    let texts = attribute_texts(list);
    let end = if empty {
        seq!['/']
    } else {
        Seq::empty()
    };
    let inner = name + texts + end;
    lemma_attribute_texts_closed(list);
    assert forall|i: int| 0 <= i < inner.len() implies #[trigger] inner[i] != '>' by {
        if i < name.len() {
            assert(inner[i] == name[i]);
        } else if i < name.len() + texts.len() {
            assert(inner[i] == texts[i - name.len()]);
        }
    }
    lemma_tag_end(inner, rest);
    if empty {
        assert(seq!['<'] + name + texts + seq!['/', '>'] + rest =~= seq!['<'] + inner + seq!['>'] + rest);
    } else {
        assert(seq!['<'] + name + texts + seq!['>'] + rest =~= seq!['<'] + inner + seq!['>'] + rest);
    }
    assert(inner[0] == name[0]);
    let after = texts + end;
    if list.len() == 0 {
        assert(inner =~= name);
        lemma_upto(name, ' ', Seq::empty());
    } else {
        assert(inner =~= name + seq![' '] + after.skip(1));
        lemma_upto(name, ' ', after.skip(1));
    }
    assert(inner.take(name.len() as int) =~= name);
    assert(inner.skip(name.len() as int) =~= after);
    lemma_attributes(list, end);
    if empty {
        assert(end.skip(1) =~= Seq::<char>::empty());
        assert(attributes(end.skip(1)) =~= Seq::empty());
        assert(attributes(end) =~= Seq::empty());
        assert(inner.last() == '/');
    } else {
        assert(attributes(end) =~= Seq::empty());
        if list.len() == 0 {
            assert(inner.last() == name[name.len() - 1]);
        } else {
            assert(inner.last() == texts.last());
        }
    }
    assert(attributes(after) =~= pairs(list));
}

/// The end of an element.
pub proof fn lemma_close(name: Seq<char>, rest: Seq<char>)
    requires
        is_name(name),
    ensures
        markup(seq!['<', '/'] + name + seq!['>'] + rest) == seq![Token::Close(name)] + markup(rest),
{
    let inner = seq!['/'] + name;
    assert forall|i: int| 0 <= i < inner.len() implies #[trigger] inner[i] != '>' by {
        if i > 0 {
            assert(inner[i] == name[i - 1]);
        }
    }
    lemma_tag_end(inner, rest);
    assert(seq!['<', '/'] + name + seq!['>'] + rest =~= seq!['<'] + inner + seq!['>'] + rest);
    assert(inner.skip(1) =~= name);
}

/// A declaration is not seen.
pub proof fn lemma_declaration(inner: Seq<char>, rest: Seq<char>)
    requires
        inner.len() > 0,
        inner[0] == '?',
        without(inner, '>'),
    ensures
        markup(seq!['<'] + inner + seq!['>'] + rest) == markup(rest),
{
    lemma_tag_end(inner, rest);
    assert(tag(inner) + markup(rest) =~= markup(rest));
}

/// Text in front of a tag.
pub proof fn lemma_text(t: Seq<char>, rest: Seq<char>)
    requires
        t.len() > 0,
        !is_blank(t[0]),
        rest.len() > 0,
        rest[0] == '<',
    ensures
        markup(xml_escaped(t) + rest) == seq![Token::Text(t)] + markup(rest),
{
    let e = xml_escaped(t);
    let s = e + rest;
    law_escaped_is_safe(t);
    law_escape_undone(t);
    lemma_first_escaped(t);
    assert(s[0] == e[0]);
    lemma_upto(e, '<', rest.skip(1));
    assert(s =~= e + seq!['<'] + rest.skip(1));
    assert(s.take(e.len() as int) =~= e);
    assert(s.skip(e.len() as int) =~= rest);
}

proof fn lemma_first_escaped(t: Seq<char>)
    requires
        t.len() > 0,
        !is_blank(t[0]),
    ensures
        xml_escaped(t).len() > 0,
        !is_blank(xml_escaped(t)[0]),
{
    let first = seq![t[0]];
    let rest = t.skip(1);
    assert(t =~= first + rest);
    law_escape_parts(first, rest);
    assert(first.drop_last() =~= Seq::<char>::empty());
    assert(xml_escaped(first.drop_last()) =~= Seq::<char>::empty());
    assert(xml_escaped(first) =~= escape(t[0]));
    reveal_strlit("&amp;");
    reveal_strlit("&lt;");
    reveal_strlit("&gt;");
    reveal_strlit("&quot;");
    reveal_strlit("&apos;");
    assert(xml_escaped(t)[0] == escape(t[0])[0]);
}

/// A text that escaping does not change.
pub open spec fn is_plain(s: Seq<char>) -> bool {
    forall|i: int|
        0 <= i < s.len() ==> {
            let c = #[trigger] s[i];
            &&& c != '<'
            &&& c != '>'
            &&& c != '&'
            &&& c != '"'
            &&& c != '\''
        }
}

pub proof fn lemma_plain(s: Seq<char>)
    requires
        is_plain(s),
    ensures
        xml_escaped(s) == s,
    decreases s.len(),
{
    if s.len() > 0 {
        let front = s.drop_last();
        assert forall|i: int| 0 <= i < front.len() implies ({
            let c = #[trigger] front[i];
            &&& c != '<'
            &&& c != '>'
            &&& c != '&'
            &&& c != '"'
            &&& c != '\''
        }) by {
            assert(front[i] == s[i]);
        }
        lemma_plain(front);
        assert(s[s.len() - 1] == s.last());
        assert(front + seq![s.last()] =~= s);
    } else {
        assert(s =~= Seq::empty());
    }
}

} // verus!
