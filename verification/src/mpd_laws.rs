//! What a player reads in a manifest.

use vstd::prelude::*;
use crate::dash::{
    audio_representation, audio_set, codecs_attr, content_protection, first_map, first_rep_key, init_element,
    language, media_segments, resolution_attrs, segment_element, segment_elements, segment_list, segment_url,
    subtitle_representation, subtitle_set, video_representation, video_set, AltRepView, RepView,
};
use crate::hls::MediaView;
use crate::listing_laws::{lemma_video_representations, video_parts};
use crate::markup::{
    attribute_text, attribute_texts, is_blank, is_gap, is_name, is_plain, lemma_blank, lemma_close, lemma_element,
    lemma_plain, lemma_text, markup, pairs, writable, Token,
};
use crate::rounding::millis;
use crate::text::decimal;
use crate::url_utils::{proxied, resolved, segment_params, trim_end_slashes, xml_escaped};

verus! {

/// The text is read as the tokens, whatever follows it.
pub open spec fn reads_as(text: Seq<char>, tokens: Seq<Token>) -> bool {
    forall|rest: Seq<char>| #[trigger] markup(text + rest) == tokens + markup(rest)
}

pub proof fn lemma_reads_both(a: Seq<char>, x: Seq<Token>, b: Seq<char>, y: Seq<Token>)
    requires
        reads_as(a, x),
        reads_as(b, y),
    ensures
        reads_as(a + b, x + y),
{
    assert forall|rest: Seq<char>| #[trigger] markup((a + b) + rest) == (x + y) + markup(rest) by {
        assert((a + b) + rest =~= a + (b + rest));
        assert(markup(a + (b + rest)) == x + markup(b + rest));
        assert(x + (y + markup(rest)) =~= (x + y) + markup(rest));
    }
}

pub proof fn lemma_reads_nothing()
    ensures
        reads_as(Seq::empty(), Seq::empty()),
{
    assert forall|rest: Seq<char>| #[trigger]
        markup(Seq::<char>::empty() + rest) == Seq::<Token>::empty() + markup(rest) by {
        assert(Seq::<char>::empty() + rest =~= rest);
        assert(Seq::<Token>::empty() + markup(rest) =~= markup(rest));
    }
}

pub proof fn lemma_reads_all(parts: Seq<Seq<char>>, tokens: Seq<Seq<Token>>)
    requires
        parts.len() == tokens.len(),
        forall|i: int| 0 <= i < parts.len() ==> reads_as(#[trigger] parts[i], tokens[i]),
    ensures
        reads_as(parts.flatten(), tokens.flatten()),
    decreases parts.len(),
{
    if parts.len() == 0 {
        lemma_reads_nothing();
    } else {
        assert forall|i: int| 0 <= i < parts.drop_first().len() implies reads_as(
            #[trigger] parts.drop_first()[i],
            tokens.drop_first()[i],
        ) by {
            assert(parts.drop_first()[i] == parts[i + 1]);
            assert(tokens.drop_first()[i] == tokens[i + 1]);
        }
        lemma_reads_all(parts.drop_first(), tokens.drop_first());
        lemma_reads_both(
            parts.first(),
            tokens.first(),
            parts.drop_first().flatten(),
            tokens.drop_first().flatten(),
        );
    }
}

/// Characters between elements that are not seen.
pub open spec fn all_blank(s: Seq<char>) -> bool {
    forall|i: int| 0 <= i < s.len() ==> is_blank(#[trigger] s[i])
}

/// A line that starts an element.
pub open spec fn open_line(indent: Seq<char>, name: Seq<char>, list: Seq<(Seq<char>, Seq<char>, Seq<char>)>) -> Seq<char> {
    indent + seq!['<'] + name + attribute_texts(list) + seq!['>', '\n']
}

/// A line with an element without content.
spec fn empty_line(indent: Seq<char>, name: Seq<char>, list: Seq<(Seq<char>, Seq<char>, Seq<char>)>) -> Seq<char> {
    indent + seq!['<'] + name + attribute_texts(list) + seq!['/', '>', '\n']
}

/// A line that ends an element.
pub open spec fn close_line(indent: Seq<char>, name: Seq<char>) -> Seq<char> {
    indent + seq!['<', '/'] + name + seq!['>', '\n']
}

pub proof fn lemma_open_line(indent: Seq<char>, name: Seq<char>, list: Seq<(Seq<char>, Seq<char>, Seq<char>)>)
    requires
        all_blank(indent),
        is_name(name),
        writable(list),
        list.len() > 0 ==> list[0].0[0] == ' ',
    ensures
        reads_as(open_line(indent, name, list), seq![Token::Open(name, pairs(list))]),
{
    let line = open_line(indent, name, list);
    let tokens = seq![Token::Open(name, pairs(list))];
    assert forall|rest: Seq<char>| #[trigger] markup(line + rest) == tokens + markup(rest) by {
        let after = seq!['\n'] + rest;
        let tag = seq!['<'] + name + attribute_texts(list) + seq!['>'] + after;
        assert(line + rest =~= indent + tag);
        lemma_blank(indent, tag);
        lemma_element(name, list, false, after);
        lemma_blank(seq!['\n'], rest);
    }
}

proof fn lemma_empty_line(indent: Seq<char>, name: Seq<char>, list: Seq<(Seq<char>, Seq<char>, Seq<char>)>)
    requires
        all_blank(indent),
        is_name(name),
        writable(list),
        list.len() > 0,
        list[0].0[0] == ' ',
    ensures
        reads_as(empty_line(indent, name, list), seq![Token::Open(name, pairs(list)), Token::Close(name)]),
{
    let line = empty_line(indent, name, list);
    let tokens = seq![Token::Open(name, pairs(list)), Token::Close(name)];
    assert forall|rest: Seq<char>| #[trigger] markup(line + rest) == tokens + markup(rest) by {
        let after = seq!['\n'] + rest;
        let tag = seq!['<'] + name + attribute_texts(list) + seq!['/', '>'] + after;
        assert(line + rest =~= indent + tag);
        lemma_blank(indent, tag);
        lemma_element(name, list, true, after);
        lemma_blank(seq!['\n'], rest);
    }
}

pub proof fn lemma_close_line(indent: Seq<char>, name: Seq<char>)
    requires
        all_blank(indent),
        is_name(name),
    ensures
        reads_as(close_line(indent, name), seq![Token::Close(name)]),
{
    let line = close_line(indent, name);
    let tokens = seq![Token::Close(name)];
    assert forall|rest: Seq<char>| #[trigger] markup(line + rest) == tokens + markup(rest) by {
        let after = seq!['\n'] + rest;
        let tag = seq!['<', '/'] + name + seq!['>'] + after;
        assert(line + rest =~= indent + tag);
        lemma_blank(indent, tag);
        lemma_close(name, after);
        lemma_blank(seq!['\n'], rest);
    }
}

pub proof fn lemma_texts_more(
    list: Seq<(Seq<char>, Seq<char>, Seq<char>)>,
    more: Seq<(Seq<char>, Seq<char>, Seq<char>)>,
)
    ensures
        attribute_texts(list + more) == attribute_texts(list) + attribute_texts(more),
        pairs(list + more) == pairs(list) + pairs(more),
        writable(list) && writable(more) ==> writable(list + more),
    decreases more.len(),
{
    let all = list + more;
    assert(pairs(all) =~= pairs(list) + pairs(more));
    if more.len() == 0 {
        assert(all =~= list);
        assert(attribute_texts(list) + attribute_texts(more) =~= attribute_texts(list));
    } else {
        lemma_texts_more(list, more.drop_last());
        assert(all.drop_last() =~= list + more.drop_last());
        assert(all.last() == more.last());
        let (a, b, c) = (attribute_texts(list), attribute_texts(more.drop_last()), attribute_text(more.last()));
        assert((a + b) + c =~= a + (b + c));
    }
    if writable(list) && writable(more) {
        assert forall|i: int| 0 <= i < all.len() implies is_gap((#[trigger] all[i]).0) && is_name(all[i].1) by {
            if i < list.len() {
                assert(all[i] == list[i]);
            } else {
                assert(all[i] == more[i - list.len()]);
            }
        }
    }
}

pub proof fn lemma_one_text(gap: Seq<char>, name: Seq<char>, value: Seq<char>)
    ensures
        attribute_texts(seq![(gap, name, value)]) == gap + name + seq!['=', '"'] + xml_escaped(value) + seq!['"'],
        pairs(seq![(gap, name, value)]) == seq![(name, value)],
        is_gap(gap) && is_name(name) ==> writable(seq![(gap, name, value)]),
{
    let list = seq![(gap, name, value)];
    assert(list.drop_last() =~= Seq::empty());
    assert(attribute_texts(list.drop_last()) =~= Seq::empty());
    assert(attribute_texts(list) =~= attribute_text((gap, name, value)));
    assert(pairs(list) =~= seq![(name, value)]);
}

pub proof fn lemma_decimal_plain(n: nat)
    ensures
        is_plain(decimal(n)),
        xml_escaped(decimal(n)) == decimal(n),
    decreases n,
{
    if n >= 10 {
        lemma_decimal_plain(n / 10);
    }
    lemma_plain(decimal(n));
}

/// An Initialization element that names a URL.
pub open spec fn initialization(url: Seq<char>) -> Seq<Token> {
    seq![Token::Open("Initialization"@, seq![("sourceURL"@, url)]), Token::Close("Initialization"@)]
}

/// A SegmentURL element that names a URL and a duration in milliseconds.
pub open spec fn segment(url: Seq<char>, ms: nat) -> Seq<Token> {
    seq![
        Token::Open("SegmentURL"@, seq![("media"@, url), ("duration"@, decimal(ms))]),
        Token::Close("SegmentURL"@),
    ]
}

proof fn lemma_init_element(url: Seq<char>)
    ensures
        reads_as(init_element(url), initialization(url)),
{
    reveal_strlit("          <Initialization sourceURL=\"");
    reveal_strlit("\"/>\n");
    reveal_strlit("Initialization");
    reveal_strlit("sourceURL");
    let indent = seq![' ', ' ', ' ', ' ', ' ', ' ', ' ', ' ', ' ', ' '];
    let list = seq![(seq![' '], "sourceURL"@, url)];
    lemma_one_text(seq![' '], "sourceURL"@, url);
    assert("          <Initialization sourceURL=\""@ =~= indent + seq!['<'] + "Initialization"@ + seq![' ']
        + "sourceURL"@ + seq!['=', '"']);
    assert("\"/>\n"@ =~= seq!['"'] + seq!['/', '>', '\n']);
    assert(init_element(url) =~= empty_line(indent, "Initialization"@, list));
    lemma_empty_line(indent, "Initialization"@, list);
}

proof fn lemma_segment_element(url: Seq<char>, ms: nat)
    ensures
        reads_as(segment_element(url, ms), segment(url, ms)),
{
    reveal_strlit("          <SegmentURL media=\"");
    reveal_strlit("\" duration=\"");
    reveal_strlit("\"/>\n");
    reveal_strlit("SegmentURL");
    reveal_strlit("media");
    reveal_strlit("duration");
    let indent = seq![' ', ' ', ' ', ' ', ' ', ' ', ' ', ' ', ' ', ' '];
    let a = seq![(seq![' '], "media"@, url)];
    let b = seq![(seq![' '], "duration"@, decimal(ms))];
    lemma_one_text(seq![' '], "media"@, url);
    lemma_one_text(seq![' '], "duration"@, decimal(ms));
    lemma_texts_more(a, b);
    lemma_decimal_plain(ms);
    assert("          <SegmentURL media=\""@ =~= indent + seq!['<'] + "SegmentURL"@ + seq![' '] + "media"@ + seq![
        '=',
        '"',
    ]);
    assert("\" duration=\""@ =~= seq!['"'] + seq![' '] + "duration"@ + seq!['=', '"']);
    assert("\"/>\n"@ =~= seq!['"'] + seq!['/', '>', '\n']);
    assert(segment_element(url, ms) =~= empty_line(indent, "SegmentURL"@, a + b));
    lemma_empty_line(indent, "SegmentURL"@, a + b);
    assert(pairs(a) + pairs(b) =~= seq![("media"@, url), ("duration"@, decimal(ms))]);
}

/// Where a player finds segment `i` of a playlist. TS segments that are transmuxed are named by
/// playlist, number and target duration; others by their own URL, where their URI can be resolved.
pub open spec fn segment_place(media: MediaView, url: Seq<char>, base: Seq<char>, transmuxed: bool, i: int) -> Option<
    Seq<char>,
> {
    if transmuxed {
        Some(
            proxied(url, base, "/hls2dash-ts-pl/"@) + segment_params(
                url,
                i as nat,
                media.target_duration * 1000,
            ),
        )
    } else {
        match resolved(url, media.segments[i].uri) {
            Ok(place) => Some(proxied(place, base, "/hls2dash/"@)),
            Err(_) => None,
        }
    }
}

/// What a player reads of each segment of a playlist.
pub open spec fn segments_read(media: MediaView, url: Seq<char>, base: Seq<char>, transmuxed: bool) -> Seq<Seq<Token>> {
    Seq::new(
        media.segments.len(),
        |i: int|
            match segment_place(media, url, base, transmuxed, i) {
                Some(place) => segment(place, millis(media.segments[i].duration_bits)),
                None => Seq::empty(),
            },
    )
}

/// What a player reads of a playlist: milliseconds as the timescale, the target duration, the
/// initialization segment where there is one, and all segments in order.
pub open spec fn playlist_read(
    media: MediaView,
    url: Seq<char>,
    base: Seq<char>,
    transmuxed: bool,
    init: Option<Seq<char>>,
) -> Seq<Token> {
    seq![
        Token::Open(
            "SegmentList"@,
            seq![("timescale"@, "1000"@), ("duration"@, decimal(media.target_duration * 1000))],
        ),
    ] + (match init {
        Some(place) => initialization(place),
        None => Seq::empty(),
    }) + segments_read(media, url, base, transmuxed).flatten() + seq![Token::Close("SegmentList"@)]
}

/// The elements of each segment of a playlist.
spec fn segment_parts(media: MediaView, url: Seq<char>, base: Seq<char>, transmuxed: bool) -> Seq<Seq<char>> {
    Seq::new(
        media.segments.len(),
        |i: int|
            match segment_place(media, url, base, transmuxed, i) {
                Some(place) => segment_element(place, millis(media.segments[i].duration_bits)),
                None => Seq::empty(),
            },
    )
}

proof fn lemma_segment_elements(media: MediaView, n: nat, url: Seq<char>, base: Seq<char>, transmuxed: bool)
    requires
        n <= media.segments.len(),
    ensures
        segment_elements(media, n, url, media.target_duration * 1000, base, transmuxed) == segment_parts(
            media,
            url,
            base,
            transmuxed,
        ).take(n as int).flatten(),
    decreases n,
{
    let parts = segment_parts(media, url, base, transmuxed);
    if n > 0 {
        lemma_segment_elements(media, (n - 1) as nat, url, base, transmuxed);
        assert(parts.take(n as int) =~= parts.take(n - 1).push(parts[n - 1]));
        parts.take(n - 1).lemma_flatten_push(parts[n - 1]);
        assert(segment_url(media, n - 1, url, media.target_duration * 1000, base, transmuxed) == segment_place(
            media,
            url,
            base,
            transmuxed,
            n - 1,
        ));
        let before = parts.take(n - 1).flatten();
        assert(before + Seq::<char>::empty() =~= before);
    } else {
        assert(parts.take(0) =~= Seq::empty());
    }
}

#[verifier::rlimit(40)]
proof fn lemma_segment_list_open(ms: nat)
    ensures
        reads_as(
            "        <SegmentList timescale=\"1000\" duration=\""@ + decimal(ms) + "\">\n"@,
            seq![Token::Open("SegmentList"@, seq![("timescale"@, "1000"@), ("duration"@, decimal(ms))])],
        ),
        reads_as("        </SegmentList>\n"@, seq![Token::Close("SegmentList"@)]),
{
    reveal_strlit("        <SegmentList timescale=\"1000\" duration=\"");
    reveal_strlit("\">\n");
    reveal_strlit("SegmentList");
    reveal_strlit("timescale");
    reveal_strlit("duration");
    reveal_strlit("1000");
    reveal_strlit("        </SegmentList>\n");
    let indent = seq![' ', ' ', ' ', ' ', ' ', ' ', ' ', ' '];
    let a = seq![(seq![' '], "timescale"@, "1000"@)];
    let b = seq![(seq![' '], "duration"@, decimal(ms))];
    lemma_one_text(seq![' '], "timescale"@, "1000"@);
    lemma_one_text(seq![' '], "duration"@, decimal(ms));
    lemma_texts_more(a, b);
    lemma_decimal_plain(ms);
    lemma_plain("1000"@);
    let text = "        <SegmentList timescale=\"1000\" duration=\""@ + decimal(ms) + "\">\n"@;
    assert("        <SegmentList timescale=\"1000\" duration=\""@ =~= indent + seq!['<'] + "SegmentList"@ + seq![' ']
        + "timescale"@ + seq!['=', '"'] + "1000"@ + seq!['"'] + seq![' '] + "duration"@ + seq!['=', '"']);
    assert("\">\n"@ =~= seq!['"'] + seq!['>', '\n']);
    assert(text =~= open_line(indent, "SegmentList"@, a + b));
    lemma_open_line(indent, "SegmentList"@, a + b);
    assert(pairs(a) + pairs(b) =~= seq![("timescale"@, "1000"@), ("duration"@, decimal(ms))]);
    assert("        </SegmentList>\n"@ =~= close_line(indent, "SegmentList"@));
    lemma_close_line(indent, "SegmentList"@);
}

proof fn lemma_segments_read(media: MediaView, url: Seq<char>, base: Seq<char>, transmuxed: bool)
    ensures
        reads_as(
            segment_elements(media, media.segments.len(), url, media.target_duration * 1000, base, transmuxed),
            segments_read(media, url, base, transmuxed).flatten(),
        ),
{
    let parts = segment_parts(media, url, base, transmuxed);
    let tokens = segments_read(media, url, base, transmuxed);
    lemma_segment_elements(media, media.segments.len(), url, base, transmuxed);
    assert(parts.take(media.segments.len() as int) =~= parts);
    assert forall|i: int| 0 <= i < parts.len() implies reads_as(#[trigger] parts[i], tokens[i]) by {
        match segment_place(media, url, base, transmuxed, i) {
            Some(place) => {
                lemma_segment_element(place, millis(media.segments[i].duration_bits));
            },
            None => {
                lemma_reads_nothing();
            },
        }
    }
    lemma_reads_all(parts, tokens);
}

proof fn lemma_playlist_text(
    media: MediaView,
    url: Seq<char>,
    base: Seq<char>,
    transmuxed: bool,
    init: Option<Seq<char>>,
)
    ensures
        reads_as(
            "        <SegmentList timescale=\"1000\" duration=\""@ + decimal(media.target_duration * 1000) + "\">\n"@ + (
            match init {
                Some(place) => init_element(place),
                None => Seq::empty(),
            }) + segment_elements(
                media,
                media.segments.len(),
                url,
                media.target_duration * 1000,
                base,
                transmuxed,
            ) + "        </SegmentList>\n"@,
            playlist_read(media, url, base, transmuxed, init),
        ),
{
    let ms = media.target_duration * 1000;
    lemma_segment_list_open(ms);
    let head = "        <SegmentList timescale=\"1000\" duration=\""@ + decimal(ms) + "\">\n"@;
    let head_tokens = seq![
        Token::Open("SegmentList"@, seq![("timescale"@, "1000"@), ("duration"@, decimal(ms))]),
    ];
    let init_text = match init {
        Some(place) => init_element(place),
        None => Seq::empty(),
    };
    let init_tokens = match init {
        Some(place) => initialization(place),
        None => Seq::empty(),
    };
    match init {
        Some(place) => {
            lemma_init_element(place);
        },
        None => {
            lemma_reads_nothing();
        },
    }
    lemma_reads_both(head, head_tokens, init_text, init_tokens);
    lemma_segments_read(media, url, base, transmuxed);
    let segments = segment_elements(media, media.segments.len(), url, ms, base, transmuxed);
    let segment_tokens = segments_read(media, url, base, transmuxed).flatten();
    lemma_reads_both(head + init_text, head_tokens + init_tokens, segments, segment_tokens);
    lemma_reads_both(
        head + init_text + segments,
        head_tokens + init_tokens + segment_tokens,
        "        </SegmentList>\n"@,
        seq![Token::Close("SegmentList"@)],
    );
}

/// Where a player finds the initialization segment of a video or audio playlist. With fMP4 that is the
/// first map. TS segments that are not transmuxed need none. For those that are, it comes from the first
/// segment of a playlist that has ended, and from the playlist itself as long as it has not.
pub open spec fn init_place(media: MediaView, url: Seq<char>, is_fmp4: bool, base: Seq<char>, transmux: bool) -> Option<
    Seq<char>,
> {
    if is_fmp4 {
        match first_map(media.segments) {
            Some(uri) => match resolved(url, uri) {
                Ok(place) => Some(proxied(place, base, "/hls2dash/"@)),
                Err(_) => None,
            },
            None => None,
        }
    } else if !transmux {
        None
    } else if media.end_list {
        if media.segments.len() > 0 {
            match resolved(url, media.segments[0].uri) {
                Ok(place) => Some(proxied(place, base, "/hls2dash-init/"@)),
                Err(_) => None,
            }
        } else {
            None
        }
    } else {
        Some(proxied(url, base, "/hls2dash-init-pl/"@))
    }
}

proof fn lemma_media_read(media: MediaView, url: Seq<char>, is_fmp4: bool, base: Seq<char>, transmux: bool)
    ensures
        reads_as(
            media_segments(media, url, is_fmp4, base, transmux),
            playlist_read(
                media,
                url,
                base,
                transmux && !is_fmp4,
                init_place(media, url, is_fmp4, base, transmux),
            ),
        ),
{
    lemma_playlist_text(
        media,
        url,
        base,
        transmux && !is_fmp4,
        init_place(media, url, is_fmp4, base, transmux),
    );
}

/// The codecs of a video rendition, where they are known.
pub open spec fn codecs_read(codecs: Option<Seq<char>>) -> Seq<(Seq<char>, Seq<char>)> {
    match codecs {
        Some(c) => seq![("codecs"@, c)],
        None => Seq::empty(),
    }
}

/// The resolution of a video rendition, where it is known.
pub open spec fn resolution_read(resolution: Option<(nat, nat)>) -> Seq<(Seq<char>, Seq<char>)> {
    match resolution {
        Some((width, height)) => seq![("width"@, decimal(width)), ("height"@, decimal(height))],
        None => Seq::empty(),
    }
}

/// What a player reads of a video rendition: its identifier, its container, its codecs, resolution and
/// bandwidth, and its playlist.
pub open spec fn video_read(rep: RepView, base: Seq<char>, transmux: bool) -> Seq<Token> {
    seq![
        Token::Open(
            "Representation"@,
            seq![
                ("id"@, rep.id),
                (
                    "mimeType"@,
                    if rep.is_fmp4 || transmux {
                        "video/mp4"@
                    } else {
                        "video/MP2T"@
                    },
                ),
            ] + codecs_read(rep.variant.codecs) + resolution_read(rep.variant.resolution) + seq![
                ("bandwidth"@, decimal(rep.variant.bandwidth)),
            ],
        ),
    ] + playlist_read(
        rep.media,
        rep.url,
        base,
        transmux && !rep.is_fmp4,
        init_place(rep.media, rep.url, rep.is_fmp4, base, transmux),
    ) + seq![Token::Close("Representation"@)]
}

spec fn codecs_list(codecs: Option<Seq<char>>) -> Seq<(Seq<char>, Seq<char>, Seq<char>)> {
    match codecs {
        Some(c) => seq![(seq![' '], "codecs"@, c)],
        None => Seq::empty(),
    }
}

proof fn lemma_codecs(codecs: Option<Seq<char>>)
    ensures
        attribute_texts(codecs_list(codecs)) == codecs_attr(codecs),
        pairs(codecs_list(codecs)) == codecs_read(codecs),
        writable(codecs_list(codecs)),
{
    reveal_strlit(" codecs=\"");
    reveal_strlit("codecs");
    reveal_strlit("\"");
    match codecs {
        Some(c) => {
            lemma_one_text(seq![' '], "codecs"@, c);
            assert(" codecs=\""@ =~= seq![' '] + "codecs"@ + seq!['=', '"']);
            assert("\""@ =~= seq!['"']);
            assert(attribute_texts(codecs_list(codecs)) =~= codecs_attr(codecs));
        },
        None => {
            assert(pairs(codecs_list(codecs)) =~= codecs_read(codecs));
        },
    }
}

spec fn resolution_list(resolution: Option<(nat, nat)>) -> Seq<(Seq<char>, Seq<char>, Seq<char>)> {
    match resolution {
        Some((width, height)) => seq![(seq![' '], "width"@, decimal(width))] + seq![
            (seq![' '], "height"@, decimal(height)),
        ],
        None => Seq::empty(),
    }
}

proof fn lemma_resolution(resolution: Option<(nat, nat)>)
    ensures
        attribute_texts(resolution_list(resolution)) == resolution_attrs(resolution),
        pairs(resolution_list(resolution)) == resolution_read(resolution),
        writable(resolution_list(resolution)),
{
    reveal_strlit(" width=\"");
    reveal_strlit("\" height=\"");
    reveal_strlit("width");
    reveal_strlit("height");
    reveal_strlit("\"");
    match resolution {
        Some((width, height)) => {
            let a = seq![(seq![' '], "width"@, decimal(width))];
            let b = seq![(seq![' '], "height"@, decimal(height))];
            lemma_one_text(seq![' '], "width"@, decimal(width));
            lemma_one_text(seq![' '], "height"@, decimal(height));
            lemma_texts_more(a, b);
            lemma_decimal_plain(width);
            lemma_decimal_plain(height);
            assert(" width=\""@ =~= seq![' '] + "width"@ + seq!['=', '"']);
            assert("\" height=\""@ =~= seq!['"'] + seq![' '] + "height"@ + seq!['=', '"']);
            assert("\""@ =~= seq!['"']);
            assert(attribute_texts(resolution_list(resolution)) =~= resolution_attrs(resolution));
            assert(pairs(resolution_list(resolution)) =~= resolution_read(resolution));
        },
        None => {
            assert(pairs(resolution_list(resolution)) =~= resolution_read(resolution));
        },
    }
}

proof fn lemma_video_tag_words()
    ensures
        "      <Representation id=\""@ == seq![' ', ' ', ' ', ' ', ' ', ' '] + seq!['<'] + "Representation"@ + seq![' ']
            + "id"@ + seq!['=', '"'],
        "\" mimeType=\""@ == seq!['"'] + seq![' '] + "mimeType"@ + seq!['=', '"'],
        "\""@ == seq!['"'],
        "  bandwidth=\""@ == seq![' ', ' '] + "bandwidth"@ + seq!['=', '"'],
        "\">\n"@ == seq!['"'] + seq!['>', '\n'],
        is_name("Representation"@),
        is_name("id"@),
        is_name("mimeType"@),
        is_name("bandwidth"@),
        is_plain("video/mp4"@),
        is_plain("video/MP2T"@),
{
    reveal_strlit("      <Representation id=\"");
    reveal_strlit("\" mimeType=\"");
    reveal_strlit("video/mp4");
    reveal_strlit("video/MP2T");
    reveal_strlit("\"");
    reveal_strlit("  bandwidth=\"");
    reveal_strlit("\">\n");
    reveal_strlit("Representation");
    reveal_strlit("id");
    reveal_strlit("mimeType");
    reveal_strlit("bandwidth");
    assert("      <Representation id=\""@ =~= seq![' ', ' ', ' ', ' ', ' ', ' '] + seq!['<'] + "Representation"@ + seq![
        ' ',
    ] + "id"@ + seq!['=', '"']);
    assert("\" mimeType=\""@ =~= seq!['"'] + seq![' '] + "mimeType"@ + seq!['=', '"']);
    assert("\""@ =~= seq!['"']);
    assert("  bandwidth=\""@ =~= seq![' ', ' '] + "bandwidth"@ + seq!['=', '"']);
    assert("\">\n"@ =~= seq!['"'] + seq!['>', '\n']);
}

/// The same pieces of text, put together in two ways.
proof fn lemma_video_pieces(
    head: Seq<char>,
    a: (Seq<char>, Seq<char>),
    b: (Seq<char>, Seq<char>),
    c: Seq<char>,
    d: Seq<char>,
    e: (Seq<char>, Seq<char>),
    quote: Seq<char>,
    end: Seq<char>,
)
    ensures
        (head + a.0) + a.1 + (quote + b.0) + b.1 + quote + c + d + e.0 + e.1 + (quote + end) == head + ((a.0 + a.1 + quote)
            + (b.0 + b.1 + quote) + c + d + (e.0 + e.1 + quote)) + end,
{
    assert((head + a.0) + a.1 + (quote + b.0) + b.1 + quote + c + d + e.0 + e.1 + (quote + end) =~= head + ((a.0 + a.1
        + quote) + (b.0 + b.1 + quote) + c + d + (e.0 + e.1 + quote)) + end);
}

#[verifier::rlimit(40)]
proof fn lemma_video_tag(rep: RepView, transmux: bool)
    ensures
        ({
            let mime = if rep.is_fmp4 || transmux {
                "video/mp4"@
            } else {
                "video/MP2T"@
            };
            reads_as(
                "      <Representation id=\""@ + xml_escaped(rep.id) + "\" mimeType=\""@ + mime + "\""@ + codecs_attr(
                    rep.variant.codecs,
                ) + resolution_attrs(rep.variant.resolution) + "  bandwidth=\""@ + decimal(rep.variant.bandwidth)
                    + "\">\n"@,
                seq![
                    Token::Open(
                        "Representation"@,
                        seq![("id"@, rep.id), ("mimeType"@, mime)] + codecs_read(rep.variant.codecs)
                            + resolution_read(rep.variant.resolution) + seq![
                            ("bandwidth"@, decimal(rep.variant.bandwidth)),
                        ],
                    ),
                ],
            )
        }),
{
    let mime = if rep.is_fmp4 || transmux {
        "video/mp4"@
    } else {
        "video/MP2T"@
    };
    let n = decimal(rep.variant.bandwidth);
    lemma_video_tag_words();
    let indent = seq![' ', ' ', ' ', ' ', ' ', ' '];
    let a = seq![(seq![' '], "id"@, rep.id)];
    let b = seq![(seq![' '], "mimeType"@, mime)];
    let c = codecs_list(rep.variant.codecs);
    let d = resolution_list(rep.variant.resolution);
    let e = seq![(seq![' ', ' '], "bandwidth"@, n)];
    lemma_one_text(seq![' '], "id"@, rep.id);
    lemma_one_text(seq![' '], "mimeType"@, mime);
    lemma_one_text(seq![' ', ' '], "bandwidth"@, n);
    lemma_codecs(rep.variant.codecs);
    lemma_resolution(rep.variant.resolution);
    lemma_texts_more(a, b);
    lemma_texts_more(a + b, c);
    lemma_texts_more(a + b + c, d);
    lemma_texts_more(a + b + c + d, e);
    lemma_decimal_plain(rep.variant.bandwidth);
    lemma_plain(mime);
    let list = a + b + c + d + e;
    let (ta, tb, te) = (attribute_texts(a), attribute_texts(b), attribute_texts(e));
    let (tc, td) = (codecs_attr(rep.variant.codecs), resolution_attrs(rep.variant.resolution));
    assert(attribute_texts(list) == ta + tb + tc + td + te);
    let text = "      <Representation id=\""@ + xml_escaped(rep.id) + "\" mimeType=\""@ + mime + "\""@ + codecs_attr(
        rep.variant.codecs,
    ) + resolution_attrs(rep.variant.resolution) + "  bandwidth=\""@ + n + "\">\n"@;
    let head = indent + seq!['<'] + "Representation"@;
    let ga = seq![' '] + "id"@ + seq!['=', '"'];
    let gb = seq![' '] + "mimeType"@ + seq!['=', '"'];
    let ge = seq![' ', ' '] + "bandwidth"@ + seq!['=', '"'];
    let quote = seq!['"'];
    lemma_video_pieces(
        head,
        (ga, xml_escaped(rep.id)),
        (gb, mime),
        tc,
        td,
        (ge, n),
        quote,
        seq!['>', '\n'],
    );
    assert("      <Representation id=\""@ =~= head + ga);
    assert("\" mimeType=\""@ =~= quote + gb);
    assert(text == open_line(indent, "Representation"@, list));
    lemma_open_line(indent, "Representation"@, list);
    assert(pairs(list) =~= seq![("id"@, rep.id), ("mimeType"@, mime)] + codecs_read(rep.variant.codecs)
        + resolution_read(rep.variant.resolution) + seq![("bandwidth"@, n)]);
}

proof fn lemma_representation_end()
    ensures
        reads_as("      </Representation>\n"@, seq![Token::Close("Representation"@)]),
{
    reveal_strlit("      </Representation>\n");
    reveal_strlit("Representation");
    let indent = seq![' ', ' ', ' ', ' ', ' ', ' '];
    assert("      </Representation>\n"@ =~= close_line(indent, "Representation"@));
    lemma_close_line(indent, "Representation"@);
}

/// A video rendition is read as it is: see `video_read`.
pub proof fn law_video_rendition_read(rep: RepView, base: Seq<char>, transmux: bool)
    ensures
        reads_as(video_representation(rep, base, transmux), video_read(rep, base, transmux)),
{
    let mime = if rep.is_fmp4 || transmux {
        "video/mp4"@
    } else {
        "video/MP2T"@
    };
    let head = "      <Representation id=\""@ + xml_escaped(rep.id) + "\" mimeType=\""@ + mime + "\""@ + codecs_attr(
        rep.variant.codecs,
    ) + resolution_attrs(rep.variant.resolution) + "  bandwidth=\""@ + decimal(rep.variant.bandwidth) + "\">\n"@;
    let tokens = seq![
        Token::Open(
            "Representation"@,
            seq![("id"@, rep.id), ("mimeType"@, mime)] + codecs_read(rep.variant.codecs) + resolution_read(
                rep.variant.resolution,
            ) + seq![("bandwidth"@, decimal(rep.variant.bandwidth))],
        ),
    ];
    let list = media_segments(rep.media, rep.url, rep.is_fmp4, base, transmux);
    let list_tokens = playlist_read(
        rep.media,
        rep.url,
        base,
        transmux && !rep.is_fmp4,
        init_place(rep.media, rep.url, rep.is_fmp4, base, transmux),
    );
    lemma_video_tag(rep, transmux);
    lemma_media_read(rep.media, rep.url, rep.is_fmp4, base, transmux);
    lemma_representation_end();
    lemma_reads_both(head, tokens, list, list_tokens);
    lemma_reads_both(
        head + list,
        tokens + list_tokens,
        "      </Representation>\n"@,
        seq![Token::Close("Representation"@)],
    );
}

/// What a player reads of an audio or subtitle rendition whose playlist is known.
pub open spec fn alternative_read(
    rep: AltRepView,
    mime: Seq<char>,
    bandwidth: Seq<char>,
    playlist: Seq<Token>,
) -> Seq<Token> {
    seq![
        Token::Open("Representation"@, seq![("id"@, rep.id), ("mimeType"@, mime), ("bandwidth"@, bandwidth)]),
    ] + playlist + seq![Token::Close("Representation"@)]
}

/// What a player reads of an audio rendition: nothing where its playlist is not known.
pub open spec fn audio_read(rep: AltRepView, base: Seq<char>, transmux: bool) -> Seq<Token> {
    match (rep.media, rep.url) {
        (Some(media), Some(url)) => alternative_read(
            rep,
            if rep.is_fmp4 || transmux {
                "audio/mp4"@
            } else {
                "audio/MP2T"@
            },
            "128000"@,
            playlist_read(
                media,
                url,
                base,
                transmux && !rep.is_fmp4,
                init_place(media, url, rep.is_fmp4, base, transmux),
            ),
        ),
        _ => Seq::empty(),
    }
}

/// What a player reads of a subtitle rendition: WebVTT, as it is upstream, without an initialization
/// segment.
pub open spec fn subtitle_read(rep: AltRepView, base: Seq<char>) -> Seq<Token> {
    match (rep.media, rep.url) {
        (Some(media), Some(url)) => alternative_read(
            rep,
            "text/vtt"@,
            "10000"@,
            playlist_read(media, url, base, false, None),
        ),
        _ => Seq::empty(),
    }
}

proof fn lemma_alternative_tag(id: Seq<char>, mime: Seq<char>, bandwidth: Seq<char>)
    requires
        is_plain(mime),
        is_plain(bandwidth),
    ensures
        reads_as(
            "      <Representation id=\""@ + xml_escaped(id) + "\" mimeType=\""@ + mime + "\" bandwidth=\""@ + bandwidth
                + "\">\n"@,
            seq![Token::Open("Representation"@, seq![("id"@, id), ("mimeType"@, mime), ("bandwidth"@, bandwidth)])],
        ),
{
    reveal_strlit("      <Representation id=\"");
    reveal_strlit("\" mimeType=\"");
    reveal_strlit("\" bandwidth=\"");
    reveal_strlit("\">\n");
    reveal_strlit("Representation");
    reveal_strlit("id");
    reveal_strlit("mimeType");
    reveal_strlit("bandwidth");
    let indent = seq![' ', ' ', ' ', ' ', ' ', ' '];
    let a = seq![(seq![' '], "id"@, id)];
    let b = seq![(seq![' '], "mimeType"@, mime)];
    let c = seq![(seq![' '], "bandwidth"@, bandwidth)];
    lemma_one_text(seq![' '], "id"@, id);
    lemma_one_text(seq![' '], "mimeType"@, mime);
    lemma_one_text(seq![' '], "bandwidth"@, bandwidth);
    lemma_texts_more(a, b);
    lemma_texts_more(a + b, c);
    lemma_plain(mime);
    lemma_plain(bandwidth);
    assert("      <Representation id=\""@ =~= indent + seq!['<'] + "Representation"@ + seq![' '] + "id"@ + seq!['=', '"']);
    assert("\" mimeType=\""@ =~= seq!['"'] + seq![' '] + "mimeType"@ + seq!['=', '"']);
    assert("\" bandwidth=\""@ =~= seq!['"'] + seq![' '] + "bandwidth"@ + seq!['=', '"']);
    assert("\">\n"@ =~= seq!['"'] + seq!['>', '\n']);
    let text = "      <Representation id=\""@ + xml_escaped(id) + "\" mimeType=\""@ + mime + "\" bandwidth=\""@
        + bandwidth + "\">\n"@;
    assert(text =~= open_line(indent, "Representation"@, a + b + c));
    lemma_open_line(indent, "Representation"@, a + b + c);
    assert(pairs(a + b + c) =~= seq![("id"@, id), ("mimeType"@, mime), ("bandwidth"@, bandwidth)]);
}

proof fn lemma_alternative_text(
    rep: AltRepView,
    mime: Seq<char>,
    bandwidth: Seq<char>,
    list: Seq<char>,
    playlist: Seq<Token>,
)
    requires
        is_plain(mime),
        is_plain(bandwidth),
        reads_as(list, playlist),
    ensures
        reads_as(
            "      <Representation id=\""@ + xml_escaped(rep.id) + "\" mimeType=\""@ + mime + "\" bandwidth=\""@
                + bandwidth + "\">\n"@ + list + "      </Representation>\n"@,
            alternative_read(rep, mime, bandwidth, playlist),
        ),
{
    let head = "      <Representation id=\""@ + xml_escaped(rep.id) + "\" mimeType=\""@ + mime + "\" bandwidth=\""@
        + bandwidth + "\">\n"@;
    let tokens = seq![
        Token::Open("Representation"@, seq![("id"@, rep.id), ("mimeType"@, mime), ("bandwidth"@, bandwidth)]),
    ];
    lemma_alternative_tag(rep.id, mime, bandwidth);
    lemma_representation_end();
    lemma_reads_both(head, tokens, list, playlist);
    lemma_reads_both(
        head + list,
        tokens + playlist,
        "      </Representation>\n"@,
        seq![Token::Close("Representation"@)],
    );
}

/// An audio rendition is read as it is: see `audio_read`.
pub proof fn law_audio_rendition_read(rep: AltRepView, base: Seq<char>, transmux: bool)
    ensures
        reads_as(audio_representation(rep, base, transmux), audio_read(rep, base, transmux)),
{
    match (rep.media, rep.url) {
        (Some(media), Some(url)) => {
            let mime = if rep.is_fmp4 || transmux {
                "audio/mp4"@
            } else {
                "audio/MP2T"@
            };
            reveal_strlit("audio/mp4");
            reveal_strlit("audio/MP2T");
            reveal_strlit("128000");
            reveal_strlit("\" bandwidth=\"128000\">\n");
            reveal_strlit("\" bandwidth=\"");
            reveal_strlit("\">\n");
            lemma_media_read(media, url, rep.is_fmp4, base, transmux);
            let list = media_segments(media, url, rep.is_fmp4, base, transmux);
            lemma_alternative_text(
                rep,
                mime,
                "128000"@,
                list,
                playlist_read(
                    media,
                    url,
                    base,
                    transmux && !rep.is_fmp4,
                    init_place(media, url, rep.is_fmp4, base, transmux),
                ),
            );
            assert("\" bandwidth=\"128000\">\n"@ =~= "\" bandwidth=\""@ + "128000"@ + "\">\n"@);
            assert(audio_representation(rep, base, transmux) =~= "      <Representation id=\""@ + xml_escaped(rep.id)
                + "\" mimeType=\""@ + mime + "\" bandwidth=\""@ + "128000"@ + "\">\n"@ + list
                + "      </Representation>\n"@);
        },
        _ => {
            lemma_reads_nothing();
        },
    }
}

/// A subtitle rendition is read as it is: see `subtitle_read`.
pub proof fn law_subtitle_rendition_read(rep: AltRepView, base: Seq<char>)
    ensures
        reads_as(subtitle_representation(rep, base), subtitle_read(rep, base)),
{
    match (rep.media, rep.url) {
        (Some(media), Some(url)) => {
            reveal_strlit("text/vtt");
            reveal_strlit("10000");
            reveal_strlit("\" mimeType=\"text/vtt\" bandwidth=\"10000\">\n");
            reveal_strlit("\" mimeType=\"");
            reveal_strlit("\" bandwidth=\"");
            reveal_strlit("\">\n");
            lemma_playlist_text(media, url, base, false, None);
            let list = segment_list(media, url, false, media.target_duration * 1000, base, None, false);
            lemma_alternative_text(rep, "text/vtt"@, "10000"@, list, playlist_read(media, url, base, false, None));
            assert("\" mimeType=\"text/vtt\" bandwidth=\"10000\">\n"@ =~= "\" mimeType=\""@ + "text/vtt"@
                + "\" bandwidth=\""@ + "10000"@ + "\">\n"@);
            assert(subtitle_representation(rep, base) =~= "      <Representation id=\""@ + xml_escaped(rep.id)
                + "\" mimeType=\""@ + "text/vtt"@ + "\" bandwidth=\""@ + "10000"@ + "\">\n"@ + list
                + "      </Representation>\n"@);
        },
        _ => {
            lemma_reads_nothing();
        },
    }
}

/// What a player reads of the key of a protected presentation.
pub open spec fn protection_read(key: Option<Seq<char>>, base: Seq<char>) -> Seq<Token> {
    match key {
        Some(uri) => seq![
            Token::Open("ContentProtection"@, seq![("schemeIdUri"@, "urn:ietf:rfc:8216"@), ("value"@, "AES-128"@)]),
            Token::Open("ms:pro"@, Seq::empty()),
            Token::Text(proxied(uri, base, "/hls2dash/"@)),
            Token::Close("ms:pro"@),
            Token::Close("ContentProtection"@),
        ],
        None => Seq::empty(),
    }
}

/// The public base does not start with white space.
pub open spec fn base_starts(base: Seq<char>) -> bool {
    base.len() > 0 ==> !is_blank(base[0])
}

proof fn lemma_trimmed_front(base: Seq<char>)
    ensures
        trim_end_slashes(base).len() <= base.len(),
        trim_end_slashes(base).len() > 0 ==> trim_end_slashes(base)[0] == base[0],
    decreases base.len(),
{
    if base.len() > 0 {
        lemma_trimmed_front(base.drop_last());
    }
}

#[verifier::rlimit(40)]
proof fn lemma_protection_open()
    ensures
        reads_as(
            "    <ContentProtection schemeIdUri=\"urn:ietf:rfc:8216\" value=\"AES-128\">\n      <ms:pro>"@,
            seq![
                Token::Open("ContentProtection"@, seq![("schemeIdUri"@, "urn:ietf:rfc:8216"@), ("value"@, "AES-128"@)]),
                Token::Open("ms:pro"@, Seq::empty()),
            ],
        ),
{
    let text = "    <ContentProtection schemeIdUri=\"urn:ietf:rfc:8216\" value=\"AES-128\">\n      <ms:pro>"@;
    reveal_strlit("    <ContentProtection schemeIdUri=\"urn:ietf:rfc:8216\" value=\"AES-128\">\n      <ms:pro>");
    reveal_strlit("ContentProtection");
    reveal_strlit("schemeIdUri");
    reveal_strlit("urn:ietf:rfc:8216");
    reveal_strlit("value");
    reveal_strlit("AES-128");
    reveal_strlit("ms:pro");
    let indent = seq![' ', ' ', ' ', ' '];
    let deeper = seq![' ', ' ', ' ', ' ', ' ', ' '];
    let a = seq![(seq![' '], "schemeIdUri"@, "urn:ietf:rfc:8216"@)];
    let b = seq![(seq![' '], "value"@, "AES-128"@)];
    lemma_one_text(seq![' '], "schemeIdUri"@, "urn:ietf:rfc:8216"@);
    lemma_one_text(seq![' '], "value"@, "AES-128"@);
    lemma_texts_more(a, b);
    lemma_plain("urn:ietf:rfc:8216"@);
    lemma_plain("AES-128"@);
    let first = open_line(indent, "ContentProtection"@, a + b);
    let none = Seq::<(Seq<char>, Seq<char>, Seq<char>)>::empty();
    let second = seq!['<'] + "ms:pro"@ + attribute_texts(none) + seq!['>'];
    assert(text =~= first + (deeper + second));
    lemma_open_line(indent, "ContentProtection"@, a + b);
    let x = seq![Token::Open("ContentProtection"@, pairs(a + b))];
    let y = seq![Token::Open("ms:pro"@, Seq::empty())];
    assert forall|rest: Seq<char>| #[trigger] markup((deeper + second) + rest) == y + markup(rest) by {
        assert((deeper + second) + rest =~= deeper + (second + rest));
        lemma_blank(deeper, second + rest);
        lemma_element("ms:pro"@, none, false, rest);
        assert(pairs(none) =~= Seq::empty());
    }
    lemma_reads_both(first, x, deeper + second, y);
    assert(pairs(a + b) =~= seq![("schemeIdUri"@, "urn:ietf:rfc:8216"@), ("value"@, "AES-128"@)]);
    assert(x + y =~= seq![
        Token::Open("ContentProtection"@, seq![("schemeIdUri"@, "urn:ietf:rfc:8216"@), ("value"@, "AES-128"@)]),
        Token::Open("ms:pro"@, Seq::empty()),
    ]);
}

proof fn lemma_protection_close()
    ensures
        "</ms:pro>\n    </ContentProtection>\n"@[0] == '<',
        "</ms:pro>\n    </ContentProtection>\n"@.len() > 0,
        reads_as(
            "</ms:pro>\n    </ContentProtection>\n"@,
            seq![Token::Close("ms:pro"@), Token::Close("ContentProtection"@)],
        ),
{
    reveal_strlit("</ms:pro>\n    </ContentProtection>\n");
    reveal_strlit("ContentProtection");
    reveal_strlit("ms:pro");
    let indent = seq![' ', ' ', ' ', ' '];
    let none = Seq::<char>::empty();
    assert("</ms:pro>\n    </ContentProtection>\n"@ =~= close_line(none, "ms:pro"@) + close_line(
        indent,
        "ContentProtection"@,
    ));
    lemma_close_line(none, "ms:pro"@);
    lemma_close_line(indent, "ContentProtection"@);
    lemma_reads_both(
        close_line(none, "ms:pro"@),
        seq![Token::Close("ms:pro"@)],
        close_line(indent, "ContentProtection"@),
        seq![Token::Close("ContentProtection"@)],
    );
    assert(seq![Token::Close("ms:pro"@)] + seq![Token::Close("ContentProtection"@)] =~= seq![
        Token::Close("ms:pro"@),
        Token::Close("ContentProtection"@),
    ]);
}

/// The key of a protected presentation is read as it is.
pub proof fn law_protection_read(key: Option<Seq<char>>, base: Seq<char>)
    requires
        base_starts(base),
    ensures
        reads_as(content_protection(key, base), protection_read(key, base)),
{
    match key {
        Some(uri) => {
            let url = proxied(uri, base, "/hls2dash/"@);
            reveal_strlit("/hls2dash/");
            lemma_trimmed_front(base);
            assert(url.len() > 0 && !is_blank(url[0]));
            let head = "    <ContentProtection schemeIdUri=\"urn:ietf:rfc:8216\" value=\"AES-128\">\n      <ms:pro>"@;
            let tail = "</ms:pro>\n    </ContentProtection>\n"@;
            let x = seq![
                Token::Open("ContentProtection"@, seq![("schemeIdUri"@, "urn:ietf:rfc:8216"@), ("value"@, "AES-128"@)]),
                Token::Open("ms:pro"@, Seq::empty()),
            ];
            let y = seq![Token::Close("ms:pro"@), Token::Close("ContentProtection"@)];
            lemma_protection_open();
            lemma_protection_close();
            let z = seq![Token::Text(url)] + y;
            let body = xml_escaped(url) + tail;
            assert forall|rest: Seq<char>| #[trigger] markup(body + rest) == z + markup(rest) by {
                assert(body + rest =~= xml_escaped(url) + (tail + rest));
                lemma_text(url, tail + rest);
                assert(seq![Token::Text(url)] + (y + markup(rest)) =~= z + markup(rest));
            }
            lemma_reads_both(head, x, body, z);
            assert(content_protection(key, base) =~= head + body);
            assert(x + z =~= protection_read(key, base));
        },
        None => {
            lemma_reads_nothing();
        },
    }
}

/// What a player reads of the video renditions: one set, with its number, with the key where a rendition
/// has one, and with all renditions in order.
pub open spec fn video_set_read(id: nat, reps: Seq<RepView>, base: Seq<char>, transmux: bool) -> Seq<Token> {
    seq![
        Token::Open(
            "AdaptationSet"@,
            seq![
                ("id"@, decimal(id)),
                ("contentType"@, "video"@),
                ("segmentAlignment"@, "true"@),
                ("bitstreamSwitching"@, "true"@),
            ],
        ),
    ] + protection_read(first_rep_key(reps), base) + Seq::new(
        reps.len(),
        |i: int| video_read(reps[i], base, transmux),
    ).flatten() + seq![Token::Close("AdaptationSet"@)]
}

/// The language of a rendition: undetermined where it is not known.
pub open spec fn language_read(language: Option<Seq<char>>) -> Seq<char> {
    match language {
        Some(lang) => lang,
        None => "und"@,
    }
}

/// What a player reads of an audio rendition: a set with its number, language and label.
pub open spec fn audio_set_read(id: nat, rep: AltRepView, base: Seq<char>, transmux: bool) -> Seq<Token> {
    seq![
        Token::Open(
            "AdaptationSet"@,
            seq![
                ("id"@, decimal(id)),
                ("contentType"@, "audio"@),
                ("lang"@, language_read(rep.alt.language)),
                ("label"@, rep.alt.name),
            ],
        ),
    ] + audio_read(rep, base, transmux) + seq![Token::Close("AdaptationSet"@)]
}

/// What a player reads of a subtitle rendition: a set with its number, language, label and container.
pub open spec fn subtitle_set_read(id: nat, rep: AltRepView, base: Seq<char>) -> Seq<Token> {
    seq![
        Token::Open(
            "AdaptationSet"@,
            seq![
                ("id"@, decimal(id)),
                ("contentType"@, "text"@),
                ("lang"@, language_read(rep.alt.language)),
                ("label"@, rep.alt.name),
                ("mimeType"@, "text/vtt"@),
            ],
        ),
    ] + subtitle_read(rep, base) + seq![Token::Close("AdaptationSet"@)]
}

proof fn lemma_set_end()
    ensures
        reads_as("    </AdaptationSet>\n"@, seq![Token::Close("AdaptationSet"@)]),
{
    reveal_strlit("    </AdaptationSet>\n");
    reveal_strlit("AdaptationSet");
    let indent = seq![' ', ' ', ' ', ' '];
    assert("    </AdaptationSet>\n"@ =~= close_line(indent, "AdaptationSet"@));
    lemma_close_line(indent, "AdaptationSet"@);
}

#[verifier::rlimit(40)]
proof fn lemma_video_set_tag(id: nat)
    ensures
        reads_as(
            "    <AdaptationSet id=\""@ + decimal(id)
                + "\" contentType=\"video\" segmentAlignment=\"true\" bitstreamSwitching=\"true\">\n"@,
            seq![
                Token::Open(
                    "AdaptationSet"@,
                    seq![
                        ("id"@, decimal(id)),
                        ("contentType"@, "video"@),
                        ("segmentAlignment"@, "true"@),
                        ("bitstreamSwitching"@, "true"@),
                    ],
                ),
            ],
        ),
{
    let front = "    <AdaptationSet id=\""@;
    let back = "\" contentType=\"video\" segmentAlignment=\"true\" bitstreamSwitching=\"true\">\n"@;
    reveal_strlit("    <AdaptationSet id=\"");
    reveal_strlit("\" contentType=\"video\" segmentAlignment=\"true\" bitstreamSwitching=\"true\">\n");
    reveal_strlit("AdaptationSet");
    reveal_strlit("id");
    reveal_strlit("contentType");
    reveal_strlit("video");
    reveal_strlit("segmentAlignment");
    reveal_strlit("true");
    reveal_strlit("bitstreamSwitching");
    let indent = seq![' ', ' ', ' ', ' '];
    let a = seq![(seq![' '], "id"@, decimal(id))];
    let b = seq![(seq![' '], "contentType"@, "video"@)];
    let c = seq![(seq![' '], "segmentAlignment"@, "true"@)];
    let d = seq![(seq![' '], "bitstreamSwitching"@, "true"@)];
    lemma_one_text(seq![' '], "id"@, decimal(id));
    lemma_one_text(seq![' '], "contentType"@, "video"@);
    lemma_one_text(seq![' '], "segmentAlignment"@, "true"@);
    lemma_one_text(seq![' '], "bitstreamSwitching"@, "true"@);
    lemma_texts_more(a, b);
    lemma_texts_more(a + b, c);
    lemma_texts_more(a + b + c, d);
    lemma_decimal_plain(id);
    lemma_plain("video"@);
    lemma_plain("true"@);
    let (tb, tc, td) = (attribute_texts(b), attribute_texts(c), attribute_texts(d));
    let ga = seq![' '] + "id"@ + seq!['=', '"'];
    let head = indent + seq!['<'] + "AdaptationSet"@;
    assert(front =~= head + ga);
    assert(back =~= seq!['"'] + (tb + tc + td + seq!['>', '\n']));
    assert(attribute_texts(a + b + c + d) == attribute_texts(a) + tb + tc + td);
    assert(front + decimal(id) + back =~= open_line(indent, "AdaptationSet"@, a + b + c + d)) by {
        lemma_set_pieces(head, ga, decimal(id), seq!['"'], tb + tc + td, seq!['>', '\n']);
        assert(attribute_texts(a) + tb + tc + td =~= (ga + decimal(id) + seq!['"']) + (tb + tc + td));
    }
    lemma_open_line(indent, "AdaptationSet"@, a + b + c + d);
    assert(pairs(a + b + c + d) =~= seq![
        ("id"@, decimal(id)),
        ("contentType"@, "video"@),
        ("segmentAlignment"@, "true"@),
        ("bitstreamSwitching"@, "true"@),
    ]);
}

/// The same pieces of text, put together in two ways.
proof fn lemma_set_pieces(
    head: Seq<char>,
    gap: Seq<char>,
    id: Seq<char>,
    quote: Seq<char>,
    texts: Seq<char>,
    end: Seq<char>,
)
    ensures
        (head + gap) + id + (quote + (texts + end)) == head + ((gap + id + quote) + texts) + end,
{
    assert((head + gap) + id + (quote + (texts + end)) =~= head + ((gap + id + quote) + texts) + end);
}

/// The video renditions are read as they are: see `video_set_read`.
pub proof fn law_video_set_read(id: nat, reps: Seq<RepView>, base: Seq<char>, transmux: bool)
    requires
        base_starts(base),
    ensures
        reads_as(video_set(id, reps, base, transmux), video_set_read(id, reps, base, transmux)),
{
    let parts = video_parts(reps, base, transmux);
    let tokens = Seq::new(reps.len(), |i: int| video_read(reps[i], base, transmux));
    let head = "    <AdaptationSet id=\""@ + decimal(id)
        + "\" contentType=\"video\" segmentAlignment=\"true\" bitstreamSwitching=\"true\">\n"@;
    let head_tokens = seq![
        Token::Open(
            "AdaptationSet"@,
            seq![
                ("id"@, decimal(id)),
                ("contentType"@, "video"@),
                ("segmentAlignment"@, "true"@),
                ("bitstreamSwitching"@, "true"@),
            ],
        ),
    ];
    let key = content_protection(first_rep_key(reps), base);
    let key_tokens = protection_read(first_rep_key(reps), base);
    lemma_video_set_tag(id);
    law_protection_read(first_rep_key(reps), base);
    lemma_reads_both(head, head_tokens, key, key_tokens);
    lemma_video_representations(reps, reps.len(), base, transmux);
    assert(parts.take(reps.len() as int) =~= parts);
    assert forall|i: int| 0 <= i < parts.len() implies reads_as(#[trigger] parts[i], tokens[i]) by {
        law_video_rendition_read(reps[i], base, transmux);
    }
    lemma_reads_all(parts, tokens);
    lemma_reads_both(head + key, head_tokens + key_tokens, parts.flatten(), tokens.flatten());
    lemma_set_end();
    lemma_reads_both(
        head + key + parts.flatten(),
        head_tokens + key_tokens + tokens.flatten(),
        "    </AdaptationSet>\n"@,
        seq![Token::Close("AdaptationSet"@)],
    );
}

#[verifier::rlimit(40)]
proof fn lemma_alternative_set_tag(id: nat, kind: Seq<char>, lang: Seq<char>, label: Seq<char>)
    requires
        is_plain(kind),
    ensures
        ({
            let list = seq![(seq![' '], "id"@, decimal(id))] + seq![(seq![' '], "contentType"@, kind)] + seq![
                (seq![' '], "lang"@, lang),
            ] + seq![(seq![' '], "label"@, label)];
            &&& writable(list)
            &&& pairs(list) == seq![("id"@, decimal(id)), ("contentType"@, kind), ("lang"@, lang), ("label"@, label)]
            &&& seq![' ', ' ', ' ', ' '] + seq!['<'] + "AdaptationSet"@ + attribute_texts(list)
                == "    <AdaptationSet id=\""@ + decimal(id) + "\" contentType=\""@ + kind + "\" lang=\""@ + xml_escaped(
                lang,
            ) + "\" label=\""@ + xml_escaped(label) + "\""@
            &&& is_name("AdaptationSet"@)
        }),
{
    reveal_strlit("    <AdaptationSet id=\"");
    reveal_strlit("\" contentType=\"");
    reveal_strlit("\" lang=\"");
    reveal_strlit("\" label=\"");
    reveal_strlit("\"");
    reveal_strlit("AdaptationSet");
    reveal_strlit("id");
    reveal_strlit("contentType");
    reveal_strlit("lang");
    reveal_strlit("label");
    let a = seq![(seq![' '], "id"@, decimal(id))];
    let b = seq![(seq![' '], "contentType"@, kind)];
    let c = seq![(seq![' '], "lang"@, lang)];
    let d = seq![(seq![' '], "label"@, label)];
    lemma_one_text(seq![' '], "id"@, decimal(id));
    lemma_one_text(seq![' '], "contentType"@, kind);
    lemma_one_text(seq![' '], "lang"@, lang);
    lemma_one_text(seq![' '], "label"@, label);
    lemma_texts_more(a, b);
    lemma_texts_more(a + b, c);
    lemma_texts_more(a + b + c, d);
    lemma_decimal_plain(id);
    lemma_plain(kind);
    let quote = seq!['"'];
    let head = seq![' ', ' ', ' ', ' '] + seq!['<'] + "AdaptationSet"@;
    let ga = seq![' '] + "id"@ + seq!['=', '"'];
    let gb = seq![' '] + "contentType"@ + seq!['=', '"'];
    let gc = seq![' '] + "lang"@ + seq!['=', '"'];
    let gd = seq![' '] + "label"@ + seq!['=', '"'];
    assert("    <AdaptationSet id=\""@ =~= head + ga);
    assert("\" contentType=\""@ =~= quote + gb);
    assert("\" lang=\""@ =~= quote + gc);
    assert("\" label=\""@ =~= quote + gd);
    assert("\""@ =~= quote);
    lemma_alternative_pieces(
        head,
        (ga, decimal(id)),
        (gb, kind),
        (gc, xml_escaped(lang)),
        (gd, xml_escaped(label)),
        quote,
    );
    assert(pairs(a + b + c + d) =~= seq![
        ("id"@, decimal(id)),
        ("contentType"@, kind),
        ("lang"@, lang),
        ("label"@, label),
    ]);
}

/// The same pieces of text, put together in two ways.
proof fn lemma_alternative_pieces(
    head: Seq<char>,
    a: (Seq<char>, Seq<char>),
    b: (Seq<char>, Seq<char>),
    c: (Seq<char>, Seq<char>),
    d: (Seq<char>, Seq<char>),
    quote: Seq<char>,
)
    ensures
        head + ((a.0 + a.1 + quote) + (b.0 + b.1 + quote) + (c.0 + c.1 + quote) + (d.0 + d.1 + quote)) == (head + a.0)
            + a.1 + (quote + b.0) + b.1 + (quote + c.0) + c.1 + (quote + d.0) + d.1 + quote,
{
    assert(head + ((a.0 + a.1 + quote) + (b.0 + b.1 + quote) + (c.0 + c.1 + quote) + (d.0 + d.1 + quote)) =~= (head + a.0)
        + a.1 + (quote + b.0) + b.1 + (quote + c.0) + c.1 + (quote + d.0) + d.1 + quote);
}

/// An audio rendition's set is read as it is: see `audio_set_read`.
#[verifier::rlimit(40)]
pub proof fn law_audio_set_read(id: nat, rep: AltRepView, base: Seq<char>, transmux: bool)
    ensures
        reads_as(audio_set(id, rep, base, transmux), audio_set_read(id, rep, base, transmux)),
{
    let lang = language_read(rep.alt.language);
    assert(language(rep.alt) == lang);
    let label = rep.alt.name;
    reveal_strlit("audio");
    lemma_alternative_set_tag(id, "audio"@, lang, label);
    let indent = seq![' ', ' ', ' ', ' '];
    let list = seq![(seq![' '], "id"@, decimal(id))] + seq![(seq![' '], "contentType"@, "audio"@)] + seq![
        (seq![' '], "lang"@, lang),
    ] + seq![(seq![' '], "label"@, label)];
    let head = open_line(indent, "AdaptationSet"@, list);
    let tokens = seq![Token::Open("AdaptationSet"@, pairs(list))];
    assert(list[0].0[0] == ' ');
    lemma_open_line(indent, "AdaptationSet"@, list);
    let start = "    <AdaptationSet id=\""@ + decimal(id);
    let end = audio_representation(rep, base, transmux);
    assert(head =~= start + "\" contentType=\""@ + "audio"@ + "\" lang=\""@ + xml_escaped(lang) + "\" label=\""@
        + xml_escaped(label) + "\""@ + seq!['>', '\n']);
    lemma_audio_words();
    assert(head =~= start + "\" contentType=\"audio\" lang=\""@ + xml_escaped(lang) + "\" label=\""@ + xml_escaped(label)
        + "\">\n"@);
    law_audio_rendition_read(rep, base, transmux);
    lemma_set_end();
    lemma_reads_both(head, tokens, end, audio_read(rep, base, transmux));
    lemma_reads_both(
        head + end,
        tokens + audio_read(rep, base, transmux),
        "    </AdaptationSet>\n"@,
        seq![Token::Close("AdaptationSet"@)],
    );
    assert(audio_set(id, rep, base, transmux) =~= head + end + "    </AdaptationSet>\n"@);
    assert(audio_set_read(id, rep, base, transmux) =~= tokens + audio_read(rep, base, transmux) + seq![Token::Close("AdaptationSet"@)]);
}

proof fn lemma_audio_words()
    ensures
        "\" contentType=\"audio\" lang=\""@ == "\" contentType=\""@ + "audio"@ + "\" lang=\""@,
        "\">\n"@ == "\""@ + seq!['>', '\n'],
{
    reveal_strlit("\" contentType=\"audio\" lang=\"");
    reveal_strlit("\" contentType=\"");
    reveal_strlit("audio");
    reveal_strlit("\" lang=\"");
    reveal_strlit("\">\n");
    reveal_strlit("\"");
    assert("\" contentType=\"audio\" lang=\""@ =~= "\" contentType=\""@ + "audio"@ + "\" lang=\""@);
    assert("\">\n"@ =~= "\""@ + seq!['>', '\n']);
}

proof fn lemma_subtitle_words()
    ensures
        "\" contentType=\"text\" lang=\""@ == "\" contentType=\""@ + "text"@ + "\" lang=\""@,
        "\" mimeType=\"text/vtt\">\n"@ == "\""@ + (seq![' '] + "mimeType"@ + seq!['=', '"'] + "text/vtt"@ + seq!['"']) + seq![
            '>',
            '\n',
        ],
        is_plain("text"@),
        is_plain("text/vtt"@),
        is_name("mimeType"@),
{
    reveal_strlit("\" contentType=\"text\" lang=\"");
    reveal_strlit("\" contentType=\"");
    reveal_strlit("text");
    reveal_strlit("text/vtt");
    reveal_strlit("mimeType");
    reveal_strlit("\" lang=\"");
    reveal_strlit("\" mimeType=\"text/vtt\">\n");
    reveal_strlit("\"");
    assert("\" contentType=\"text\" lang=\""@ =~= "\" contentType=\""@ + "text"@ + "\" lang=\""@);
    assert("\" mimeType=\"text/vtt\">\n"@ =~= "\""@ + (seq![' '] + "mimeType"@ + seq!['=', '"'] + "text/vtt"@ + seq![
        '"',
    ]) + seq!['>', '\n']);
}

/// A subtitle rendition's set is read as it is: see `subtitle_set_read`.
#[verifier::rlimit(40)]
pub proof fn law_subtitle_set_read(id: nat, rep: AltRepView, base: Seq<char>)
    ensures
        reads_as(subtitle_set(id, rep, base), subtitle_set_read(id, rep, base)),
{
    let lang = language_read(rep.alt.language);
    assert(language(rep.alt) == lang);
    let label = rep.alt.name;
    lemma_subtitle_words();
    lemma_alternative_set_tag(id, "text"@, lang, label);
    let indent = seq![' ', ' ', ' ', ' '];
    let most = seq![(seq![' '], "id"@, decimal(id))] + seq![(seq![' '], "contentType"@, "text"@)] + seq![
        (seq![' '], "lang"@, lang),
    ] + seq![(seq![' '], "label"@, label)];
    let last = seq![(seq![' '], "mimeType"@, "text/vtt"@)];
    lemma_one_text(seq![' '], "mimeType"@, "text/vtt"@);
    lemma_plain("text/vtt"@);
    lemma_texts_more(most, last);
    let list = most + last;
    let head = open_line(indent, "AdaptationSet"@, list);
    let tokens = seq![Token::Open("AdaptationSet"@, pairs(list))];
    assert(list[0].0[0] == ' ');
    lemma_open_line(indent, "AdaptationSet"@, list);
    let start = "    <AdaptationSet id=\""@ + decimal(id);
    let end = subtitle_representation(rep, base);
    let tail = seq![' '] + "mimeType"@ + seq!['=', '"'] + "text/vtt"@ + seq!['"'];
    assert(head =~= (indent + seq!['<'] + "AdaptationSet"@ + attribute_texts(most)) + tail + seq!['>', '\n']);
    let given = "    <AdaptationSet id=\""@ + decimal(id) + "\" contentType=\""@ + "text"@ + "\" lang=\""@ + xml_escaped(
        lang,
    ) + "\" label=\""@ + xml_escaped(label);
    assert(head =~= given + ("\""@ + tail + seq!['>', '\n']));
    assert(given =~= start + "\" contentType=\"text\" lang=\""@ + xml_escaped(lang) + "\" label=\""@ + xml_escaped(
        label,
    ));
    assert(pairs(list) =~= seq![
        ("id"@, decimal(id)),
        ("contentType"@, "text"@),
        ("lang"@, lang),
        ("label"@, label),
        ("mimeType"@, "text/vtt"@),
    ]);
    law_subtitle_rendition_read(rep, base);
    lemma_set_end();
    lemma_reads_both(head, tokens, end, subtitle_read(rep, base));
    lemma_reads_both(
        head + end,
        tokens + subtitle_read(rep, base),
        "    </AdaptationSet>\n"@,
        seq![Token::Close("AdaptationSet"@)],
    );
    assert(subtitle_set(id, rep, base) =~= head + end + "    </AdaptationSet>\n"@);
    assert(subtitle_set_read(id, rep, base) =~= tokens + subtitle_read(rep, base) + seq![Token::Close("AdaptationSet"@)]);
}

} // verus!
