//! What a player reads in a whole manifest.

use vstd::prelude::*;
use crate::clock::{utc_formatted, utc_pattern};
use crate::dash::{
    adaptation_sets, live_delay, live_depth, live_shift_ms, live_target, mpd, mpd_head, reference, timing_attrs,
    video_set, MpdView,
};
use crate::hls::MediaView;
use crate::listing_laws::{audio_parts, lemma_audio_sets, lemma_subtitle_sets, subtitle_parts};
use crate::markup::{
    attribute_texts, is_gap, is_name, is_plain, lemma_blank, lemma_close, lemma_declaration, lemma_element,
    lemma_plain, markup, pairs, without, writable, Token,
};
use crate::mpd_laws::{
    audio_set_read, base_starts, close_line, law_audio_set_read, law_subtitle_set_read, law_video_set_read,
    lemma_close_line, lemma_decimal_plain, lemma_one_text, lemma_open_line, lemma_reads_all, lemma_reads_both,
    lemma_reads_nothing, lemma_texts_more, open_line, reads_as, subtitle_set_read, video_set_read,
};
use crate::text::decimal;

verus! {

/// The playlist that gives a presentation its timing: that of the first video rendition, or without
/// video that of the first audio rendition.
pub open spec fn timing_playlist(p: MpdView) -> Option<MediaView> {
    if p.video.len() > 0 {
        Some(p.video[0].media)
    } else if p.audio.len() > 0 {
        p.audio[0].media
    } else {
        None
    }
}

/// A number of whole seconds as a duration.
pub open spec fn seconds(n: nat) -> Seq<char> {
    "PT"@ + decimal(n) + ".0S"@
}

/// The timing that a player reads of a presentation that has ended.
pub open spec fn ended_timing(total_secs: Seq<char>) -> Seq<(Seq<char>, Seq<char>)> {
    seq![("type"@, "static"@), ("mediaPresentationDuration"@, "PT"@ + total_secs + "S"@)]
}

/// The timing that a player reads of a live presentation: it started when the oldest of its segments did,
/// is to be read again once for each segment, can be played back over all its segments, and is best
/// played three segments late.
pub open spec fn live_timing(media: MediaView, start: Seq<char>) -> Seq<(Seq<char>, Seq<char>)> {
    seq![
        ("type"@, "dynamic"@),
        ("availabilityStartTime"@, start),
        ("minimumUpdatePeriod"@, seconds(live_target(media))),
        ("timeShiftBufferDepth"@, seconds(live_depth(media))),
        ("suggestedPresentationDelay"@, seconds(live_delay(media))),
    ]
}

/// What a player reads of the renditions: the video set, a set for each audio rendition and one for each
/// subtitle rendition, numbered from 1.
pub open spec fn sets_read(p: MpdView) -> Seq<Token> {
    let videos: nat = if p.video.len() > 0 {
        1
    } else {
        0
    };
    (if p.video.len() > 0 {
        video_set_read(1, p.video, p.base, p.transmux)
    } else {
        Seq::empty()
    }) + Seq::new(
        p.audio.len(),
        |i: int| audio_set_read((videos + i + 1) as nat, p.audio[i], p.base, p.transmux),
    ).flatten() + Seq::new(
        p.subtitles.len(),
        |i: int| subtitle_set_read((videos + p.audio.len() + i + 1) as nat, p.subtitles[i], p.base),
    ).flatten()
}

/// What a player reads of a presentation with the given timing.
pub open spec fn presentation_read(p: MpdView, timing: Seq<(Seq<char>, Seq<char>)>) -> Seq<Token> {
    seq![
        Token::Open(
            "MPD"@,
            seq![
                ("xmlns"@, "urn:mpeg:dash:schema:mpd:2011"@),
                ("xmlns:xsi"@, "http://www.w3.org/2001/XMLSchema-instance"@),
                ("xsi:schemaLocation"@, "urn:mpeg:dash:schema:mpd:2011 DASH-MPD.xsd"@),
                ("profiles"@, "urn:mpeg:dash:profile:isoff-live:2011"@),
            ] + timing + seq![("minBufferTime"@, "PT2S"@)],
        ),
        Token::Open("Period"@, seq![("id"@, "1"@), ("start"@, "PT0S"@)]),
    ] + sets_read(p) + seq![Token::Close("Period"@), Token::Close("MPD"@)]
}

proof fn lemma_sets_read(p: MpdView)
    requires
        base_starts(p.base),
    ensures
        reads_as(adaptation_sets(p), sets_read(p)),
{
    let videos: nat = if p.video.len() > 0 {
        1
    } else {
        0
    };
    let video = if p.video.len() > 0 {
        video_set(1, p.video, p.base, p.transmux)
    } else {
        Seq::empty()
    };
    let video_tokens = if p.video.len() > 0 {
        video_set_read(1, p.video, p.base, p.transmux)
    } else {
        Seq::empty()
    };
    if p.video.len() > 0 {
        law_video_set_read(1, p.video, p.base, p.transmux);
    } else {
        lemma_reads_nothing();
    }
    let audio = audio_parts(p);
    let audio_tokens = Seq::new(
        p.audio.len(),
        |i: int| audio_set_read((videos + i + 1) as nat, p.audio[i], p.base, p.transmux),
    );
    lemma_audio_sets(p, p.audio.len());
    assert(audio.take(p.audio.len() as int) =~= audio);
    assert forall|i: int| 0 <= i < audio.len() implies reads_as(#[trigger] audio[i], audio_tokens[i]) by {
        law_audio_set_read((videos + i + 1) as nat, p.audio[i], p.base, p.transmux);
    }
    lemma_reads_all(audio, audio_tokens);
    let subtitles = subtitle_parts(p);
    let subtitle_tokens = Seq::new(
        p.subtitles.len(),
        |i: int| subtitle_set_read((videos + p.audio.len() + i + 1) as nat, p.subtitles[i], p.base),
    );
    lemma_subtitle_sets(p, p.subtitles.len());
    assert(subtitles.take(p.subtitles.len() as int) =~= subtitles);
    assert forall|i: int| 0 <= i < subtitles.len() implies reads_as(#[trigger] subtitles[i], subtitle_tokens[i]) by {
        law_subtitle_set_read((videos + p.audio.len() + i + 1) as nat, p.subtitles[i], p.base);
    }
    lemma_reads_all(subtitles, subtitle_tokens);
    lemma_reads_both(video, video_tokens, audio.flatten(), audio_tokens.flatten());
    lemma_reads_both(
        video + audio.flatten(),
        video_tokens + audio_tokens.flatten(),
        subtitles.flatten(),
        subtitle_tokens.flatten(),
    );
}

/// The white space in front of an attribute on a line of its own.
spec fn line_gap() -> Seq<char> {
    seq!['\n', ' ', ' ', ' ', ' ', ' ']
}

/// Attributes of a live presentation.
spec fn live_list(media: MediaView, start: Seq<char>) -> Seq<(Seq<char>, Seq<char>, Seq<char>)> {
    seq![(line_gap(), "type"@, "dynamic"@)] + seq![(seq![' '], "availabilityStartTime"@, start)] + seq![
        (seq![' '], "minimumUpdatePeriod"@, seconds(live_target(media))),
    ] + seq![(seq![' '], "timeShiftBufferDepth"@, seconds(live_depth(media)))] + seq![
        (seq![' '], "suggestedPresentationDelay"@, seconds(live_delay(media))),
    ]
}

/// Attributes of a presentation that has ended.
spec fn ended_list(total_secs: Seq<char>) -> Seq<(Seq<char>, Seq<char>, Seq<char>)> {
    seq![(line_gap(), "type"@, "static"@)] + seq![
        (seq![' '], "mediaPresentationDuration"@, "PT"@ + total_secs + "S"@),
    ]
}

proof fn lemma_plain_parts(a: Seq<char>, b: Seq<char>)
    requires
        is_plain(a),
        is_plain(b),
    ensures
        is_plain(a + b),
{
    let s = a + b;
    assert forall|i: int| 0 <= i < s.len() implies ({
        let c = #[trigger] s[i];
        &&& c != '<'
        &&& c != '>'
        &&& c != '&'
        &&& c != '"'
        &&& c != '\''
    }) by {
        if i < a.len() {
            assert(s[i] == a[i]);
        } else {
            assert(s[i] == b[i - a.len()]);
        }
    }
}

proof fn lemma_seconds_plain(n: nat)
    ensures
        is_plain(seconds(n)),
{
    reveal_strlit("PT");
    reveal_strlit(".0S");
    lemma_decimal_plain(n);
    lemma_plain_parts("PT"@, decimal(n));
    lemma_plain_parts("PT"@ + decimal(n), ".0S"@);
}

proof fn lemma_ended_attributes(total_secs: Seq<char>)
    requires
        is_plain(total_secs),
    ensures
        writable(ended_list(total_secs)),
        pairs(ended_list(total_secs)) == ended_timing(total_secs),
        attribute_texts(ended_list(total_secs)) == line_gap() + ("type=\"static\" mediaPresentationDuration=\"PT"@
            + total_secs + "S\""@),
{
    reveal_strlit("type");
    reveal_strlit("static");
    reveal_strlit("mediaPresentationDuration");
    reveal_strlit("PT");
    reveal_strlit("S");
    reveal_strlit("type=\"static\" mediaPresentationDuration=\"PT");
    reveal_strlit("S\"");
    let value = "PT"@ + total_secs + "S"@;
    lemma_plain_parts("PT"@, total_secs);
    lemma_plain_parts("PT"@ + total_secs, "S"@);
    lemma_plain(value);
    lemma_plain("static"@);
    lemma_one_text(line_gap(), "type"@, "static"@);
    lemma_one_text(seq![' '], "mediaPresentationDuration"@, value);
    lemma_texts_more(
        seq![(line_gap(), "type"@, "static"@)],
        seq![(seq![' '], "mediaPresentationDuration"@, value)],
    );
    assert(pairs(ended_list(total_secs)) =~= ended_timing(total_secs));
    assert("type=\"static\" mediaPresentationDuration=\"PT"@ =~= "type"@ + seq!['=', '"'] + "static"@ + seq!['"'] + (seq![
        ' ',
    ] + "mediaPresentationDuration"@ + seq!['=', '"']) + "PT"@);
    assert("S\""@ =~= "S"@ + seq!['"']);
    assert(attribute_texts(ended_list(total_secs)) =~= line_gap() + ("type=\"static\" mediaPresentationDuration=\"PT"@
        + total_secs + "S\""@));
}

proof fn lemma_live_words()
    ensures
        "type=\"dynamic\" availabilityStartTime=\""@ == "type"@ + seq!['=', '"'] + "dynamic"@ + seq!['"'] + (seq![' ']
            + "availabilityStartTime"@ + seq!['=', '"']),
        "\" minimumUpdatePeriod=\"PT"@ == seq!['"'] + (seq![' '] + "minimumUpdatePeriod"@ + seq!['=', '"']) + "PT"@,
        ".0S\" timeShiftBufferDepth=\"PT"@ == ".0S"@ + seq!['"'] + (seq![' '] + "timeShiftBufferDepth"@ + seq!['=', '"'])
            + "PT"@,
        ".0S\" suggestedPresentationDelay=\"PT"@ == ".0S"@ + seq!['"'] + (seq![' '] + "suggestedPresentationDelay"@ + seq![
            '=',
            '"',
        ]) + "PT"@,
        ".0S\""@ == ".0S"@ + seq!['"'],
        is_name("type"@),
        is_name("availabilityStartTime"@),
        is_name("minimumUpdatePeriod"@),
        is_name("timeShiftBufferDepth"@),
        is_name("suggestedPresentationDelay"@),
        is_plain("dynamic"@),
{
    reveal_strlit("type=\"dynamic\" availabilityStartTime=\"");
    reveal_strlit("\" minimumUpdatePeriod=\"PT");
    reveal_strlit(".0S\" timeShiftBufferDepth=\"PT");
    reveal_strlit(".0S\" suggestedPresentationDelay=\"PT");
    reveal_strlit(".0S\"");
    reveal_strlit("type");
    reveal_strlit("dynamic");
    reveal_strlit("availabilityStartTime");
    reveal_strlit("minimumUpdatePeriod");
    reveal_strlit("timeShiftBufferDepth");
    reveal_strlit("suggestedPresentationDelay");
    reveal_strlit("PT");
    reveal_strlit(".0S");
    assert("type=\"dynamic\" availabilityStartTime=\""@ =~= "type"@ + seq!['=', '"'] + "dynamic"@ + seq!['"'] + (seq![' ']
        + "availabilityStartTime"@ + seq!['=', '"']));
    assert("\" minimumUpdatePeriod=\"PT"@ =~= seq!['"'] + (seq![' '] + "minimumUpdatePeriod"@ + seq!['=', '"']) + "PT"@);
    assert(".0S\" timeShiftBufferDepth=\"PT"@ =~= ".0S"@ + seq!['"'] + (seq![' '] + "timeShiftBufferDepth"@ + seq![
        '=',
        '"',
    ]) + "PT"@);
    assert(".0S\" suggestedPresentationDelay=\"PT"@ =~= ".0S"@ + seq!['"'] + (seq![' '] + "suggestedPresentationDelay"@
        + seq!['=', '"']) + "PT"@);
    assert(".0S\""@ =~= ".0S"@ + seq!['"']);
}

/// The same pieces of text, put together in two ways.
#[verifier::rlimit(40)]
proof fn lemma_live_pieces(
    gap: Seq<char>,
    a: Seq<char>,
    b: (Seq<char>, Seq<char>),
    c: (Seq<char>, Seq<char>),
    d: (Seq<char>, Seq<char>),
    e: (Seq<char>, Seq<char>),
    pt: Seq<char>,
    s: Seq<char>,
    quote: Seq<char>,
)
    ensures
        gap + ((a + b.0) + b.1 + (quote + c.0 + pt) + c.1 + (s + quote + d.0 + pt) + d.1 + (s + quote + e.0 + pt) + e.1 + (s
            + quote)) == (gap + a) + (b.0 + b.1 + quote) + (c.0 + (pt + c.1 + s) + quote) + (d.0 + (pt + d.1 + s) + quote)
            + (e.0 + (pt + e.1 + s) + quote),
{
    let x = (a + b.0) + b.1 + (quote + c.0 + pt) + c.1 + (s + quote + d.0 + pt);
    let y = a + (b.0 + b.1 + quote) + (c.0 + (pt + c.1 + s) + quote) + (d.0 + pt);
    assert(x =~= y);
    let z = d.1 + (s + quote + e.0 + pt) + e.1 + (s + quote);
    assert((a + b.0) + b.1 + (quote + c.0 + pt) + c.1 + (s + quote + d.0 + pt) + d.1 + (s + quote + e.0 + pt) + e.1 + (s
        + quote) =~= x + z);
    assert((gap + a) + (b.0 + b.1 + quote) + (c.0 + (pt + c.1 + s) + quote) + (d.0 + (pt + d.1 + s) + quote) + (e.0 + (pt
        + e.1 + s) + quote) =~= gap + (y + z));
}

#[verifier::rlimit(40)]
proof fn lemma_live_attributes(media: MediaView, start: Seq<char>)
    requires
        is_plain(start),
    ensures
        writable(live_list(media, start)),
        pairs(live_list(media, start)) == live_timing(media, start),
        attribute_texts(live_list(media, start)) == line_gap() + ("type=\"dynamic\" availabilityStartTime=\""@ + start
            + "\" minimumUpdatePeriod=\"PT"@ + decimal(live_target(media)) + ".0S\" timeShiftBufferDepth=\"PT"@ + decimal(
            live_depth(media),
        ) + ".0S\" suggestedPresentationDelay=\"PT"@ + decimal(live_delay(media)) + ".0S\""@),
{
    lemma_live_words();
    let t = seconds(live_target(media));
    let u = seconds(live_depth(media));
    let v = seconds(live_delay(media));
    lemma_seconds_plain(live_target(media));
    lemma_seconds_plain(live_depth(media));
    lemma_seconds_plain(live_delay(media));
    lemma_plain(t);
    lemma_plain(u);
    lemma_plain(v);
    lemma_plain(start);
    lemma_plain("dynamic"@);
    let a = seq![(line_gap(), "type"@, "dynamic"@)];
    let b = seq![(seq![' '], "availabilityStartTime"@, start)];
    let c = seq![(seq![' '], "minimumUpdatePeriod"@, t)];
    let d = seq![(seq![' '], "timeShiftBufferDepth"@, u)];
    let e = seq![(seq![' '], "suggestedPresentationDelay"@, v)];
    lemma_one_text(line_gap(), "type"@, "dynamic"@);
    lemma_one_text(seq![' '], "availabilityStartTime"@, start);
    lemma_one_text(seq![' '], "minimumUpdatePeriod"@, t);
    lemma_one_text(seq![' '], "timeShiftBufferDepth"@, u);
    lemma_one_text(seq![' '], "suggestedPresentationDelay"@, v);
    lemma_texts_more(a, b);
    lemma_texts_more(a + b, c);
    lemma_texts_more(a + b + c, d);
    lemma_texts_more(a + b + c + d, e);
    assert(is_gap(line_gap()));
    assert(pairs(live_list(media, start)) =~= live_timing(media, start));
    let first = "type"@ + seq!['=', '"'] + "dynamic"@ + seq!['"'];
    let gb = seq![' '] + "availabilityStartTime"@ + seq!['=', '"'];
    let gc = seq![' '] + "minimumUpdatePeriod"@ + seq!['=', '"'];
    let gd = seq![' '] + "timeShiftBufferDepth"@ + seq!['=', '"'];
    let ge = seq![' '] + "suggestedPresentationDelay"@ + seq!['=', '"'];
    lemma_live_pieces(
        line_gap(),
        first,
        (gb, start),
        (gc, decimal(live_target(media))),
        (gd, decimal(live_depth(media))),
        (ge, decimal(live_delay(media))),
        "PT"@,
        ".0S"@,
        seq!['"'],
    );
    assert(attribute_texts(a) =~= line_gap() + first);
}

/// Attributes that every manifest starts with.
spec fn head_list() -> Seq<(Seq<char>, Seq<char>, Seq<char>)> {
    seq![(seq![' '], "xmlns"@, "urn:mpeg:dash:schema:mpd:2011"@)] + seq![
        (line_gap(), "xmlns:xsi"@, "http://www.w3.org/2001/XMLSchema-instance"@),
    ] + seq![(line_gap(), "xsi:schemaLocation"@, "urn:mpeg:dash:schema:mpd:2011 DASH-MPD.xsd"@)] + seq![
        (line_gap(), "profiles"@, "urn:mpeg:dash:profile:isoff-live:2011"@),
    ]
}

/// What stands in front of the attributes.
spec fn declaration() -> Seq<char> {
    "<?xml version=\"1.0\" encoding=\"UTF-8\"?>\n"@
}

#[verifier::rlimit(40)]
proof fn lemma_head_first()
    ensures
        ({
            let list = seq![(seq![' '], "xmlns"@, "urn:mpeg:dash:schema:mpd:2011"@)] + seq![
                (line_gap(), "xmlns:xsi"@, "http://www.w3.org/2001/XMLSchema-instance"@),
            ];
            &&& writable(list)
            &&& "<MPD xmlns=\"urn:mpeg:dash:schema:mpd:2011\"\n"@
                + "     xmlns:xsi=\"http://www.w3.org/2001/XMLSchema-instance\"\n"@ == seq!['<'] + "MPD"@ + attribute_texts(
                list,
            ) + seq!['\n']
        }),
{
    reveal_strlit("<MPD xmlns=\"urn:mpeg:dash:schema:mpd:2011\"\n");
    reveal_strlit("     xmlns:xsi=\"http://www.w3.org/2001/XMLSchema-instance\"\n");
    reveal_strlit("MPD");
    reveal_strlit("xmlns");
    reveal_strlit("xmlns:xsi");
    reveal_strlit("urn:mpeg:dash:schema:mpd:2011");
    reveal_strlit("http://www.w3.org/2001/XMLSchema-instance");
    let (x, y) = ("urn:mpeg:dash:schema:mpd:2011"@, "http://www.w3.org/2001/XMLSchema-instance"@);
    lemma_plain(x);
    lemma_plain(y);
    let a = seq![(seq![' '], "xmlns"@, x)];
    let b = seq![(line_gap(), "xmlns:xsi"@, y)];
    lemma_one_text(seq![' '], "xmlns"@, x);
    lemma_one_text(line_gap(), "xmlns:xsi"@, y);
    lemma_texts_more(a, b);
    let (ta, tb) = (attribute_texts(a), attribute_texts(b));
    assert("<MPD xmlns=\"urn:mpeg:dash:schema:mpd:2011\"\n"@ =~= seq!['<'] + "MPD"@ + ta + seq!['\n']);
    assert(seq!['\n'] + "     xmlns:xsi=\"http://www.w3.org/2001/XMLSchema-instance\"\n"@ =~= tb + seq!['\n']);
    assert((seq!['<'] + "MPD"@ + ta + seq!['\n']) + "     xmlns:xsi=\"http://www.w3.org/2001/XMLSchema-instance\"\n"@
        =~= (seq!['<'] + "MPD"@ + ta) + (seq!['\n']
        + "     xmlns:xsi=\"http://www.w3.org/2001/XMLSchema-instance\"\n"@));
    assert((seq!['<'] + "MPD"@ + ta) + (tb + seq!['\n']) =~= seq!['<'] + "MPD"@ + (ta + tb) + seq!['\n']);
}

#[verifier::rlimit(40)]
proof fn lemma_head_second()
    ensures
        ({
            let list = seq![(line_gap(), "xsi:schemaLocation"@, "urn:mpeg:dash:schema:mpd:2011 DASH-MPD.xsd"@)] + seq![
                (line_gap(), "profiles"@, "urn:mpeg:dash:profile:isoff-live:2011"@),
            ];
            &&& writable(list)
            &&& seq!['\n'] + ("     xsi:schemaLocation=\"urn:mpeg:dash:schema:mpd:2011 DASH-MPD.xsd\"\n"@
                + "     profiles=\"urn:mpeg:dash:profile:isoff-live:2011\"\n     "@) == attribute_texts(list) + line_gap()
        }),
{
    reveal_strlit("     xsi:schemaLocation=\"urn:mpeg:dash:schema:mpd:2011 DASH-MPD.xsd\"\n");
    reveal_strlit("     profiles=\"urn:mpeg:dash:profile:isoff-live:2011\"\n     ");
    reveal_strlit("xsi:schemaLocation");
    reveal_strlit("profiles");
    reveal_strlit("urn:mpeg:dash:schema:mpd:2011 DASH-MPD.xsd");
    reveal_strlit("urn:mpeg:dash:profile:isoff-live:2011");
    let (x, y) = ("urn:mpeg:dash:schema:mpd:2011 DASH-MPD.xsd"@, "urn:mpeg:dash:profile:isoff-live:2011"@);
    lemma_plain(x);
    lemma_plain(y);
    let a = seq![(line_gap(), "xsi:schemaLocation"@, x)];
    let b = seq![(line_gap(), "profiles"@, y)];
    lemma_one_text(line_gap(), "xsi:schemaLocation"@, x);
    lemma_one_text(line_gap(), "profiles"@, y);
    lemma_texts_more(a, b);
    let (ta, tb) = (attribute_texts(a), attribute_texts(b));
    let first = "     xsi:schemaLocation=\"urn:mpeg:dash:schema:mpd:2011 DASH-MPD.xsd\"\n"@;
    let second = "     profiles=\"urn:mpeg:dash:profile:isoff-live:2011\"\n     "@;
    assert(seq!['\n'] + first =~= ta + seq!['\n']);
    assert(seq!['\n'] + second =~= tb + line_gap());
    assert(seq!['\n'] + (first + second) =~= (seq!['\n'] + first) + second);
    assert((ta + seq!['\n']) + second =~= ta + (seq!['\n'] + second));
    assert(ta + (tb + line_gap()) =~= (ta + tb) + line_gap());
}

proof fn lemma_head_text()
    ensures
        writable(head_list()),
        mpd_head() == declaration() + (seq!['<'] + "MPD"@ + attribute_texts(head_list()) + line_gap()),
{
    let x = seq![(seq![' '], "xmlns"@, "urn:mpeg:dash:schema:mpd:2011"@)] + seq![
        (line_gap(), "xmlns:xsi"@, "http://www.w3.org/2001/XMLSchema-instance"@),
    ];
    let y = seq![(line_gap(), "xsi:schemaLocation"@, "urn:mpeg:dash:schema:mpd:2011 DASH-MPD.xsd"@)] + seq![
        (line_gap(), "profiles"@, "urn:mpeg:dash:profile:isoff-live:2011"@),
    ];
    lemma_head_first();
    lemma_head_second();
    lemma_texts_more(x, y);
    assert(head_list() =~= x + y);
    let first = "<MPD xmlns=\"urn:mpeg:dash:schema:mpd:2011\"\n"@
        + "     xmlns:xsi=\"http://www.w3.org/2001/XMLSchema-instance\"\n"@;
    let second = "     xsi:schemaLocation=\"urn:mpeg:dash:schema:mpd:2011 DASH-MPD.xsd\"\n"@
        + "     profiles=\"urn:mpeg:dash:profile:isoff-live:2011\"\n     "@;
    assert(mpd_head() =~= declaration() + (first + second));
    let m = seq!['<'] + "MPD"@ + attribute_texts(x);
    assert((m + seq!['\n']) + second =~= m + (seq!['\n'] + second));
    assert(m + (attribute_texts(y) + line_gap()) =~= seq!['<'] + "MPD"@ + (attribute_texts(x) + attribute_texts(y))
        + line_gap());
}

/// The last attribute of the manifest.
spec fn tail_list() -> Seq<(Seq<char>, Seq<char>, Seq<char>)> {
    seq![(line_gap(), "minBufferTime"@, "PT2S"@)]
}

/// Attributes of the period.
spec fn period_list() -> Seq<(Seq<char>, Seq<char>, Seq<char>)> {
    seq![(seq![' '], "id"@, "1"@)] + seq![(seq![' '], "start"@, "PT0S"@)]
}

#[verifier::rlimit(40)]
proof fn lemma_middle_text()
    ensures
        writable(tail_list()),
        writable(period_list()),
        pairs(tail_list()) == seq![("minBufferTime"@, "PT2S"@)],
        pairs(period_list()) == seq![("id"@, "1"@), ("start"@, "PT0S"@)],
        is_name("MPD"@),
        is_name("Period"@),
        "\n     minBufferTime=\"PT2S\">\n  <Period id=\"1\" start=\"PT0S\">\n"@ == attribute_texts(tail_list()) + seq![
            '>',
            '\n',
        ] + open_line(seq![' ', ' '], "Period"@, period_list()),
        "  </Period>\n</MPD>"@ == close_line(seq![' ', ' '], "Period"@) + (seq!['<', '/'] + "MPD"@ + seq!['>']),
{
    reveal_strlit("\n     minBufferTime=\"PT2S\">\n  <Period id=\"1\" start=\"PT0S\">\n");
    reveal_strlit("  </Period>\n</MPD>");
    reveal_strlit("minBufferTime");
    reveal_strlit("PT2S");
    reveal_strlit("Period");
    reveal_strlit("id");
    reveal_strlit("1");
    reveal_strlit("start");
    reveal_strlit("PT0S");
    reveal_strlit("MPD");
    lemma_plain("PT2S"@);
    lemma_plain("1"@);
    lemma_plain("PT0S"@);
    let a = seq![(seq![' '], "id"@, "1"@)];
    let b = seq![(seq![' '], "start"@, "PT0S"@)];
    lemma_one_text(line_gap(), "minBufferTime"@, "PT2S"@);
    lemma_one_text(seq![' '], "id"@, "1"@);
    lemma_one_text(seq![' '], "start"@, "PT0S"@);
    lemma_texts_more(a, b);
    assert(pairs(a) + pairs(b) =~= seq![("id"@, "1"@), ("start"@, "PT0S"@)]);
    assert("\n     minBufferTime=\"PT2S\">\n  <Period id=\"1\" start=\"PT0S\">\n"@ =~= attribute_texts(tail_list()) + seq![
        '>',
        '\n',
    ] + open_line(seq![' ', ' '], "Period"@, period_list()));
    assert("  </Period>\n</MPD>"@ =~= close_line(seq![' ', ' '], "Period"@) + (seq!['<', '/'] + "MPD"@ + seq!['>']));
}

proof fn lemma_declaration_text(rest: Seq<char>)
    ensures
        markup(declaration() + rest) == markup(rest),
{
    let inner = "?xml version=\"1.0\" encoding=\"UTF-8\"?"@;
    reveal_strlit("?xml version=\"1.0\" encoding=\"UTF-8\"?");
    reveal_strlit("<?xml version=\"1.0\" encoding=\"UTF-8\"?>\n");
    let after = seq!['\n'] + rest;
    assert(declaration() =~= seq!['<'] + inner + seq!['>'] + seq!['\n']);
    assert(declaration() + rest =~= seq!['<'] + inner + seq!['>'] + after);
    lemma_declaration(inner, after);
    lemma_blank(seq!['\n'], rest);
}

/// The period with the renditions, and the end of the manifest.
spec fn period_text(p: MpdView) -> Seq<char> {
    open_line(seq![' ', ' '], "Period"@, period_list()) + adaptation_sets(p) + close_line(seq![' ', ' '], "Period"@) + (seq![
        '<',
        '/',
    ] + "MPD"@ + seq!['>'])
}

proof fn lemma_period_read(p: MpdView)
    requires
        base_starts(p.base),
    ensures
        markup(period_text(p)) == seq![Token::Open("Period"@, seq![("id"@, "1"@), ("start"@, "PT0S"@)])] + sets_read(p)
            + seq![Token::Close("Period"@), Token::Close("MPD"@)],
{
    lemma_middle_text();
    let period = open_line(seq![' ', ' '], "Period"@, period_list());
    let close = close_line(seq![' ', ' '], "Period"@);
    let end = seq!['<', '/'] + "MPD"@ + seq!['>'];
    let x = seq![Token::Open("Period"@, pairs(period_list()))];
    let y = sets_read(p);
    let z = seq![Token::Close("Period"@)];
    assert(period_list()[0].0[0] == ' ');
    lemma_open_line(seq![' ', ' '], "Period"@, period_list());
    lemma_sets_read(p);
    lemma_close_line(seq![' ', ' '], "Period"@);
    lemma_reads_both(period, x, adaptation_sets(p), y);
    lemma_reads_both(period + adaptation_sets(p), x + y, close, z);
    assert(markup((period + adaptation_sets(p) + close) + end) == (x + y + z) + markup(end));
    let none = Seq::<char>::empty();
    assert(end =~= seq!['<', '/'] + "MPD"@ + seq!['>'] + none);
    lemma_close("MPD"@, none);
    assert(markup(none) =~= Seq::empty());
    assert((x + y + z) + (seq![Token::Close("MPD"@)] + markup(none)) =~= x + y + seq![
        Token::Close("Period"@),
        Token::Close("MPD"@),
    ]);
}

#[verifier::rlimit(40)]
proof fn lemma_presentation_text(p: MpdView, timing: Seq<(Seq<char>, Seq<char>, Seq<char>)>, text: Seq<char>)
    requires
        attribute_texts(timing) == line_gap() + text,
    ensures
        mpd_head() + text + "\n     minBufferTime=\"PT2S\">\n  <Period id=\"1\" start=\"PT0S\">\n"@ + adaptation_sets(p)
            + "  </Period>\n</MPD>"@ == declaration() + (seq!['<'] + "MPD"@ + attribute_texts(
            head_list() + timing + tail_list(),
        ) + seq!['>'] + (seq!['\n'] + period_text(p))),
{
    lemma_head_text();
    lemma_middle_text();
    lemma_texts_more(head_list(), timing);
    lemma_texts_more(head_list() + timing, tail_list());
    lemma_presentation_pieces(
        declaration(),
        seq!['<'] + "MPD"@,
        (attribute_texts(head_list()), line_gap(), text, attribute_texts(tail_list())),
        open_line(seq![' ', ' '], "Period"@, period_list()),
        adaptation_sets(p),
        close_line(seq![' ', ' '], "Period"@),
        seq!['<', '/'] + "MPD"@ + seq!['>'],
    );
}

/// A manifest with given timing attributes, as text and as it is read.
#[verifier::rlimit(40)]
proof fn lemma_presentation(p: MpdView, timing: Seq<(Seq<char>, Seq<char>, Seq<char>)>, text: Seq<char>)
    requires
        base_starts(p.base),
        writable(timing),
        attribute_texts(timing) == line_gap() + text,
    ensures
        markup(
            mpd_head() + text + "\n     minBufferTime=\"PT2S\">\n  <Period id=\"1\" start=\"PT0S\">\n"@
                + adaptation_sets(p) + "  </Period>\n</MPD>"@,
        ) == presentation_read(p, pairs(timing)),
{
    let list = head_list() + timing + tail_list();
    let after = seq!['\n'] + period_text(p);
    lemma_presentation_text(p, timing, text);
    lemma_declaration_text(seq!['<'] + "MPD"@ + attribute_texts(list) + seq!['>'] + after);
    lemma_presentation_list(timing);
    lemma_element("MPD"@, list, false, after);
    lemma_blank(seq!['\n'], period_text(p));
    lemma_period_read(p);
    lemma_tokens_joined(
        Token::Open("MPD"@, pairs(list)),
        Token::Open("Period"@, seq![("id"@, "1"@), ("start"@, "PT0S"@)]),
        sets_read(p),
        seq![Token::Close("Period"@), Token::Close("MPD"@)],
    );
}

proof fn lemma_presentation_list(timing: Seq<(Seq<char>, Seq<char>, Seq<char>)>)
    requires
        writable(timing),
    ensures
        ({
            let list = head_list() + timing + tail_list();
            &&& is_name("MPD"@)
            &&& writable(list)
            &&& list.len() > 0
            &&& list[0].0[0] == ' '
            &&& pairs(list) == seq![
                ("xmlns"@, "urn:mpeg:dash:schema:mpd:2011"@),
                ("xmlns:xsi"@, "http://www.w3.org/2001/XMLSchema-instance"@),
                ("xsi:schemaLocation"@, "urn:mpeg:dash:schema:mpd:2011 DASH-MPD.xsd"@),
                ("profiles"@, "urn:mpeg:dash:profile:isoff-live:2011"@),
            ] + pairs(timing) + seq![("minBufferTime"@, "PT2S"@)]
        }),
{
    let list = head_list() + timing + tail_list();
    lemma_head_text();
    lemma_middle_text();
    lemma_texts_more(head_list(), timing);
    lemma_texts_more(head_list() + timing, tail_list());
    lemma_head_pairs();
    assert(list[0] == head_list()[0]);
}

proof fn lemma_tokens_joined(a: Token, b: Token, c: Seq<Token>, d: Seq<Token>)
    ensures
        seq![a] + (seq![b] + c + d) == seq![a, b] + c + d,
{
    assert(seq![a] + (seq![b] + c + d) =~= seq![a, b] + c + d);
}

spec fn head_read() -> Seq<(Seq<char>, Seq<char>)> {
    seq![
        ("xmlns"@, "urn:mpeg:dash:schema:mpd:2011"@),
        ("xmlns:xsi"@, "http://www.w3.org/2001/XMLSchema-instance"@),
        ("xsi:schemaLocation"@, "urn:mpeg:dash:schema:mpd:2011 DASH-MPD.xsd"@),
        ("profiles"@, "urn:mpeg:dash:profile:isoff-live:2011"@),
    ]
}

proof fn lemma_head_pairs()
    ensures
        pairs(head_list()) == head_read(),
        head_list().len() == 4,
        head_list()[0].0[0] == ' ',
{
    assert(pairs(head_list()) =~= head_read());
}

/// The same pieces of text, put together in two ways.
#[verifier::rlimit(40)]
proof fn lemma_presentation_pieces(
    first: Seq<char>,
    name: Seq<char>,
    texts: (Seq<char>, Seq<char>, Seq<char>, Seq<char>),
    period: Seq<char>,
    sets: Seq<char>,
    close: Seq<char>,
    end: Seq<char>,
)
    ensures
        (first + (name + texts.0 + texts.1)) + texts.2 + (texts.3 + seq!['>', '\n'] + period) + sets + (close + end) == first
            + (name + (texts.0 + (texts.1 + texts.2) + texts.3) + seq!['>'] + (seq!['\n'] + (period + sets + close + end))),
{
    let mark = seq!['>'] + seq!['\n'];
    assert(seq!['>', '\n'] =~= mark);
    let a = name + texts.0 + texts.1 + texts.2 + texts.3;
    let b = period + sets + close + end;
    assert((first + (name + texts.0 + texts.1)) + texts.2 + (texts.3 + mark + period) + sets + (close + end) =~= first + a
        + mark + b);
    assert(name + (texts.0 + (texts.1 + texts.2) + texts.3) =~= a);
    assert(first + (a + seq!['>'] + (seq!['\n'] + b)) =~= first + a + mark + b);
}

/// A manifest whose timing playlist has ended, or that has none, is read as a static presentation that lasts
/// `total_secs` seconds; one whose timing playlist has not ended as a dynamic one that started as long ago as
/// its segments span. Either way it is read with all its renditions, and with nothing else.
pub proof fn law_manifest_read(p: MpdView, total_secs: Seq<char>, now: int)
    requires
        base_starts(p.base),
        is_plain(total_secs),
    ensures
        (timing_playlist(p) matches Some(media) ==> media.end_list) ==> markup(mpd(p, total_secs, now))
            == presentation_read(p, ended_timing(total_secs)),
        timing_playlist(p) matches Some(media) ==> {
            let start = utc_formatted(now - live_shift_ms(media), utc_pattern());
            !media.end_list && is_plain(start) ==> markup(mpd(p, total_secs, now)) == presentation_read(
                p,
                live_timing(media, start),
            )
        },
{
    assert(reference(p) == timing_playlist(p));
    match timing_playlist(p) {
        Some(media) if !media.end_list => {
            let start = utc_formatted(now - live_shift_ms(media), utc_pattern());
            if is_plain(start) {
                lemma_live_attributes(media, start);
                lemma_presentation(p, live_list(media, start), timing_attrs(p, total_secs, now));
            }
        },
        _ => {
            lemma_ended_attributes(total_secs);
            lemma_presentation(p, ended_list(total_secs), timing_attrs(p, total_secs, now));
        },
    }
}

} // verus!
