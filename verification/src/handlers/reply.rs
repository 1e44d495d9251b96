//! Responses of the proxy.

use vstd::prelude::*;
use crate::error::{AppError, ErrorView};
use crate::transmux::init::{extract_init, extract_media, init_part, media_part};

verus! {

/// A response: its status, its content type, and its body.
#[derive(Debug)]
pub struct Reply<B> {
    pub status: u16,
    pub content_type: String,
    pub body: B,
}

/// The health check: success, with the body `OK`.
pub fn health_reply() -> (r: Reply<String>)
    ensures
        r.status == 200,
        r.content_type@ == "text/plain; charset=utf-8"@,
        r.body@ == "OK"@,
{
    Reply { status: 200, content_type: "text/plain; charset=utf-8".to_owned(), body: "OK".to_owned() }
}

/// The release notes, if they could be read.
pub fn release_notes_reply(notes: Option<String>) -> (r: Reply<String>)
    ensures
        r.content_type@ == "text/plain; charset=utf-8"@,
        match notes {
            Some(text) => r.status == 200 && r.body@ == text@,
            None => r.status == 404 && r.body@ == "releasenotes.txt not found"@,
        },
{
    let content_type = "text/plain; charset=utf-8".to_owned();
    match notes {
        Some(text) => Reply { status: 200, content_type, body: text },
        None => Reply { status: 404, content_type, body: "releasenotes.txt not found".to_owned() },
    }
}

/// A manifest.
pub fn mpd_response(mpd: String) -> (r: Reply<String>)
    ensures
        r.status == 200,
        r.content_type@ == "application/dash+xml"@,
        r.body@ == mpd@,
{
    Reply { status: 200, content_type: "application/dash+xml".to_owned(), body: mpd }
}

/// The response for an error: its status, with its text as the body.
pub fn error_reply(e: &AppError) -> (r: Reply<String>)
    ensures
        r.status == e@.status(),
        r.content_type@ == "text/plain; charset=utf-8"@,
        r.body@ == e@.message(),
{
    Reply { status: e.status_code(), content_type: "text/plain; charset=utf-8".to_owned(), body: e.message() }
}

/// The part of transmuxed output that is served, or the error to report: the failure of the
/// transmuxing, or `missing` where the output holds no such part.
pub open spec fn served(
    transmuxed: Result<Seq<u8>, Seq<char>>,
    part: Option<Seq<u8>>,
    missing: Seq<char>,
) -> Result<Seq<u8>, ErrorView> {
    match transmuxed {
        Err(reason) => Err(ErrorView::ParseError(reason)),
        Ok(_) => match part {
            Some(bytes) => Ok(bytes),
            None => Err(ErrorView::ParseError(missing)),
        },
    }
}

/// What transmuxing brought, as a value.
pub open spec fn transmux_view(transmuxed: Result<Vec<u8>, String>) -> Result<Seq<u8>, Seq<char>> {
    match transmuxed {
        Ok(fmp4) => Ok(fmp4@),
        Err(reason) => Err(reason@),
    }
}

/// A successful response with MP4 bytes, or an error.
pub open spec fn is_mp4_reply(r: Result<Reply<Vec<u8>>, AppError>, expected: Result<Seq<u8>, ErrorView>) -> bool {
    match r {
        Ok(reply) => {
            &&& expected == Ok::<Seq<u8>, ErrorView>(reply.body@)
            &&& reply.status == 200
            &&& reply.content_type@ == "video/mp4"@
        },
        Err(e) => expected == Err::<Seq<u8>, ErrorView>(e@),
    }
}

fn mp4_reply(part: Option<Vec<u8>>, missing: &str) -> (r: Result<Reply<Vec<u8>>, AppError>)
    ensures
        is_mp4_reply(r, match part {
            Some(bytes) => Ok(bytes@),
            None => Err(ErrorView::ParseError(missing@)),
        }),
{
    match part {
        Some(bytes) => Ok(Reply { status: 200, content_type: "video/mp4".to_owned(), body: bytes }),
        None => Err(AppError::ParseError(missing.to_owned())),
    }
}

fn media_reply(transmuxed: Result<Vec<u8>, String>, missing: &str) -> (r: Result<Reply<Vec<u8>>, AppError>)
    ensures
        is_mp4_reply(
            r,
            served(
                transmux_view(transmuxed),
                match transmuxed {
                    Ok(fmp4) => media_part(fmp4@),
                    Err(_) => None,
                },
                missing@,
            ),
        ),
{
    match transmuxed {
        Err(reason) => Err(AppError::ParseError(reason)),
        Ok(fmp4) => mp4_reply(extract_media(fmp4.as_slice()), missing),
    }
}

/// A transmuxed TS segment: the media part of the transmuxed output.
pub fn ts_segment_reply(transmuxed: Result<Vec<u8>, String>) -> (r: Result<Reply<Vec<u8>>, AppError>)
    ensures
        is_mp4_reply(
            r,
            served(
                transmux_view(transmuxed),
                match transmuxed {
                    Ok(fmp4) => media_part(fmp4@),
                    Err(_) => None,
                },
                "no moof box in transmuxed output"@,
            ),
        ),
{
    media_reply(transmuxed, "no moof box in transmuxed output")
}

/// A TS segment that was transmuxed from its playlist: the media part of the transmuxed output.
pub fn playlist_segment_reply(transmuxed: Result<Vec<u8>, String>) -> (r: Result<Reply<Vec<u8>>, AppError>)
    ensures
        is_mp4_reply(
            r,
            served(
                transmux_view(transmuxed),
                match transmuxed {
                    Ok(fmp4) => media_part(fmp4@),
                    Err(_) => None,
                },
                "no moof box in transmuxed segment output"@,
            ),
        ),
{
    media_reply(transmuxed, "no moof box in transmuxed segment output")
}

/// The init segment of transmuxed output.
pub fn ts_init_reply(transmuxed: Result<Vec<u8>, String>) -> (r: Result<Reply<Vec<u8>>, AppError>)
    ensures
        is_mp4_reply(
            r,
            served(
                transmux_view(transmuxed),
                match transmuxed {
                    Ok(fmp4) => init_part(fmp4@),
                    Err(_) => None,
                },
                "no moov box found in transmuxed output"@,
            ),
        ),
{
    match transmuxed {
        Err(reason) => Err(AppError::ParseError(reason)),
        Ok(fmp4) => mp4_reply(extract_init(fmp4.as_slice()), "no moov box found in transmuxed output"),
    }
}

} // verus!
