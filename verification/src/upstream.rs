//! What the answer of the upstream server means.

use vstd::prelude::*;
use crate::error::{AppError, ErrorView};
use crate::text::{parse_unsigned, slice_text, unsigned};

verus! {

/// Whether an HTTP status says success.
pub fn is_success(status: u16) -> (b: bool)
    ensures
        b == (200 <= status < 300),
{
    200 <= status && status < 300
}

/// The error for an answer without success, with the body of the answer if it could be read.
pub fn status_error(status: u16, body: Option<String>) -> (r: AppError)
    ensures
        r@ == ErrorView::UpstreamStatus(status as nat, match body {
            Some(text) => text@,
            None => "<unreadable>"@,
        }),
{
    match body {
        Some(body) => AppError::UpstreamStatus { status, body },
        None => AppError::UpstreamStatus { status, body: "<unreadable>".to_owned() },
    }
}

/// The content type of a fetched text, from its header.
pub fn text_content_type(header: Option<&str>) -> (r: String)
    ensures
        r@ == match header {
            Some(value) => value@,
            None => "application/octet-stream"@,
        },
{
    match header {
        Some(value) => value.to_owned(),
        None => "application/octet-stream".to_owned(),
    }
}

/// The content length that a header gives, if it can be read.
pub open spec fn length_of(header: Option<Seq<char>>) -> Option<nat> {
    match header {
        Some(value) => unsigned(value, u64::MAX as nat),
        None => None,
    }
}

/// The content length of a stream, from its header.
pub fn content_length(header: Option<&str>) -> (r: Option<u64>)
    ensures
        match r {
            Some(n) => length_of(slice_text(header)) == Some(n as nat),
            None => length_of(slice_text(header)) is None,
        },
{
    match header {
        Some(value) => parse_unsigned(value, u64::MAX),
        None => None,
    }
}

} // verus!
