//! Errors of the proxy and the HTTP responses they become.

use vstd::prelude::*;
use crate::text::{decimal, push_decimal};

verus! {

/// Why a request could not be served.
#[derive(Debug)]
pub enum AppError {
    /// The upstream request itself failed; the text says how.
    UpstreamFetch(String),
    ParseError(String),
    InvalidUrl(String),
    UnsupportedFormat(String),
    /// The upstream answered with a status other than success.
    UpstreamStatus { status: u16, body: String },
}

/// An error as a value: what tells two errors apart.
pub enum ErrorView {
    UpstreamFetch(Seq<char>),
    ParseError(Seq<char>),
    InvalidUrl(Seq<char>),
    UnsupportedFormat(Seq<char>),
    UpstreamStatus(nat, Seq<char>),
}

impl View for AppError {
    type V = ErrorView;

    open spec fn view(&self) -> ErrorView {
        match self {
            AppError::UpstreamFetch(reason) => ErrorView::UpstreamFetch(reason@),
            AppError::ParseError(reason) => ErrorView::ParseError(reason@),
            AppError::InvalidUrl(reason) => ErrorView::InvalidUrl(reason@),
            AppError::UnsupportedFormat(reason) => ErrorView::UnsupportedFormat(reason@),
            AppError::UpstreamStatus { status, body } => ErrorView::UpstreamStatus(*status as nat, body@),
        }
    }
}

impl ErrorView {
    /// The text shown for the error.
    pub open spec fn message(self) -> Seq<char> {
        match self {
            ErrorView::UpstreamFetch(reason) => "upstream fetch failed: "@ + reason,
            ErrorView::ParseError(reason) => "HLS parse error: "@ + reason,
            ErrorView::InvalidUrl(reason) => "invalid URL: "@ + reason,
            ErrorView::UnsupportedFormat(reason) => "unsupported format: "@ + reason,
            ErrorView::UpstreamStatus(status, body) => "upstream returned non-2xx status "@ + decimal(status) + ": "@
                + body,
        }
    }

    /// The HTTP status of the response: Bad Gateway where the upstream is at fault, Bad Request
    /// otherwise.
    pub open spec fn status(self) -> u16 {
        match self {
            ErrorView::UpstreamFetch(_) => 502,
            ErrorView::UpstreamStatus(_, _) => 502,
            _ => 400,
        }
    }
}

impl AppError {
    /// The text shown for the error, which is also the body of the response.
    pub fn message(&self) -> (r: String)
        ensures
            r@ == self@.message(),
    {
        let mut out = String::new();
        match self {
            AppError::UpstreamFetch(reason) => {
                out.append("upstream fetch failed: ");
                out.append(reason.as_str());
            },
            AppError::ParseError(reason) => {
                out.append("HLS parse error: ");
                out.append(reason.as_str());
            },
            AppError::InvalidUrl(reason) => {
                out.append("invalid URL: ");
                out.append(reason.as_str());
            },
            AppError::UnsupportedFormat(reason) => {
                out.append("unsupported format: ");
                out.append(reason.as_str());
            },
            AppError::UpstreamStatus { status, body } => {
                out.append("upstream returned non-2xx status ");
                push_decimal(&mut out, *status as u128);
                out.append(": ");
                out.append(body.as_str());
            },
        }
        out
    }

    /// The HTTP status of the response for the error.
    pub fn status_code(&self) -> (r: u16)
        ensures
            r == self@.status(),
    {
        match self {
            AppError::UpstreamFetch(_) => 502,
            AppError::UpstreamStatus { .. } => 502,
            AppError::ParseError(_) => 400,
            AppError::InvalidUrl(_) => 400,
            AppError::UnsupportedFormat(_) => 400,
        }
    }
}

/// What an error is about: the reason given, or the body of the upstream's answer.
pub open spec fn cause(e: ErrorView) -> Seq<char> {
    match e {
        ErrorView::UpstreamFetch(reason) => reason,
        ErrorView::ParseError(reason) => reason,
        ErrorView::InvalidUrl(reason) => reason,
        ErrorView::UnsupportedFormat(reason) => reason,
        ErrorView::UpstreamStatus(_, body) => body,
    }
}

/// The text of an error says what it is about, and which status the upstream gave. The response is Bad Gateway
/// exactly where the upstream could not be fetched or gave no success.
pub proof fn law_error_says_why(e: ErrorView)
    ensures
        exists|front: Seq<char>| e.message() == #[trigger] (front + cause(e)),
        e matches ErrorView::UpstreamStatus(status, body) ==> exists|front: Seq<char>|
            e.message() == #[trigger] (front + decimal(status) + ": "@ + body),
        e is UpstreamFetch || e is UpstreamStatus ==> e.status() == 502,
        !(e is UpstreamFetch || e is UpstreamStatus) ==> e.status() == 400,
{
    let text = e.message();
    let front = text.take(text.len() - cause(e).len());
    assert(text =~= front + cause(e));
    if let ErrorView::UpstreamStatus(status, body) = e {
        let start = "upstream returned non-2xx status "@;
        assert(text == start + decimal(status) + ": "@ + body);
    }
}

} // verus!
