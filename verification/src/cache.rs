//! What is kept in the playlist cache.

use vstd::prelude::*;
use crate::error::AppError;

verus! {

/// A cached answer of the upstream server.
#[derive(Debug)]
pub struct CachedResponse {
    pub body: Vec<u8>,
    pub content_type: String,
}

impl View for CachedResponse {
    type V = (Seq<u8>, Seq<char>);

    open spec fn view(&self) -> (Seq<u8>, Seq<char>) {
        (self.body@, self.content_type@)
    }
}

impl Clone for CachedResponse {
    fn clone(&self) -> (r: CachedResponse)
        ensures
            r@ == self@,
    {
        let body = self.body.clone();
        assert(body@ == self.body@);
        CachedResponse { body, content_type: self.content_type.clone() }
    }
}

/// How a request goes on when the cache has been asked.
#[derive(Debug)]
pub enum Lookup {
    /// The cached response is the answer.
    Answer(CachedResponse),
    /// The response has to be fetched.
    Fetch,
}

/// What a cache lookup means: a hit is the answer, without a fetch; on a miss the response is fetched.
pub fn on_lookup(cached: Option<CachedResponse>) -> (r: Lookup)
    ensures
        match cached {
            Some(c) => r matches Lookup::Answer(a) && a@ == c@,
            None => r is Fetch,
        },
{
    match cached {
        Some(response) => Lookup::Answer(response),
        None => Lookup::Fetch,
    }
}

/// What becomes of a fetch on a cache miss: what is stored, and what is answered. An answer is stored
/// and handed on; a failure is only handed on, so that the next request fetches again.
pub fn keep_fetched(fetched: Result<CachedResponse, AppError>) -> (r: (
    Option<CachedResponse>,
    Result<CachedResponse, AppError>,
))
    ensures
        match fetched {
            Ok(response) => (r.0 matches Some(stored) && stored@ == response@) && (r.1 matches Ok(answer) && answer@
                == response@),
            Err(e) => r.0 is None && (r.1 matches Err(reported) && reported@ == e@),
        },
{
    match fetched {
        Ok(response) => {
            let stored = response.clone();
            (Some(stored), Ok(response))
        },
        Err(e) => (None, Err(e)),
    }
}

} // verus!
