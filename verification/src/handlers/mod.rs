//! What the request handlers decide.

pub mod manifest;
pub mod manifest_laws;
pub mod reply;
pub mod request_laws;
pub mod route;
pub mod route_laws;
