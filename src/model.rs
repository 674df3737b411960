//! Plain data carried by the service around the index.
use vstd::prelude::*;

verus! {

/// The service configuration.
#[derive(Debug, Clone)]
pub struct AppConfig {
    pub app: AppSettings,
}

/// Where the service listens.
#[derive(Debug, Clone)]
pub struct AppSettings {
    pub url: String,
    pub port: u16,
}

/// A search request: the text to look for.
#[derive(Debug, Clone)]
pub struct SearchRequest {
    pub query: String,
}

/// The body of an error reply.
#[derive(Debug, Clone)]
pub struct ErrorResponse {
    pub status: bool,
    pub error: String,
}

} // verus!
