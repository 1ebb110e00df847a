//! Verified core of the Musicboxd web application: album and track
//! models, the text shown in the search and album pages, the state of the
//! infinite-scroll search page, and the per-address rate limiter.

pub mod text;
pub mod rate_limit;
pub mod model;
pub mod display;
pub mod search;
pub mod server;
