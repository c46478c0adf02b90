//! Verified core of a player for zipped static sites and web archives
//! (WACZ / WARC): archive record parsing, URL-to-path mapping, page
//! rewriting and the serving decisions of the local pack server.

pub mod text;
pub mod uri;
pub mod http;
pub mod warc;
pub mod rewrite;
pub mod order;
pub mod pack;
