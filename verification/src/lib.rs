//! Keyword search over a remote comic catalogue, answered from a
//! relevance-ranked in-memory cache whenever the cache knows enough.
//!
//! A request is cut into tags (`tags`). With the cache switched on, the
//! cache (`cache`) is asked first; it answers only if it holds enough
//! results that share a tag with the request, the ones that share most
//! first (`rank`, `tally`). Otherwise the catalogue is asked (`catalog`,
//! `html`), and what it answers is put into the cache before it is handed
//! on. The steps of a search, and what decides between them, are in
//! `search`; what the cache guarantees is in `laws`.
//!
//! The library does no input or output. Whoever uses it sends the request
//! that `search` asks for and hands the answer's body back.

pub mod cache;
pub mod catalog;
pub mod error;
pub mod html;
pub mod laws;
pub mod rank;
pub mod search;
pub mod tags;
pub mod tally;
