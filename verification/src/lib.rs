//! Single-domain site crawling: URL canonicalisation, link extraction, response
//! classification and the round-based crawl engine that ties them together.
//!
//! The engine is a state machine.  A driver asks it for the next batch of pages
//! to fetch, performs the requests however it likes, and reports each outcome
//! back; the engine alone owns the frontier and the visited and in-flight sets.
//!
//! What a crawl guarantees as a whole (no page fetched twice, none outside
//! the domain, every reachable page found) is stated and proved in `engine`
//! and `reach` over sequences of such moves.

pub mod text;
pub mod web;
pub mod canon;
pub mod links;
pub mod fetch;
pub mod engine;
pub mod reach;
