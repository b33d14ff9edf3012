//! An embedded full-text document catalog: it stores one document per `url`
//! key, keeps freshness timestamps, and answers conjunctive ranked queries
//! with a total match count and paginated, relevance-ordered hits.
//!
//! The catalog and its search engine are verified; the surrounding process
//! (message framing, JSON envelopes, persistence) lives outside the library
//! and talks to it in plain values.

pub mod catalog;
pub mod dispatch;
pub mod laws;
pub mod search;
pub mod tokenize;
