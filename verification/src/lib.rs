//! A single-origin focused web crawler core: URL values, a permissive link
//! extractor, a content classifier, a deduplicated resumable frontier with a
//! bounded scheduler, CSV journals, and an artifact packager.
//!
//! The crate verifies the crawler's decision logic; the surrounding I/O
//! (HTTP, files, the search sink) lives outside the library and talks to it
//! through plain values.

pub mod cas;
pub mod collection;
pub mod content;
pub mod link;
pub mod manager;
pub mod packager;
pub mod protocols;
pub mod text;

use vstd::prelude::*;

verus! {

/// Upper bound on simultaneously outstanding fetches.
pub const CONCURRENT_REQUESTS: usize = 20;

} // verus!
