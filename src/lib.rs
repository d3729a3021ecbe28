//! An inverted index from the editors of a MediaWiki-style dump to the pages
//! they edited, and a query engine that intersects the pages of several
//! editors.
//!
//! The index file holds a header ("SF" and a format version), the page
//! names, one postings list per user, a term dictionary from user names to
//! their lists, and a footer that gives where the dictionary starts.

use vstd::prelude::*;

pub mod builder;
pub mod codec;
pub mod dictionary;
pub mod engine;
pub mod laws;
pub mod merge;
pub mod ordering;
pub mod reader;
pub mod report;
pub mod stats;

pub use builder::{build, BuildError, IndexBuilder, XmlEvent};
pub use engine::{query, QueryOutput};
pub use reader::IndexError;
pub use stats::{stats, IndexStats};

verus! {

/// The order in which query results are listed.
#[allow(non_camel_case_types)]
#[derive(Clone, Copy, PartialEq, Eq, Structural, Debug)]
pub enum Order {
    alphabetical,
    count_decreasing,
    count_increasing,
    none,
}

/// The version of this library.
pub fn version() -> (r: &'static str)
    ensures
        r@ == "0.1.0"@,
{
    "0.1.0"
}

} // verus!
