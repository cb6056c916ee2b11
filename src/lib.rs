//! Main-content extraction from HTML documents by text density.
//!
//! The library mirrors a parsed document into a tree of per-node text
//! metrics, aggregated bottom-up, and selects and extracts the densest
//! region of text.
use vstd::prelude::*;

pub mod cetd;
pub mod dom;
pub mod markdown;
pub mod region;
pub mod tree;
pub mod unicode;

pub use cetd::{DensityNode, DensityTree};
pub use dom::{build_dom, get_node_by_id, get_node_links, get_node_text, Dom, DomEvent, DomKind};
pub use tree::{HtmlTreeBuilder, NodeMetrics, TreeBuilder};

verus! {

/// The errors that leave the library.
#[derive(Debug, Clone, Copy, PartialEq, Eq, Structural)]
pub enum DomExtractionError {
    /// A node id that the document does not hold: the density tree was built
    /// from another document than the one it is read against.
    NodeAccessError(usize),
    /// The document has no `body` element.
    NoBodyElement,
}

} // verus!
