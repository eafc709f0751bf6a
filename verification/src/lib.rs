//! Reconstructs a hierarchical layer/group tree from a flat, parent-linked
//! document model, resolves an absolute `/`-separated path for every node,
//! and prepares individual layers for export by cropping each pixel buffer
//! to its visible bounding box and premultiplying alpha by the layer's
//! opacity.

use vstd::prelude::*;

pub mod doc;
pub mod names;
pub mod tree;
pub mod lookup;
pub mod export;
pub mod traverse;
pub mod laws;
pub mod listing;

verus! {

/// Errors raised by tree construction and traversal.
#[derive(Clone, Copy, PartialEq, Eq, Structural, Debug)]
pub enum TreeError {
    /// The document declares a color mode other than RGB; only RGB
    /// documents are supported, and the tree is never built for others.
    UnsupportedColorMode,
    /// A parent identifier does not resolve to an existing group, or the
    /// parent chain does not terminate: the document is inconsistent.
    StructuralCorruption,
}

} // verus!
