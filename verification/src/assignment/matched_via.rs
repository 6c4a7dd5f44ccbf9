//! The values of [`NodeAssignment::matched_via`](super::NodeAssignment):
//! how a node was matched to its layer.

use vstd::prelude::*;

verus! {

pub const METADATA_SCOPE: &'static str = "metadata-scope";

pub const PREFIX_TEXT: &'static str = "prefix-text";

pub const HEURISTIC_EMBEDDINGS: &'static str = "heuristic-embeddings";

pub const HEURISTIC_POOLER: &'static str = "heuristic-pooler";

pub const HEURISTIC_CLASSIFIER: &'static str = "heuristic-classifier";

pub const HEURISTIC_LAYER_INDEX: &'static str = "heuristic-layer-index";

pub const UNMATCHED: &'static str = "unmatched";

} // verus!
