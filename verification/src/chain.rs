//! The chain-walking bootstrap decision.
//!
//! Instance creation receives an extensible linked structure describing the
//! layer chain. Bootstrapping scans it for the first node tagged as loader
//! layer-link info; that node carries the next layer's resolver. A chain
//! with no such node, or whose first such node carries no layer info, is an
//! initialization failure: this layer must never run as the innermost one.

use vstd::prelude::*;
use crate::status::VK_ERROR_INITIALIZATION_FAILED;

verus! {

/// The structure tag of a loader instance-creation info node.
pub const STRUCTURE_TYPE_LOADER_INSTANCE_CREATE_INFO: u32 = 47;

/// The function tag of a layer-link info node.
pub const LAYER_FUNCTION_LINK_INFO: i32 = 0;

/// What the bootstrap reads of one node of the creation-info chain.
#[derive(Clone, Copy, PartialEq, Eq, Debug)]
pub struct ChainNode {
    /// The node's structure tag.
    pub s_type: u32,
    /// The node's layer-function tag.
    pub function: i32,
    /// Whether the node's embedded pointer to the next layer's info is
    /// present.
    pub has_layer_info: bool,
}

/// Whether a node is tagged as loader layer-link info.
pub open spec fn is_link_node(n: ChainNode) -> bool {
    n.s_type == STRUCTURE_TYPE_LOADER_INSTANCE_CREATE_INFO && n.function
        == LAYER_FUNCTION_LINK_INFO
}

/// Locates the node the bootstrap advances past: the first node tagged as
/// loader layer-link info, provided its layer info is present. A chain
/// with no link node (this layer would be the innermost), or whose first
/// link node carries no layer info (malformed chain), is refused with the
/// initialization-failure status.
pub fn find_layer_link(chain: &Vec<ChainNode>) -> (r: Result<usize, i32>)
    ensures
        match r {
            Ok(i) => i < chain@.len() && is_link_node(chain@[i as int])
                && chain@[i as int].has_layer_info && (forall|j: int|
                0 <= j < i ==> !is_link_node(#[trigger] chain@[j])),
            Err(code) => code == VK_ERROR_INITIALIZATION_FAILED && ((forall|j: int|
                0 <= j < chain@.len() ==> !is_link_node(#[trigger] chain@[j])) || (exists|i: int|
                0 <= i < chain@.len() && is_link_node(#[trigger] chain@[i])
                    && !chain@[i].has_layer_info && (forall|j: int|
                    0 <= j < i ==> !is_link_node(#[trigger] chain@[j])))),
        },
{
    let mut i: usize = 0;
    while i < chain.len()
        invariant
            i <= chain@.len(),
            forall|j: int| 0 <= j < i ==> !is_link_node(#[trigger] chain@[j]),
        decreases chain@.len() - i,
    {
        let node = chain[i];
        if node.s_type == STRUCTURE_TYPE_LOADER_INSTANCE_CREATE_INFO && node.function
            == LAYER_FUNCTION_LINK_INFO {
            if node.has_layer_info {
                return Ok(i);
            } else {
                return Err(VK_ERROR_INITIALIZATION_FAILED);
            }
        }
        i += 1;
    }
    Err(VK_ERROR_INITIALIZATION_FAILED)
}

} // verus!
