//! The parameters that a node works by.

use vstd::prelude::*;

verus! {

/// The limits that a node keeps to.
#[derive(Clone, Debug)]
pub struct NodeParams {
    /// Minimum section size.
    pub min_section_size: usize,
    /// Number of nodes past the minimum that must be present in all sections when splitting.
    pub split_buffer: usize,
    /// Number of steps to wait for a candidate to appear in at least one current section.
    pub join_timeout: u64,
    /// Number of steps to wait before shutting down if we fail to join.
    pub self_shutdown_timeout: u64,
}

impl Default for NodeParams {
    fn default() -> (params: NodeParams)
        ensures
            params.min_section_size == 8,
            params.split_buffer == 1,
            params.join_timeout == 20,
            params.self_shutdown_timeout == 100,
    {
        NodeParams {
            min_section_size: 8,
            split_buffer: 1,
            join_timeout: 20,
            self_shutdown_timeout: 100,
        }
    }
}

} // verus!
