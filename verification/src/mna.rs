//! Where circuit quantities sit in the nodal-analysis unknown vector.
//!
//! The unknowns are, in order: the voltages of nodes 1.., the currents of the
//! voltage sources, the currents of the inductors. Ground (node 0) is not an
//! unknown.
use vstd::prelude::*;

use crate::circuit::NodeId;

verus! {

/// The unknown that holds a node's voltage; ground has none.
pub open spec fn node_row(node: usize) -> Option<usize> {
    if node == 0 {
        None
    } else {
        Some((node - 1) as usize)
    }
}

fn node_index(node: NodeId) -> (r: Option<usize>)
    ensures
        r == node_row(node.0),
{
    if node.0 == 0 {
        None
    } else {
        Some(node.0 - 1)
    }
}

/// Row of the unknown vector that holds the voltage of `node`; `None` for
/// ground.
pub fn node_index_pub(node: NodeId) -> (r: Option<usize>)
    ensures
        r == node_row(node.0),
{
    node_index(node)
}

/// Distinct nodes other than ground have distinct rows, and the nodes of a
/// circuit with `nodes` nodes fill exactly rows `0..nodes - 1`.
pub proof fn law_node_rows(a: usize, b: usize, nodes: usize)
    ensures
        a != 0 && b != 0 && a != b ==> node_row(a) != node_row(b),
        0 < a < nodes ==> (node_row(a) matches Some(r) && r < nodes - 1),
        (node_row(a) is None) <==> a == 0,
{
}

} // verus!
