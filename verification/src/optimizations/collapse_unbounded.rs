//! The hook for collapsing loops whose whole effect can be had at once.
use crate::collect::CollectedAstNode;
use std::collections::VecDeque;
use vstd::prelude::*;

verus! {

/// Rewrites a program into one that does the same. No loop is rewritten yet:
/// the program comes back as it went in.
pub fn collapse_unbounded(nodes: VecDeque<CollectedAstNode>) -> (res: VecDeque<CollectedAstNode>)
    ensures
        res == nodes,
{
    nodes
}

} // verus!
