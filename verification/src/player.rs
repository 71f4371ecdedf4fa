//! The entities of the graph.

use vstd::prelude::*;

verus! {

/// One analysed player: a rating by which players are grouped, and a market
/// value that is aggregated per group.
#[derive(Debug, Clone, Copy, PartialEq, Eq, Structural)]
pub struct Player {
    pub overall: u8,
    pub value_eur: u32,
}

} // verus!
