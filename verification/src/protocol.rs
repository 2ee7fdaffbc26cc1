//! The ways of paying that the wallet offers, in the order of their tabs.

use vstd::prelude::*;

verus! {

/// A way of paying.
#[derive(Debug, Clone, Copy, PartialEq, Eq, Structural)]
pub enum Protocol {
    /// A payment on the block chain.
    OnChain,
    /// A payment over Lightning.
    Lightning,
    /// A payment in e-cash notes.
    ECash,
}

impl Protocol {
    /// The position of the protocol's tab.
    pub open spec fn index(self) -> int {
        match self {
            Protocol::OnChain => 0,
            Protocol::Lightning => 1,
            Protocol::ECash => 2,
        }
    }

    /// The protocol whose tab is at position `idx`. There are three tabs.
    pub fn from_idx(idx: usize) -> (protocol: Protocol)
        requires
            idx < 3,
        ensures
            protocol.index() == idx,
    {
        if idx == 0 {
            Protocol::OnChain
        } else if idx == 1 {
            Protocol::Lightning
        } else {
            Protocol::ECash
        }
    }

    /// The position of the protocol's tab.
    pub fn into_idx(self) -> (idx: usize)
        ensures
            idx == self.index(),
            idx < 3,
    {
        match self {
            Protocol::OnChain => 0,
            Protocol::Lightning => 1,
            Protocol::ECash => 2,
        }
    }
}

} // verus!
