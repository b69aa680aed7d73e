//! What the protocol asks the event loop to do for one peer.

use vstd::prelude::*;

use crate::wire::msg::PeerMsg;

verus! {

pub type PeerId = u32;

/// An instruction addressed to one peer's connection.
pub struct PeerAction(pub PeerId, pub PeerStreamAction);

pub enum PeerStreamAction {
    Nothing,
    SendMessages(Vec<PeerMsg>),
    Disconnect,
}

} // verus!
