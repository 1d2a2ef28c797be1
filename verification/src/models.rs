//! Shared model types for the catalog and the legacy socket protocol.

use vstd::prelude::*;

verus! {

/// Which side of the simulation a unit fights on.
#[derive(Clone, Copy, Debug, PartialEq, Eq, Structural)]
pub enum UnitSide {
    Friendly,
    Enemy,
}

/// The kinds of message exchanged over the legacy JSON socket protocol.
#[derive(Clone, Copy, Debug, PartialEq, Eq, Structural)]
pub enum SocketMessageType {
    Welcome,
    Ping,
    ChatMessage,
    UnitUpdate,
    GameCommand,
    UnitListRequest,
    UnitListResponse,
    Disconnect,
}

} // verus!
