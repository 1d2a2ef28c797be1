//! A verified session broker for a two-player, scenario-based simulation game.
//!
//! The broker owns two pieces of state: a session store (one record and one
//! membership set per session) and a connection registry (one ordered outbound
//! queue per live connection). Lifecycle operations — creating and joining
//! sessions, starting and ending games, and cleaning up after a disconnect —
//! mutate the store and fan push events out to the registered connections.

mod broker;
mod errors;
mod ids;
mod events;
mod models;
mod registry;
mod store;
mod session;

pub use broker::{
    count_registered, disconnect_reason, drop_member_sessions, is_survivor, joined,
    lemma_cleanup_idempotent, lemma_disconnect_before_join, lemma_membership_matches_slots,
    new_idle_session, survivor_events, Broker, ScenarioLookup,
};
pub use errors::{class_of, reason_of, BrokerError, ErrorClass};
pub use models::{SocketMessageType, UnitSide};
pub use events::{summary_of, EventView, PushEvent, SessionSummary, SummaryView};
pub use registry::{queues_of, reg_has, reg_index, reg_unique, ConnView, Connection, ConnectionRegistry};
pub use store::{
    all_wf, has_sid, lemma_remove_sid, lemma_sid_at, lemma_store_round_trip, remove_sid,
    sid_index, sids_unique, store_inv, SessionStore,
};
pub use session::{Session, SessionState, SessionView};
