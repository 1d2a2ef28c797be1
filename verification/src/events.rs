//! Push events fanned out to live connections, and the summary shape that
//! read-only queries project stored sessions into.

use vstd::prelude::*;
use crate::session::{SessionState, SessionView};

verus! {

/// An event pushed to a connection's outbound queue.
pub enum PushEvent {
    /// The handshake message: the identity newly assigned to the connection,
    /// sent as its first outbound message.
    Welcome { connection_id: String },
    /// An opponent joined the session; sent to player 1.
    SessionReady { session_id: String, player2: String },
    /// The game in the session has started.
    GameStarted { session_id: String },
    /// The game in the session has ended. `winner_id` is empty when no winner
    /// is declared.
    GameEnded { session_id: String, winner_id: String, reason: String },
}

/// The mathematical value of a push event.
#[verifier::ext_equal]
pub ghost enum EventView {
    Welcome { connection_id: Seq<char> },
    SessionReady { session_id: Seq<char>, player2: Seq<char> },
    GameStarted { session_id: Seq<char> },
    GameEnded { session_id: Seq<char>, winner_id: Seq<char>, reason: Seq<char> },
}

impl View for PushEvent {
    type V = EventView;

    open spec fn view(&self) -> EventView {
        match self {
            PushEvent::Welcome { connection_id } => EventView::Welcome {
                connection_id: connection_id@,
            },
            PushEvent::SessionReady { session_id, player2 } => EventView::SessionReady {
                session_id: session_id@,
                player2: player2@,
            },
            PushEvent::GameStarted { session_id } => EventView::GameStarted {
                session_id: session_id@,
            },
            PushEvent::GameEnded { session_id, winner_id, reason } => EventView::GameEnded {
                session_id: session_id@,
                winner_id: winner_id@,
                reason: reason@,
            },
        }
    }
}

impl DeepView for PushEvent {
    type V = EventView;

    open spec fn deep_view(&self) -> EventView {
        self.view()
    }
}

/// A read-only projection of one stored session.
#[derive(Debug)]
pub struct SessionSummary {
    pub session_id: String,
    pub scenario_id: String,
    pub scenario_name: String,
    pub state: SessionState,
    pub player1: String,
    pub player2: Option<String>,
}

/// The mathematical value of a session summary.
#[verifier::ext_equal]
pub ghost struct SummaryView {
    pub session_id: Seq<char>,
    pub scenario_id: Seq<char>,
    pub scenario_name: Seq<char>,
    pub state: SessionState,
    pub player1: Seq<char>,
    pub player2: Option<Seq<char>>,
}

impl View for SessionSummary {
    type V = SummaryView;

    open spec fn view(&self) -> SummaryView {
        SummaryView {
            session_id: self.session_id@,
            scenario_id: self.scenario_id@,
            scenario_name: self.scenario_name@,
            state: self.state,
            player1: self.player1@,
            player2: match self.player2 {
                Some(p) => Some(p@),
                None => None,
            },
        }
    }
}

impl DeepView for SessionSummary {
    type V = SummaryView;

    open spec fn deep_view(&self) -> SummaryView {
        self.view()
    }
}

/// The summary a stored session projects to.
pub open spec fn summary_of(e: SessionView) -> SummaryView {
    SummaryView {
        session_id: e.session_id,
        scenario_id: e.scenario_id,
        scenario_name: e.scenario_name,
        state: e.state,
        player1: e.player1,
        player2: e.player2,
    }
}

} // verus!
