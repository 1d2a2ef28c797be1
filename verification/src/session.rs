//! Session records: one per matchmaking session, pairing up to two players
//! against one scenario, together with the session's membership set.

use vstd::prelude::*;

verus! {

/// The lifecycle state of a stored session. A closed session is deleted from
/// the store rather than flagged, so no `Closed` state is stored.
#[derive(Clone, Copy, Debug, PartialEq, Eq, Structural)]
pub enum SessionState {
    /// Created, with only player 1 present; waiting for an opponent.
    Idle,
    /// Both player slots filled; the game may run.
    Progressing,
}

/// One stored session: the record fields, plus the membership set used for
/// disconnect-driven cleanup.
pub struct Session {
    /// The unique id the session is stored under.
    pub session_id: String,
    /// The scenario the session plays, by reference.
    pub scenario_id: String,
    /// The scenario's display name, cached at creation.
    pub scenario_name: String,
    /// The lifecycle state.
    pub state: SessionState,
    /// The connection identity that created the session.
    pub player1: String,
    /// The connection identity that joined, once one has.
    pub player2: Option<String>,
    /// The membership set: the connection identities associated with the
    /// session, kept in joining order.
    pub members: Vec<String>,
}

/// The mathematical value of a stored session.
#[verifier::ext_equal]
pub ghost struct SessionView {
    pub session_id: Seq<char>,
    pub scenario_id: Seq<char>,
    pub scenario_name: Seq<char>,
    pub state: SessionState,
    pub player1: Seq<char>,
    pub player2: Option<Seq<char>>,
    pub members: Seq<Seq<char>>,
}

impl View for Session {
    type V = SessionView;

    open spec fn view(&self) -> SessionView {
        SessionView {
            session_id: self.session_id@,
            scenario_id: self.scenario_id@,
            scenario_name: self.scenario_name@,
            state: self.state,
            player1: self.player1@,
            player2: match self.player2 {
                Some(p) => Some(p@),
                None => None,
            },
            members: self.members.deep_view(),
        }
    }
}

impl SessionView {
    /// Well-formedness of a stored session: an idle session holds only
    /// player 1, a progressing session holds two distinct players, and the
    /// membership set lists exactly the players filling slots, in order.
    pub open spec fn wf(self) -> bool {
        match self.state {
            SessionState::Idle => self.player2 is None && self.members == seq![self.player1],
            SessionState::Progressing => match self.player2 {
                Some(p2) => p2 != self.player1 && self.members == seq![self.player1, p2],
                None => false,
            },
        }
    }

    /// How many player slots are filled.
    pub open spec fn filled_slots(self) -> int {
        1 + if self.player2 is Some {
            1int
        } else {
            0int
        }
    }
}

} // verus!
