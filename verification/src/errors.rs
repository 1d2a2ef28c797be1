//! Errors surfaced by the broker's lifecycle operations, and the coarser
//! taxonomy that callers report them under.

use vstd::prelude::*;

verus! {

/// A failure of a lifecycle operation, reported synchronously to the caller.
#[derive(Clone, Copy, Debug, PartialEq, Eq, Structural)]
pub enum BrokerError {
    /// The scenario reference was malformed.
    InvalidReference,
    /// No scenario record exists under the given reference.
    ScenarioNotFound,
    /// No session record exists under the given session id.
    SessionNotFound,
    /// Both player slots of the session are already occupied.
    SessionFull,
    /// The session is not in a joinable state for this requester.
    SessionNotJoinable,
}

/// The error taxonomy: how each failure is classified for the caller.
#[derive(Clone, Copy, Debug, PartialEq, Eq, Structural)]
pub enum ErrorClass {
    /// A referenced session or scenario is absent.
    NotFound,
    /// The session exists but refuses the request in its current state.
    Conflict,
    /// A malformed identifier was supplied.
    InvalidInput,
}

/// The class each error falls under.
pub open spec fn class_of(e: BrokerError) -> ErrorClass {
    match e {
        BrokerError::InvalidReference => ErrorClass::InvalidInput,
        BrokerError::ScenarioNotFound => ErrorClass::NotFound,
        BrokerError::SessionNotFound => ErrorClass::NotFound,
        BrokerError::SessionFull => ErrorClass::Conflict,
        BrokerError::SessionNotJoinable => ErrorClass::Conflict,
    }
}

/// The specific reason string reported to the caller for each error.
pub open spec fn reason_of(e: BrokerError) -> Seq<char> {
    match e {
        BrokerError::InvalidReference => "Invalid scenario_id"@,
        BrokerError::ScenarioNotFound => "Scenario not found"@,
        BrokerError::SessionNotFound => "Session does not exist"@,
        BrokerError::SessionFull => "Session is full"@,
        BrokerError::SessionNotJoinable => "Session is not joinable"@,
    }
}

impl BrokerError {
    /// Classify this error under the taxonomy.
    pub fn class(&self) -> (r: ErrorClass)
        ensures
            r == class_of(*self),
    {
        match self {
            BrokerError::InvalidReference => ErrorClass::InvalidInput,
            BrokerError::ScenarioNotFound => ErrorClass::NotFound,
            BrokerError::SessionNotFound => ErrorClass::NotFound,
            BrokerError::SessionFull => ErrorClass::Conflict,
            BrokerError::SessionNotJoinable => ErrorClass::Conflict,
        }
    }

    /// The specific reason string for this error.
    pub fn reason(&self) -> (r: String)
        ensures
            r@ == reason_of(*self),
    {
        match self {
            BrokerError::InvalidReference => "Invalid scenario_id".to_owned(),
            BrokerError::ScenarioNotFound => "Scenario not found".to_owned(),
            BrokerError::SessionNotFound => "Session does not exist".to_owned(),
            BrokerError::SessionFull => "Session is full".to_owned(),
            BrokerError::SessionNotJoinable => "Session is not joinable".to_owned(),
        }
    }
}

} // verus!
