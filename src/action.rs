use vstd::prelude::*;
use vstd::string::StringExecFns;

use crate::card::CardId;
use crate::character::CharacterId;
use crate::grid::GridLocation;

verus! {

/// What a character does with one action point.
#[derive(Debug, PartialEq, Eq, Structural, Clone, Copy)]
pub enum Action {
    Pass,
    Act(CardId, CharacterId),
    Move(CharacterId, GridLocation),
}

/// A recoverable failure of an actor: it is logged and the actor is asked again.
#[derive(Debug)]
pub struct ActionFailure {
    pub message: String,
}

/// Why an actor produced no action: a recoverable failure, or a request to stop the
/// whole simulation with a process exit code.
#[derive(Debug)]
pub enum ActionError {
    Failure(ActionFailure),
    Exit(u8),
}

impl ActionError {
    pub fn fail(message: &str) -> (r: ActionError)
        ensures
            r matches ActionError::Failure(f) && f.message@ == message@,
    {
        ActionError::Failure(ActionFailure { message: String::from_str(message) })
    }
}

pub type ActionResult = Result<Action, ActionError>;

} // verus!
