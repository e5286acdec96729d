//! Why a balanced split could not be produced.

use vstd::prelude::*;

verus! {

/// Every failure is recoverable: the caller may try again with other pins or
/// looser constraints.
#[derive(Debug, Clone, Copy, PartialEq, Eq, Structural)]
pub enum BalanceError {
    /// More players are pinned to side A than a side can hold.
    TooManyFixedA { fixed: usize, limit: usize },
    /// More players are pinned to side B than a side can hold.
    TooManyFixedB { fixed: usize, limit: usize },
    /// The arrangement handed in does not hold each unpinned roster position
    /// exactly once.
    InvalidOrder,
    /// No candidate within the trial budget met the constraints.
    ConstraintUnsatisfiable { trials: usize },
}

/// The text shown to the user for each error.
pub open spec fn message_text(e: BalanceError) -> Seq<char> {
    match e {
        BalanceError::TooManyFixedA { .. } =>
            "Too many players are fixed to team A: a team holds half of the roster."@,
        BalanceError::TooManyFixedB { .. } =>
            "Too many players are fixed to team B: a team holds half of the roster."@,
        BalanceError::InvalidOrder =>
            "The player order must list every player without a fixed team exactly once."@,
        BalanceError::ConstraintUnsatisfiable { .. } =>
            "Unable to generate even teams.  You may need to loosen the requirements for each team."@,
    }
}

impl BalanceError {
    /// Whether the roster itself rules out any split, whatever the
    /// constraints.
    pub open spec fn is_configuration(&self) -> bool {
        *self is TooManyFixedA || *self is TooManyFixedB || *self is InvalidOrder
    }

    /// The message for the user.
    pub fn message(&self) -> (r: String)
        ensures
            r@ == message_text(*self),
    {
        match self {
            BalanceError::TooManyFixedA { .. } =>
                "Too many players are fixed to team A: a team holds half of the roster.".to_owned(),
            BalanceError::TooManyFixedB { .. } =>
                "Too many players are fixed to team B: a team holds half of the roster.".to_owned(),
            BalanceError::InvalidOrder =>
                "The player order must list every player without a fixed team exactly once.".to_owned(),
            BalanceError::ConstraintUnsatisfiable { .. } =>
                "Unable to generate even teams.  You may need to loosen the requirements for each team.".to_owned(),
        }
    }
}

} // verus!
