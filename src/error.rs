use vstd::prelude::*;

verus! {

/// Why a player could not produce a move.
#[derive(Clone, Copy, Debug, PartialEq, Eq, Structural)]
pub enum PlayerError {
    /// The game cannot go on; the engine ends it.
    Uncontinuable,
    /// The player's input could not be read as a move; the player is asked again.
    UserInputParseFailure,
}

/// Why a move was not carried out.
#[derive(Clone, Copy, Debug, PartialEq, Eq, Structural)]
pub enum Error {
    Uncontinuable,
    OutOfBoard,
    StoneAlreadyExists,
    NoChainOccurred,
    PlayerError(PlayerError),
}

impl PlayerError {
    /// The message shown for this error.
    pub fn message(&self) -> (r: String)
        ensures
            r@ == "error occurred!"@,
    {
        "error occurred!".to_owned()
    }
}

impl Error {
    /// The message shown for this error; a player's error shows its own.
    pub fn message(&self) -> (r: String)
        ensures
            r@ == "error occurred!"@,
    {
        match self {
            Error::PlayerError(e) => e.message(),
            _ => "error occurred!".to_owned(),
        }
    }
}

} // verus!
