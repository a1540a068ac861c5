use vstd::prelude::*;

pub mod player;
pub mod action;
pub mod build_data;
pub mod config;
pub mod node;
pub mod sizing;
pub mod tree;
pub mod decimal;
pub mod action_util;
pub mod laws;
pub mod slice_ops;
pub mod latch;
pub mod postflop;
pub mod text;
pub mod numeral;
pub mod bets;
pub mod range;
pub mod isomorphism;
pub mod game_play;
pub mod tree_text;

verus! {

/// A street of a post-flop hand.
#[derive(Debug, Clone, Copy, PartialEq, Eq, Structural)]
pub enum Street {
    Flop,
    Turn,
    River,
}

impl Default for Street {
    fn default() -> (r: Street)
        ensures
            r == Street::Flop,
    {
        Street::Flop
    }
}

impl Street {
    /// The street of the given number: 0 the flop, 1 the turn, 2 the river.
    pub fn from_index(street: usize) -> (r: Street)
        requires
            street < 3,
        ensures
            street == 0 ==> r == Street::Flop,
            street == 1 ==> r == Street::Turn,
            street == 2 ==> r == Street::River,
    {
        match street {
            0 => Street::Flop,
            1 => Street::Turn,
            _ => Street::River,
        }
    }

    /// The name of the street.
    pub fn name(&self) -> (r: String)
        ensures
            r@ == street_name(*self),
    {
        match self {
            Street::Flop => String::from_str("Flop"),
            Street::Turn => String::from_str("Turn"),
            Street::River => String::from_str("River"),
        }
    }
}

/// The name of a street.
pub open spec fn street_name(s: Street) -> Seq<char> {
    match s {
        Street::Flop => "Flop"@,
        Street::Turn => "Turn"@,
        Street::River => "River"@,
    }
}

/// What can be wrong with the setup of a game.
#[derive(Debug, Clone, PartialEq, Eq)]
pub enum ConfigError {
    /// The named input is invalid, for the given reason.
    InvalidInput(String, String),
    InvalidTerminalNode,
    MissingFlop,
    MismatchedStreets,
    TooManyNodes,
}

/// The message of a configuration error.
pub open spec fn config_error_text(e: ConfigError) -> Seq<char> {
    match e {
        ConfigError::InvalidInput(what, why) => "Input for "@ + what@ + " is invalid. "@ + why@,
        ConfigError::InvalidTerminalNode => "Invalid terminal node found in action tree."@,
        ConfigError::MissingFlop => "Solver requires at least cards for flop."@,
        ConfigError::MismatchedStreets => "Sreets in config and on board do not match."@,
        ConfigError::TooManyNodes => "Game tree contains too many nodes."@,
    }
}

impl ConfigError {
    /// The message of the error.
    pub fn message(&self) -> (r: String)
        ensures
            r@ == config_error_text(*self),
    {
        match self {
            ConfigError::InvalidInput(what, why) => {
                let mut s = String::from_str("Input for ");
                s.append(what.as_str());
                s.append(" is invalid. ");
                s.append(why.as_str());
                s
            },
            ConfigError::InvalidTerminalNode => String::from_str(
                "Invalid terminal node found in action tree.",
            ),
            ConfigError::MissingFlop => String::from_str("Solver requires at least cards for flop."),
            ConfigError::MismatchedStreets => String::from_str(
                "Sreets in config and on board do not match.",
            ),
            ConfigError::TooManyNodes => String::from_str("Game tree contains too many nodes."),
        }
    }
}

/// How far the setup of a game has come.
#[derive(Debug, Clone, Copy, PartialEq, Eq, Structural)]
pub enum ProcessState {
    ConfigError,
    Uninitialised,
    TreeBuilt,
    MemoryAllocated,
    Solved,
}

impl Default for ProcessState {
    fn default() -> (r: ProcessState)
        ensures
            r == ProcessState::Uninitialised,
    {
        ProcessState::Uninitialised
    }
}

/// The position of a state in the order of the setup.
pub open spec fn process_rank(s: ProcessState) -> int {
    match s {
        ProcessState::ConfigError => 0,
        ProcessState::Uninitialised => 1,
        ProcessState::TreeBuilt => 2,
        ProcessState::MemoryAllocated => 3,
        ProcessState::Solved => 4,
    }
}

impl ProcessState {
    /// The position of the state in the order of the setup.
    pub fn rank(&self) -> (r: u8)
        ensures
            r as int == process_rank(*self),
    {
        match self {
            ProcessState::ConfigError => 0,
            ProcessState::Uninitialised => 1,
            ProcessState::TreeBuilt => 2,
            ProcessState::MemoryAllocated => 3,
            ProcessState::Solved => 4,
        }
    }

    /// Whether the setup has come past `other`.
    pub fn is_past(&self, other: ProcessState) -> (r: bool)
        ensures
            r == (process_rank(*self) > process_rank(other)),
    {
        self.rank() > other.rank()
    }
}

} // verus!
