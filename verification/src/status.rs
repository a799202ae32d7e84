//! Kinds of cells and the tokens that name them.

use vstd::prelude::*;
use vstd::string::StrSliceExecFns;
use crate::error::ConfigurationError;

verus! {

/// Reward for entering an ordinary cell: -0.1.
pub const NORMAL_REWARD: i64 = -100_000;

/// Reward for entering a dangerous cell: -0.5.
pub const DANGER_REWARD: i64 = -500_000;

/// Reward recorded for a wall, which is never entered: -0.1.
pub const WALL_REWARD: i64 = -100_000;

/// Reward for entering a goal written `M`: +10.
pub const MAJOR_GOAL_REWARD: i64 = 10_000_000;

/// Reward for entering a goal written `G`: +1.
pub const MINOR_GOAL_REWARD: i64 = 1_000_000;

/// What a cell of the grid is.
#[derive(Debug, Clone, Copy, PartialEq, Eq, Structural)]
pub enum StatusType {
    /// An ordinary cell.
    Normal,
    /// A cell that costs more to enter but does not end an episode.
    Danger,
    /// A cell that cannot be entered.
    Wall,
    /// The cell that ends an episode.
    Goal,
}

/// The kind of cell that a token starting with `c` names, if any.
pub open spec fn kind_of_letter(c: char) -> Option<StatusType> {
    if c == 'S' {
        Some(StatusType::Normal)
    } else if c == 'P' {
        Some(StatusType::Danger)
    } else if c == 'W' || c == 'O' {
        Some(StatusType::Wall)
    } else if c == 'G' || c == 'M' {
        Some(StatusType::Goal)
    } else {
        None
    }
}

/// The reward of the cell that a token starting with `c` names.
pub open spec fn reward_of_letter(c: char) -> int {
    if c == 'P' {
        DANGER_REWARD as int
    } else if c == 'M' {
        MAJOR_GOAL_REWARD as int
    } else if c == 'G' {
        MINOR_GOAL_REWARD as int
    } else {
        NORMAL_REWARD as int
    }
}

/// A token is recognised when it is not empty and its first letter names a kind.
pub open spec fn token_recognised(key: Seq<char>) -> bool {
    key.len() > 0 && kind_of_letter(key[0]) is Some
}

/// The kind that a recognised token names.
pub open spec fn token_kind(key: Seq<char>) -> StatusType {
    kind_of_letter(key[0])->Some_0
}

/// The reward that a recognised token carries.
pub open spec fn token_reward(key: Seq<char>) -> int {
    reward_of_letter(key[0])
}

impl StatusType {
    /// Reads the kind of cell from a token by its first letter: `S` ordinary,
    /// `P` danger, `W` or `O` wall, `G` or `M` goal.
    pub fn parse(key: &str) -> (r: Result<StatusType, ConfigurationError>)
        ensures
            token_recognised(key@) ==> r == Ok::<StatusType, ConfigurationError>(token_kind(key@)),
            !token_recognised(key@) ==> r == Err::<StatusType, ConfigurationError>(
                ConfigurationError::UnknownToken,
            ),
    {
        if key.unicode_len() == 0 {
            return Err(ConfigurationError::UnknownToken);
        }
        let c = key.get_char(0);
        if c == 'S' {
            Ok(StatusType::Normal)
        } else if c == 'P' {
            Ok(StatusType::Danger)
        } else if c == 'W' || c == 'O' {
            Ok(StatusType::Wall)
        } else if c == 'G' || c == 'M' {
            Ok(StatusType::Goal)
        } else {
            Err(ConfigurationError::UnknownToken)
        }
    }

    /// Whether the cell can be entered.
    pub fn is_open(&self) -> (b: bool)
        ensures
            b == (*self != StatusType::Wall),
    {
        match self {
            StatusType::Wall => false,
            _ => true,
        }
    }
}

/// A token together with what it says: the kind of the cell and its reward.
#[derive(Debug, Clone, Copy)]
pub struct Status {
    pub key: &'static str,
    pub kind: StatusType,
    pub reward: i64,
}

impl Status {
    /// Reads a token. The reward is fixed by the first letter: -0.1 for `S`, `W`
    /// and `O`, -0.5 for `P`, +1 for `G` and +10 for `M`.
    pub fn parse(key: &'static str) -> (r: Result<Status, ConfigurationError>)
        ensures
            token_recognised(key@) ==> r is Ok && r->Ok_0.key@ == key@ && r->Ok_0.kind
                == token_kind(key@) && r->Ok_0.reward == token_reward(key@),
            !token_recognised(key@) ==> r == Err::<Status, ConfigurationError>(
                ConfigurationError::UnknownToken,
            ),
    {
        if key.unicode_len() == 0 {
            return Err(ConfigurationError::UnknownToken);
        }
        let c = key.get_char(0);
        let reward: i64 = if c == 'P' {
            DANGER_REWARD
        } else if c == 'M' {
            MAJOR_GOAL_REWARD
        } else if c == 'G' {
            MINOR_GOAL_REWARD
        } else {
            NORMAL_REWARD
        };
        match StatusType::parse(key) {
            Ok(kind) => Ok(Status { key, kind, reward }),
            Err(e) => Err(e),
        }
    }
}

} // verus!
