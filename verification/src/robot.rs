//! A robot that follows a policy on the grid world and slips sideways now and
//! then.

use vstd::prelude::*;
use crate::error::ConfigurationError;
use crate::fixed::SCALE;
use crate::fixed::is_probability;
use crate::grid::N_ACTIONS;
use crate::grid::lemma_flat_index;
use crate::random::RandomSource;
use crate::random::happens;
use crate::world::GridWorld;
use crate::world::Position;

verus! {

/// The direction into which a robot heading for `action` slips: to the first or
/// to the second of the two directions across its heading. Heading north or
/// south these are east and west; heading east, north and south; heading west,
/// south and north.
pub open spec fn lateral_direction(action: int, first: bool) -> int {
    if action == 0 || action == 1 {
        if first {
            2
        } else {
            3
        }
    } else if action == 2 {
        if first {
            0
        } else {
            1
        }
    } else {
        if first {
            1
        } else {
            0
        }
    }
}

/// The direction in which the robot really moves when it heads for `action`:
/// `action` itself where the move succeeds, else one of the two lateral
/// directions.
pub open spec fn actual_direction(action: int, succeeds: bool, first: bool) -> int {
    if succeeds {
        action
    } else {
        lateral_direction(action, first)
    }
}

/// The direction in which the robot really moves, given how chance fell.
pub fn resolve_direction(action: usize, succeeds: bool, first: bool) -> (direction: usize)
    requires
        action < N_ACTIONS,
    ensures
        direction == actual_direction(action as int, succeeds, first),
        direction < N_ACTIONS,
{
    if succeeds {
        action
    } else if action == 0 || action == 1 {
        if first {
            2
        } else {
            3
        }
    } else if action == 2 {
        if first {
            0
        } else {
            1
        }
    } else {
        if first {
            1
        } else {
            0
        }
    }
}

/// A robot on the grid.
#[derive(Debug, Clone, Copy)]
pub struct Robot {
    position: Position,
    success_prob: i64,
}

impl Robot {
    /// Where the robot stands.
    pub closed spec fn place(self) -> Position {
        self.position
    }

    /// The probability that the robot moves where it heads; with the rest it
    /// slips to either side with equal chance.
    pub closed spec fn reliability(self) -> int {
        self.success_prob as int
    }

    /// The robot stands on the grid of `map`.
    pub open spec fn on(self, map: GridWorld) -> bool {
        map@.in_bounds(self.place().row as int, self.place().col as int)
    }

    /// The state in which the robot is on `map`.
    pub open spec fn state_on(self, map: GridWorld) -> int {
        map@.flat(self.place().row as int, self.place().col as int)
    }

    /// A robot at `start_position` whose moves succeed with `success_prob`.
    pub fn new(start_position: Position, success_prob: i64) -> (r: Result<
        Robot,
        ConfigurationError,
    >)
        ensures
            match r {
                Ok(robot) => {
                    &&& is_probability(success_prob as int)
                    &&& robot.place() == start_position
                    &&& robot.reliability() == success_prob
                },
                Err(e) => !is_probability(success_prob as int) && e
                    == ConfigurationError::SuccessProbability,
            },
    {
        if success_prob < 0 || success_prob > SCALE {
            return Err(ConfigurationError::SuccessProbability);
        }
        Ok(Robot { position: start_position, success_prob })
    }

    /// Where the robot stands.
    pub fn get_position(&self) -> (position: Position)
        ensures
            position == self.place(),
    {
        self.position
    }

    /// Puts the robot somewhere else.
    pub fn set_position(&mut self, position: Position)
        ensures
            final(self).place() == position,
            final(self).reliability() == old(self).reliability(),
    {
        self.position = position;
    }

    /// The state in which the robot is: the linear index of its cell.
    pub fn get_normalized_position(&self, map: &GridWorld) -> (index: usize)
        requires
            map.wf(),
            self.on(*map),
        ensures
            index == self.state_on(*map),
            map@.is_state(index as int),
    {
        proof {
            lemma_flat_index(map@, self.position.row as int, self.position.col as int);
        }
        map.get_state(self.position.row, self.position.col).index
    }

    /// The row and the column of the robot's cell.
    pub fn get_matricial_position(&self) -> (place: [usize; 2])
        ensures
            place@ == seq![self.place().row, self.place().col],
    {
        let place = [self.position.row, self.position.col];
        assert(place@ =~= seq![self.position.row, self.position.col]);
        place
    }

    /// Draws the direction in which the robot really moves when it heads for
    /// `next_action`: that action with the probability of success, else either
    /// lateral direction with equal chance. A robot whose moves always succeed
    /// never slips, and one whose moves never succeed always does.
    pub fn calc_next_action(&self, next_action: usize, source: &mut RandomSource) -> (direction:
        usize)
        requires
            next_action < N_ACTIONS,
        ensures
            direction < N_ACTIONS,
            direction == next_action || direction == lateral_direction(next_action as int, true)
                || direction == lateral_direction(next_action as int, false),
            self.reliability() == SCALE ==> direction == next_action,
            self.reliability() == 0 ==> direction == lateral_direction(next_action as int, true)
                || direction == lateral_direction(next_action as int, false),
    {
        let choice = source.fraction();
        if happens(self.success_prob, choice) {
            resolve_direction(next_action, true, true)
        } else {
            let first = source.coin();
            resolve_direction(next_action, false, first)
        }
    }

    /// Moves the robot one cell in `direction`, unless the edge of the grid or a
    /// wall is in the way: then it stays where it is.
    pub fn advance(&mut self, map: &GridWorld, direction: usize)
        requires
            map.wf(),
            old(self).on(*map),
            direction < N_ACTIONS,
        ensures
            final(self).on(*map),
            final(self).reliability() == old(self).reliability(),
            final(self).state_on(*map) == map@.moved(old(self).state_on(*map), direction as int),
    {
        self.position = map.moved(self.position, direction);
    }

    /// Lets the robot take one step of `policy`: it heads for the action that the
    /// policy gives for its cell, slips as chance has it, and moves unless
    /// something is in the way. A policy that does not reach the robot's cell
    /// leaves the robot where it is.
    pub fn update(&mut self, policy: &Vec<usize>, map: &GridWorld, source: &mut RandomSource)
        requires
            map.wf(),
            old(self).on(*map),
            old(self).state_on(*map) < policy@.len() ==> policy@[old(self).state_on(*map)]
                < N_ACTIONS,
        ensures
            final(self).on(*map),
            final(self).reliability() == old(self).reliability(),
            old(self).state_on(*map) >= policy@.len() ==> final(self).place() == old(self).place(),
            old(self).state_on(*map) < policy@.len() ==> ({
                let s = old(self).state_on(*map);
                let action = policy@[s] as int;
                let t = final(self).state_on(*map);
                &&& t == map@.moved(s, action) || t == map@.moved(
                    s,
                    lateral_direction(action, true),
                ) || t == map@.moved(s, lateral_direction(action, false))
                &&& old(self).reliability() == SCALE ==> t == map@.moved(s, action)
            }),
    {
        let current_index = self.get_normalized_position(map);
        if current_index >= policy.len() {
            return;
        }
        let next_action = policy[current_index];
        let direction = self.calc_next_action(next_action, source);
        self.advance(map, direction);
    }
}

} // verus!
