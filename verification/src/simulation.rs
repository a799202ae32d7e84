//! Playing a planned policy: a robot walks the grid world under the greedy
//! policy of a planner and the rewards it meets are recorded.

use vstd::prelude::*;
use crate::bellman::iterate;
use crate::error::ConfigurationError;
use crate::fixed::SCALE;
use crate::fixed::is_probability;
use crate::fixed::is_proper_fraction;
use crate::grid::N_ACTIONS;
use crate::grid::lemma_flat_index;
use crate::grid::lemma_flat_injective;
use crate::mdp::DISCOUNT_FACTORS;
use crate::mdp::Mdp;
use crate::mdp::PROBABILITIES;
use crate::mdp::SWEEPS;
use crate::mdp::iterate_values;
use crate::mdp::tensor_of;
use crate::policy::actions_of;
use crate::policy::greedy;
use crate::policy::greedy_policy;
use crate::policy::ints;
use crate::policy::is_argmax;
use crate::policy::policy_valid;
use crate::policy::table_of;
use crate::random::RandomSource;
use crate::robot::Robot;
use crate::robot::lateral_direction;
use crate::transition::col_step;
use crate::transition::lemma_landing_is_open;
use crate::transition::lemma_landing_is_state;
use crate::transition::row_step;
use crate::transition::tensor_fits;
use crate::transition::transition_tensor;
use crate::world::GridWorld;

verus! {

/// The success probabilities of the comparative runs: 0.5, 0.7, 0.8 and 0.9.
pub const SUCCESS_PROBABILITIES: [i64; 4] = [500_000, 700_000, 800_000, 900_000];

/// Number of steps of a comparative run.
pub const SIMULATION_STEPS: usize = 1000;

/// `t` is one of the states in which a robot can be after heading for `action`
/// from the state `s`.
pub open spec fn reachable_in_a_step(map: GridWorld, s: int, action: int, t: int) -> bool {
    ||| t == map@.moved(s, action)
    ||| t == map@.moved(s, lateral_direction(action, true))
    ||| t == map@.moved(s, lateral_direction(action, false))
}

/// A robot in state `from` can be in state `to` after one step of `policy`: it
/// heads for the action that the policy gives for `from` and may slip, or stays
/// where the policy does not reach its state.
pub open spec fn follows(map: GridWorld, policy: Seq<int>, from: int, to: int) -> bool {
    if 0 <= from < policy.len() {
        reachable_in_a_step(map, from, policy[from], to)
    } else {
        to == from
    }
}

/// `s` is the goal that ends a walk: the first goal cell in row-major order.
pub open spec fn is_first_goal(map: GridWorld, s: int) -> bool {
    &&& map@.is_state(s)
    &&& map@.is_goal(s)
    &&& forall|u: int| 0 <= u < s ==> !map@.is_goal(u)
}

/// One step of a walk: the state it began in and the state it ended in.
pub struct Stride {
    pub from: int,
    pub to: int,
}

/// Step `i` of a walk is in order: it begins on an open cell, follows the
/// policy, and begins where the walk began or where the step before it ended,
/// unless that step ended on the goal: then it begins on any open cell.
pub open spec fn stride_in_order(
    map: GridWorld,
    policy: Seq<int>,
    start: int,
    strides: Seq<Stride>,
    i: int,
) -> bool {
    &&& map@.is_state(strides[i].from)
    &&& !map@.is_wall(strides[i].from)
    &&& follows(map, policy, strides[i].from, strides[i].to)
    &&& i == 0 ==> strides[i].from == start
    &&& i > 0 && !is_first_goal(map, strides[i - 1].to) ==> strides[i].from == strides[i - 1].to
}

/// After the walk the robot stands in state `end`: where the walk began if it
/// made no step, on any open cell if its last step ended on the goal, and else
/// where its last step ended.
pub open spec fn stands_after(map: GridWorld, start: int, strides: Seq<Stride>, end: int) -> bool {
    if strides.len() == 0 {
        end == start
    } else if is_first_goal(map, strides.last().to) {
        map@.is_state(end) && !map@.is_wall(end)
    } else {
        end == strides.last().to
    }
}

/// `strides` is a walk under `policy` from the state `start` that leaves the
/// robot in the state `end`.
pub open spec fn is_walk(
    map: GridWorld,
    policy: Seq<int>,
    start: int,
    strides: Seq<Stride>,
    end: int,
) -> bool {
    &&& forall|i: int|
        0 <= i < strides.len() ==> #[trigger] stride_in_order(map, policy, start, strides, i)
    &&& stands_after(map, start, strides, end)
}

/// `rewards` are the rewards of the cells on which the steps of a walk ended.
pub open spec fn rewards_along(map: GridWorld, strides: Seq<Stride>, rewards: Seq<i64>) -> bool {
    &&& rewards.len() == strides.len()
    &&& forall|i: int|
        0 <= i < rewards.len() ==> #[trigger] rewards[i] == map@.rewards[strides[i].to]
}

/// Some walk under `policy` from `start` to `end` meets exactly `rewards`.
pub open spec fn walked(
    map: GridWorld,
    policy: Seq<int>,
    start: int,
    end: int,
    rewards: Seq<i64>,
) -> bool {
    exists|strides: Seq<Stride>|
        #[trigger] is_walk(map, policy, start, strides, end) && rewards_along(map, strides, rewards)
}

/// Some walk under `policy` meets exactly `rewards`.
pub open spec fn met_on_a_walk(map: GridWorld, policy: Seq<int>, rewards: Seq<i64>) -> bool {
    exists|start: int, end: int| #[trigger] walked(map, policy, start, end, rewards)
}

/// The policy planned for `map` with the standard outcome probabilities and
/// `SWEEPS` sweeps under the discount factor `discount_factor`.
pub open spec fn planned(map: GridWorld, discount_factor: int) -> Seq<int> {
    greedy(
        iterate(
            transition_tensor(map@, ints(PROBABILITIES@)),
            map@.rewards,
            discount_factor,
            SWEEPS as nat,
        ),
    )
}

/// A walk that is made one step longer is a walk.
pub proof fn lemma_walk_grows(
    map: GridWorld,
    policy: Seq<int>,
    start: int,
    strides: Seq<Stride>,
    at: int,
    to: int,
    end: int,
)
    requires
        map.wf(),
        is_walk(map, policy, start, strides, at),
        map@.is_state(at),
        !map@.is_wall(at),
        follows(map, policy, at, to),
        if is_first_goal(map, to) {
            map@.is_state(end) && !map@.is_wall(end)
        } else {
            end == to
        },
    ensures
        is_walk(map, policy, start, strides.push(Stride { from: at, to }), end),
{
    let longer = strides.push(Stride { from: at, to });
    assert forall|i: int| 0 <= i < longer.len() implies #[trigger] stride_in_order(
        map,
        policy,
        start,
        longer,
        i,
    ) by {
        if i < strides.len() {
            assert(stride_in_order(map, policy, start, strides, i));
            assert(longer[i] == strides[i]);
            if i > 0 {
                assert(longer[i - 1] == strides[i - 1]);
            }
        } else if i > 0 {
            assert(longer[i - 1] == strides.last());
        }
    }
}

/// The first goal cell is where `get_goal_position` finds it and nowhere else.
pub proof fn lemma_first_goal_is_unique(map: GridWorld, s: int, t: int)
    requires
        is_first_goal(map, s),
        is_first_goal(map, t),
    ensures
        s == t,
{
}

/// Lets `robot` walk `steps` steps under `policy` and returns the reward of the
/// cell it stands on after each step. A robot that has reached the goal is put
/// on an open cell drawn at random before its next step.
pub fn walk(
    map: &GridWorld,
    policy: &Vec<usize>,
    robot: &mut Robot,
    steps: usize,
    source: &mut RandomSource,
) -> (rewards: Vec<i64>)
    requires
        map.wf(),
        old(robot).on(*map),
        !map@.is_wall(old(robot).state_on(*map)),
        policy_valid(policy@),
    ensures
        final(robot).on(*map),
        !map@.is_wall(final(robot).state_on(*map)),
        final(robot).reliability() == old(robot).reliability(),
        rewards@.len() == steps,
        walked(
            *map,
            actions_of(policy@),
            old(robot).state_on(*map),
            final(robot).state_on(*map),
            rewards@,
        ),
{
    let goal = map.get_goal_position();
    let mut rewards: Vec<i64> = Vec::new();
    let mut k: usize = 0;
    let ghost actions = actions_of(policy@);
    let ghost start = robot.state_on(*map);
    let ghost mut strides: Seq<Stride> = Seq::empty();
    proof {
        map.lemma_view_wf();
        lemma_flat_index(map@, robot.place().row as int, robot.place().col as int);
        if goal is Some {
            lemma_flat_index(map@, goal->Some_0.row as int, goal->Some_0.col as int);
        }
    }
    while k < steps
        invariant
            map.wf(),
            map@.wf(),
            robot.on(*map),
            map@.is_state(robot.state_on(*map)),
            !map@.is_wall(robot.state_on(*map)),
            robot.reliability() == old(robot).reliability(),
            policy_valid(policy@),
            actions == actions_of(policy@),
            match goal {
                Some(p) => map@.in_bounds(p.row as int, p.col as int) && is_first_goal(
                    *map,
                    map@.flat(p.row as int, p.col as int),
                ),
                None => forall|s: int| 0 <= s < map@.size() ==> !map@.is_goal(s),
            },
            0 <= k <= steps,
            rewards@.len() == k,
            is_walk(*map, actions, start, strides, robot.state_on(*map)),
            rewards_along(*map, strides, rewards@),
        decreases steps - k,
    {
        let ghost s = robot.state_on(*map);
        proof {
            if s < policy@.len() {
                let a = policy@[s] as int;
                lemma_step_stays_open(*map, s, a);
                lemma_step_stays_open(*map, s, lateral_direction(a, true));
                lemma_step_stays_open(*map, s, lateral_direction(a, false));
            }
        }
        robot.update(policy, map, source);
        let position = robot.get_position();
        proof {
            lemma_flat_index(map@, position.row as int, position.col as int);
        }
        let reward = map.get_state(position.row, position.col).reward;
        let ghost t = robot.state_on(*map);
        let ghost before = rewards@;
        rewards.push(reward);
        if goal == Some(position) {
            let fresh = map.get_random_valid_position(source);
            proof {
                lemma_flat_index(map@, fresh.row as int, fresh.col as int);
            }
            robot.set_position(fresh);
        }
        proof {
            assert(follows(*map, actions, s, t));
            if is_first_goal(*map, t) {
                let p = goal->Some_0;
                lemma_flat_injective(
                    map@,
                    p.row as int,
                    p.col as int,
                    position.row as int,
                    position.col as int,
                );
            }
            lemma_walk_grows(*map, actions, start, strides, s, t, robot.state_on(*map));
            strides = strides.push(Stride { from: s, to: t });
            assert forall|i: int| 0 <= i < rewards@.len() implies #[trigger] rewards@[i]
                == map@.rewards[strides[i].to] by {
                if i < k {
                    assert(rewards@[i] == before[i]);
                }
            }
        }
        k = k + 1;
    }
    rewards
}

/// A step from an open cell ends on an open cell of the grid.
pub proof fn lemma_step_stays_open(map: GridWorld, s: int, direction: int)
    requires
        map.wf(),
        map@.is_state(s),
        !map@.is_wall(s),
    ensures
        map@.is_state(map@.moved(s, direction)),
        !map@.is_wall(map@.moved(s, direction)),
{
    map.lemma_view_wf();
    lemma_landing_is_state(map@, s, row_step(direction), col_step(direction));
    lemma_landing_is_open(map@, s, row_step(direction), col_step(direction));
}

/// A planner with a robot that follows its greedy policy, and the record of the
/// rewards the robot has met.
#[derive(Debug, Clone)]
pub struct Core {
    mdp: Mdp,
    robot: Robot,
    simulation_steps: u32,
    rewards: Vec<i64>,
    source: RandomSource,
}

impl Core {
    /// The planner.
    pub closed spec fn planner(self) -> Mdp {
        self.mdp
    }

    /// The robot.
    pub closed spec fn walker(self) -> Robot {
        self.robot
    }

    /// Number of steps simulated so far.
    pub closed spec fn steps(self) -> int {
        self.simulation_steps as int
    }

    /// The reward met after each step so far.
    pub closed spec fn record(self) -> Seq<i64> {
        self.rewards@
    }

    /// The planner is sound and the robot stands on an open cell of its grid.
    pub open spec fn wf(self) -> bool {
        &&& self.planner().wf()
        &&& self.walker().on(self.planner().world())
        &&& !self.planner().world()@.is_wall(self.walker().state_on(self.planner().world()))
    }

    /// Plans on `map` with the standard outcome probabilities and `SWEEPS` sweeps
    /// for `discount_factor`, and puts a robot whose moves succeed with
    /// `success_prob` on an open cell drawn at random. An inadmissible discount
    /// factor is reported before an inadmissible success probability.
    pub fn new(map: GridWorld, discount_factor: i64, success_prob: i64, seed: u64) -> (r: Result<
        Core,
        ConfigurationError,
    >)
        requires
            map.wf(),
        ensures
            match r {
                Ok(core) => {
                    &&& is_proper_fraction(discount_factor as int)
                    &&& is_probability(success_prob as int)
                    &&& core.wf()
                    &&& core.planner().world() == map
                    &&& core.planner().tensor() == transition_tensor(map@, ints(PROBABILITIES@))
                    &&& core.planner().values() == iterate(
                        core.planner().tensor(),
                        map@.rewards,
                        discount_factor as int,
                        SWEEPS as nat,
                    )
                    &&& core.walker().reliability() == success_prob
                    &&& core.steps() == 0
                    &&& core.record().len() == 0
                },
                Err(e) => if !is_proper_fraction(discount_factor as int) {
                    e == ConfigurationError::DiscountFactor
                } else {
                    !is_probability(success_prob as int) && e
                        == ConfigurationError::SuccessProbability
                },
            },
    {
        if discount_factor <= 0 || discount_factor >= SCALE {
            return Err(ConfigurationError::DiscountFactor);
        }
        if success_prob < 0 || success_prob > SCALE {
            return Err(ConfigurationError::SuccessProbability);
        }
        let mut source = RandomSource::new(seed);
        let initial_position = map.get_random_valid_position(&mut source);
        let mut mdp = match Mdp::new(map, &PROBABILITIES) {
            Ok(mdp) => mdp,
            Err(e) => {
                return Err(e);
            },
        };
        match mdp.value_iteration(discount_factor, SWEEPS) {
            Ok(_) => {},
            Err(e) => {
                return Err(e);
            },
        }
        let robot = match Robot::new(initial_position, success_prob) {
            Ok(robot) => robot,
            Err(e) => {
                return Err(e);
            },
        };
        Ok(Core { mdp, robot, simulation_steps: 0, rewards: Vec::new(), source })
    }

    /// The planner.
    pub fn mdp(&self) -> (mdp: &Mdp)
        ensures
            *mdp == self.planner(),
    {
        &self.mdp
    }

    /// The robot.
    pub fn robot(&self) -> (robot: &Robot)
        ensures
            *robot == self.walker(),
    {
        &self.robot
    }

    /// Number of steps simulated so far.
    pub fn simulation_steps(&self) -> (steps: u32)
        ensures
            steps == self.steps(),
    {
        self.simulation_steps
    }

    /// The reward met after each step so far.
    pub fn rewards(&self) -> (rewards: &Vec<i64>)
        ensures
            rewards@ == self.record(),
    {
        &self.rewards
    }

    /// Puts the robot on an open cell drawn at random.
    pub fn reset_robot(&mut self)
        requires
            old(self).wf(),
        ensures
            final(self).wf(),
            final(self).planner() == old(self).planner(),
            final(self).walker().reliability() == old(self).walker().reliability(),
            final(self).steps() == old(self).steps(),
            final(self).record() == old(self).record(),
    {
        let new_position = self.mdp.map().get_random_valid_position(&mut self.source);
        proof {
            lemma_flat_index(
                self.mdp.world()@,
                new_position.row as int,
                new_position.col as int,
            );
        }
        self.robot.set_position(new_position);
    }

    /// The reward of the cell on which the robot stands.
    pub fn get_reward(&self) -> (reward: i64)
        requires
            self.wf(),
        ensures
            reward == self.planner().world()@.rewards[self.walker().state_on(
                self.planner().world(),
            )],
    {
        let position = self.robot.get_position();
        self.mdp.map().get_state(position.row, position.col).reward
    }

    /// Simulates one step: the robot takes a step of the planner's greedy policy,
    /// the reward of the cell it reaches is recorded, and a robot that has
    /// reached the goal is put on an open cell drawn at random.
    pub fn simulate(&mut self)
        requires
            old(self).wf(),
            old(self).steps() < u32::MAX,
        ensures
            final(self).wf(),
            final(self).planner() == old(self).planner(),
            final(self).walker().reliability() == old(self).walker().reliability(),
            final(self).steps() == old(self).steps() + 1,
            final(self).record().len() == old(self).record().len() + 1,
            final(self).record().drop_last() == old(self).record(),
            walked(
                old(self).planner().world(),
                greedy(old(self).planner().values()),
                old(self).walker().state_on(old(self).planner().world()),
                final(self).walker().state_on(old(self).planner().world()),
                seq![final(self).record().last()],
            ),
    {
        let policy = self.mdp.get_max_policy();
        let ghost world = self.mdp.world();
        let ghost actions = greedy(self.mdp.values());
        let ghost s = self.robot.state_on(world);
        proof {
            world.lemma_view_wf();
            lemma_flat_index(world@, self.robot.place().row as int, self.robot.place().col as int);
            assert(is_argmax(self.mdp.values()[s], policy@[s] as int));
            assert(self.mdp.values()[s].len() == 4);
            let a = policy@[s] as int;
            lemma_step_stays_open(world, s, a);
            lemma_step_stays_open(world, s, lateral_direction(a, true));
            lemma_step_stays_open(world, s, lateral_direction(a, false));
        }
        self.robot.update(&policy, self.mdp.map(), &mut self.source);
        self.simulation_steps = self.simulation_steps + 1;
        let reward = self.get_reward();
        let ghost t = self.robot.state_on(world);
        let ghost before = self.rewards@;
        self.rewards.push(reward);
        proof {
            assert(self.rewards@.drop_last() =~= before);
        }
        let position = self.robot.get_position();
        let goal = self.mdp.map().get_goal_position();
        if goal == Some(position) {
            self.reset_robot();
        }
        proof {
            lemma_flat_index(world@, position.row as int, position.col as int);
            if goal is Some {
                lemma_flat_index(world@, goal->Some_0.row as int, goal->Some_0.col as int);
            }
            if is_first_goal(world, t) {
                let p = goal->Some_0;
                lemma_flat_injective(
                    world@,
                    p.row as int,
                    p.col as int,
                    position.row as int,
                    position.col as int,
                );
            }
            let end = self.robot.state_on(world);
            lemma_flat_index(world@, self.robot.place().row as int, self.robot.place().col as int);
            assert(follows(world, actions, s, t));
            let none: Seq<Stride> = Seq::empty();
            assert(is_walk(world, actions, s, none, s));
            lemma_walk_grows(world, actions, s, none, s, t, end);
            let strides = none.push(Stride { from: s, to: t });
            assert(is_walk(world, actions, s, strides, end));
            assert(rewards_along(world, strides, seq![self.rewards@.last()]));
        }
    }

    /// Compares planning under four discount factors with robots of four
    /// reliabilities: for each of `SUCCESS_PROBABILITIES` (outer index) and each
    /// of `DISCOUNT_FACTORS` (inner index) a robot walks `SIMULATION_STEPS` steps
    /// from an open cell drawn at random, under the greedy policy planned with
    /// `SWEEPS` sweeps for that discount factor, and the reward met after each
    /// step is returned.
    pub fn run_simulation(map: &GridWorld, seed: u64) -> (results: Vec<Vec<Vec<i64>>>)
        requires
            map.wf(),
        ensures
            results@.len() == 4,
            forall|i: int| 0 <= i < 4 ==> (#[trigger] results@[i])@.len() == 4,
            forall|i: int, j: int|
                0 <= i < 4 && 0 <= j < 4 ==> {
                    &&& (#[trigger] results@[i]@[j])@.len() == SIMULATION_STEPS
                    &&& met_on_a_walk(
                        *map,
                        planned(*map, DISCOUNT_FACTORS[j] as int),
                        results@[i]@[j]@,
                    )
                },
    {
        let mut source = RandomSource::new(seed);
        let transition_matrix = Mdp::gen_transicion_matrix(map);
        let mut policies: Vec<Vec<usize>> = Vec::new();
        let mut d: usize = 0;
        while d < 4
            invariant
                map.wf(),
                tensor_of(transition_matrix@) == transition_tensor(map@, ints(PROBABILITIES@)),
                tensor_fits(map@, tensor_of(transition_matrix@)),
                0 <= d <= 4,
                policies@.len() == d,
                forall|j: int| 0 <= j < d ==> policy_valid((#[trigger] policies@[j])@),
                forall|j: int|
                    0 <= j < d ==> actions_of((#[trigger] policies@[j])@) == planned(
                        *map,
                        DISCOUNT_FACTORS[j] as int,
                    ),
            decreases 4 - d,
        {
            let q = iterate_values(map, &transition_matrix, DISCOUNT_FACTORS[d], SWEEPS);
            let policy = greedy_policy(&q);
            proof {
                assert forall|s: int| 0 <= s < policy@.len() implies #[trigger] policy@[s]
                    < N_ACTIONS by {
                    assert(is_argmax(table_of(q@)[s], policy@[s] as int));
                    assert(table_of(q@)[s].len() == 4);
                }
                assert(actions_of(policy@) =~= planned(*map, DISCOUNT_FACTORS[d as int] as int));
            }
            policies.push(policy);
            d = d + 1;
        }
        let mut results: Vec<Vec<Vec<i64>>> = Vec::new();
        let mut p: usize = 0;
        while p < 4
            invariant
                map.wf(),
                policies@.len() == 4,
                forall|j: int| 0 <= j < 4 ==> policy_valid((#[trigger] policies@[j])@),
                forall|j: int|
                    0 <= j < 4 ==> actions_of((#[trigger] policies@[j])@) == planned(
                        *map,
                        DISCOUNT_FACTORS[j] as int,
                    ),
                0 <= p <= 4,
                results@.len() == p,
                forall|i: int| 0 <= i < p ==> (#[trigger] results@[i])@.len() == 4,
                forall|i: int, j: int|
                    0 <= i < p && 0 <= j < 4 ==> {
                        &&& (#[trigger] results@[i]@[j])@.len() == SIMULATION_STEPS
                        &&& met_on_a_walk(
                            *map,
                            planned(*map, DISCOUNT_FACTORS[j] as int),
                            results@[i]@[j]@,
                        )
                    },
            decreases 4 - p,
        {
            let mut row: Vec<Vec<i64>> = Vec::new();
            let mut d: usize = 0;
            while d < 4
                invariant
                    map.wf(),
                    policies@.len() == 4,
                    forall|j: int| 0 <= j < 4 ==> policy_valid((#[trigger] policies@[j])@),
                    forall|j: int|
                        0 <= j < 4 ==> actions_of((#[trigger] policies@[j])@) == planned(
                            *map,
                            DISCOUNT_FACTORS[j] as int,
                        ),
                    p < 4,
                    0 <= d <= 4,
                    row@.len() == d,
                    forall|j: int|
                        0 <= j < d ==> {
                            &&& (#[trigger] row@[j])@.len() == SIMULATION_STEPS
                            &&& met_on_a_walk(
                                *map,
                                planned(*map, DISCOUNT_FACTORS[j] as int),
                                row@[j]@,
                            )
                        },
                decreases 4 - d,
            {
                let initial_position = map.get_random_valid_position(&mut source);
                proof {
                    lemma_flat_index(
                        map@,
                        initial_position.row as int,
                        initial_position.col as int,
                    );
                }
                let mut robot = Robot::new(initial_position, SUCCESS_PROBABILITIES[p]).unwrap();
                assert(policy_valid(policies@[d as int]@));
                let ghost start = robot.state_on(*map);
                let rewards = walk(map, &policies[d], &mut robot, SIMULATION_STEPS, &mut source);
                proof {
                    assert(walked(
                        *map,
                        planned(*map, DISCOUNT_FACTORS[d as int] as int),
                        start,
                        robot.state_on(*map),
                        rewards@,
                    ));
                }
                row.push(rewards);
                d = d + 1;
            }
            results.push(row);
            p = p + 1;
        }
        results
    }
}

} // verus!
