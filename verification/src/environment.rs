//! Learning from experience: tabular Q-learning with an exploring agent that
//! walks the grid world episode by episode.
//!
//! The learner's world differs from the planner's model on purpose. In the
//! model an action has three outcomes, the intended move and a slip to either
//! side. The learner's moves have one chance of success: a move that fails is
//! not made at all and the agent stays where it is. Planning and learning are
//! two exercises, each with its own dynamics.

use vstd::prelude::*;
use crate::bellman::landing_value;
use crate::bellman::lemma_landing_bounded;
use crate::bellman::table_bounded;
use crate::bellman::zero_table;
use crate::error::ConfigurationError;
use crate::fixed::REWARD_LIMIT;
use crate::fixed::SCALE;
use crate::fixed::VALUE_LIMIT;
use crate::fixed::div_floor;
use crate::fixed::is_probability;
use crate::fixed::is_proper_fraction;
use crate::fixed::is_reward;
use crate::fixed::is_value;
use crate::fixed::lemma_floor_between;
use crate::fixed::scale_down;
use crate::fixed::scaled_product;
use crate::grid::Grid;
use crate::grid::N_ACTIONS;
use crate::mdp::zero_values;
use crate::policy::actions_of;
use crate::policy::argmax;
use crate::policy::first_argmax;
use crate::policy::greedy;
use crate::policy::greedy_policy;
use crate::policy::ints;
use crate::policy::lemma_row_max_bounded;
use crate::policy::policy_valid;
use crate::policy::table_of;
use crate::policy::table_shaped;
use crate::random::RandomSource;
use crate::random::happens;
use crate::status::StatusType;
use crate::world::GridWorld;
use crate::world::Position;
use crate::world::State;

verus! {

/// Learning rate of the standard configuration: 0.1.
pub const LEARNING_RATE: i64 = 100_000;

/// Exploration decay of the standard configuration: 0.9.
pub const EPSILON_DECAY: i64 = 900_000;

/// Discount factor of the standard configuration: 0.95.
pub const DISCOUNT_FACTOR: i64 = 950_000;

/// Exploration rate at the start of the standard configuration: 0.1.
pub const INITIAL_EPSILON: i64 = 100_000;

/// The success probabilities of the comparative runs: 0.3, 0.7 and 0.9.
pub const SUCCESS_PROBABILITIES: [i64; 3] = [300_000, 700_000, 900_000];

/// Number of episodes of the standard configuration.
pub const EPISODES: usize = 10000;

/// Step budget of an episode in the standard configuration.
pub const MAX_STEPS: usize = 1000;

/// What a learning run is configured with. All rates are in millionths.
#[derive(Debug, Clone, Copy, PartialEq, Eq, Structural)]
pub struct Config {
    /// Probability that an attempted move is carried out; otherwise the agent
    /// does not move in that step.
    pub success_prob: i64,
    /// Exploration rate at the start.
    pub epsilon: i64,
    /// Learning rate.
    pub learning_rate: i64,
    /// Discount factor.
    pub discount_factor: i64,
    /// Factor by which the exploration rate shrinks after every episode.
    pub epsilon_decay: i64,
    /// Number of episodes of a run.
    pub episodes: usize,
    /// Step budget of an episode.
    pub max_steps: usize,
}

/// What is wrong with a configuration, if anything. Of several faults the first
/// in this order is reported: success probability, exploration rate, learning
/// rate, discount factor, exploration decay.
pub open spec fn config_error(config: Config) -> Option<ConfigurationError> {
    if !is_probability(config.success_prob as int) {
        Some(ConfigurationError::SuccessProbability)
    } else if !is_probability(config.epsilon as int) {
        Some(ConfigurationError::Epsilon)
    } else if !(0 < config.learning_rate <= SCALE) {
        Some(ConfigurationError::LearningRate)
    } else if !is_proper_fraction(config.discount_factor as int) {
        Some(ConfigurationError::DiscountFactor)
    } else if !(0 <= config.epsilon_decay < SCALE) {
        Some(ConfigurationError::EpsilonDecay)
    } else {
        None
    }
}

impl Config {
    /// The standard configuration for a given success probability: exploration
    /// 0.1 decaying by 0.9, learning rate 0.1, discount factor 0.95, ten thousand
    /// episodes of at most a thousand steps.
    pub fn standard(success_prob: i64) -> (config: Config)
        ensures
            config == (Config {
                success_prob,
                epsilon: INITIAL_EPSILON,
                learning_rate: LEARNING_RATE,
                discount_factor: DISCOUNT_FACTOR,
                epsilon_decay: EPSILON_DECAY,
                episodes: EPISODES,
                max_steps: MAX_STEPS,
            }),
    {
        Config {
            success_prob,
            epsilon: INITIAL_EPSILON,
            learning_rate: LEARNING_RATE,
            discount_factor: DISCOUNT_FACTOR,
            epsilon_decay: EPSILON_DECAY,
            episodes: EPISODES,
            max_steps: MAX_STEPS,
        }
    }

    /// Checks the configuration.
    pub fn check(&self) -> (r: Result<(), ConfigurationError>)
        ensures
            match r {
                Ok(_) => config_error(*self) is None,
                Err(e) => config_error(*self) == Some(e),
            },
    {
        if self.success_prob < 0 || self.success_prob > SCALE {
            Err(ConfigurationError::SuccessProbability)
        } else if self.epsilon < 0 || self.epsilon > SCALE {
            Err(ConfigurationError::Epsilon)
        } else if self.learning_rate <= 0 || self.learning_rate > SCALE {
            Err(ConfigurationError::LearningRate)
        } else if self.discount_factor <= 0 || self.discount_factor >= SCALE {
            Err(ConfigurationError::DiscountFactor)
        } else if self.epsilon_decay < 0 || self.epsilon_decay >= SCALE {
            Err(ConfigurationError::EpsilonDecay)
        } else {
            Ok(())
        }
    }
}

/// The new estimate of an action value: the old estimate and the target, mixed
/// in the proportion of the learning rate and rounded down to a millionth. The
/// target carries two factors of `SCALE`.
pub open spec fn td_update(old_q: int, learning_rate: int, target: int) -> int {
    ((SCALE - learning_rate) * old_q * SCALE + learning_rate * target) / (SCALE * SCALE)
}

/// The table `q` after one step of learning: the entry of state `s` and action
/// `a` moves towards the reward collected plus the discounted largest value of
/// the state `next` that was reached. No other entry changes.
pub open spec fn learned(
    q: Seq<Seq<int>>,
    s: int,
    a: int,
    reward: int,
    next: int,
    learning_rate: int,
    discount_factor: int,
) -> Seq<Seq<int>> {
    q.update(
        s,
        q[s].update(
            a,
            td_update(q[s][a], learning_rate, landing_value(reward, discount_factor, q[next])),
        ),
    )
}

/// The exploration rate after `episodes` episodes.
pub open spec fn decayed(epsilon: int, decay: int, episodes: nat) -> int
    decreases episodes,
{
    if episodes == 0 {
        epsilon
    } else {
        scaled_product(decay, decayed(epsilon, decay, (episodes - 1) as nat))
    }
}

/// Where a walk has come to: the action values, the state of the agent, the
/// number of steps taken and the reward collected.
pub struct WalkEnd {
    pub values: Seq<Seq<int>>,
    pub state: int,
    pub steps: nat,
    pub reward: int,
}

/// The greedy walk: what an episode comes to when the agent always takes the
/// greedy action and every move succeeds. After `done` steps with `reward`
/// collected the agent is in state `s` with the action values `q`; in every
/// further step it moves in the direction of the greedy action and learns from
/// the cell it lands on, until it lands on the goal or `budget` steps are done.
pub open spec fn greedy_walk(
    g: Grid,
    q: Seq<Seq<int>>,
    s: int,
    learning_rate: int,
    discount_factor: int,
    done: nat,
    budget: nat,
    reward: int,
) -> WalkEnd
    decreases budget - done,
{
    if done >= budget {
        WalkEnd { values: q, state: s, steps: done, reward }
    } else {
        let action = first_argmax(q[s]);
        let t = g.moved(s, action);
        let q1 = learned(q, s, action, g.rewards[t], t, learning_rate, discount_factor);
        let r1 = reward + g.rewards[t];
        if g.is_goal(t) {
            WalkEnd { values: q1, state: t, steps: done + 1, reward: r1 }
        } else {
            greedy_walk(g, q1, t, learning_rate, discount_factor, done + 1, budget, r1)
        }
    }
}

/// One step of an episode: the state the agent was in, the action it chose, the
/// state it was in afterwards, and the action values before and after it learnt
/// from the step.
pub struct Experience {
    pub state: int,
    pub action: int,
    pub next: int,
    pub before: Seq<Seq<int>>,
    pub after: Seq<Seq<int>>,
}

/// Step `i` of an episode is in order. The action is one of the four, and the
/// greedy one where nothing is explored; the agent lands where the action leads
/// or stays, and never stays where moves always succeed, nor moves where they
/// never do; the values change as learning from the step says; and the step
/// begins where the episode began or where the step before it ended, which was
/// not on the goal.
pub open spec fn experience_in_order(
    g: Grid,
    settings: Config,
    epsilon: int,
    start: int,
    values: Seq<Seq<int>>,
    trail: Seq<Experience>,
    i: int,
) -> bool {
    &&& 0 <= trail[i].action < N_ACTIONS
    &&& trail[i].next == g.moved(trail[i].state, trail[i].action) || trail[i].next
        == trail[i].state
    &&& epsilon == 0 ==> trail[i].action == first_argmax(trail[i].before[trail[i].state])
    &&& settings.success_prob == SCALE ==> trail[i].next == g.moved(
        trail[i].state,
        trail[i].action,
    )
    &&& settings.success_prob == 0 ==> trail[i].next == trail[i].state
    &&& trail[i].after == learned(
        trail[i].before,
        trail[i].state,
        trail[i].action,
        g.rewards[trail[i].next],
        trail[i].next,
        settings.learning_rate as int,
        settings.discount_factor as int,
    )
    &&& i == 0 ==> trail[i].state == start && trail[i].before == values
    &&& i > 0 ==> trail[i].state == trail[i - 1].next && trail[i].before == trail[i - 1].after
        && !g.is_goal(trail[i - 1].next)
}

/// `trail` is an episode from the state `start` with the action values
/// `values`: every step is in order, and the episode ended on the goal or with
/// the step budget.
pub open spec fn is_episode(
    g: Grid,
    settings: Config,
    epsilon: int,
    start: int,
    values: Seq<Seq<int>>,
    trail: Seq<Experience>,
) -> bool {
    &&& trail.len() <= settings.max_steps
    &&& forall|i: int|
        0 <= i < trail.len() ==> #[trigger] experience_in_order(
            g,
            settings,
            epsilon,
            start,
            values,
            trail,
            i,
        )
    &&& trail.len() < settings.max_steps ==> trail.len() > 0 && g.is_goal(trail.last().next)
}

/// The action values at the end of an episode.
pub open spec fn values_after(values: Seq<Seq<int>>, trail: Seq<Experience>) -> Seq<Seq<int>> {
    if trail.len() == 0 {
        values
    } else {
        trail.last().after
    }
}

/// The state of the agent at the end of an episode.
pub open spec fn state_after(start: int, trail: Seq<Experience>) -> int {
    if trail.len() == 0 {
        start
    } else {
        trail.last().next
    }
}

/// The reward collected on the first `n` steps of an episode.
pub open spec fn collected(g: Grid, trail: Seq<Experience>, n: int) -> int
    decreases n,
{
    if n <= 0 {
        0
    } else {
        collected(g, trail, n - 1) + g.rewards[trail[n - 1].next]
    }
}

/// Some episode from the state `start` with the action values `values` takes
/// `steps` steps, collects `reward` and leaves the agent in the state `end`
/// with the action values `learnt`.
pub open spec fn episode_leads(
    g: Grid,
    settings: Config,
    epsilon: int,
    start: int,
    values: Seq<Seq<int>>,
    end: int,
    learnt: Seq<Seq<int>>,
    steps: int,
    reward: int,
) -> bool {
    exists|trail: Seq<Experience>|
        {
            &&& #[trigger] is_episode(g, settings, epsilon, start, values, trail)
            &&& trail.len() == steps
            &&& learnt == values_after(values, trail)
            &&& end == state_after(start, trail)
            &&& reward == collected(g, trail, trail.len() as int)
        }
}

/// Some episode from an open cell with the action values `values` takes `steps`
/// steps, collects `reward` and leaves the action values `learnt`.
pub open spec fn episode_teaches(
    g: Grid,
    settings: Config,
    epsilon: int,
    values: Seq<Seq<int>>,
    learnt: Seq<Seq<int>>,
    steps: int,
    reward: int,
) -> bool {
    exists|start: int, end: int|
        g.is_state(start) && !g.is_wall(start) && #[trigger] episode_leads(
            g,
            settings,
            epsilon,
            start,
            values,
            end,
            learnt,
            steps,
            reward,
        )
}

/// The reward collected does not depend on what follows the steps counted.
pub proof fn lemma_collected_prefix(g: Grid, trail: Seq<Experience>, more: Experience, n: int)
    requires
        0 <= n <= trail.len(),
    ensures
        collected(g, trail.push(more), n) == collected(g, trail, n),
    decreases n,
{
    if n > 0 {
        lemma_collected_prefix(g, trail, more, n - 1);
        assert(trail.push(more)[n - 1] == trail[n - 1]);
    }
}

/// An unfinished episode that is made one step longer by a step in order is an
/// episode in the making: every step of it is in order.
pub proof fn lemma_trail_grows(
    g: Grid,
    settings: Config,
    epsilon: int,
    start: int,
    values: Seq<Seq<int>>,
    trail: Seq<Experience>,
    more: Experience,
)
    requires
        forall|i: int|
            0 <= i < trail.len() ==> #[trigger] experience_in_order(
                g,
                settings,
                epsilon,
                start,
                values,
                trail,
                i,
            ),
        experience_in_order(g, settings, epsilon, start, values, trail.push(more), trail.len() as int),
    ensures
        forall|i: int|
            0 <= i < trail.len() + 1 ==> #[trigger] experience_in_order(
                g,
                settings,
                epsilon,
                start,
                values,
                trail.push(more),
                i,
            ),
        collected(g, trail.push(more), trail.len() as int + 1) == collected(g, trail, trail.len() as int)
            + g.rewards[more.next],
{
    let longer = trail.push(more);
    assert forall|i: int| 0 <= i < trail.len() + 1 implies #[trigger] experience_in_order(
        g,
        settings,
        epsilon,
        start,
        values,
        longer,
        i,
    ) by {
        if i < trail.len() {
            assert(experience_in_order(g, settings, epsilon, start, values, trail, i));
            assert(longer[i] == trail[i]);
            if i > 0 {
                assert(longer[i - 1] == trail[i - 1]);
            }
        }
    }
    lemma_collected_prefix(g, trail, more, trail.len() as int);
    assert(longer[trail.len() as int] == more);
}

/// Episode `k` of a training run is on record: it began with the action values
/// `tables[k]` and the exploration rate that `k` decays have left, it took the
/// steps and collected the reward that are recorded, it left the action values
/// `tables[k + 1]`, and the policy recorded is the greedy policy of these.
pub open spec fn episode_recorded(
    g: Grid,
    settings: Config,
    epsilon: int,
    tables: Seq<Seq<Seq<int>>>,
    episodes: Seq<Episode>,
    k: int,
) -> bool {
    &&& episode_teaches(
        g,
        settings,
        decayed(epsilon, settings.epsilon_decay as int, k as nat),
        tables[k],
        tables[k + 1],
        episodes[k].steps as int,
        episodes[k].reward as int,
    )
    &&& actions_of(episodes[k].policy@) == greedy(tables[k + 1])
}

/// `episodes` is the record of a training run that began with the action values
/// `values` and the exploration rate `epsilon` and left the action values
/// `learnt`: the episodes follow one another, each beginning with the action
/// values that the one before it left.
pub open spec fn is_training(
    g: Grid,
    settings: Config,
    epsilon: int,
    values: Seq<Seq<int>>,
    learnt: Seq<Seq<int>>,
    episodes: Seq<Episode>,
) -> bool {
    exists|tables: Seq<Seq<Seq<int>>>|
        {
            &&& tables.len() == episodes.len() + 1
            &&& tables[0] == values
            &&& tables[episodes.len() as int] == learnt
            &&& forall|k: int|
                0 <= k < episodes.len() ==> #[trigger] episode_recorded(
                    g,
                    settings,
                    epsilon,
                    tables,
                    episodes,
                    k,
                )
        }
}

/// Mixing an admissible value with an admissible target gives an admissible
/// value.
pub proof fn lemma_td_update_bounded(old_q: int, learning_rate: int, target: int)
    requires
        is_value(old_q),
        0 < learning_rate <= SCALE,
        -(VALUE_LIMIT * SCALE) <= target <= VALUE_LIMIT * SCALE,
    ensures
        is_value(td_update(old_q, learning_rate, target)),
        -(VALUE_LIMIT * SCALE * SCALE) <= (SCALE - learning_rate) * old_q * SCALE + learning_rate
            * target <= VALUE_LIMIT * SCALE * SCALE,
        -(SCALE * VALUE_LIMIT) <= (SCALE - learning_rate) * old_q <= SCALE * VALUE_LIMIT,
        -(VALUE_LIMIT * SCALE * SCALE) <= learning_rate * target <= VALUE_LIMIT * SCALE * SCALE,
{
    let keep = SCALE - learning_rate;
    let bound = VALUE_LIMIT * SCALE;
    assert(-(keep * VALUE_LIMIT) <= keep * old_q <= keep * VALUE_LIMIT) by (nonlinear_arith)
        requires
            keep >= 0,
            -VALUE_LIMIT <= old_q <= VALUE_LIMIT,
    ;
    assert(keep * VALUE_LIMIT <= SCALE * VALUE_LIMIT) by (nonlinear_arith)
        requires
            0 <= keep <= SCALE,
    ;
    assert(keep * old_q * SCALE == (keep * old_q) * SCALE);
    assert(-(keep * bound) <= (keep * old_q) * SCALE <= keep * bound) by (nonlinear_arith)
        requires
            -(keep * VALUE_LIMIT) <= keep * old_q <= keep * VALUE_LIMIT,
            bound == VALUE_LIMIT * SCALE,
    ;
    assert(-(learning_rate * bound) <= learning_rate * target <= learning_rate * bound)
        by (nonlinear_arith)
        requires
            learning_rate > 0,
            -bound <= target <= bound,
    ;
    assert(keep * bound + learning_rate * bound == SCALE * bound) by (nonlinear_arith)
        requires
            keep == SCALE - learning_rate,
    ;
    assert(learning_rate * bound <= SCALE * bound) by (nonlinear_arith)
        requires
            0 < learning_rate <= SCALE,
            bound >= 0,
    ;
    assert(SCALE * bound == VALUE_LIMIT * (SCALE * SCALE)) by (nonlinear_arith)
        requires
            bound == VALUE_LIMIT * SCALE,
    ;
    assert(VALUE_LIMIT * SCALE * SCALE == VALUE_LIMIT * (SCALE * SCALE)) by (nonlinear_arith);
    assert((-(VALUE_LIMIT as int)) * (SCALE * SCALE) == -(VALUE_LIMIT * (SCALE * SCALE)))
        by (nonlinear_arith);
    lemma_floor_between(
        keep * old_q * SCALE + learning_rate * target,
        SCALE * SCALE,
        -(VALUE_LIMIT as int),
        VALUE_LIMIT as int,
    );
}

/// The new estimate of an action value after one step of learning.
pub(crate) fn td_update_of(old_q: i64, learning_rate: i64, target: i128) -> (new_q: i64)
    requires
        is_value(old_q as int),
        0 < learning_rate <= SCALE,
        -(VALUE_LIMIT * SCALE) <= target <= VALUE_LIMIT * SCALE,
    ensures
        new_q == td_update(old_q as int, learning_rate as int, target as int),
        is_value(new_q as int),
{
    proof {
        lemma_td_update_bounded(old_q as int, learning_rate as int, target as int);
    }
    let keep: i128 = (SCALE - learning_rate) as i128;
    let kept: i128 = keep * (old_q as i128);
    let mixed: i128 = kept * (SCALE as i128) + (learning_rate as i128) * target;
    let q = div_floor(mixed, (SCALE as i128) * (SCALE as i128));
    q as i64
}

/// Whether a table has one row of four admissible values for each of `n` states,
/// and if not, what is wrong with it: the shape where a row or a value is missing
/// or in excess, else the range of a value.
pub fn check_table(q: &Vec<Vec<i64>>, n: usize) -> (r: Result<(), ConfigurationError>)
    ensures
        match r {
            Ok(_) => table_shaped(table_of(q@), n as nat) && table_bounded(table_of(q@)),
            Err(e) => if !table_shaped(table_of(q@), n as nat) {
                e == ConfigurationError::Shape
            } else {
                !table_bounded(table_of(q@)) && e == ConfigurationError::ValueOutOfRange
            },
        },
{
    let ghost table = table_of(q@);
    if q.len() != n {
        return Err(ConfigurationError::Shape);
    }
    let mut s: usize = 0;
    while s < n
        invariant
            table == table_of(q@),
            q@.len() == n,
            0 <= s <= n,
            forall|u: int| 0 <= u < s ==> (#[trigger] table[u]).len() == 4,
        decreases n - s,
    {
        if q[s].len() != 4 {
            assert(table[s as int].len() != 4);
            return Err(ConfigurationError::Shape);
        }
        s = s + 1;
    }
    assert(table_shaped(table, n as nat));
    let mut s: usize = 0;
    while s < n
        invariant
            table == table_of(q@),
            table_shaped(table, n as nat),
            0 <= s <= n,
            forall|u: int, a: int| 0 <= u < s && 0 <= a < 4 ==> is_value(#[trigger] table[u][a]),
        decreases n - s,
    {
        let mut a: usize = 0;
        assert(table[s as int].len() == 4);
        while a < 4
            invariant
                table == table_of(q@),
                table_shaped(table, n as nat),
                0 <= s < n,
                0 <= a <= 4,
                forall|b: int| 0 <= b < a ==> is_value(#[trigger] table[s as int][b]),
            decreases 4 - a,
        {
            assert(table[s as int].len() == 4);
            let v = q[s][a];
            assert(table[s as int][a as int] == v);
            if v < -VALUE_LIMIT || v > VALUE_LIMIT {
                return Err(ConfigurationError::ValueOutOfRange);
            }
            a = a + 1;
        }
        s = s + 1;
    }
    assert(table_bounded(table)) by {
        assert forall|u: int, a: int| 0 <= u < table.len() && 0 <= a < table[u].len() implies is_value(
            #[trigger] table[u][a],
        ) by {
            assert(table[u].len() == 4);
        }
    }
    Ok(())
}

/// What an episode leaves behind: the reward collected, the number of steps
/// taken, and the greedy policy of the action values at its end.
#[derive(Debug, Clone)]
pub struct Episode {
    pub reward: i128,
    pub steps: usize,
    pub policy: Vec<usize>,
}

/// The learner: a grid world, the agent's place in it, the action values learnt
/// so far and the current exploration rate.
#[derive(Debug, Clone)]
pub struct Environment {
    map: GridWorld,
    agent_position: Position,
    q_table: Vec<Vec<i64>>,
    config: Config,
    epsilon: i64,
    source: RandomSource,
}

impl Environment {
    /// The grid world that is learnt.
    pub closed spec fn world(self) -> GridWorld {
        self.map
    }

    /// Where the agent stands.
    pub closed spec fn position(self) -> Position {
        self.agent_position
    }

    /// The action values, `values[state][action]`.
    pub closed spec fn values(self) -> Seq<Seq<int>> {
        table_of(self.q_table@)
    }

    /// The configuration of the run.
    pub closed spec fn settings(self) -> Config {
        self.config
    }

    /// The current exploration rate.
    pub closed spec fn exploration(self) -> int {
        self.epsilon as int
    }

    /// The state in which the agent is.
    pub open spec fn agent_state(self) -> int {
        self.world()@.flat(self.position().row as int, self.position().col as int)
    }

    /// The configuration is faultless, the agent stands on the grid, the table
    /// has one admissible value for each state and action, and the exploration
    /// rate is a probability.
    pub open spec fn wf(self) -> bool {
        &&& self.world().wf()
        &&& config_error(self.settings()) is None
        &&& self.world()@.in_bounds(self.position().row as int, self.position().col as int)
        &&& table_shaped(self.values(), self.world()@.size())
        &&& table_bounded(self.values())
        &&& is_probability(self.exploration())
    }

    /// `other` differs from `self` at most in what chance will bring next.
    pub open spec fn same_knowledge(self, other: Environment) -> bool {
        &&& self.world() == other.world()
        &&& self.settings() == other.settings()
        &&& self.values() == other.values()
        &&& self.exploration() == other.exploration()
    }

    /// A learner on `map` that knows nothing: every action value is zero. The
    /// agent stands in the first cell until it is reset. All random draws come
    /// from a source seeded with `seed`.
    pub fn new(map: GridWorld, config: Config, seed: u64) -> (r: Result<
        Environment,
        ConfigurationError,
    >)
        requires
            map.wf(),
        ensures
            match r {
                Ok(env) => {
                    &&& config_error(config) is None
                    &&& env.wf()
                    &&& env.world() == map
                    &&& env.settings() == config
                    &&& env.values() == zero_table(map@.size())
                    &&& env.exploration() == config.epsilon
                    &&& env.position() == (Position { row: 0, col: 0 })
                },
                Err(e) => config_error(config) == Some(e),
            },
    {
        match config.check() {
            Ok(_) => {},
            Err(e) => {
                return Err(e);
            },
        }
        let q_table = zero_values(map.n_states());
        proof {
            map.lemma_view_wf();
        }
        Ok(
            Environment {
                map,
                agent_position: Position { row: 0, col: 0 },
                q_table,
                config,
                epsilon: config.epsilon,
                source: RandomSource::new(seed),
            },
        )
    }

    /// The grid world that is learnt.
    pub fn map(&self) -> (map: &GridWorld)
        ensures
            *map == self.world(),
    {
        &self.map
    }

    /// Where the agent stands.
    pub fn agent_position(&self) -> (position: Position)
        ensures
            position == self.position(),
    {
        self.agent_position
    }

    /// The action values learnt so far, `values[state][action]`.
    pub fn q_table(&self) -> (q: &Vec<Vec<i64>>)
        ensures
            table_of(q@) == self.values(),
    {
        &self.q_table
    }

    /// The current exploration rate.
    pub fn epsilon(&self) -> (epsilon: i64)
        ensures
            epsilon == self.exploration(),
    {
        self.epsilon
    }

    /// The configuration of the run.
    pub fn config(&self) -> (config: Config)
        ensures
            config == self.settings(),
    {
        self.config
    }

    /// Replaces the action values by `q`, which is accepted only if it has one
    /// row of four admissible values for every state.
    pub fn set_q_table(&mut self, q: Vec<Vec<i64>>) -> (r: Result<(), ConfigurationError>)
        requires
            old(self).wf(),
        ensures
            final(self).wf(),
            final(self).world() == old(self).world(),
            final(self).settings() == old(self).settings(),
            final(self).exploration() == old(self).exploration(),
            final(self).position() == old(self).position(),
            match r {
                Ok(_) => {
                    &&& table_shaped(table_of(q@), old(self).world()@.size())
                    &&& table_bounded(table_of(q@))
                    &&& final(self).values() == table_of(q@)
                },
                Err(e) => {
                    &&& final(self).values() == old(self).values()
                    &&& if !table_shaped(table_of(q@), old(self).world()@.size()) {
                        e == ConfigurationError::Shape
                    } else {
                        !table_bounded(table_of(q@)) && e == ConfigurationError::ValueOutOfRange
                    }
                },
            },
    {
        let n = self.map.n_states();
        match check_table(&q, n) {
            Ok(_) => {},
            Err(e) => {
                return Err(e);
            },
        }
        self.q_table = q;
        Ok(())
    }

    /// The cell at row `i` and column `j`.
    pub fn get_state(&self, i: usize, j: usize) -> (state: &State)
        requires
            self.wf(),
            self.world()@.in_bounds(i as int, j as int),
        ensures
            self.world().is_cell(*state),
            state.position == (Position { row: i, col: j }),
    {
        self.map.get_state(i, j)
    }

    /// Puts the agent on an open cell drawn at random and returns that cell.
    pub fn reset_agent(&mut self) -> (state: State)
        requires
            old(self).wf(),
        ensures
            final(self).wf(),
            old(self).same_knowledge(*final(self)),
            final(self).world().is_cell(state),
            state.position == final(self).position(),
            state.kind != StatusType::Wall,
    {
        let position = self.map.get_random_valid_position(&mut self.source);
        self.agent_position = position;
        *self.map.get_state(position.row, position.col)
    }

    /// An open cell drawn at random.
    pub fn get_random_state(&mut self) -> (state: State)
        requires
            old(self).wf(),
        ensures
            final(self).wf(),
            old(self).same_knowledge(*final(self)),
            final(self).position() == old(self).position(),
            final(self).world().is_cell(state),
            state.kind != StatusType::Wall,
    {
        let position = self.map.get_random_valid_position(&mut self.source);
        *self.map.get_state(position.row, position.col)
    }

    /// The greedy action in `state`: the first of the actions north, south, east,
    /// west whose value is largest.
    pub fn get_best_action(&self, state: &State) -> (action: usize)
        requires
            self.wf(),
            self.world()@.is_state(state.index as int),
        ensures
            action == first_argmax(self.values()[state.index as int]),
            action < N_ACTIONS,
    {
        assert(self.values()[state.index as int].len() == 4);
        argmax(self.q_table[state.index].as_slice())
    }

    /// Chooses an action in `state`: with the probability of the exploration rate
    /// any of the four actions, drawn at random, and else the greedy action.
    /// With an exploration rate of zero the choice is always the greedy action.
    pub fn choose_action(&mut self, state: &State) -> (action: usize)
        requires
            old(self).wf(),
            old(self).world()@.is_state(state.index as int),
        ensures
            final(self).wf(),
            old(self).same_knowledge(*final(self)),
            final(self).position() == old(self).position(),
            action < N_ACTIONS,
            old(self).exploration() == 0 ==> action == first_argmax(
                old(self).values()[state.index as int],
            ),
    {
        let draw = self.source.fraction();
        if happens(self.epsilon, draw) {
            self.source.index_below(4)
        } else {
            self.get_best_action(state)
        }
    }

    /// Moves the agent one step, or leaves it where it is. Where `attempt` holds,
    /// the agent moves in the direction of `action` and is turned back by the
    /// edge of the grid and by walls; where it does not hold, the agent does not
    /// move at all. Returns the cell on which the agent then stands.
    pub fn advance(&mut self, current_state: &State, action: usize, attempt: bool) -> (next: State)
        requires
            old(self).wf(),
            old(self).world().is_cell(*current_state),
            current_state.position == old(self).position(),
            action < N_ACTIONS,
        ensures
            final(self).wf(),
            old(self).same_knowledge(*final(self)),
            final(self).world().is_cell(next),
            next.position == final(self).position(),
            next.index == if attempt {
                old(self).world()@.moved(current_state.index as int, action as int)
            } else {
                current_state.index as int
            },
    {
        proof {
            self.map.lemma_cell(*current_state);
        }
        if !attempt {
            return *current_state;
        }
        let to = self.map.moved(self.agent_position, action);
        self.agent_position = to;
        let next = *self.map.get_state(to.row, to.col);
        proof {
            self.map.lemma_cell(next);
        }
        next
    }

    /// Attempts the move `action` from `current_state`: with the probability of
    /// success the agent moves as `advance` says, else it does not move. Returns
    /// the cell on which the agent then stands.
    pub fn step(&mut self, current_state: &State, action: usize) -> (next: State)
        requires
            old(self).wf(),
            old(self).world().is_cell(*current_state),
            current_state.position == old(self).position(),
            action < N_ACTIONS,
        ensures
            final(self).wf(),
            old(self).same_knowledge(*final(self)),
            final(self).world().is_cell(next),
            next.position == final(self).position(),
            next.index == old(self).world()@.moved(current_state.index as int, action as int)
                || next.index == current_state.index,
            old(self).settings().success_prob == SCALE ==> next.index == old(self).world()@.moved(
                current_state.index as int,
                action as int,
            ),
            old(self).settings().success_prob == 0 ==> next.index == current_state.index,
    {
        let draw = self.source.fraction();
        let attempt = happens(self.config.success_prob, draw);
        self.advance(current_state, action, attempt)
    }

    /// Learns from one step: the value of `action` in `current_state` moves
    /// towards the reward of `next_state` plus the discounted largest value
    /// there, in the proportion of the learning rate. No other value changes.
    pub fn update_q_table(&mut self, current_state: &State, action: usize, next_state: &State)
        requires
            old(self).wf(),
            old(self).world()@.is_state(current_state.index as int),
            old(self).world()@.is_state(next_state.index as int),
            is_reward(next_state.reward as int),
            action < N_ACTIONS,
        ensures
            final(self).wf(),
            final(self).world() == old(self).world(),
            final(self).settings() == old(self).settings(),
            final(self).exploration() == old(self).exploration(),
            final(self).position() == old(self).position(),
            final(self).values() == learned(
                old(self).values(),
                current_state.index as int,
                action as int,
                next_state.reward as int,
                next_state.index as int,
                old(self).settings().learning_rate as int,
                old(self).settings().discount_factor as int,
            ),
    {
        let ghost before = self.values();
        let ghost s = current_state.index as int;
        let ghost t = next_state.index as int;
        assert(before[t].len() == 4);
        assert(before[s].len() == 4);
        assert(before[t] == ints(self.q_table@[t]@));
        assert(before[s] == ints(self.q_table@[s]@));
        let max_future_q_index = argmax(self.q_table[next_state.index].as_slice());
        let max_future_q = self.q_table[next_state.index][max_future_q_index];
        let old_q = self.q_table[current_state.index][action];
        proof {
            assert(is_value(before[s][action as int]));
            assert forall|a: int| 0 <= a < before[t].len() implies is_value(#[trigger] before[t][a]) by {}
            lemma_landing_bounded(
                next_state.reward as int,
                self.config.discount_factor as int,
                before[t],
            );
            lemma_row_max_bounded(before[t], -(VALUE_LIMIT as int), VALUE_LIMIT as int);
            assert(-(REWARD_LIMIT * SCALE) <= next_state.reward * SCALE <= REWARD_LIMIT * SCALE)
                by (nonlinear_arith)
                requires
                    -REWARD_LIMIT <= next_state.reward <= REWARD_LIMIT,
            ;
            assert(-(SCALE * VALUE_LIMIT) <= self.config.discount_factor * max_future_q <= SCALE
                * VALUE_LIMIT) by (nonlinear_arith)
                requires
                    0 < self.config.discount_factor < SCALE,
                    -VALUE_LIMIT <= max_future_q <= VALUE_LIMIT,
            ;
        }
        let target: i128 = (next_state.reward as i128) * (SCALE as i128) + (
        self.config.discount_factor as i128) * (max_future_q as i128);
        let new_q = td_update_of(old_q, self.config.learning_rate, target);
        self.q_table[current_state.index][action] = new_q;
        proof {
            let after = self.values();
            let wanted = learned(
                before,
                s,
                action as int,
                next_state.reward as int,
                t,
                self.config.learning_rate as int,
                self.config.discount_factor as int,
            );
            assert forall|u: int| 0 <= u < after.len() implies #[trigger] after[u] == wanted[u] by {
                if u == s {
                    assert(after[u] =~= wanted[u]);
                } else {
                    assert(after[u] == ints(self.q_table@[u]@));
                    assert(before[u] == ints(old(self).q_table@[u]@));
                }
            }
            assert(after =~= wanted);
            assert forall|u: int, a: int| 0 <= u < after.len() && 0 <= a < after[u].len() implies is_value(
                #[trigger] after[u][a],
            ) by {
                if u == s {
                } else {
                    assert(after[u] == before[u]);
                    assert(is_value(before[u][a]));
                }
            }
        }
    }
    /// Runs one episode from the cell `start`, on which the agent stands. In every
    /// step the agent chooses an action, attempts the move and learns from what
    /// it finds; the episode ends when the agent stands on the goal or when the
    /// step budget is used up. Afterwards the exploration rate shrinks by the
    /// decay factor.
    ///
    /// Without exploration and with moves that always succeed nothing is left to
    /// chance: the episode is the greedy walk from `start`.
    pub fn run_episode_from(&mut self, start: &State) -> (episode: Episode)
        requires
            old(self).wf(),
            old(self).world().is_cell(*start),
            start.position == old(self).position(),
        ensures
            final(self).wf(),
            final(self).world() == old(self).world(),
            final(self).settings() == old(self).settings(),
            final(self).exploration() == scaled_product(
                old(self).settings().epsilon_decay as int,
                old(self).exploration(),
            ),
            episode.steps <= old(self).settings().max_steps,
            old(self).settings().max_steps > 0 ==> episode.steps >= 1,
            episode.steps < old(self).settings().max_steps ==> final(self).world()@.is_goal(
                final(self).agent_state(),
            ),
            -(episode.steps * REWARD_LIMIT) <= episode.reward <= episode.steps * REWARD_LIMIT,
            episode.policy@.len() == final(self).world()@.size(),
            policy_valid(episode.policy@),
            actions_of(episode.policy@) == greedy(final(self).values()),
            episode_leads(
                old(self).world()@,
                old(self).settings(),
                old(self).exploration(),
                start.index as int,
                old(self).values(),
                final(self).agent_state(),
                final(self).values(),
                episode.steps as int,
                episode.reward as int,
            ),
            old(self).exploration() == 0 && old(self).settings().success_prob == SCALE ==> ({
                let end = greedy_walk(
                    old(self).world()@,
                    old(self).values(),
                    start.index as int,
                    old(self).settings().learning_rate as int,
                    old(self).settings().discount_factor as int,
                    0,
                    old(self).settings().max_steps as nat,
                    0,
                );
                &&& final(self).values() == end.values
                &&& final(self).agent_state() == end.state
                &&& episode.steps == end.steps
                &&& episode.reward == end.reward
            }),
    {
        let max_steps = self.config.max_steps;
        let mut current_state = *start;
        let mut steps: usize = 0;
        let mut total_reward: i128 = 0;
        let mut reached = false;
        let ghost g = self.world()@;
        let ghost alpha = self.config.learning_rate as int;
        let ghost gamma = self.config.discount_factor as int;
        let ghost sure = self.exploration() == 0 && self.config.success_prob == SCALE;
        let ghost end = greedy_walk(
            g,
            self.values(),
            start.index as int,
            alpha,
            gamma,
            0,
            max_steps as nat,
            0,
        );
        let ghost settings = self.settings();
        let ghost epsilon = self.exploration();
        let ghost values = self.values();
        let ghost mut trail: Seq<Experience> = Seq::empty();
        proof {
            assert(0 * REWARD_LIMIT == 0) by (nonlinear_arith);
        }
        while steps < max_steps && !reached
            invariant
                self.wf(),
                self.world() == old(self).world(),
                self.settings() == old(self).settings(),
                self.exploration() == old(self).exploration(),
                settings == self.settings(),
                epsilon == self.exploration(),
                values == old(self).values(),
                trail.len() == steps,
                forall|i: int|
                    0 <= i < trail.len() ==> #[trigger] experience_in_order(
                        g,
                        settings,
                        epsilon,
                        start.index as int,
                        values,
                        trail,
                        i,
                    ),
                self.values() == values_after(values, trail),
                current_state.index == state_after(start.index as int, trail),
                total_reward == collected(g, trail, trail.len() as int),
                reached == (steps >= 1 && g.is_goal(current_state.index as int)),
                g == self.world()@,
                alpha == self.settings().learning_rate,
                gamma == self.settings().discount_factor,
                sure == (self.exploration() == 0 && self.settings().success_prob == SCALE),
                max_steps == self.settings().max_steps,
                self.world().is_cell(current_state),
                current_state.position == self.position(),
                0 <= steps <= max_steps,
                reached ==> steps >= 1 && current_state.kind == StatusType::Goal,
                -(steps * REWARD_LIMIT) <= total_reward <= steps * REWARD_LIMIT,
                sure && reached ==> end == (WalkEnd {
                    values: self.values(),
                    state: current_state.index as int,
                    steps: steps as nat,
                    reward: total_reward as int,
                }),
                sure && !reached ==> end == greedy_walk(
                    g,
                    self.values(),
                    current_state.index as int,
                    alpha,
                    gamma,
                    steps as nat,
                    max_steps as nat,
                    total_reward as int,
                ),
            decreases max_steps - steps,
        {
            proof {
                self.map.lemma_cell(current_state);
            }
            let ghost before = self.values();
            let ghost from = current_state.index as int;
            let action = self.choose_action(&current_state);
            let next_state = self.step(&current_state, action);
            proof {
                self.map.lemma_cell(next_state);
            }
            self.update_q_table(&current_state, action, &next_state);
            current_state = next_state;
            proof {
                let more = Experience {
                    state: from,
                    action: action as int,
                    next: next_state.index as int,
                    before,
                    after: self.values(),
                };
                let longer = trail.push(more);
                assert(longer[trail.len() as int] == more);
                if trail.len() > 0 {
                    assert(longer[trail.len() - 1] == trail.last());
                }
                lemma_trail_grows(g, settings, epsilon, start.index as int, values, trail, more);
                trail = longer;
                assert((steps + 1) * REWARD_LIMIT == steps * REWARD_LIMIT + REWARD_LIMIT)
                    by (nonlinear_arith);
                assert(steps * REWARD_LIMIT <= 0xffff_ffff_ffff_ffff * REWARD_LIMIT)
                    by (nonlinear_arith)
                    requires
                        0 <= steps <= 0xffff_ffff_ffff_ffff,
                ;
            }
            total_reward = total_reward + next_state.reward as i128;
            steps = steps + 1;
            if current_state.kind == StatusType::Goal {
                reached = true;
            }
        }
        proof {
            self.map.lemma_cell(current_state);
            assert(is_episode(g, settings, epsilon, start.index as int, values, trail));
        }
        let policy = greedy_policy(&self.q_table);
        self.epsilon = scale_down(self.config.epsilon_decay, self.epsilon);
        Episode { reward: total_reward, steps, policy }
    }

    /// Runs one episode from an open cell drawn at random: puts the agent there
    /// and lets it walk and learn as `run_episode_from` says.
    pub fn run_episode(&mut self) -> (episode: Episode)
        requires
            old(self).wf(),
        ensures
            final(self).wf(),
            final(self).world() == old(self).world(),
            final(self).settings() == old(self).settings(),
            final(self).exploration() == scaled_product(
                old(self).settings().epsilon_decay as int,
                old(self).exploration(),
            ),
            episode.steps <= old(self).settings().max_steps,
            old(self).settings().max_steps > 0 ==> episode.steps >= 1,
            episode.steps < old(self).settings().max_steps ==> final(self).world()@.is_goal(
                final(self).agent_state(),
            ),
            -(episode.steps * REWARD_LIMIT) <= episode.reward <= episode.steps * REWARD_LIMIT,
            episode.policy@.len() == final(self).world()@.size(),
            policy_valid(episode.policy@),
            actions_of(episode.policy@) == greedy(final(self).values()),
            episode_teaches(
                old(self).world()@,
                old(self).settings(),
                old(self).exploration(),
                old(self).values(),
                final(self).values(),
                episode.steps as int,
                episode.reward as int,
            ),
    {
        let start = self.reset_agent();
        proof {
            self.map.lemma_cell(start);
        }
        let ghost from = start.index as int;
        let episode = self.run_episode_from(&start);
        proof {
            assert(episode_leads(
                old(self).world()@,
                old(self).settings(),
                old(self).exploration(),
                from,
                old(self).values(),
                self.agent_state(),
                self.values(),
                episode.steps as int,
                episode.reward as int,
            ));
        }
        episode
    }

    /// Runs as many episodes as the configuration asks for and returns what each
    /// of them left behind, in order. Every episode starts with the action values
    /// that the episode before it left; the exploration rate shrinks after every
    /// episode and is never reset.
    pub fn run(&mut self) -> (episodes: Vec<Episode>)
        requires
            old(self).wf(),
        ensures
            final(self).wf(),
            final(self).world() == old(self).world(),
            final(self).settings() == old(self).settings(),
            episodes@.len() == old(self).settings().episodes,
            final(self).exploration() == decayed(
                old(self).exploration(),
                old(self).settings().epsilon_decay as int,
                old(self).settings().episodes as nat,
            ),
            forall|k: int|
                0 <= k < episodes@.len() ==> {
                    &&& (#[trigger] episodes@[k]).steps <= old(self).settings().max_steps
                    &&& -(episodes@[k].steps * REWARD_LIMIT) <= episodes@[k].reward
                        <= episodes@[k].steps * REWARD_LIMIT
                    &&& episodes@[k].policy@.len() == old(self).world()@.size()
                    &&& policy_valid(episodes@[k].policy@)
                },
            is_training(
                old(self).world()@,
                old(self).settings(),
                old(self).exploration(),
                old(self).values(),
                final(self).values(),
                episodes@,
            ),
    {
        let n_episodes = self.config.episodes;
        let mut episodes: Vec<Episode> = Vec::new();
        let mut k: usize = 0;
        let ghost g = self.world()@;
        let ghost settings = self.settings();
        let ghost epsilon = self.exploration();
        let ghost mut tables: Seq<Seq<Seq<int>>> = seq![self.values()];
        while k < n_episodes
            invariant
                self.wf(),
                self.world() == old(self).world(),
                self.settings() == old(self).settings(),
                g == self.world()@,
                settings == self.settings(),
                epsilon == old(self).exploration(),
                n_episodes == self.settings().episodes,
                0 <= k <= n_episodes,
                episodes@.len() == k,
                self.exploration() == decayed(epsilon, settings.epsilon_decay as int, k as nat),
                forall|i: int|
                    0 <= i < k ==> {
                        &&& (#[trigger] episodes@[i]).steps <= old(self).settings().max_steps
                        &&& -(episodes@[i].steps * REWARD_LIMIT) <= episodes@[i].reward
                            <= episodes@[i].steps * REWARD_LIMIT
                        &&& episodes@[i].policy@.len() == old(self).world()@.size()
                        &&& policy_valid(episodes@[i].policy@)
                    },
                tables.len() == k + 1,
                tables[0] == old(self).values(),
                tables[k as int] == self.values(),
                forall|i: int|
                    0 <= i < k ==> #[trigger] episode_recorded(
                        g,
                        settings,
                        epsilon,
                        tables,
                        episodes@,
                        i,
                    ),
            decreases n_episodes - k,
        {
            let episode = self.run_episode();
            let ghost before = episodes@;
            let ghost known = tables;
            episodes.push(episode);
            proof {
                tables = tables.push(self.values());
                assert forall|i: int| 0 <= i < k + 1 implies #[trigger] episode_recorded(
                    g,
                    settings,
                    epsilon,
                    tables,
                    episodes@,
                    i,
                ) by {
                    if i < k {
                        assert(episode_recorded(g, settings, epsilon, known, before, i));
                        assert(tables[i] == known[i]);
                        assert(tables[i + 1] == known[i + 1]);
                        assert(episodes@[i] == before[i]);
                    } else {
                        assert(tables[i] == known[i]);
                    }
                }
            }
            k = k + 1;
        }
        episodes
    }
}

} // verus!
