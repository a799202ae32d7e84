//! Planning on a known model: the transition tensor of a grid world, value
//! iteration over it, and the greedy policy of the values found.

use vstd::prelude::*;
use crate::bellman::backup;
use crate::bellman::iterate;
use crate::bellman::landing_value;
use crate::bellman::landing_values;
use crate::bellman::lemma_fitting_row;
use crate::bellman::lemma_landing_bounded;
use crate::bellman::lemma_sweep_bounded;
use crate::bellman::lemma_weighted_sum_bounded;
use crate::bellman::sweep;
use crate::bellman::table_bounded;
use crate::bellman::tables_within;
use crate::bellman::weighted_sum;
use crate::bellman::wide;
use crate::bellman::zero_table;
use crate::error::ConfigurationError;
use crate::fixed::REWARD_LIMIT;
use crate::fixed::SCALE;
use crate::fixed::VALUE_LIMIT;
use crate::fixed::div_floor;
use crate::fixed::is_proper_fraction;
use crate::fixed::is_reward;
use crate::fixed::is_value;
use crate::fixed::lemma_floor_between;
use crate::grid::N_ACTIONS;
use crate::grid::lemma_state_cell;
use crate::policy::actions_of;
use crate::policy::argmax;
use crate::policy::greedy;
use crate::policy::greedy_policy;
use crate::policy::ints;
use crate::policy::is_argmax;
use crate::policy::lemma_row_max_bounded;
use crate::policy::policy_valid;
use crate::policy::table_of;
use crate::policy::table_shaped;
use crate::transition::N_OUTCOMES;
use crate::transition::lemma_prefix_total_monotone;
use crate::transition::lemma_transition_tensor_fits;
use crate::transition::mass_of_outcomes;
use crate::transition::outcome_direction;
use crate::transition::outcome_target;
use crate::transition::prefix_total;
use crate::transition::row_conserves_mass;
use crate::transition::tensor_conserves_mass;
use crate::transition::tensor_fits;
use crate::transition::tensor_shaped;
use crate::transition::total;
use crate::transition::transition_mass;
use crate::transition::transition_row;
use crate::transition::transition_tensor;
use crate::transition::valid_outcomes;
use crate::world::GridWorld;

verus! {

/// Probabilities of the intended move and of the slips to its left and right:
/// 0.8, 0.1 and 0.1.
pub const PROBABILITIES: [i64; 3] = [800_000, 100_000, 100_000];

/// The discount factors of the comparative runs: 0.86, 0.90, 0.94 and 0.98.
pub const DISCOUNT_FACTORS: [i64; 4] = [860_000, 900_000, 940_000, 980_000];

/// Number of sweeps of a planning run.
pub const SWEEPS: usize = 1000;

/// A tensor of machine integers as a tensor of mathematical integers.
pub open spec fn tensor_of(t: Seq<Vec<Vec<i64>>>) -> Seq<Seq<Seq<int>>> {
    Seq::new(t.len(), |a: int| Seq::new(t[a]@.len(), |s: int| ints(t[a]@[s]@)))
}

/// The direction in which outcome `k` of `action` moves.
pub fn outcome_heading(action: usize, k: usize) -> (direction: usize)
    requires
        action < N_ACTIONS,
        k < N_OUTCOMES,
    ensures
        direction == outcome_direction(action as int, k as int),
        direction < N_ACTIONS,
{
    if k == 0 {
        action
    } else if action == 0 {
        if k == 1 {
            3
        } else {
            2
        }
    } else if action == 1 {
        if k == 1 {
            2
        } else {
            3
        }
    } else if action == 2 {
        if k == 1 {
            0
        } else {
            1
        }
    } else {
        if k == 1 {
            1
        } else {
            0
        }
    }
}

/// Whether three probabilities are non-negative and sum to one.
pub fn outcomes_valid(probabilities: &[i64; 3]) -> (valid: bool)
    ensures
        valid == valid_outcomes(ints(probabilities@)),
{
    let intended = probabilities[0];
    let left = probabilities[1];
    let right = probabilities[2];
    if intended < 0 || left < 0 || right < 0 {
        return false;
    }
    let sum: i128 = intended as i128 + left as i128 + right as i128;
    sum == SCALE as i128
}

/// A row of `n` zeros.
pub fn zeros(n: usize) -> (row: Vec<i64>)
    ensures
        row@.len() == n,
        forall|t: int| 0 <= t < n ==> #[trigger] row@[t] == 0,
{
    let mut row: Vec<i64> = Vec::new();
    let mut t: usize = 0;
    while t < n
        invariant
            0 <= t <= n,
            row@.len() == t,
            forall|u: int| 0 <= u < t ==> #[trigger] row@[u] == 0,
        decreases n - t,
    {
        row.push(0);
        t = t + 1;
    }
    row
}

/// The sum of the first `k` of three probabilities.
pub open spec fn prefix3(probs: Seq<int>, k: int) -> int {
    if k <= 0 {
        0
    } else if k == 1 {
        probs[0]
    } else if k == 2 {
        probs[0] + probs[1]
    } else {
        probs[0] + probs[1] + probs[2]
    }
}

/// The outgoing probabilities of state `s` under `action`: for each of the three
/// outcomes the mass goes to the cell where the outcome lands, which is `s`
/// itself where the neighbour is off the grid or a wall. Masses that land on the
/// same cell add up.
pub(crate) fn transition_row_of(
    map: &GridWorld,
    probabilities: &[i64; 3],
    action: usize,
    s: usize,
) -> (row: Vec<i64>)
    requires
        map.wf(),
        valid_outcomes(ints(probabilities@)),
        action < N_ACTIONS,
        map@.is_state(s as int),
    ensures
        ints(row@) == transition_row(map@, ints(probabilities@), action as int, s as int),
{
    let ghost g = map@;
    let ghost probs = ints(probabilities@);
    let n = map.n_states();
    let n_cols = map.n_cols();
    let mut row = zeros(n);
    let state = map.state_at(s);
    if state.kind.is_open() {
        let from = state.position;
        proof {
            lemma_state_cell(g, s as int);
        }
        let mut k: usize = 0;
        while k < 3
            invariant
                map.wf(),
                g == map@,
                probs == ints(probabilities@),
                valid_outcomes(probs),
                action < N_ACTIONS,
                g.is_state(s as int),
                !g.is_wall(s as int),
                g.in_bounds(from.row as int, from.col as int),
                g.flat(from.row as int, from.col as int) == s,
                n == g.size(),
                n_cols == g.cols,
                0 <= k <= 3,
                row@.len() == n,
                forall|t: int|
                    0 <= t < n ==> #[trigger] row@[t] == mass_of_outcomes(
                        g,
                        probs,
                        action as int,
                        s as int,
                        t,
                        k as int,
                    ),
                forall|t: int| 0 <= t < n ==> 0 <= #[trigger] row@[t] <= prefix3(probs, k as int),
            decreases 3 - k,
        {
            let to = map.moved(from, outcome_heading(action, k));
            proof {
                crate::grid::lemma_flat_index(g, to.row as int, to.col as int);
                assert(to.row * n_cols + to.col == g.flat(to.row as int, to.col as int));
            }
            let target = to.row * n_cols + to.col;
            assert(target == outcome_target(g, s as int, action as int, k as int));
            let p = probabilities[k];
            assert(p == probs[k as int]);
            let ghost before = row@;
            row.set(target, row[target] + p);
            k = k + 1;
            assert forall|t: int| 0 <= t < n implies #[trigger] row@[t] == mass_of_outcomes(
                g,
                probs,
                action as int,
                s as int,
                t,
                k as int,
            ) by {
                assert(before[t] == mass_of_outcomes(g, probs, action as int, s as int, t, k - 1));
            }
            assert forall|t: int| 0 <= t < n implies 0 <= #[trigger] row@[t] <= prefix3(
                probs,
                k as int,
            ) by {
                assert(0 <= before[t] <= prefix3(probs, k - 1));
            }
        }
    } else {
        assert forall|t: int| 0 <= t < n implies #[trigger] row@[t] == transition_mass(
            g,
            probs,
            action as int,
            s as int,
            t,
        ) by {}
    }
    assert(ints(row@) =~= transition_row(g, probs, action as int, s as int));
    row
}

/// The total mass of a row, or nothing where the row holds a negative entry.
pub fn row_mass(row: &Vec<i64>) -> (mass: Option<i128>)
    ensures
        mass is None <==> exists|t: int| 0 <= t < row@.len() && #[trigger] row@[t] < 0,
        mass is Some ==> mass->Some_0 == total(ints(row@)),
{
    let n = row.len();
    let mut acc: i128 = 0;
    let mut t: usize = 0;
    while t < n
        invariant
            n == row@.len(),
            0 <= t <= n,
            forall|u: int| 0 <= u < t ==> #[trigger] row@[u] >= 0,
            acc == prefix_total(ints(row@), t as int),
            0 <= acc <= t * 0x7fff_ffff_ffff_ffff,
        decreases n - t,
    {
        let p = row[t];
        if p < 0 {
            return None;
        }
        assert((t + 1) * 0x7fff_ffff_ffff_ffff == t * 0x7fff_ffff_ffff_ffff + 0x7fff_ffff_ffff_ffff)
            by (nonlinear_arith);
        assert(t * 0x7fff_ffff_ffff_ffff <= 0xffff_ffff_ffff_ffff * 0x7fff_ffff_ffff_ffff)
            by (nonlinear_arith)
            requires
                0 <= t <= 0xffff_ffff_ffff_ffff,
        ;
        assert(ints(row@)[t as int] == p);
        acc = acc + p as i128;
        t = t + 1;
    }
    Some(acc)
}

/// Whether a tensor fits the grid world, and if not, what is wrong with it: the
/// shape where an action, a row or an entry is missing or in excess, else the
/// mass where an entry is negative, a wall has outgoing mass or an open cell has
/// outgoing mass other than one.
pub fn check_tensor(map: &GridWorld, tensor: &Vec<Vec<Vec<i64>>>) -> (r: Result<
    (),
    ConfigurationError,
>)
    requires
        map.wf(),
    ensures
        match r {
            Ok(_) => tensor_fits(map@, tensor_of(tensor@)),
            Err(e) => if !tensor_shaped(map@, tensor_of(tensor@)) {
                e == ConfigurationError::Shape
            } else {
                !tensor_conserves_mass(map@, tensor_of(tensor@)) && e
                    == ConfigurationError::MassNotConserved
            },
        },
{
    let ghost g = map@;
    let ghost model = tensor_of(tensor@);
    let n = map.n_states();
    if tensor.len() != 4 {
        return Err(ConfigurationError::Shape);
    }
    let mut a: usize = 0;
    while a < 4
        invariant
            map.wf(),
            g == map@,
            model == tensor_of(tensor@),
            n == g.size(),
            tensor@.len() == 4,
            0 <= a <= 4,
            forall|b: int| 0 <= b < a ==> (#[trigger] model[b]).len() == n,
            forall|b: int, s: int|
                0 <= b < a && 0 <= s < n ==> (#[trigger] model[b][s]).len() == n,
        decreases 4 - a,
    {
        if tensor[a].len() != n {
            assert(model[a as int].len() != n);
            return Err(ConfigurationError::Shape);
        }
        let mut s: usize = 0;
        while s < n
            invariant
                model == tensor_of(tensor@),
                tensor@.len() == 4,
                a < 4,
                tensor@[a as int]@.len() == n,
                0 <= s <= n,
                forall|u: int| 0 <= u < s ==> (#[trigger] model[a as int][u]).len() == n,
            decreases n - s,
        {
            if tensor[a][s].len() != n {
                assert(model[a as int][s as int].len() != n);
                return Err(ConfigurationError::Shape);
            }
            s = s + 1;
        }
        a = a + 1;
    }
    assert(tensor_shaped(g, model));
    let mut a: usize = 0;
    while a < 4
        invariant
            map.wf(),
            g == map@,
            model == tensor_of(tensor@),
            n == g.size(),
            tensor_shaped(g, model),
            0 <= a <= 4,
            forall|b: int, s: int|
                0 <= b < a && 0 <= s < n ==> row_conserves_mass(g, #[trigger] model[b][s], s),
        decreases 4 - a,
    {
        let mut s: usize = 0;
        while s < n
            invariant
                map.wf(),
                g == map@,
                model == tensor_of(tensor@),
                n == g.size(),
                tensor_shaped(g, model),
                a < 4,
                0 <= s <= n,
                forall|u: int| 0 <= u < s ==> row_conserves_mass(g, #[trigger] model[a as int][u], u),
            decreases n - s,
        {
            assert(model[a as int].len() == n);
            assert(model[a as int][s as int].len() == n);
            let ghost row = model[a as int][s as int];
            assert(row == ints(tensor@[a as int]@[s as int]@));
            let wanted: i128 = if map.state_at(s).kind.is_open() {
                SCALE as i128
            } else {
                0
            };
            match row_mass(&tensor[a][s]) {
                Some(mass) => {
                    if mass != wanted {
                        assert(!row_conserves_mass(g, model[a as int][s as int], s as int));
                        return Err(ConfigurationError::MassNotConserved);
                    }
                    assert forall|t: int| 0 <= t < row.len() implies #[trigger] row[t] >= 0 by {
                        assert(tensor@[a as int]@[s as int]@[t] >= 0);
                    }
                },
                None => {
                    let ghost t = choose|t: int|
                        0 <= t < tensor@[a as int]@[s as int]@.len()
                            && #[trigger] tensor@[a as int]@[s as int]@[t] < 0;
                    assert(row[t] < 0);
                    assert(!row_conserves_mass(g, model[a as int][s as int], s as int));
                    return Err(ConfigurationError::MassNotConserved);
                },
            }
            s = s + 1;
        }
        a = a + 1;
    }
    Ok(())
}


/// What landing in each state is worth under the table `q`: the reward of the
/// state plus the discounted largest action value there.
pub(crate) fn landing_values_of(map: &GridWorld, discount_factor: i64, q: &Vec<Vec<i64>>) -> (values: Vec<
    i128,
>)
    requires
        map.wf(),
        is_proper_fraction(discount_factor as int),
        table_shaped(table_of(q@), map@.size()),
        table_bounded(table_of(q@)),
    ensures
        values@.len() == map@.size(),
        wide(values@) == landing_values(map@.rewards, discount_factor as int, table_of(q@)),
        forall|t: int|
            0 <= t < values@.len() ==> -(VALUE_LIMIT * SCALE) <= #[trigger] values@[t]
                <= VALUE_LIMIT * SCALE,
{
    let ghost g = map@;
    let ghost table = table_of(q@);
    let n = map.n_states();
    let mut values: Vec<i128> = Vec::new();
    let mut t: usize = 0;
    proof {
        map.lemma_view_wf();
    }
    while t < n
        invariant
            map.wf(),
            g == map@,
            g.wf(),
            table == table_of(q@),
            is_proper_fraction(discount_factor as int),
            table_shaped(table, g.size()),
            table_bounded(table),
            n == g.size(),
            0 <= t <= n,
            values@.len() == t,
            forall|u: int|
                0 <= u < t ==> #[trigger] values@[u] == landing_value(
                    g.rewards[u],
                    discount_factor as int,
                    table[u],
                ),
            forall|u: int|
                0 <= u < t ==> -(VALUE_LIMIT * SCALE) <= #[trigger] values@[u] <= VALUE_LIMIT
                    * SCALE,
        decreases n - t,
    {
        assert(table[t as int].len() == 4);
        assert(table[t as int] == ints(q@[t as int]@));
        let row = q[t].as_slice();
        let best = row[argmax(row)];
        let reward = map.state_at(t).reward;
        proof {
            assert forall|a: int| 0 <= a < table[t as int].len() implies is_value(
                #[trigger] table[t as int][a],
            ) by {}
            lemma_landing_bounded(g.rewards[t as int], discount_factor as int, table[t as int]);
            assert(is_reward(reward as int));
            assert(is_value(best as int)) by {
                lemma_row_max_bounded(table[t as int], -(VALUE_LIMIT as int), VALUE_LIMIT as int);
            }
            assert(-(REWARD_LIMIT * SCALE) <= reward * SCALE <= REWARD_LIMIT * SCALE)
                by (nonlinear_arith)
                requires
                    -REWARD_LIMIT <= reward <= REWARD_LIMIT,
            ;
            assert(-(SCALE * VALUE_LIMIT) <= discount_factor * best <= SCALE * VALUE_LIMIT)
                by (nonlinear_arith)
                requires
                    0 < discount_factor < SCALE,
                    -VALUE_LIMIT <= best <= VALUE_LIMIT,
            ;
        }
        let value: i128 = (reward as i128) * (SCALE as i128) + (discount_factor as i128) * (
        best as i128);
        values.push(value);
        t = t + 1;
    }
    assert(wide(values@) =~= landing_values(g.rewards, discount_factor as int, table));
    values
}

/// The expected landing value under a row of probabilities, rounded down to a
/// millionth.
pub(crate) fn backup_of(p_row: &Vec<i64>, values: &Vec<i128>) -> (value: i64)
    requires
        p_row@.len() == values@.len(),
        forall|t: int| 0 <= t < p_row@.len() ==> #[trigger] p_row@[t] >= 0,
        total(ints(p_row@)) <= SCALE,
        forall|t: int|
            0 <= t < values@.len() ==> -(VALUE_LIMIT * SCALE) <= #[trigger] values@[t]
                <= VALUE_LIMIT * SCALE,
    ensures
        value == weighted_sum(ints(p_row@), wide(values@), values@.len() as int) / (SCALE
            * SCALE),
        is_value(value as int),
{
    let ghost p = ints(p_row@);
    let ghost x = wide(values@);
    let ghost bound = VALUE_LIMIT * SCALE;
    let n = p_row.len();
    let mut acc: i128 = 0;
    let mut t: usize = 0;
    proof {
        assert(0 * bound == 0) by (nonlinear_arith);
    }
    while t < n
        invariant
            p == ints(p_row@),
            x == wide(values@),
            bound == VALUE_LIMIT * SCALE,
            n == p_row@.len(),
            n == values@.len(),
            forall|u: int| 0 <= u < n ==> #[trigger] p[u] >= 0,
            forall|u: int| 0 <= u < n ==> -bound <= #[trigger] x[u] <= bound,
            total(p) <= SCALE,
            0 <= t <= n,
            acc == weighted_sum(p, x, t as int),
            -(SCALE * bound) <= acc <= SCALE * bound,
        decreases n - t,
    {
        let w = p_row[t];
        let v = values[t];
        proof {
            assert(p[t as int] == w);
            assert(x[t as int] == v);
            lemma_prefix_total_monotone(p, t as int, n as int);
            lemma_prefix_total_monotone(p, t + 1, n as int);
            lemma_weighted_sum_bounded(p, x, t + 1, bound);
            let m = prefix_total(p, t + 1);
            assert(m * bound <= SCALE * bound) by (nonlinear_arith)
                requires
                    0 <= m <= SCALE,
                    bound >= 0,
            ;
            assert(-(SCALE * bound) <= w * v <= SCALE * bound) by (nonlinear_arith)
                requires
                    0 <= w <= SCALE,
                    -bound <= v <= bound,
                    bound >= 0,
            ;
        }
        acc = acc + (w as i128) * v;
        t = t + 1;
    }
    proof {
        lemma_prefix_total_monotone(p, n as int, n as int);
        lemma_weighted_sum_bounded(p, x, n as int, bound);
        let m = prefix_total(p, n as int);
        assert(m * bound <= SCALE * bound) by (nonlinear_arith)
            requires
                0 <= m <= SCALE,
                bound >= 0,
        ;
        assert(SCALE * bound == VALUE_LIMIT * (SCALE * SCALE)) by (nonlinear_arith)
            requires
                bound == VALUE_LIMIT * SCALE,
        ;
        assert((-(VALUE_LIMIT as int)) * (SCALE * SCALE) == -(VALUE_LIMIT * (SCALE * SCALE)))
            by (nonlinear_arith);
        lemma_floor_between(acc as int, SCALE * SCALE, -(VALUE_LIMIT as int), VALUE_LIMIT as int);
    }
    let q = div_floor(acc, (SCALE as i128) * (SCALE as i128));
    q as i64
}

/// The table of `n` states in which every action value is zero.
pub fn zero_values(n: usize) -> (q: Vec<Vec<i64>>)
    ensures
        table_of(q@) == zero_table(n as nat),
        table_shaped(table_of(q@), n as nat),
        table_bounded(table_of(q@)),
{
    let mut q: Vec<Vec<i64>> = Vec::new();
    let mut s: usize = 0;
    while s < n
        invariant
            0 <= s <= n,
            q@.len() == s,
            forall|u: int| 0 <= u < s ==> (#[trigger] q@[u])@.len() == 4,
            forall|u: int, a: int| 0 <= u < s && 0 <= a < 4 ==> (#[trigger] q@[u]@[a]) == 0,
        decreases n - s,
    {
        q.push(zeros(4));
        s = s + 1;
    }
    proof {
        let table = table_of(q@);
        let zero = zero_table(n as nat);
        assert forall|u: int| 0 <= u < n implies #[trigger] table[u] == zero[u] by {
            assert(q@[u]@.len() == 4);
            assert forall|a: int| 0 <= a < 4 implies table[u][a] == zero[u][a] by {
                assert(q@[u]@[a] == 0);
            }
            assert(table[u] =~= zero[u]);
        }
        assert(table =~= zero);
    }
    q
}

/// One synchronous sweep of value iteration: a new table in which every entry
/// is backed up from the old table `q`, none from the table being written.
pub(crate) fn sweep_of(
    map: &GridWorld,
    tensor: &Vec<Vec<Vec<i64>>>,
    discount_factor: i64,
    q: &Vec<Vec<i64>>,
) -> (next: Vec<Vec<i64>>)
    requires
        map.wf(),
        tensor_fits(map@, tensor_of(tensor@)),
        is_proper_fraction(discount_factor as int),
        table_shaped(table_of(q@), map@.size()),
        table_bounded(table_of(q@)),
    ensures
        table_of(next@) == sweep(
            tensor_of(tensor@),
            map@.rewards,
            discount_factor as int,
            table_of(q@),
        ),
        table_shaped(table_of(next@), map@.size()),
        table_bounded(table_of(next@)),
{
    let ghost g = map@;
    let ghost model = tensor_of(tensor@);
    let ghost table = table_of(q@);
    let ghost gamma = discount_factor as int;
    let n = map.n_states();
    let values = landing_values_of(map, discount_factor, q);
    let mut next: Vec<Vec<i64>> = Vec::new();
    let mut s: usize = 0;
    proof {
        map.lemma_view_wf();
    }
    while s < n
        invariant
            g == map@,
            g.wf(),
            model == tensor_of(tensor@),
            tensor_fits(g, model),
            table == table_of(q@),
            gamma == discount_factor as int,
            n == g.size(),
            values@.len() == n,
            wide(values@) == landing_values(g.rewards, gamma, table),
            forall|t: int|
                0 <= t < values@.len() ==> -(VALUE_LIMIT * SCALE) <= #[trigger] values@[t]
                    <= VALUE_LIMIT * SCALE,
            0 <= s <= n,
            next@.len() == s,
            forall|u: int| 0 <= u < s ==> (#[trigger] next@[u])@.len() == 4,
            forall|u: int, a: int|
                0 <= u < s && 0 <= a < 4 ==> (#[trigger] next@[u]@[a]) == backup(
                    model[a][u],
                    g.rewards,
                    gamma,
                    table,
                ),
            forall|u: int, a: int| 0 <= u < s && 0 <= a < 4 ==> is_value(#[trigger] next@[u]@[a] as int),
        decreases n - s,
    {
        let mut row: Vec<i64> = Vec::new();
        let mut a: usize = 0;
        while a < 4
            invariant
                g.wf(),
                model == tensor_of(tensor@),
                tensor_fits(g, model),
                n == g.size(),
                values@.len() == n,
                wide(values@) == landing_values(g.rewards, gamma, table),
                forall|t: int|
                    0 <= t < values@.len() ==> -(VALUE_LIMIT * SCALE) <= #[trigger] values@[t]
                        <= VALUE_LIMIT * SCALE,
                0 <= s < n,
                0 <= a <= 4,
                row@.len() == a,
                forall|b: int|
                    0 <= b < a ==> #[trigger] row@[b] == backup(
                        model[b][s as int],
                        g.rewards,
                        gamma,
                        table,
                    ),
                forall|b: int| 0 <= b < a ==> is_value(#[trigger] row@[b] as int),
            decreases 4 - a,
        {
            proof {
                lemma_fitting_row(g, model, a as int, s as int);
                assert(model[a as int].len() == n);
                assert(model[a as int][s as int] == ints(tensor@[a as int]@[s as int]@));
                assert(values@.len() == n);
                let p = ints(tensor@[a as int]@[s as int]@);
                assert forall|t: int| 0 <= t < tensor@[a as int]@[s as int]@.len() implies (
                #[trigger] tensor@[a as int]@[s as int]@[t]) >= 0 by {
                    assert(p[t] >= 0);
                }
            }
            let value = backup_of(&tensor[a][s], &values);
            row.push(value);
            a = a + 1;
        }
        next.push(row);
        s = s + 1;
    }
    proof {
        let built = table_of(next@);
        let wanted = sweep(model, g.rewards, gamma, table);
        assert forall|u: int| 0 <= u < n implies #[trigger] built[u] == wanted[u] by {
            assert(next@[u]@.len() == 4);
            assert forall|a: int| 0 <= a < 4 implies built[u][a] == wanted[u][a] by {
                assert(next@[u]@[a] == backup(model[a][u], g.rewards, gamma, table));
            }
            assert(built[u] =~= wanted[u]);
        }
        assert(built =~= wanted);
        lemma_sweep_bounded(g, model, gamma, table);
    }
    next
}


/// Value iteration with a fixed budget: `sweeps` synchronous sweeps from the zero
/// table.
pub(crate) fn iterate_values(
    map: &GridWorld,
    tensor: &Vec<Vec<Vec<i64>>>,
    discount_factor: i64,
    sweeps: usize,
) -> (q: Vec<Vec<i64>>)
    requires
        map.wf(),
        tensor_fits(map@, tensor_of(tensor@)),
        is_proper_fraction(discount_factor as int),
    ensures
        table_of(q@) == iterate(
            tensor_of(tensor@),
            map@.rewards,
            discount_factor as int,
            sweeps as nat,
        ),
        table_shaped(table_of(q@), map@.size()),
        table_bounded(table_of(q@)),
{
    let n = map.n_states();
    let mut q = zero_values(n);
    let mut k: usize = 0;
    proof {
        map.lemma_view_wf();
    }
    while k < sweeps
        invariant
            map.wf(),
            map@.rewards.len() == n,
            tensor_fits(map@, tensor_of(tensor@)),
            is_proper_fraction(discount_factor as int),
            0 <= k <= sweeps,
            table_of(q@) == iterate(
                tensor_of(tensor@),
                map@.rewards,
                discount_factor as int,
                k as nat,
            ),
            table_shaped(table_of(q@), map@.size()),
            table_bounded(table_of(q@)),
        decreases sweeps - k,
    {
        q = sweep_of(map, tensor, discount_factor, &q);
        k = k + 1;
    }
    q
}

/// The largest amount by which an entry of `q1` differs from the same entry of
/// `q2`.
pub(crate) fn max_change(q1: &Vec<Vec<i64>>, q2: &Vec<Vec<i64>>) -> (change: i64)
    requires
        table_shaped(table_of(q1@), q1@.len()),
        table_shaped(table_of(q2@), q1@.len()),
        table_bounded(table_of(q1@)),
        table_bounded(table_of(q2@)),
    ensures
        change >= 0,
        tables_within(table_of(q1@), table_of(q2@), change as int),
        q1@.len() > 0 ==> forall|d: int|
            d < change ==> !tables_within(table_of(q1@), table_of(q2@), d),
        q1@.len() == 0 ==> change == 0,
{
    let ghost t1 = table_of(q1@);
    let ghost t2 = table_of(q2@);
    let n = q1.len();
    let mut change: i64 = 0;
    let ghost mut at_s: int = 0;
    let ghost mut at_a: int = 0;
    let mut s: usize = 0;
    while s < n
        invariant
            t1 == table_of(q1@),
            t2 == table_of(q2@),
            n == q1@.len(),
            table_shaped(t1, n as nat),
            table_shaped(t2, n as nat),
            table_bounded(t1),
            table_bounded(t2),
            0 <= s <= n,
            0 <= change <= 2 * VALUE_LIMIT,
            forall|u: int, a: int|
                0 <= u < s && 0 <= a < 4 ==> -change <= #[trigger] t1[u][a] - t2[u][a] <= change,
            change > 0 ==> 0 <= at_s < n && 0 <= at_a < 4 && (t1[at_s][at_a] - t2[at_s][at_a]
                == change || t2[at_s][at_a] - t1[at_s][at_a] == change),
        decreases n - s,
    {
        let mut a: usize = 0;
        while a < 4
            invariant
                t1 == table_of(q1@),
                t2 == table_of(q2@),
                n == q1@.len(),
                table_shaped(t1, n as nat),
                table_shaped(t2, n as nat),
                table_bounded(t1),
                table_bounded(t2),
                0 <= s < n,
                0 <= a <= 4,
                0 <= change <= 2 * VALUE_LIMIT,
                forall|u: int, b: int|
                    0 <= u < s && 0 <= b < 4 ==> -change <= #[trigger] t1[u][b] - t2[u][b]
                        <= change,
                forall|b: int|
                    0 <= b < a ==> -change <= #[trigger] t1[s as int][b] - t2[s as int][b]
                        <= change,
                change > 0 ==> 0 <= at_s < n && 0 <= at_a < 4 && (t1[at_s][at_a] - t2[at_s][at_a]
                    == change || t2[at_s][at_a] - t1[at_s][at_a] == change),
            decreases 4 - a,
        {
            assert(t1[s as int].len() == 4 && t2[s as int].len() == 4);
            assert(t1[s as int][a as int] == q1@[s as int]@[a as int]);
            assert(t2[s as int][a as int] == q2@[s as int]@[a as int]);
            assert(is_value(t1[s as int][a as int]) && is_value(t2[s as int][a as int]));
            let x = q1[s][a];
            let y = q2[s][a];
            let diff = if x >= y {
                x - y
            } else {
                y - x
            };
            if diff > change {
                change = diff;
                proof {
                    at_s = s as int;
                    at_a = a as int;
                }
            }
            a = a + 1;
        }
        s = s + 1;
    }
    proof {
        if n > 0 {
            assert forall|d: int| d < change implies !tables_within(t1, t2, d) by {
                if change > 0 {
                    if tables_within(t1, t2, d) {
                        assert(-d <= t1[at_s][at_a] - t2[at_s][at_a] <= d);
                    }
                } else {
                    assert(t1[0].len() == 4);
                    if tables_within(t1, t2, d) {
                        assert(-d <= t1[0][0] - t2[0][0] <= d);
                    }
                }
            }
        }
    }
    change
}

/// `k` is the number of sweeps after which value iteration stops for a given
/// tolerance and budget: the first sweep that changes no action value by more
/// than the tolerance, or the budget where no sweep within it does.
pub open spec fn stops_after(
    tensor: Seq<Seq<Seq<int>>>,
    rewards: Seq<int>,
    gamma: int,
    tolerance: int,
    max_sweeps: nat,
    k: nat,
) -> bool {
    &&& k <= max_sweeps
    &&& k < max_sweeps ==> k >= 1 && tables_within(
        iterate(tensor, rewards, gamma, k),
        iterate(tensor, rewards, gamma, (k - 1) as nat),
        tolerance,
    )
    &&& forall|j: nat|
        1 <= j < k ==> !tables_within(
            #[trigger] iterate(tensor, rewards, gamma, j),
            iterate(tensor, rewards, gamma, (j - 1) as nat),
            tolerance,
        )
}

/// Value iteration with a stopping rule: synchronous sweeps from the zero table
/// until a sweep changes no action value by more than `tolerance`, and at most
/// `max_sweeps` of them. Returns the table reached and the number of sweeps
/// made.
pub(crate) fn iterate_values_until(
    map: &GridWorld,
    tensor: &Vec<Vec<Vec<i64>>>,
    discount_factor: i64,
    tolerance: i64,
    max_sweeps: usize,
) -> (r: (Vec<Vec<i64>>, usize))
    requires
        map.wf(),
        tensor_fits(map@, tensor_of(tensor@)),
        is_proper_fraction(discount_factor as int),
    ensures
        stops_after(
            tensor_of(tensor@),
            map@.rewards,
            discount_factor as int,
            tolerance as int,
            max_sweeps as nat,
            r.1 as nat,
        ),
        table_of(r.0@) == iterate(
            tensor_of(tensor@),
            map@.rewards,
            discount_factor as int,
            r.1 as nat,
        ),
        table_shaped(table_of(r.0@), map@.size()),
        table_bounded(table_of(r.0@)),
{
    let ghost model = tensor_of(tensor@);
    let ghost rewards = map@.rewards;
    let ghost gamma = discount_factor as int;
    let n = map.n_states();
    let mut q = zero_values(n);
    let mut k: usize = 0;
    let mut settled = false;
    proof {
        map.lemma_view_wf();
    }
    while k < max_sweeps && !settled
        invariant
            map.wf(),
            model == tensor_of(tensor@),
            rewards == map@.rewards,
            gamma == discount_factor as int,
            rewards.len() == n,
            n == map@.size(),
            n > 0,
            tensor_fits(map@, model),
            is_proper_fraction(gamma),
            0 <= k <= max_sweeps,
            table_of(q@) == iterate(model, rewards, gamma, k as nat),
            table_shaped(table_of(q@), map@.size()),
            table_bounded(table_of(q@)),
            settled ==> k >= 1 && tables_within(
                iterate(model, rewards, gamma, k as nat),
                iterate(model, rewards, gamma, (k - 1) as nat),
                tolerance as int,
            ),
            forall|j: nat|
                1 <= j < k || (1 <= j == k && !settled) ==> !tables_within(
                    #[trigger] iterate(model, rewards, gamma, j),
                    iterate(model, rewards, gamma, (j - 1) as nat),
                    tolerance as int,
                ),
        decreases max_sweeps - k, if settled { 0int } else { 1int },
    {
        let next = sweep_of(map, tensor, discount_factor, &q);
        let change = max_change(&next, &q);
        proof {
            let t_next = table_of(next@);
            let t_q = table_of(q@);
            assert(t_next == iterate(model, rewards, gamma, (k + 1) as nat));
            if change <= tolerance {
                assert forall|s: int, a: int|
                    0 <= s < t_next.len() && 0 <= a < N_ACTIONS implies -tolerance
                    <= #[trigger] t_next[s][a] - t_q[s][a] <= tolerance by {
                    assert(-change <= t_next[s][a] - t_q[s][a] <= change);
                }
            }
        }
        q = next;
        k = k + 1;
        if change <= tolerance {
            settled = true;
        }
    }
    (q, k)
}

/// A grid world with its transition model and the action values found so far.
#[derive(Debug, Clone)]
pub struct Mdp {
    map: GridWorld,
    transition_matrix: Vec<Vec<Vec<i64>>>,
    q_values: Vec<Vec<i64>>,
}

impl Mdp {
    /// The grid world that is planned on.
    pub closed spec fn world(self) -> GridWorld {
        self.map
    }

    /// The transition model, `tensor[action][from][to]`.
    pub closed spec fn tensor(self) -> Seq<Seq<Seq<int>>> {
        tensor_of(self.transition_matrix@)
    }

    /// The action values, `values[state][action]`.
    pub closed spec fn values(self) -> Seq<Seq<int>> {
        table_of(self.q_values@)
    }

    /// The model fits the grid, and the table has one admissible value for each
    /// state and action.
    pub open spec fn wf(self) -> bool {
        &&& self.world().wf()
        &&& tensor_fits(self.world()@, self.tensor())
        &&& table_shaped(self.values(), self.world()@.size())
        &&& table_bounded(self.values())
    }

    /// The transition tensor of a grid world for three outcome probabilities that
    /// are known to be valid.
    pub(crate) fn transition_matrix_for(map: &GridWorld, probabilities: &[i64; 3]) -> (matrices: Vec<
        Vec<Vec<i64>>,
    >)
        requires
            map.wf(),
            valid_outcomes(ints(probabilities@)),
        ensures
            tensor_of(matrices@) == transition_tensor(map@, ints(probabilities@)),
            tensor_fits(map@, tensor_of(matrices@)),
    {
        let ghost g = map@;
        let ghost probs = ints(probabilities@);
        let n = map.n_states();
        let mut matrices: Vec<Vec<Vec<i64>>> = Vec::new();
        let mut action: usize = 0;
        while action < 4
            invariant
                map.wf(),
                g == map@,
                probs == ints(probabilities@),
                valid_outcomes(probs),
                n == g.size(),
                0 <= action <= 4,
                matrices@.len() == action,
                forall|a: int| 0 <= a < action ==> (#[trigger] matrices@[a])@.len() == n,
                forall|a: int, s: int|
                    0 <= a < action && 0 <= s < n ==> ints((#[trigger] matrices@[a]@[s])@)
                        == transition_row(g, probs, a, s),
            decreases 4 - action,
        {
            let mut table: Vec<Vec<i64>> = Vec::new();
            let mut s: usize = 0;
            while s < n
                invariant
                    map.wf(),
                    g == map@,
                    probs == ints(probabilities@),
                    valid_outcomes(probs),
                    n == g.size(),
                    action < 4,
                    0 <= s <= n,
                    table@.len() == s,
                    forall|u: int|
                        0 <= u < s ==> ints((#[trigger] table@[u])@) == transition_row(
                            g,
                            probs,
                            action as int,
                            u,
                        ),
                decreases n - s,
            {
                table.push(transition_row_of(map, probabilities, action, s));
                s = s + 1;
            }
            matrices.push(table);
            action = action + 1;
        }
        proof {
            let built = tensor_of(matrices@);
            let model = transition_tensor(g, probs);
            assert(built.len() == model.len());
            assert forall|a: int| 0 <= a < built.len() implies built[a] == model[a] by {
                assert(matrices@[a]@.len() == n);
                assert forall|s: int| 0 <= s < n implies built[a][s] == model[a][s] by {
                    assert(ints(matrices@[a]@[s]@) == transition_row(g, probs, a, s));
                }
                assert(built[a] =~= model[a]);
            }
            assert(built =~= model);
            map.lemma_view_wf();
            lemma_transition_tensor_fits(g, probs);
        }
        matrices
    }

    /// The transition tensor of a grid world, `tensor[action][from][to]`, for the
    /// standard probabilities: 0.8 for the intended move and 0.1 for the slip to
    /// either side.
    pub fn gen_transicion_matrix(map: &GridWorld) -> (matrices: Vec<Vec<Vec<i64>>>)
        requires
            map.wf(),
        ensures
            tensor_of(matrices@) == transition_tensor(map@, ints(PROBABILITIES@)),
            tensor_fits(map@, tensor_of(matrices@)),
    {
        Mdp::transition_matrix_for(map, &PROBABILITIES)
    }

    /// The transition tensor of a grid world, `tensor[action][from][to]`, for the
    /// probabilities of the intended move and of the slips to its left and right.
    /// From every open cell and for every action the probabilities of all landing
    /// cells sum to exactly one; a wall has none.
    pub fn build_transition_matrix_static(map: &GridWorld, probabilities: &[i64; 3]) -> (r: Result<
        Vec<Vec<Vec<i64>>>,
        ConfigurationError,
    >)
        requires
            map.wf(),
        ensures
            match r {
                Ok(matrices) => {
                    &&& valid_outcomes(ints(probabilities@))
                    &&& tensor_of(matrices@) == transition_tensor(map@, ints(probabilities@))
                    &&& tensor_fits(map@, tensor_of(matrices@))
                },
                Err(e) => !valid_outcomes(ints(probabilities@)) && e
                    == ConfigurationError::OutcomeProbabilities,
            },
    {
        if !outcomes_valid(probabilities) {
            return Err(ConfigurationError::OutcomeProbabilities);
        }
        Ok(Mdp::transition_matrix_for(map, probabilities))
    }

    /// The reward of every cell, in row-major order.
    pub fn gen_reward_vector(map: &GridWorld) -> (rewards: Vec<i64>)
        requires
            map.wf(),
        ensures
            rewards.len() == map@.size(),
            forall|s: int| 0 <= s < map@.size() ==> #[trigger] rewards[s] == map@.rewards[s],
    {
        let n = map.n_states();
        let mut rewards: Vec<i64> = Vec::new();
        let mut s: usize = 0;
        while s < n
            invariant
                map.wf(),
                n == map@.size(),
                0 <= s <= n,
                rewards.len() == s,
                forall|t: int| 0 <= t < s ==> #[trigger] rewards[t] == map@.rewards[t],
            decreases n - s,
        {
            rewards.push(map.state_at(s).reward);
            s = s + 1;
        }
        rewards
    }

    /// A planner for `map` whose transition model is built from the three
    /// outcome probabilities. All action values start at zero.
    pub fn new(map: GridWorld, probabilities: &[i64; 3]) -> (r: Result<Mdp, ConfigurationError>)
        requires
            map.wf(),
        ensures
            match r {
                Ok(mdp) => {
                    &&& valid_outcomes(ints(probabilities@))
                    &&& mdp.wf()
                    &&& mdp.world() == map
                    &&& mdp.tensor() == transition_tensor(map@, ints(probabilities@))
                    &&& mdp.values() == zero_table(map@.size())
                },
                Err(e) => !valid_outcomes(ints(probabilities@)) && e
                    == ConfigurationError::OutcomeProbabilities,
            },
    {
        let transition_matrix = match Mdp::build_transition_matrix_static(&map, probabilities) {
            Ok(matrices) => matrices,
            Err(e) => {
                return Err(e);
            },
        };
        let q_values = zero_values(map.n_states());
        Ok(Mdp { map, transition_matrix, q_values })
    }

    /// A planner for `map` with a transition model supplied by the caller, which
    /// is accepted only if it fits the grid. All action values start at zero.
    pub fn new_with_transition_matrix(map: GridWorld, transition_matrix: Vec<Vec<Vec<i64>>>) -> (r:
        Result<Mdp, ConfigurationError>)
        requires
            map.wf(),
        ensures
            match r {
                Ok(mdp) => {
                    &&& tensor_fits(map@, tensor_of(transition_matrix@))
                    &&& mdp.wf()
                    &&& mdp.world() == map
                    &&& mdp.tensor() == tensor_of(transition_matrix@)
                    &&& mdp.values() == zero_table(map@.size())
                },
                Err(e) => if !tensor_shaped(map@, tensor_of(transition_matrix@)) {
                    e == ConfigurationError::Shape
                } else {
                    !tensor_conserves_mass(map@, tensor_of(transition_matrix@)) && e
                        == ConfigurationError::MassNotConserved
                },
            },
    {
        match check_tensor(&map, &transition_matrix) {
            Ok(_) => {},
            Err(e) => {
                return Err(e);
            },
        }
        let q_values = zero_values(map.n_states());
        Ok(Mdp { map, transition_matrix, q_values })
    }

    /// The grid world that is planned on.
    pub fn map(&self) -> (map: &GridWorld)
        ensures
            *map == self.world(),
    {
        &self.map
    }

    /// The transition model, `tensor[action][from][to]`.
    pub fn transition_matrix(&self) -> (tensor: &Vec<Vec<Vec<i64>>>)
        ensures
            tensor_of(tensor@) == self.tensor(),
    {
        &self.transition_matrix
    }

    /// The action values found by the last planning run, `values[state][action]`.
    pub fn q_values(&self) -> (q: &Vec<Vec<i64>>)
        ensures
            table_of(q@) == self.values(),
    {
        &self.q_values
    }

    /// The action values after `sweeps` synchronous sweeps from the zero table,
    /// for a discount factor strictly between zero and one. The planner keeps the
    /// values it had.
    pub fn run_value_iteration(&self, discount_factor: i64, sweeps: usize) -> (r: Result<
        Vec<Vec<i64>>,
        ConfigurationError,
    >)
        requires
            self.wf(),
        ensures
            match r {
                Ok(q) => {
                    &&& is_proper_fraction(discount_factor as int)
                    &&& table_of(q@) == iterate(
                        self.tensor(),
                        self.world()@.rewards,
                        discount_factor as int,
                        sweeps as nat,
                    )
                    &&& table_shaped(table_of(q@), self.world()@.size())
                    &&& table_bounded(table_of(q@))
                },
                Err(e) => !is_proper_fraction(discount_factor as int) && e
                    == ConfigurationError::DiscountFactor,
            },
    {
        if discount_factor <= 0 || discount_factor >= SCALE {
            return Err(ConfigurationError::DiscountFactor);
        }
        Ok(iterate_values(&self.map, &self.transition_matrix, discount_factor, sweeps))
    }

    /// Plans: replaces the action values by those after `sweeps` synchronous
    /// sweeps from the zero table. A discount factor that is not strictly between
    /// zero and one is refused and changes nothing.
    pub fn value_iteration(&mut self, discount_factor: i64, sweeps: usize) -> (r: Result<
        (),
        ConfigurationError,
    >)
        requires
            old(self).wf(),
        ensures
            final(self).wf(),
            final(self).world() == old(self).world(),
            final(self).tensor() == old(self).tensor(),
            match r {
                Ok(_) => {
                    &&& is_proper_fraction(discount_factor as int)
                    &&& final(self).values() == iterate(
                        old(self).tensor(),
                        old(self).world()@.rewards,
                        discount_factor as int,
                        sweeps as nat,
                    )
                },
                Err(e) => {
                    &&& !is_proper_fraction(discount_factor as int)
                    &&& e == ConfigurationError::DiscountFactor
                    &&& final(self).values() == old(self).values()
                },
            },
    {
        match self.run_value_iteration(discount_factor, sweeps) {
            Ok(q) => {
                self.q_values = q;
                Ok(())
            },
            Err(e) => Err(e),
        }
    }

    /// Plans with a stopping rule: replaces the action values by those reached
    /// when a sweep changes none of them by more than `tolerance`, after at most
    /// `max_sweeps` sweeps, and returns the number of sweeps made. A discount
    /// factor that is not strictly between zero and one is refused and changes
    /// nothing.
    pub fn value_iteration_until(
        &mut self,
        discount_factor: i64,
        tolerance: i64,
        max_sweeps: usize,
    ) -> (r: Result<usize, ConfigurationError>)
        requires
            old(self).wf(),
        ensures
            final(self).wf(),
            final(self).world() == old(self).world(),
            final(self).tensor() == old(self).tensor(),
            match r {
                Ok(sweeps) => {
                    &&& is_proper_fraction(discount_factor as int)
                    &&& stops_after(
                        old(self).tensor(),
                        old(self).world()@.rewards,
                        discount_factor as int,
                        tolerance as int,
                        max_sweeps as nat,
                        sweeps as nat,
                    )
                    &&& final(self).values() == iterate(
                        old(self).tensor(),
                        old(self).world()@.rewards,
                        discount_factor as int,
                        sweeps as nat,
                    )
                },
                Err(e) => {
                    &&& !is_proper_fraction(discount_factor as int)
                    &&& e == ConfigurationError::DiscountFactor
                    &&& final(self).values() == old(self).values()
                },
            },
    {
        if discount_factor <= 0 || discount_factor >= SCALE {
            return Err(ConfigurationError::DiscountFactor);
        }
        let (q, sweeps) = iterate_values_until(
            &self.map,
            &self.transition_matrix,
            discount_factor,
            tolerance,
            max_sweeps,
        );
        self.q_values = q;
        Ok(sweeps)
    }

    /// The greedy policy of the current action values: for every state the first
    /// of the actions north, south, east, west whose value is largest.
    pub fn get_max_policy(&self) -> (policy: Vec<usize>)
        requires
            self.wf(),
        ensures
            policy@.len() == self.world()@.size(),
            policy_valid(policy@),
            actions_of(policy@) == greedy(self.values()),
            forall|s: int|
                0 <= s < policy@.len() ==> is_argmax(self.values()[s], #[trigger] policy@[s] as int),
    {
        greedy_policy(&self.q_values)
    }

    /// Plans and extracts the greedy policy.
    pub fn solve(&mut self, discount_factor: i64, sweeps: usize) -> (r: Result<
        Vec<usize>,
        ConfigurationError,
    >)
        requires
            old(self).wf(),
        ensures
            final(self).wf(),
            final(self).world() == old(self).world(),
            final(self).tensor() == old(self).tensor(),
            match r {
                Ok(policy) => {
                    &&& is_proper_fraction(discount_factor as int)
                    &&& final(self).values() == iterate(
                        old(self).tensor(),
                        old(self).world()@.rewards,
                        discount_factor as int,
                        sweeps as nat,
                    )
                    &&& policy@.len() == old(self).world()@.size()
                    &&& policy_valid(policy@)
                    &&& actions_of(policy@) == greedy(final(self).values())
                },
                Err(e) => {
                    &&& !is_proper_fraction(discount_factor as int)
                    &&& e == ConfigurationError::DiscountFactor
                    &&& final(self).values() == old(self).values()
                },
            },
    {
        match self.value_iteration(discount_factor, sweeps) {
            Ok(_) => Ok(self.get_max_policy()),
            Err(e) => Err(e),
        }
    }
}


} // verus!
