//! The Bellman backup as mathematics, with the two facts that make value
//! iteration safe to run: action values stay within a fixed bound, and a sweep
//! never moves two tables further apart.

use vstd::prelude::*;
use crate::fixed::REWARD_LIMIT;
use crate::fixed::SCALE;
use crate::fixed::VALUE_LIMIT;
use crate::fixed::is_proper_fraction;
use crate::fixed::is_reward;
use crate::fixed::is_value;
use crate::fixed::lemma_floor_between;
use crate::fixed::lemma_floor_step;
use crate::grid::Grid;
use crate::grid::N_ACTIONS;
use crate::policy::lemma_row_max_bounded;
use crate::policy::lemma_row_max_close;
use crate::policy::row_max;
use crate::policy::table_shaped;
use crate::transition::lemma_prefix_total_nonnegative;
use crate::transition::prefix_total;
use crate::transition::tensor_fits;
use crate::transition::total;

verus! {

/// A row of wide machine integers as mathematical integers.
pub open spec fn wide(row: Seq<i128>) -> Seq<int> {
    Seq::new(row.len(), |i: int| row[i] as int)
}

/// What landing in a state is worth: its reward plus the discounted best action
/// value there. The result carries two factors of `SCALE`.
pub open spec fn landing_value(reward: int, gamma: int, row: Seq<int>) -> int {
    reward * SCALE + gamma * row_max(row)
}

/// What landing is worth, for every state.
pub open spec fn landing_values(rewards: Seq<int>, gamma: int, q: Seq<Seq<int>>) -> Seq<int> {
    Seq::new(rewards.len(), |t: int| landing_value(rewards[t], gamma, q[t]))
}

/// The sum of `p[i] * x[i]` over the first `n` places.
pub open spec fn weighted_sum(p: Seq<int>, x: Seq<int>, n: int) -> int
    decreases n,
{
    if n <= 0 {
        0
    } else {
        weighted_sum(p, x, n - 1) + p[n - 1] * x[n - 1]
    }
}

/// The backed-up value of one state and action, whose outgoing probabilities are
/// `p_row`: the expected landing value, rounded down to a millionth.
pub open spec fn backup(p_row: Seq<int>, rewards: Seq<int>, gamma: int, q: Seq<Seq<int>>) -> int {
    weighted_sum(p_row, landing_values(rewards, gamma, q), rewards.len() as int) / (SCALE * SCALE)
}

/// One synchronous sweep: every entry of the new table is backed up from the old
/// table alone.
pub open spec fn sweep(
    tensor: Seq<Seq<Seq<int>>>,
    rewards: Seq<int>,
    gamma: int,
    q: Seq<Seq<int>>,
) -> Seq<Seq<int>> {
    Seq::new(
        rewards.len(),
        |s: int| Seq::new(N_ACTIONS as nat, |a: int| backup(tensor[a][s], rewards, gamma, q)),
    )
}

/// The table of `n` states in which every action value is zero.
pub open spec fn zero_table(n: nat) -> Seq<Seq<int>> {
    Seq::new(n, |s: int| Seq::new(N_ACTIONS as nat, |a: int| 0int))
}

/// The table after `k` sweeps from the zero table.
pub open spec fn iterate(
    tensor: Seq<Seq<Seq<int>>>,
    rewards: Seq<int>,
    gamma: int,
    k: nat,
) -> Seq<Seq<int>>
    decreases k,
{
    if k == 0 {
        zero_table(rewards.len())
    } else {
        sweep(tensor, rewards, gamma, iterate(tensor, rewards, gamma, (k - 1) as nat))
    }
}

/// Every action value of the table is admissible.
pub open spec fn table_bounded(q: Seq<Seq<int>>) -> bool {
    forall|s: int, a: int|
        0 <= s < q.len() && 0 <= a < q[s].len() ==> is_value(#[trigger] q[s][a])
}

/// No entry of `q1` differs from the same entry of `q2` by more than `d`.
pub open spec fn tables_within(q1: Seq<Seq<int>>, q2: Seq<Seq<int>>, d: int) -> bool {
    forall|s: int, a: int|
        0 <= s < q1.len() && 0 <= a < N_ACTIONS ==> -d <= #[trigger] q1[s][a] - q2[s][a] <= d
}

/// The distance to which a sweep with discount factor `gamma` brings two tables
/// that are `d` apart: `gamma * d`, rounded up to a millionth.
pub open spec fn contracted(gamma: int, d: int) -> int {
    (gamma * d + SCALE - 1) / (SCALE as int)
}

/// A distance does not grow when it is contracted, and stays a distance.
pub proof fn lemma_contracted_bounds(gamma: int, d: int)
    requires
        is_proper_fraction(gamma),
        d >= 0,
    ensures
        0 <= contracted(gamma, d) <= d,
        contracted(gamma, d) * SCALE >= gamma * d,
{
    let gd = gamma * d;
    let k = contracted(gamma, d);
    assert(0 <= gd <= (SCALE - 1) * d) by (nonlinear_arith)
        requires
            gd == gamma * d,
            0 < gamma <= SCALE - 1,
            d >= 0,
    ;
    assert(k * SCALE >= gd && 0 <= k <= d) by (nonlinear_arith)
        requires
            k == (gd + SCALE - 1) / (SCALE as int),
            0 <= gd <= (SCALE - 1) * d,
            d >= 0,
            SCALE == 1_000_000,
    ;
}

/// A weighted sum with non-negative weights lies within the total weight times
/// any bound on the summands.
pub proof fn lemma_weighted_sum_bounded(p: Seq<int>, x: Seq<int>, n: int, bound: int)
    requires
        0 <= n <= p.len(),
        n <= x.len(),
        bound >= 0,
        forall|i: int| 0 <= i < n ==> #[trigger] p[i] >= 0,
        forall|i: int| 0 <= i < n ==> -bound <= #[trigger] x[i] <= bound,
    ensures
        0 <= prefix_total(p, n),
        -(prefix_total(p, n) * bound) <= weighted_sum(p, x, n) <= prefix_total(p, n) * bound,
    decreases n,
{
    if n > 0 {
        lemma_weighted_sum_bounded(p, x, n - 1, bound);
        let w = p[n - 1];
        let v = x[n - 1];
        let t = prefix_total(p, n - 1);
        assert(-(w * bound) <= w * v <= w * bound) by (nonlinear_arith)
            requires
                w >= 0,
                -bound <= v <= bound,
        ;
        assert((t + w) * bound == t * bound + w * bound) by (nonlinear_arith);
    } else {
        assert(0 * bound == 0) by (nonlinear_arith);
    }
}

/// Two weighted sums with the same non-negative weights differ by no more than
/// the total weight times the largest difference of their summands.
pub proof fn lemma_weighted_sum_close(p: Seq<int>, x1: Seq<int>, x2: Seq<int>, n: int, d: int)
    requires
        0 <= n <= p.len(),
        n <= x1.len(),
        n <= x2.len(),
        d >= 0,
        forall|i: int| 0 <= i < n ==> #[trigger] p[i] >= 0,
        forall|i: int| 0 <= i < n ==> -d <= #[trigger] x1[i] - x2[i] <= d,
    ensures
        -(prefix_total(p, n) * d) <= weighted_sum(p, x1, n) - weighted_sum(p, x2, n)
            <= prefix_total(p, n) * d,
    decreases n,
{
    if n > 0 {
        lemma_weighted_sum_close(p, x1, x2, n - 1, d);
        let w = p[n - 1];
        let v1 = x1[n - 1];
        let v2 = x2[n - 1];
        let t = prefix_total(p, n - 1);
        assert(-d <= x1[n - 1] - x2[n - 1] <= d);
        assert(-(w * d) <= w * v1 - w * v2 <= w * d) by (nonlinear_arith)
            requires
                w >= 0,
                -d <= v1 - v2 <= d,
        ;
        assert((t + w) * d == t * d + w * d) by (nonlinear_arith);
    } else {
        assert(0 * d == 0) by (nonlinear_arith);
    }
}

/// Landing anywhere is worth no more than the largest action value, taken with
/// one more factor of `SCALE`.
pub proof fn lemma_landing_bounded(reward: int, gamma: int, row: Seq<int>)
    requires
        is_reward(reward),
        is_proper_fraction(gamma),
        forall|a: int| 0 <= a < row.len() ==> is_value(#[trigger] row[a]),
    ensures
        -(VALUE_LIMIT * SCALE) <= landing_value(reward, gamma, row) <= VALUE_LIMIT * SCALE,
{
    lemma_row_max_bounded(row, -(VALUE_LIMIT as int), VALUE_LIMIT as int);
    let m = row_max(row);
    assert(-(REWARD_LIMIT * SCALE) <= reward * SCALE <= REWARD_LIMIT * SCALE) by (nonlinear_arith)
        requires
            -REWARD_LIMIT <= reward <= REWARD_LIMIT,
    ;
    assert(-((SCALE - 1) * VALUE_LIMIT) <= gamma * m <= (SCALE - 1) * VALUE_LIMIT)
        by (nonlinear_arith)
        requires
            0 < gamma <= SCALE - 1,
            -VALUE_LIMIT <= m <= VALUE_LIMIT,
    ;
}

/// Backing up admissible values through a row of probabilities gives an
/// admissible value.
pub proof fn lemma_backup_bounded(p_row: Seq<int>, rewards: Seq<int>, gamma: int, q: Seq<Seq<int>>)
    requires
        p_row.len() == rewards.len(),
        q.len() == rewards.len(),
        forall|t: int| 0 <= t < p_row.len() ==> #[trigger] p_row[t] >= 0,
        total(p_row) <= SCALE,
        forall|t: int| 0 <= t < rewards.len() ==> is_reward(#[trigger] rewards[t]),
        is_proper_fraction(gamma),
        table_bounded(q),
    ensures
        is_value(backup(p_row, rewards, gamma, q)),
        -(VALUE_LIMIT * SCALE * SCALE) <= weighted_sum(
            p_row,
            landing_values(rewards, gamma, q),
            rewards.len() as int,
        ) <= VALUE_LIMIT * SCALE * SCALE,
{
    let n = rewards.len() as int;
    let x = landing_values(rewards, gamma, q);
    let bound = VALUE_LIMIT * SCALE;
    assert forall|t: int| 0 <= t < n implies -bound <= #[trigger] x[t] <= bound by {
        assert forall|a: int| 0 <= a < q[t].len() implies is_value(#[trigger] q[t][a]) by {}
        lemma_landing_bounded(rewards[t], gamma, q[t]);
    }
    lemma_weighted_sum_bounded(p_row, x, n, bound);
    let w = prefix_total(p_row, n);
    let ws = weighted_sum(p_row, x, n);
    assert(w * bound <= SCALE * bound) by (nonlinear_arith)
        requires
            0 <= w <= SCALE,
            bound >= 0,
    ;
    assert(SCALE * bound == VALUE_LIMIT * (SCALE * SCALE)) by (nonlinear_arith)
        requires
            bound == VALUE_LIMIT * SCALE,
    ;
    assert((-(VALUE_LIMIT as int)) * (SCALE * SCALE) == -(VALUE_LIMIT * (SCALE * SCALE)))
        by (nonlinear_arith);
    assert(VALUE_LIMIT * SCALE * SCALE == VALUE_LIMIT * (SCALE * SCALE)) by (nonlinear_arith);
    lemma_floor_between(ws, SCALE * SCALE, -(VALUE_LIMIT as int), VALUE_LIMIT as int);
}

/// Backing up two tables that are `d` apart through the same row of
/// probabilities gives values that are no more than `contracted(gamma, d)` apart.
pub proof fn lemma_backup_close(
    p_row: Seq<int>,
    rewards: Seq<int>,
    gamma: int,
    q1: Seq<Seq<int>>,
    q2: Seq<Seq<int>>,
    d: int,
)
    requires
        p_row.len() == rewards.len(),
        forall|t: int| 0 <= t < p_row.len() ==> #[trigger] p_row[t] >= 0,
        total(p_row) <= SCALE,
        is_proper_fraction(gamma),
        table_shaped(q1, rewards.len()),
        table_shaped(q2, rewards.len()),
        d >= 0,
        tables_within(q1, q2, d),
    ensures
        -contracted(gamma, d) <= backup(p_row, rewards, gamma, q1) - backup(
            p_row,
            rewards,
            gamma,
            q2,
        ) <= contracted(gamma, d),
        0 <= contracted(gamma, d) <= d,
{
    let n = rewards.len() as int;
    let x1 = landing_values(rewards, gamma, q1);
    let x2 = landing_values(rewards, gamma, q2);
    let gd = gamma * d;
    assert(0 <= gd <= (SCALE - 1) * d) by (nonlinear_arith)
        requires
            gd == gamma * d,
            0 < gamma <= SCALE - 1,
            d >= 0,
    ;
    assert forall|t: int| 0 <= t < n implies -gd <= #[trigger] x1[t] - x2[t] <= gd by {
        assert forall|a: int| 0 <= a < q1[t].len() implies -d <= #[trigger] q1[t][a] - q2[t][a]
            <= d by {}
        lemma_row_max_close(q1[t], q2[t], d);
        let m1 = row_max(q1[t]);
        let m2 = row_max(q2[t]);
        assert(-(gamma * d) <= gamma * m1 - gamma * m2 <= gamma * d) by (nonlinear_arith)
            requires
                gamma > 0,
                -d <= m1 - m2 <= d,
        ;
    }
    lemma_weighted_sum_close(p_row, x1, x2, n, gd);
    let w = prefix_total(p_row, n);
    let k = contracted(gamma, d);
    lemma_prefix_total_nonnegative(p_row, n);
    assert(w * gd <= SCALE * gd) by (nonlinear_arith)
        requires
            0 <= w <= SCALE,
            gd >= 0,
    ;
    lemma_contracted_bounds(gamma, d);
    assert(SCALE * gd <= k * (SCALE * SCALE)) by (nonlinear_arith)
        requires
            k * SCALE >= gd,
            SCALE > 0,
    ;
    lemma_floor_step(
        weighted_sum(p_row, x1, n),
        weighted_sum(p_row, x2, n),
        SCALE * SCALE,
        k,
    );
}

/// Every row of a tensor that fits a grid is as long as the grid has states,
/// has no negative entry and carries a total mass of at most one.
pub proof fn lemma_fitting_row(g: Grid, tensor: Seq<Seq<Seq<int>>>, a: int, s: int)
    requires
        tensor_fits(g, tensor),
        0 <= a < N_ACTIONS,
        g.is_state(s),
    ensures
        tensor[a][s].len() == g.size(),
        forall|t: int| 0 <= t < g.size() ==> #[trigger] tensor[a][s][t] >= 0,
        0 <= total(tensor[a][s]) <= SCALE,
{
    assert(crate::transition::row_conserves_mass(g, tensor[a][s], s));
}

/// A sweep keeps the shape of the table and the bound on its values.
pub proof fn lemma_sweep_bounded(g: Grid, tensor: Seq<Seq<Seq<int>>>, gamma: int, q: Seq<Seq<int>>)
    requires
        g.wf(),
        tensor_fits(g, tensor),
        is_proper_fraction(gamma),
        table_shaped(q, g.size()),
        table_bounded(q),
    ensures
        table_shaped(sweep(tensor, g.rewards, gamma, q), g.size()),
        table_bounded(sweep(tensor, g.rewards, gamma, q)),
{
    let next = sweep(tensor, g.rewards, gamma, q);
    assert forall|s: int, a: int| 0 <= s < next.len() && 0 <= a < next[s].len() implies is_value(
        #[trigger] next[s][a],
    ) by {
        lemma_fitting_row(g, tensor, a, s);
        lemma_backup_bounded(tensor[a][s], g.rewards, gamma, q);
    }
}

/// Every table that value iteration reaches has the shape of the grid and
/// admissible values.
pub proof fn lemma_iterate_bounded(g: Grid, tensor: Seq<Seq<Seq<int>>>, gamma: int, k: nat)
    requires
        g.wf(),
        tensor_fits(g, tensor),
        is_proper_fraction(gamma),
    ensures
        table_shaped(iterate(tensor, g.rewards, gamma, k), g.size()),
        table_bounded(iterate(tensor, g.rewards, gamma, k)),
    decreases k,
{
    if k > 0 {
        lemma_iterate_bounded(g, tensor, gamma, (k - 1) as nat);
        lemma_sweep_bounded(g, tensor, gamma, iterate(tensor, g.rewards, gamma, (k - 1) as nat));
    }
}

/// A sweep is a contraction: two tables that are nowhere more than `d` apart are,
/// after one sweep each, nowhere more than `gamma * d` (rounded up to a
/// millionth) apart, which is no more than `d`.
pub proof fn lemma_sweep_contracts(
    g: Grid,
    tensor: Seq<Seq<Seq<int>>>,
    gamma: int,
    q1: Seq<Seq<int>>,
    q2: Seq<Seq<int>>,
    d: int,
)
    requires
        g.wf(),
        tensor_fits(g, tensor),
        is_proper_fraction(gamma),
        table_shaped(q1, g.size()),
        table_shaped(q2, g.size()),
        d >= 0,
        tables_within(q1, q2, d),
    ensures
        tables_within(
            sweep(tensor, g.rewards, gamma, q1),
            sweep(tensor, g.rewards, gamma, q2),
            contracted(gamma, d),
        ),
        0 <= contracted(gamma, d) <= d,
{
    let n1 = sweep(tensor, g.rewards, gamma, q1);
    let n2 = sweep(tensor, g.rewards, gamma, q2);
    let k = contracted(gamma, d);
    assert forall|s: int, a: int| 0 <= s < n1.len() && 0 <= a < N_ACTIONS implies -k
        <= #[trigger] n1[s][a] - n2[s][a] <= k by {
        lemma_fitting_row(g, tensor, a, s);
        lemma_backup_close(tensor[a][s], g.rewards, gamma, q1, q2, d);
    }
    lemma_contracted_bounds(gamma, d);
}

/// The change that a sweep of value iteration makes never grows: if no action
/// value moved by more than `d` in sweep `k + 1`, none moves by more than `d` in
/// sweep `k + 2`, nor in any later sweep.
pub proof fn lemma_changes_never_grow(
    g: Grid,
    tensor: Seq<Seq<Seq<int>>>,
    gamma: int,
    k: nat,
    later: nat,
    d: int,
)
    requires
        g.wf(),
        tensor_fits(g, tensor),
        is_proper_fraction(gamma),
        d >= 0,
        later >= k,
        tables_within(
            iterate(tensor, g.rewards, gamma, k + 1),
            iterate(tensor, g.rewards, gamma, k),
            d,
        ),
    ensures
        tables_within(
            iterate(tensor, g.rewards, gamma, later + 1),
            iterate(tensor, g.rewards, gamma, later),
            d,
        ),
    decreases later - k,
{
    if later > k {
        let prev = (later - 1) as nat;
        lemma_changes_never_grow(g, tensor, gamma, k, prev, d);
        lemma_iterate_bounded(g, tensor, gamma, prev);
        lemma_iterate_bounded(g, tensor, gamma, later);
        let q_old = iterate(tensor, g.rewards, gamma, prev);
        let q_new = iterate(tensor, g.rewards, gamma, later);
        lemma_sweep_contracts(g, tensor, gamma, q_new, q_old, d);
        let c = contracted(gamma, d);
        let a1 = sweep(tensor, g.rewards, gamma, q_new);
        let a0 = sweep(tensor, g.rewards, gamma, q_old);
        assert(a1 == iterate(tensor, g.rewards, gamma, later + 1));
        assert(a0 == iterate(tensor, g.rewards, gamma, later));
        assert forall|s: int, a: int| 0 <= s < a1.len() && 0 <= a < N_ACTIONS implies -d
            <= #[trigger] a1[s][a] - a0[s][a] <= d by {
            assert(-c <= a1[s][a] - a0[s][a] <= c);
        }
    }
}

} // verus!
