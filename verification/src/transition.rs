//! The stochastic transition model as mathematics: where each outcome of an
//! action lands, how much probability each landing cell receives, and why the
//! mass that leaves an open cell is exactly one.

use vstd::prelude::*;
use crate::fixed::SCALE;
use crate::grid::Grid;
use crate::grid::N_ACTIONS;
use crate::grid::lemma_flat_index;

verus! {

/// Number of outcomes of an action: the intended move and the two lateral slips.
pub const N_OUTCOMES: usize = 3;

/// Rows moved by a step in `direction`: north is up, south is down.
pub open spec fn row_step(direction: int) -> int {
    if direction == 0 {
        -1
    } else if direction == 1 {
        1
    } else {
        0
    }
}

/// Columns moved by a step in `direction`: east is right, west is left.
pub open spec fn col_step(direction: int) -> int {
    if direction == 2 {
        1
    } else if direction == 3 {
        -1
    } else {
        0
    }
}

/// The direction in which outcome `k` of `action` moves: outcome 0 is the action
/// itself, outcome 1 the slip to its left and outcome 2 the slip to its right.
pub open spec fn outcome_direction(action: int, k: int) -> int {
    if k == 0 {
        action
    } else if action == 0 {
        if k == 1 {
            3
        } else {
            2
        }
    } else if action == 1 {
        if k == 1 {
            2
        } else {
            3
        }
    } else if action == 2 {
        if k == 1 {
            0
        } else {
            1
        }
    } else {
        if k == 1 {
            1
        } else {
            0
        }
    }
}

impl Grid {
    /// Where a step of `(dr, dc)` from state `s` ends: on the neighbouring cell if
    /// it lies on the grid and is no wall, else where it began.
    pub open spec fn landing(self, s: int, dr: int, dc: int) -> int {
        let row = self.row_of(s) + dr;
        let col = self.col_of(s) + dc;
        if self.enterable(row, col) {
            self.flat(row, col)
        } else {
            s
        }
    }

    /// Where a move in `direction` from state `s` ends.
    pub open spec fn moved(self, s: int, direction: int) -> int {
        self.landing(s, row_step(direction), col_step(direction))
    }
}

/// Where outcome `k` of `action` taken in state `s` lands.
pub open spec fn outcome_target(g: Grid, s: int, action: int, k: int) -> int {
    g.moved(s, outcome_direction(action, k))
}

/// The three probabilities are non-negative and sum to one.
pub open spec fn valid_outcomes(probs: Seq<int>) -> bool {
    &&& probs.len() == N_OUTCOMES
    &&& probs[0] >= 0
    &&& probs[1] >= 0
    &&& probs[2] >= 0
    &&& probs[0] + probs[1] + probs[2] == SCALE
}

/// The mass that the first `k` outcomes of `action` in state `s` send to `t`.
pub open spec fn mass_of_outcomes(g: Grid, probs: Seq<int>, action: int, s: int, t: int, k: int) -> int
    decreases k,
{
    if k <= 0 {
        0
    } else {
        mass_of_outcomes(g, probs, action, s, t, k - 1) + if outcome_target(g, s, action, k - 1)
            == t {
            probs[k - 1]
        } else {
            0
        }
    }
}

/// The probability of landing in `t` when `action` is taken in `s`. A wall sends
/// nothing anywhere.
pub open spec fn transition_mass(g: Grid, probs: Seq<int>, action: int, s: int, t: int) -> int {
    if g.is_wall(s) {
        0
    } else {
        mass_of_outcomes(g, probs, action, s, t, N_OUTCOMES as int)
    }
}

/// The probabilities of all landing cells for `action` taken in `s`.
pub open spec fn transition_row(g: Grid, probs: Seq<int>, action: int, s: int) -> Seq<int> {
    Seq::new(g.size(), |t: int| transition_mass(g, probs, action, s, t))
}

/// The whole model: `tensor[action][from][to]`.
pub open spec fn transition_tensor(g: Grid, probs: Seq<int>) -> Seq<Seq<Seq<int>>> {
    Seq::new(
        N_ACTIONS as nat,
        |action: int| Seq::new(g.size(), |s: int| transition_row(g, probs, action, s)),
    )
}

/// The sum of the first `n` entries of a row.
pub open spec fn prefix_total(row: Seq<int>, n: int) -> int
    decreases n,
{
    if n <= 0 {
        0
    } else {
        prefix_total(row, n - 1) + row[n - 1]
    }
}

/// The sum of a row.
pub open spec fn total(row: Seq<int>) -> int {
    prefix_total(row, row.len() as int)
}

/// A sum of non-negative entries is not negative.
pub proof fn lemma_prefix_total_nonnegative(row: Seq<int>, n: int)
    requires
        0 <= n <= row.len(),
        forall|i: int| 0 <= i < n ==> #[trigger] row[i] >= 0,
    ensures
        0 <= prefix_total(row, n),
    decreases n,
{
    if n > 0 {
        lemma_prefix_total_nonnegative(row, n - 1);
    }
}

/// Among non-negative entries, sums of longer prefixes are larger, and every
/// entry is at most the sum of a prefix that holds it.
pub proof fn lemma_prefix_total_monotone(row: Seq<int>, m: int, n: int)
    requires
        0 <= m <= n <= row.len(),
        forall|i: int| 0 <= i < n ==> #[trigger] row[i] >= 0,
    ensures
        0 <= prefix_total(row, m) <= prefix_total(row, n),
        m < n ==> row[m] <= prefix_total(row, n),
    decreases n - m,
{
    lemma_prefix_total_nonnegative(row, m);
    if m < n {
        lemma_prefix_total_monotone(row, m + 1, n);
    }
}

/// A tensor fits a grid when it has one row per action and state, no negative
/// entry, no mass leaving a wall, and mass exactly one leaving every open cell.
pub open spec fn tensor_fits(g: Grid, tensor: Seq<Seq<Seq<int>>>) -> bool {
    &&& tensor_shaped(g, tensor)
    &&& tensor_conserves_mass(g, tensor)
}

/// The tensor has `N_ACTIONS` tables of `size` rows of `size` entries.
pub open spec fn tensor_shaped(g: Grid, tensor: Seq<Seq<Seq<int>>>) -> bool {
    &&& tensor.len() == N_ACTIONS
    &&& forall|a: int| 0 <= a < N_ACTIONS ==> (#[trigger] tensor[a]).len() == g.size()
    &&& forall|a: int, s: int|
        0 <= a < N_ACTIONS && 0 <= s < g.size() ==> (#[trigger] tensor[a][s]).len() == g.size()
}

/// `row` is an admissible row of outgoing mass for state `s`.
pub open spec fn row_conserves_mass(g: Grid, row: Seq<int>, s: int) -> bool {
    &&& forall|t: int| 0 <= t < row.len() ==> #[trigger] row[t] >= 0
    &&& total(row) == if g.is_wall(s) {
        0
    } else {
        SCALE as int
    }
}

/// Every row of the tensor is admissible.
pub open spec fn tensor_conserves_mass(g: Grid, tensor: Seq<Seq<Seq<int>>>) -> bool {
    forall|a: int, s: int|
        0 <= a < N_ACTIONS && 0 <= s < g.size() ==> row_conserves_mass(g, #[trigger] tensor[a][s], s)
}

/// A step from a state ends in a state.
pub proof fn lemma_landing_is_state(g: Grid, s: int, dr: int, dc: int)
    requires
        g.wf(),
        g.is_state(s),
    ensures
        g.is_state(g.landing(s, dr, dc)),
{
    let row = g.row_of(s) + dr;
    let col = g.col_of(s) + dc;
    if g.enterable(row, col) {
        lemma_flat_index(g, row, col);
    }
}

/// No move ends on a wall, unless it began on one.
pub proof fn lemma_landing_is_open(g: Grid, s: int, dr: int, dc: int)
    requires
        g.wf(),
        g.is_state(s),
        !g.is_wall(s),
    ensures
        !g.is_wall(g.landing(s, dr, dc)),
{
}

/// The mass `p` if its target is among the first `n` cells, and none otherwise.
pub open spec fn mass_within(target: int, n: int, p: int) -> int {
    if 0 <= target < n {
        p
    } else {
        0
    }
}

/// No cell receives negative mass.
proof fn lemma_mass_nonnegative(g: Grid, probs: Seq<int>, action: int, s: int, t: int, k: int)
    requires
        valid_outcomes(probs),
        0 <= k <= N_OUTCOMES,
    ensures
        0 <= mass_of_outcomes(g, probs, action, s, t, k),
    decreases k,
{
    if k > 0 {
        lemma_mass_nonnegative(g, probs, action, s, t, k - 1);
    }
}

/// The mass that the first `n` cells receive is the mass of the outcomes that
/// land among them.
proof fn lemma_row_prefix(g: Grid, probs: Seq<int>, action: int, s: int, n: int)
    requires
        valid_outcomes(probs),
        !g.is_wall(s),
        0 <= n <= g.size(),
    ensures
        prefix_total(transition_row(g, probs, action, s), n) == mass_within(
            outcome_target(g, s, action, 0),
            n,
            probs[0],
        ) + mass_within(outcome_target(g, s, action, 1), n, probs[1]) + mass_within(
            outcome_target(g, s, action, 2),
            n,
            probs[2],
        ),
    decreases n,
{
    if n > 0 {
        lemma_row_prefix(g, probs, action, s, n - 1);
        let row = transition_row(g, probs, action, s);
        let t = n - 1;
        assert(row[t] == transition_mass(g, probs, action, s, t));
        reveal_with_fuel(mass_of_outcomes, 4);
        assert(mass_of_outcomes(g, probs, action, s, t, 3) == (if outcome_target(g, s, action, 0)
            == t {
            probs[0]
        } else {
            0
        }) + (if outcome_target(g, s, action, 1) == t {
            probs[1]
        } else {
            0
        }) + (if outcome_target(g, s, action, 2) == t {
            probs[2]
        } else {
            0
        }));
    }
}

/// Probability mass is conserved: for every open state and every action the
/// probabilities of all landing cells sum to exactly one, whatever part of the
/// mass a wall or the edge of the grid turns back onto the state itself.
pub proof fn lemma_mass_conserved(g: Grid, probs: Seq<int>, action: int, s: int)
    requires
        g.wf(),
        valid_outcomes(probs),
        0 <= action < N_ACTIONS,
        g.is_state(s),
        !g.is_wall(s),
    ensures
        total(transition_row(g, probs, action, s)) == SCALE,
{
    lemma_row_prefix(g, probs, action, s, g.size() as int);
    lemma_landing_is_state(
        g,
        s,
        row_step(outcome_direction(action, 0)),
        col_step(outcome_direction(action, 0)),
    );
    lemma_landing_is_state(
        g,
        s,
        row_step(outcome_direction(action, 1)),
        col_step(outcome_direction(action, 1)),
    );
    lemma_landing_is_state(
        g,
        s,
        row_step(outcome_direction(action, 2)),
        col_step(outcome_direction(action, 2)),
    );
}

/// A wall has no outgoing mass.
pub proof fn lemma_wall_row_empty(g: Grid, probs: Seq<int>, action: int, s: int, n: int)
    requires
        g.is_wall(s),
        0 <= n <= g.size(),
    ensures
        prefix_total(transition_row(g, probs, action, s), n) == 0,
    decreases n,
{
    if n > 0 {
        lemma_wall_row_empty(g, probs, action, s, n - 1);
    }
}

/// The model built from a grid fits the grid.
pub proof fn lemma_transition_tensor_fits(g: Grid, probs: Seq<int>)
    requires
        g.wf(),
        valid_outcomes(probs),
    ensures
        tensor_fits(g, transition_tensor(g, probs)),
{
    let tensor = transition_tensor(g, probs);
    assert forall|a: int, s: int| 0 <= a < N_ACTIONS && 0 <= s < g.size() implies row_conserves_mass(
        g,
        #[trigger] tensor[a][s],
        s,
    ) by {
        let row = tensor[a][s];
        assert(row == transition_row(g, probs, a, s));
        assert forall|t: int| 0 <= t < row.len() implies #[trigger] row[t] >= 0 by {
            lemma_mass_nonnegative(g, probs, a, s, t, N_OUTCOMES as int);
        }
        if g.is_wall(s) {
            lemma_wall_row_empty(g, probs, a, s, g.size() as int);
        } else {
            lemma_mass_conserved(g, probs, a, s);
        }
    }
}

} // verus!
