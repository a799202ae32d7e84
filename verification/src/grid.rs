//! The mathematical model of a grid world: its size, and the kind and reward of
//! every cell in row-major order.

use vstd::prelude::*;
use vstd::arithmetic::div_mod::lemma_fundamental_div_mod;
use vstd::arithmetic::div_mod::lemma_fundamental_div_mod_converse;
use crate::fixed::is_reward;
use crate::status::StatusType;

verus! {

/// Number of actions: north, south, east and west, in this order.
pub const N_ACTIONS: usize = 4;

/// A grid of `rows * cols` cells. Cell `(row, col)` has the linear index
/// `row * cols + col`, under which `kinds` and `rewards` hold what it is.
pub struct Grid {
    pub rows: nat,
    pub cols: nat,
    pub kinds: Seq<StatusType>,
    pub rewards: Seq<int>,
}

impl Grid {
    /// Number of cells, which is also the number of states.
    pub open spec fn size(self) -> nat {
        self.rows * self.cols
    }

    /// The grid is not empty, knows every cell, and every reward is admissible.
    pub open spec fn wf(self) -> bool {
        &&& self.rows > 0
        &&& self.cols > 0
        &&& self.kinds.len() == self.size()
        &&& self.rewards.len() == self.size()
        &&& forall|s: int| 0 <= s < self.size() ==> is_reward(#[trigger] self.rewards[s])
    }

    /// The linear index of cell `(row, col)`.
    pub open spec fn flat(self, row: int, col: int) -> int {
        row * self.cols + col
    }

    /// The row of the cell with linear index `s`.
    pub open spec fn row_of(self, s: int) -> int {
        s / (self.cols as int)
    }

    /// The column of the cell with linear index `s`.
    pub open spec fn col_of(self, s: int) -> int {
        s % (self.cols as int)
    }

    /// `(row, col)` lies on the grid.
    pub open spec fn in_bounds(self, row: int, col: int) -> bool {
        0 <= row < self.rows && 0 <= col < self.cols
    }

    /// `s` is the index of a cell.
    pub open spec fn is_state(self, s: int) -> bool {
        0 <= s < self.size()
    }

    /// Cell `s` is a wall.
    pub open spec fn is_wall(self, s: int) -> bool {
        self.kinds[s] == StatusType::Wall
    }

    /// Cell `s` is the goal.
    pub open spec fn is_goal(self, s: int) -> bool {
        self.kinds[s] == StatusType::Goal
    }

    /// `(row, col)` lies on the grid and is not a wall: an agent can stand there.
    pub open spec fn enterable(self, row: int, col: int) -> bool {
        self.in_bounds(row, col) && !self.is_wall(self.flat(row, col))
    }

    /// Number of cells among the first `n` that are not walls.
    pub open spec fn open_before(self, n: int) -> nat
        decreases n,
    {
        if n <= 0 {
            0
        } else {
            self.open_before(n - 1) + if self.is_wall(n - 1) {
                0nat
            } else {
                1nat
            }
        }
    }

    /// Number of cells that are not walls.
    pub open spec fn open_count(self) -> nat {
        self.open_before(self.size() as int)
    }
}

/// The linear index of a cell on the grid is the index of a state, and the cell
/// is found again from it: its row is the quotient by the number of columns and
/// its column the remainder.
pub proof fn lemma_flat_index(g: Grid, row: int, col: int)
    requires
        g.in_bounds(row, col),
    ensures
        g.is_state(g.flat(row, col)),
        g.row_of(g.flat(row, col)) == row,
        g.col_of(g.flat(row, col)) == col,
{
    let c = g.cols as int;
    let r = g.rows as int;
    assert(row * c + col < r * c) by (nonlinear_arith)
        requires
            0 <= row < r,
            0 <= col < c,
    ;
    assert(0 <= row * c + col) by (nonlinear_arith)
        requires
            0 <= row,
            0 <= col,
            0 < c,
    ;
    lemma_fundamental_div_mod_converse(row * c + col, c, row, col);
}

/// Every state is the linear index of exactly one cell on the grid.
pub proof fn lemma_state_cell(g: Grid, s: int)
    requires
        g.cols > 0,
        g.is_state(s),
    ensures
        g.in_bounds(g.row_of(s), g.col_of(s)),
        g.flat(g.row_of(s), g.col_of(s)) == s,
{
    let c = g.cols as int;
    let r = g.rows as int;
    lemma_fundamental_div_mod(s, c);
    let q = s / c;
    let m = s % c;
    assert(c * q == q * c) by (nonlinear_arith);
    assert(0 <= q < r) by (nonlinear_arith)
        requires
            0 <= s < r * c,
            s == q * c + m,
            0 <= m < c,
    ;
}

/// The linear index is a bijection between the cells on the grid and the states:
/// two cells with the same index are the same cell.
pub proof fn lemma_flat_injective(g: Grid, row1: int, col1: int, row2: int, col2: int)
    requires
        g.in_bounds(row1, col1),
        g.in_bounds(row2, col2),
        g.flat(row1, col1) == g.flat(row2, col2),
    ensures
        row1 == row2,
        col1 == col2,
{
    lemma_flat_index(g, row1, col1);
    lemma_flat_index(g, row2, col2);
}

/// The count of open cells grows with the number of cells counted, by at most
/// one per cell.
pub proof fn lemma_open_before_monotone(g: Grid, m: int, n: int)
    requires
        0 <= m <= n,
    ensures
        g.open_before(m) <= g.open_before(n) <= g.open_before(m) + (n - m),
    decreases n - m,
{
    if m < n {
        lemma_open_before_monotone(g, m, n - 1);
    }
}

/// A grid with an open cell counts at least one.
pub proof fn lemma_open_cell_counts(g: Grid, s: int)
    requires
        g.is_state(s),
        !g.is_wall(s),
    ensures
        g.open_before(s) < g.open_count(),
{
    lemma_open_before_monotone(g, s + 1, g.size() as int);
}

} // verus!
