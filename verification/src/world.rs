//! The grid world as it is held in memory: a rectangle of cells read from tokens.

use vstd::prelude::*;
use crate::error::ConfigurationError;
use crate::fixed::is_reward;
use crate::grid::Grid;
use crate::grid::N_ACTIONS;
use crate::grid::lemma_flat_index;
use crate::grid::lemma_open_before_monotone;
use crate::grid::lemma_open_cell_counts;
use crate::grid::lemma_state_cell;
use crate::random::RandomSource;
use crate::status::Status;
use crate::status::StatusType;
use crate::status::token_kind;
use crate::status::token_recognised;
use crate::status::token_reward;

verus! {

/// A place on the grid.
#[derive(Debug, Clone, Copy, PartialEq, Eq, Structural)]
pub struct Position {
    pub row: usize,
    pub col: usize,
}

/// One cell: its token, what the token says, and where the cell lies.
#[derive(Debug, Clone, Copy)]
pub struct State {
    pub key: &'static str,
    pub kind: StatusType,
    pub reward: i64,
    pub position: Position,
    pub index: usize,
}

impl State {
    /// The cell at row `i` and column `j` of a grid with `n_cols` columns, read
    /// from its token.
    pub fn new(key: &'static str, i: usize, j: usize, n_cols: usize) -> (r: Result<
        State,
        ConfigurationError,
    >)
        requires
            i * n_cols + j <= usize::MAX,
        ensures
            token_recognised(key@) ==> r is Ok && r->Ok_0.key@ == key@ && r->Ok_0.kind
                == token_kind(key@) && r->Ok_0.reward == token_reward(key@) && r->Ok_0.position
                == (Position { row: i, col: j }) && r->Ok_0.index == i * n_cols + j,
            !token_recognised(key@) ==> r == Err::<State, ConfigurationError>(
                ConfigurationError::UnknownToken,
            ),
    {
        match Status::parse(key) {
            Ok(status) => {
                assert(0 <= i * n_cols <= i * n_cols + j) by (nonlinear_arith)
                    requires
                        0 <= i,
                        0 <= n_cols,
                        0 <= j,
                ;
                Ok(
                    State {
                        key: status.key,
                        kind: status.kind,
                        reward: status.reward,
                        position: Position { row: i, col: j },
                        index: i * n_cols + j,
                    },
                )
            },
            Err(e) => Err(e),
        }
    }
}

/// The tokens form a rectangle with at least one cell.
pub open spec fn tokens_rectangular(raw: Seq<Vec<&'static str>>) -> bool {
    &&& raw.len() > 0
    &&& raw[0].len() > 0
    &&& forall|i: int| 0 <= i < raw.len() ==> (#[trigger] raw[i]).len() == raw[0].len()
}

/// What is wrong with a rectangle of tokens, if anything. Of several faults the
/// first in this order is reported: no cell, rows of unequal length, too many
/// cells, an unknown token, no open cell.
pub open spec fn tokens_error(raw: Seq<Vec<&'static str>>) -> Option<ConfigurationError> {
    if raw.len() == 0 || raw[0].len() == 0 {
        Some(ConfigurationError::EmptyGrid)
    } else if !tokens_rectangular(raw) {
        Some(ConfigurationError::RaggedGrid)
    } else if raw.len() * raw[0].len() > usize::MAX {
        Some(ConfigurationError::GridTooLarge)
    } else if exists|i: int, j: int|
        0 <= i < raw.len() && 0 <= j < raw[0].len() && !token_recognised(#[trigger] raw[i][j]@) {
        Some(ConfigurationError::UnknownToken)
    } else if forall|i: int, j: int|
        0 <= i < raw.len() && 0 <= j < raw[0].len() ==> token_kind(#[trigger] raw[i][j]@)
            == StatusType::Wall {
        Some(ConfigurationError::NoOpenCell)
    } else {
        None
    }
}

/// The grid that a faultless rectangle of tokens describes.
pub open spec fn grid_of_tokens(raw: Seq<Vec<&'static str>>) -> Grid {
    let rows = raw.len();
    let cols = raw[0]@.len();
    Grid {
        rows,
        cols,
        kinds: Seq::new(rows * cols, |s: int| token_kind(raw[s / (cols as int)][s % (cols as int)]@)),
        rewards: Seq::new(
            rows * cols,
            |s: int| token_reward(raw[s / (cols as int)][s % (cols as int)]@),
        ),
    }
}

/// A cell says where it lies and carries an admissible reward.
pub open spec fn cell_placed(cell: State, i: int, j: int, cols: int) -> bool {
    &&& cell.position.row == i
    &&& cell.position.col == j
    &&& cell.index == i * cols + j
    &&& is_reward(cell.reward as int)
}

/// The grid world: a non-empty rectangle of cells, at least one of them open.
#[derive(Debug, Clone)]
pub struct GridWorld {
    states: Vec<Vec<State>>,
}

impl View for GridWorld {
    type V = Grid;

    open spec fn view(&self) -> Grid {
        let cells = self.cells();
        let rows = cells.len();
        let cols = cells[0].len();
        Grid {
            rows,
            cols,
            kinds: Seq::new(rows * cols, |s: int| cells[s / (cols as int)][s % (cols as int)].kind),
            rewards: Seq::new(
                rows * cols,
                |s: int| cells[s / (cols as int)][s % (cols as int)].reward as int,
            ),
        }
    }
}

impl GridWorld {
    /// The cells, row by row.
    pub closed spec fn cells(self) -> Seq<Seq<State>> {
        Seq::new(self.states.len() as nat, |i: int| self.states[i]@)
    }

    /// The map is a non-empty rectangle whose number of cells fits an index, every
    /// cell knows its place, and some cell is open.
    pub open spec fn wf(self) -> bool {
        let cells = self.cells();
        &&& cells.len() > 0
        &&& cells[0].len() > 0
        &&& forall|i: int| 0 <= i < cells.len() ==> (#[trigger] cells[i]).len() == cells[0].len()
        &&& cells.len() * cells[0].len() <= usize::MAX
        &&& forall|i: int, j: int|
            0 <= i < cells.len() && 0 <= j < cells[0].len() ==> cell_placed(
                #[trigger] cells[i][j],
                i,
                j,
                cells[0].len() as int,
            )
        &&& self@.open_count() > 0
    }

    /// A well-formed map has a well-formed grid as its model.
    pub proof fn lemma_view_wf(self)
        requires
            self.wf(),
        ensures
            self@.wf(),
            self@.size() <= usize::MAX,
            self@.rows == self.cells().len(),
            self@.cols == self.cells()[0].len(),
    {
        let g = self@;
        let cells = self.cells();
        assert forall|s: int| 0 <= s < g.size() implies is_reward(#[trigger] g.rewards[s]) by {
            lemma_state_cell(g, s);
            let i = g.row_of(s);
            let j = g.col_of(s);
            assert(cell_placed(cells[i][j], i, j, cells[0].len() as int));
        }
    }

    /// Reads a rectangle of tokens. The first letter of a token gives the kind of
    /// its cell: `S` ordinary, `P` danger, `W` or `O` wall, `G` or `M` goal.
    pub fn new(raw_map: &Vec<Vec<&'static str>>) -> (r: Result<GridWorld, ConfigurationError>)
        ensures
            match r {
                Ok(m) => {
                    &&& tokens_error(raw_map@) is None
                    &&& m.wf()
                    &&& m@ == grid_of_tokens(raw_map@)
                    &&& forall|i: int, j: int|
                        0 <= i < raw_map@.len() && 0 <= j < raw_map@[0].len() ==> (
                        #[trigger] m.cells()[i][j]).key@ == raw_map@[i][j]@
                },
                Err(e) => tokens_error(raw_map@) == Some(e),
            },
    {
        let n_rows = raw_map.len();
        if n_rows == 0 {
            return Err(ConfigurationError::EmptyGrid);
        }
        let n_cols = raw_map[0].len();
        if n_cols == 0 {
            return Err(ConfigurationError::EmptyGrid);
        }
        let mut i: usize = 0;
        while i < n_rows
            invariant
                n_rows == raw_map@.len(),
                n_cols == raw_map@[0].len(),
                n_cols > 0,
                0 <= i <= n_rows,
                forall|k: int| 0 <= k < i ==> (#[trigger] raw_map@[k]).len() == n_cols,
            decreases n_rows - i,
        {
            if raw_map[i].len() != n_cols {
                assert(raw_map@[i as int].len() != raw_map@[0].len());
                return Err(ConfigurationError::RaggedGrid);
            }
            i = i + 1;
        }
        assert(tokens_rectangular(raw_map@));
        let n_states = match n_rows.checked_mul(n_cols) {
            Some(n) => n,
            None => {
                return Err(ConfigurationError::GridTooLarge);
            },
        };
        let ghost raw = raw_map@;
        let mut states: Vec<Vec<State>> = Vec::new();
        let mut any_open = false;
        let ghost mut open_i: int = 0;
        let ghost mut open_j: int = 0;
        let mut i: usize = 0;
        while i < n_rows
            invariant
                raw == raw_map@,
                n_rows == raw.len(),
                n_cols == raw[0].len(),
                n_rows > 0,
                n_cols > 0,
                tokens_rectangular(raw),
                n_rows * n_cols <= usize::MAX,
                0 <= i <= n_rows,
                states.len() == i,
                forall|k: int| 0 <= k < i ==> (#[trigger] states[k]).len() == n_cols,
                forall|k: int, j: int|
                    0 <= k < i && 0 <= j < n_cols ==> token_recognised(#[trigger] raw[k][j]@),
                forall|k: int, j: int|
                    0 <= k < i && 0 <= j < n_cols ==> {
                        &&& token_recognised(raw[k][j]@)
                        &&& (#[trigger] states[k][j]).key@ == raw[k][j]@
                        &&& states[k][j].kind == token_kind(raw[k][j]@)
                        &&& states[k][j].reward == token_reward(raw[k][j]@)
                        &&& cell_placed(states[k][j], k, j, n_cols as int)
                    },
                any_open ==> 0 <= open_i < i && 0 <= open_j < n_cols && token_kind(
                    raw[open_i][open_j]@,
                ) != StatusType::Wall,
                !any_open ==> forall|k: int, j: int|
                    0 <= k < i && 0 <= j < n_cols ==> token_kind(#[trigger] raw[k][j]@)
                        == StatusType::Wall,
            decreases n_rows - i,
        {
            let mut row: Vec<State> = Vec::new();
            let mut j: usize = 0;
            let ghost any_before = any_open;
            let ghost open_i_before = open_i;
            let ghost open_j_before = open_j;
            while j < n_cols
                invariant
                    raw == raw_map@,
                    n_rows == raw.len(),
                    n_cols == raw[0].len(),
                    tokens_rectangular(raw),
                    n_rows * n_cols <= usize::MAX,
                    0 <= i < n_rows,
                    0 <= j <= n_cols,
                    row.len() == j,
                    forall|c: int| 0 <= c < j ==> token_recognised(#[trigger] raw[i as int][c]@),
                    forall|c: int|
                        0 <= c < j ==> {
                            &&& token_recognised(raw[i as int][c]@)
                            &&& (#[trigger] row[c]).key@ == raw[i as int][c]@
                            &&& row[c].kind == token_kind(raw[i as int][c]@)
                            &&& row[c].reward == token_reward(raw[i as int][c]@)
                            &&& cell_placed(row[c], i as int, c, n_cols as int)
                        },
                    any_open ==> 0 <= open_i <= i && 0 <= open_j < n_cols && token_kind(
                        raw[open_i][open_j]@,
                    ) != StatusType::Wall,
                    any_open && open_i == i ==> open_j < j,
                    any_before ==> any_open,
                    !any_open ==> forall|c: int|
                        0 <= c < j ==> token_kind(#[trigger] raw[i as int][c]@) == StatusType::Wall,
                decreases n_cols - j,
            {
                assert(raw[i as int].len() == n_cols);
                assert(i * n_cols + j < n_rows * n_cols) by (nonlinear_arith)
                    requires
                        0 <= i < n_rows,
                        0 <= j < n_cols,
                ;
                match State::new(raw_map[i][j], i, j, n_cols) {
                    Ok(state) => {
                        if state.kind.is_open() {
                            any_open = true;
                            proof {
                                open_i = i as int;
                                open_j = j as int;
                            }
                        }
                        row.push(state);
                    },
                    Err(e) => {
                        assert(!token_recognised(raw[i as int][j as int]@));
                        return Err(e);
                    },
                }
                j = j + 1;
            }
            states.push(row);
            i = i + 1;
        }
        assert(!exists|k: int, j: int|
            0 <= k < raw.len() && 0 <= j < raw[0].len() && !token_recognised(#[trigger] raw[k][j]@));
        if !any_open {
            return Err(ConfigurationError::NoOpenCell);
        }
        assert(token_kind(raw[open_i][open_j]@) != StatusType::Wall);
        let world = GridWorld { states };
        proof {
            let cells = world.cells();
            let g = world@;
            assert(cells.len() == n_rows);
            assert(cells[0] == world.states[0]@);
            assert forall|k: int| 0 <= k < cells.len() implies (#[trigger] cells[k]).len()
                == cells[0].len() by {
                assert(cells[k] == world.states[k]@);
            }
            assert forall|k: int, j: int|
                0 <= k < cells.len() && 0 <= j < cells[0].len() implies cell_placed(
                #[trigger] cells[k][j],
                k,
                j,
                cells[0].len() as int,
            ) && cells[k][j].key@ == raw[k][j]@ by {
                assert(cells[k] == world.states[k]@);
                assert(cells[k][j] == world.states[k][j]);
            }
            let t = grid_of_tokens(raw);
            assert(g.rows == t.rows && g.cols == t.cols);
            assert(g.kinds =~= t.kinds) by {
                assert forall|s: int| 0 <= s < g.size() implies g.kinds[s] == t.kinds[s] by {
                    lemma_state_cell(g, s);
                    let k = g.row_of(s);
                    let j = g.col_of(s);
                    assert(cells[k] == world.states[k]@);
                    assert(cells[k][j] == world.states[k][j]);
                }
            }
            assert(g.rewards =~= t.rewards) by {
                assert forall|s: int| 0 <= s < g.size() implies g.rewards[s] == t.rewards[s] by {
                    lemma_state_cell(g, s);
                    let k = g.row_of(s);
                    let j = g.col_of(s);
                    assert(cells[k] == world.states[k]@);
                    assert(cells[k][j] == world.states[k][j]);
                }
            }
            lemma_flat_index(g, open_i, open_j);
            lemma_open_cell_counts(g, g.flat(open_i, open_j));
            assert(!token_recognised(raw[open_i][open_j]@) || token_kind(raw[open_i][open_j]@)
                != StatusType::Wall);
        }
        Ok(world)
    }
    /// Number of rows.
    pub fn n_rows(&self) -> (n: usize)
        requires
            self.wf(),
        ensures
            n == self@.rows,
            n > 0,
    {
        self.states.len()
    }

    /// Number of columns.
    pub fn n_cols(&self) -> (n: usize)
        requires
            self.wf(),
        ensures
            n == self@.cols,
            n > 0,
    {
        assert(self.cells()[0] == self.states[0]@);
        self.states[0].len()
    }

    /// Number of cells, which is the number of states.
    pub fn n_states(&self) -> (n: usize)
        requires
            self.wf(),
        ensures
            n == self@.size(),
            n > 0,
    {
        assert(self.cells()[0] == self.states[0]@);
        assert(self@.size() > 0) by (nonlinear_arith)
            requires
                self@.size() == self@.rows * self@.cols,
                self@.rows > 0,
                self@.cols > 0,
        ;
        self.states.len() * self.states[0].len()
    }

    /// The cell at row `i` and column `j`.
    pub fn get_state(&self, i: usize, j: usize) -> (state: &State)
        requires
            self.wf(),
            self@.in_bounds(i as int, j as int),
        ensures
            *state == self.cells()[i as int][j as int],
            self.is_cell(*state),
            state.kind == self@.kinds[self@.flat(i as int, j as int)],
            state.reward == self@.rewards[self@.flat(i as int, j as int)],
            state.index == self@.flat(i as int, j as int),
            state.position == (Position { row: i, col: j }),
    {
        proof {
            let cells = self.cells();
            assert(cells[0] == self.states[0]@);
            assert(cells[i as int] == self.states[i as int]@);
            assert(cell_placed(cells[i as int][j as int], i as int, j as int, cells[0].len() as int));
            lemma_flat_index(self@, i as int, j as int);
        }
        &self.states[i][j]
    }

    /// The cell with linear index `s`.
    pub fn state_at(&self, s: usize) -> (state: &State)
        requires
            self.wf(),
            self@.is_state(s as int),
        ensures
            *state == self.cells()[self@.row_of(s as int)][self@.col_of(s as int)],
            self.is_cell(*state),
            state.kind == self@.kinds[s as int],
            state.reward == self@.rewards[s as int],
            state.index == s,
            state.position.row == self@.row_of(s as int),
            state.position.col == self@.col_of(s as int),
    {
        let n_cols = self.n_cols();
        proof {
            lemma_state_cell(self@, s as int);
        }
        self.get_state(s / n_cols, s % n_cols)
    }

    /// Whether an agent can stand at `position`: it lies on the grid and is not a
    /// wall.
    pub fn is_valid_position(&self, position: Position) -> (valid: bool)
        requires
            self.wf(),
        ensures
            valid == self@.enterable(position.row as int, position.col as int),
    {
        if position.row >= self.n_rows() || position.col >= self.n_cols() {
            return false;
        }
        self.get_state(position.row, position.col).kind.is_open()
    }

    /// The place of the goal: of the first goal cell in row-major order, if the
    /// grid has one.
    pub fn get_goal_position(&self) -> (goal: Option<Position>)
        requires
            self.wf(),
        ensures
            match goal {
                Some(p) => {
                    &&& self@.in_bounds(p.row as int, p.col as int)
                    &&& self@.is_goal(self@.flat(p.row as int, p.col as int))
                    &&& forall|s: int|
                        0 <= s < self@.flat(p.row as int, p.col as int) ==> !self@.is_goal(s)
                },
                None => forall|s: int| 0 <= s < self@.size() ==> !self@.is_goal(s),
            },
    {
        let n = self.n_states();
        let mut s: usize = 0;
        while s < n
            invariant
                self.wf(),
                n == self@.size(),
                0 <= s <= n,
                forall|t: int| 0 <= t < s ==> !self@.is_goal(t),
            decreases n - s,
        {
            let state = self.state_at(s);
            if state.kind == StatusType::Goal {
                proof {
                    lemma_state_cell(self@, s as int);
                }
                return Some(state.position);
            }
            s = s + 1;
        }
        None
    }

    /// Number of cells that are not walls.
    pub fn count_open(&self) -> (count: usize)
        requires
            self.wf(),
        ensures
            count == self@.open_count(),
            count > 0,
    {
        let n = self.n_states();
        let mut count: usize = 0;
        let mut s: usize = 0;
        while s < n
            invariant
                self.wf(),
                n == self@.size(),
                0 <= s <= n,
                count == self@.open_before(s as int),
                count <= s,
            decreases n - s,
        {
            if self.state_at(s).kind.is_open() {
                count = count + 1;
            }
            s = s + 1;
        }
        count
    }

    /// The place of the open cell that has exactly `k` open cells before it in
    /// row-major order.
    pub fn open_cell(&self, k: usize) -> (p: Position)
        requires
            self.wf(),
            k < self@.open_count(),
        ensures
            self@.enterable(p.row as int, p.col as int),
            self@.open_before(self@.flat(p.row as int, p.col as int)) == k,
    {
        let n = self.n_states();
        let mut seen: usize = 0;
        let mut s: usize = 0;
        proof {
            lemma_open_before_monotone(self@, 0, n as int);
        }
        while !(self.state_at(s).kind.is_open() && seen == k)
            invariant
                self.wf(),
                n == self@.size(),
                0 <= s < n,
                seen == self@.open_before(s as int),
                seen <= k,
                k < self@.open_count(),
            decreases n - s,
        {
            if self.state_at(s).kind.is_open() {
                seen = seen + 1;
            }
            proof {
                lemma_open_before_monotone(self@, s + 1, n as int);
            }
            s = s + 1;
        }
        proof {
            lemma_state_cell(self@, s as int);
        }
        self.state_at(s).position
    }
    /// Where a move in `direction` from `from` ends: one cell north, south, east
    /// or west for directions 0 to 3, or on `from` itself where that cell lies
    /// off the grid or is a wall.
    pub fn moved(&self, from: Position, direction: usize) -> (to: Position)
        requires
            self.wf(),
            self@.in_bounds(from.row as int, from.col as int),
            direction < N_ACTIONS,
        ensures
            self@.in_bounds(to.row as int, to.col as int),
            self@.flat(to.row as int, to.col as int) == self@.moved(
                self@.flat(from.row as int, from.col as int),
                direction as int,
            ),
    {
        proof {
            lemma_flat_index(self@, from.row as int, from.col as int);
        }
        let n_rows = self.n_rows();
        let n_cols = self.n_cols();
        let candidate = if direction == 0 {
            if from.row == 0 {
                return from;
            }
            Position { row: from.row - 1, col: from.col }
        } else if direction == 1 {
            if from.row + 1 >= n_rows {
                return from;
            }
            Position { row: from.row + 1, col: from.col }
        } else if direction == 2 {
            if from.col + 1 >= n_cols {
                return from;
            }
            Position { row: from.row, col: from.col + 1 }
        } else {
            if from.col == 0 {
                return from;
            }
            Position { row: from.row, col: from.col - 1 }
        };
        if self.get_state(candidate.row, candidate.col).kind.is_open() {
            candidate
        } else {
            from
        }
    }
    /// A place drawn at random among the open cells.
    pub fn get_random_valid_position(&self, source: &mut RandomSource) -> (p: Position)
        requires
            self.wf(),
        ensures
            self@.enterable(p.row as int, p.col as int),
    {
        let count = self.count_open();
        let k = source.index_below(count);
        self.open_cell(k)
    }

    /// `state` is the cell of this map that lies where it says.
    pub open spec fn is_cell(self, state: State) -> bool {
        &&& self@.in_bounds(state.position.row as int, state.position.col as int)
        &&& self.cells()[state.position.row as int][state.position.col as int] == state
    }

    /// A cell of the map carries the index, kind and reward that the grid gives
    /// to its place.
    pub proof fn lemma_cell(self, state: State)
        requires
            self.wf(),
            self.is_cell(state),
        ensures
            state.index == self@.flat(state.position.row as int, state.position.col as int),
            self@.is_state(state.index as int),
            state.kind == self@.kinds[state.index as int],
            state.reward == self@.rewards[state.index as int],
            is_reward(state.reward as int),
    {
        let i = state.position.row as int;
        let j = state.position.col as int;
        let cells = self.cells();
        assert(cell_placed(cells[i][j], i, j, cells[0].len() as int));
        lemma_flat_index(self@, i, j);
    }
}

} // verus!
