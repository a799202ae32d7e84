use grid_mdp::error::ConfigurationError;
use grid_mdp::status::Status;
use grid_mdp::status::StatusType;
use grid_mdp::world::GridWorld;
use grid_mdp::world::Position;
use grid_mdp::world::State;
use grid_mdp::mdp::Mdp;

fn reference_layout() -> Vec<Vec<&'static str>> {
    vec![
        vec!["S0", "S1", "P1", "O1", "S3", "O2", "S4", "S5"],
        vec!["O3", "S6", "S7", "S8", "S9", "S10", "S11", "O4"],
        vec!["S12", "P2", "S14", "O5", "S15", "P3", "S17", "S18"],
        vec!["S19", "S20", "S21", "S22", "M", "S24", "S25", "O6"],
        vec!["S26", "O7", "O8", "S27", "S28", "S29", "P4", "S31"],
        vec!["S32", "O9", "S33", "S34", "O10", "S35", "S36", "S37"],
    ]
}

#[test]
fn tokens_name_kinds_by_their_first_letter() {
    assert_eq!(StatusType::parse("S12"), Ok(StatusType::Normal));
    assert_eq!(StatusType::parse("P3"), Ok(StatusType::Danger));
    assert_eq!(StatusType::parse("W0"), Ok(StatusType::Wall));
    assert_eq!(StatusType::parse("O10"), Ok(StatusType::Wall));
    assert_eq!(StatusType::parse("G"), Ok(StatusType::Goal));
    assert_eq!(StatusType::parse("M"), Ok(StatusType::Goal));
}

#[test]
fn unknown_and_empty_tokens_are_refused() {
    assert_eq!(StatusType::parse("X1"), Err(ConfigurationError::UnknownToken));
    assert_eq!(StatusType::parse(""), Err(ConfigurationError::UnknownToken));
    assert_eq!(StatusType::parse("s1"), Err(ConfigurationError::UnknownToken));
    assert!(matches!(Status::parse("?"), Err(ConfigurationError::UnknownToken)));
    assert!(matches!(State::new("", 0, 0, 4), Err(ConfigurationError::UnknownToken)));
}

#[test]
fn rewards_are_fixed_by_the_token() {
    assert_eq!(Status::parse("S0").unwrap().reward, -100_000);
    assert_eq!(Status::parse("P1").unwrap().reward, -500_000);
    assert_eq!(Status::parse("O1").unwrap().reward, -100_000);
    assert_eq!(Status::parse("W1").unwrap().reward, -100_000);
    assert_eq!(Status::parse("M").unwrap().reward, 10_000_000);
    assert_eq!(Status::parse("G").unwrap().reward, 1_000_000);
    let status = Status::parse("P4").unwrap();
    assert_eq!(status.key, "P4");
    assert_eq!(status.kind, StatusType::Danger);
}

#[test]
fn a_state_knows_its_place_and_index() {
    let state = State::new("M", 3, 4, 8).unwrap();
    assert_eq!(state.key, "M");
    assert_eq!(state.kind, StatusType::Goal);
    assert_eq!(state.reward, 10_000_000);
    assert_eq!(state.position, Position { row: 3, col: 4 });
    assert_eq!(state.index, 28);
}

#[test]
fn the_reference_layout_is_read_cell_by_cell() {
    let world = GridWorld::new(&reference_layout()).unwrap();
    assert_eq!(world.n_rows(), 6);
    assert_eq!(world.n_cols(), 8);
    assert_eq!(world.n_states(), 48);
    assert_eq!(world.count_open(), 38);
    let cell = world.get_state(2, 5);
    assert_eq!(cell.key, "P3");
    assert_eq!(cell.kind, StatusType::Danger);
    assert_eq!(cell.index, 21);
    assert_eq!(cell.position, Position { row: 2, col: 5 });
    let same = world.state_at(21);
    assert_eq!(same.key, "P3");
    assert_eq!(world.state_at(47).key, "S37");
    assert_eq!(world.state_at(8).kind, StatusType::Wall);
}

#[test]
fn the_linear_index_is_a_bijection() {
    let world = GridWorld::new(&reference_layout()).unwrap();
    let mut seen = vec![false; 48];
    for row in 0..6 {
        for col in 0..8 {
            let state = world.get_state(row, col);
            assert_eq!(state.index, row * 8 + col);
            assert!(!seen[state.index]);
            seen[state.index] = true;
            let back = world.state_at(state.index);
            assert_eq!(back.position, Position { row, col });
        }
    }
    assert!(seen.iter().all(|s| *s));
}

#[test]
fn an_empty_grid_is_refused() {
    let none: Vec<Vec<&'static str>> = vec![];
    assert!(matches!(GridWorld::new(&none), Err(ConfigurationError::EmptyGrid)));
    let no_columns: Vec<Vec<&'static str>> = vec![vec![], vec![]];
    assert!(matches!(GridWorld::new(&no_columns), Err(ConfigurationError::EmptyGrid)));
}

#[test]
fn a_ragged_grid_is_refused() {
    let raw = vec![vec!["S0", "S1"], vec!["S2"]];
    assert!(matches!(GridWorld::new(&raw), Err(ConfigurationError::RaggedGrid)));
    let longer = vec![vec!["S0"], vec!["S1", "G"]];
    assert!(matches!(GridWorld::new(&longer), Err(ConfigurationError::RaggedGrid)));
}

#[test]
fn a_ragged_grid_is_reported_before_an_unknown_token() {
    let raw = vec![vec!["?", "S1"], vec!["S2"]];
    assert!(matches!(GridWorld::new(&raw), Err(ConfigurationError::RaggedGrid)));
}

#[test]
fn a_grid_with_an_unknown_token_is_refused() {
    let raw = vec![vec!["S0", "S1"], vec!["S2", "x"]];
    assert!(matches!(GridWorld::new(&raw), Err(ConfigurationError::UnknownToken)));
}

#[test]
fn a_grid_of_walls_is_refused() {
    let raw = vec![vec!["W0", "O1"], vec!["W2", "W3"]];
    assert!(matches!(GridWorld::new(&raw), Err(ConfigurationError::NoOpenCell)));
}

#[test]
fn positions_off_the_grid_and_on_walls_are_not_valid() {
    let world = GridWorld::new(&reference_layout()).unwrap();
    assert!(world.is_valid_position(Position { row: 0, col: 0 }));
    assert!(world.is_valid_position(Position { row: 3, col: 4 }));
    assert!(world.is_valid_position(Position { row: 0, col: 2 }));
    assert!(!world.is_valid_position(Position { row: 0, col: 3 }));
    assert!(!world.is_valid_position(Position { row: 1, col: 0 }));
    assert!(!world.is_valid_position(Position { row: 6, col: 0 }));
    assert!(!world.is_valid_position(Position { row: 0, col: 8 }));
    assert!(!world.is_valid_position(Position { row: usize::MAX, col: usize::MAX }));
}

#[test]
fn the_goal_is_found() {
    let world = GridWorld::new(&reference_layout()).unwrap();
    assert_eq!(world.get_goal_position(), Some(Position { row: 3, col: 4 }));
    let no_goal = GridWorld::new(&vec![vec!["S0", "P1"]]).unwrap();
    assert_eq!(no_goal.get_goal_position(), None);
    let two_goals = GridWorld::new(&vec![vec!["S0", "G"], vec!["M", "S1"]]).unwrap();
    assert_eq!(two_goals.get_goal_position(), Some(Position { row: 0, col: 1 }));
}

#[test]
fn the_reward_vector_lists_rewards_in_row_major_order() {
    let world = GridWorld::new(&vec![vec!["S0", "G"], vec!["W0", "P1"]]).unwrap();
    assert_eq!(Mdp::gen_reward_vector(&world), vec![-100_000, 1_000_000, -100_000, -500_000]);
    let reference = GridWorld::new(&reference_layout()).unwrap();
    let rewards = Mdp::gen_reward_vector(&reference);
    assert_eq!(rewards.len(), 48);
    assert_eq!(rewards[28], 10_000_000);
    assert_eq!(rewards[2], -500_000);
    assert_eq!(rewards[3], -100_000);
}

#[test]
fn open_cells_are_numbered_in_row_major_order() {
    let world = GridWorld::new(&vec![vec!["W0", "S0", "W1"], vec!["G", "W2", "S1"]]).unwrap();
    assert_eq!(world.count_open(), 3);
    assert_eq!(world.open_cell(0), Position { row: 0, col: 1 });
    assert_eq!(world.open_cell(1), Position { row: 1, col: 0 });
    assert_eq!(world.open_cell(2), Position { row: 1, col: 2 });
}

#[test]
fn moves_follow_the_four_directions() {
    let world = GridWorld::new(&reference_layout()).unwrap();
    let from = Position { row: 3, col: 2 };
    assert_eq!(world.moved(from, 0), Position { row: 2, col: 2 });
    assert_eq!(world.moved(from, 1), Position { row: 3, col: 2 });
    assert_eq!(world.moved(from, 2), Position { row: 3, col: 3 });
    assert_eq!(world.moved(from, 3), Position { row: 3, col: 1 });
}

#[test]
fn the_edge_and_walls_turn_a_move_back() {
    let world = GridWorld::new(&reference_layout()).unwrap();
    let corner = Position { row: 0, col: 0 };
    assert_eq!(world.moved(corner, 0), corner);
    assert_eq!(world.moved(corner, 3), corner);
    assert_eq!(world.moved(corner, 1), corner);
    assert_eq!(world.moved(corner, 2), Position { row: 0, col: 1 });
    let last = Position { row: 5, col: 7 };
    assert_eq!(world.moved(last, 1), last);
    assert_eq!(world.moved(last, 2), last);
    assert_eq!(world.moved(last, 0), Position { row: 4, col: 7 });
    let beside_wall = Position { row: 0, col: 4 };
    assert_eq!(world.moved(beside_wall, 2), beside_wall);
    assert_eq!(world.moved(beside_wall, 3), beside_wall);
}
