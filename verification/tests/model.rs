use grid_mdp::error::ConfigurationError;
use grid_mdp::mdp::check_tensor;
use grid_mdp::mdp::outcome_heading;
use grid_mdp::mdp::outcomes_valid;
use grid_mdp::mdp::row_mass;
use grid_mdp::mdp::Mdp;
use grid_mdp::mdp::PROBABILITIES;
use grid_mdp::world::GridWorld;

fn reference_world() -> GridWorld {
    GridWorld::new(&vec![
        vec!["S0", "S1", "P1", "O1", "S3", "O2", "S4", "S5"],
        vec!["O3", "S6", "S7", "S8", "S9", "S10", "S11", "O4"],
        vec!["S12", "P2", "S14", "O5", "S15", "P3", "S17", "S18"],
        vec!["S19", "S20", "S21", "S22", "M", "S24", "S25", "O6"],
        vec!["S26", "O7", "O8", "S27", "S28", "S29", "P4", "S31"],
        vec!["S32", "O9", "S33", "S34", "O10", "S35", "S36", "S37"],
    ])
    .unwrap()
}

fn small_world() -> GridWorld {
    GridWorld::new(&vec![vec!["S0", "G"], vec!["W0", "S1"]]).unwrap()
}

#[test]
fn probability_mass_is_conserved_on_the_reference_grid() {
    let world = reference_world();
    let tensor = Mdp::build_transition_matrix_static(&world, &PROBABILITIES).unwrap();
    assert_eq!(tensor.len(), 4);
    for action in 0..4 {
        assert_eq!(tensor[action].len(), 48);
        for s in 0..48 {
            assert_eq!(tensor[action][s].len(), 48);
            let total: i64 = tensor[action][s].iter().sum();
            let open = world.state_at(s).kind.is_open();
            assert_eq!(total, if open { 1_000_000 } else { 0 });
            assert!(tensor[action][s].iter().all(|p| *p >= 0));
        }
    }
}

#[test]
fn probability_mass_is_conserved_for_uneven_outcomes() {
    let world = reference_world();
    let tensor = Mdp::build_transition_matrix_static(&world, &[1, 999_998, 1]).unwrap();
    for action in 0..4 {
        for s in 0..48 {
            let total: i64 = tensor[action][s].iter().sum();
            let open = world.state_at(s).kind.is_open();
            assert_eq!(total, if open { 1_000_000 } else { 0 });
        }
    }
}

#[test]
fn the_small_grid_has_the_expected_tensor() {
    let tensor = Mdp::build_transition_matrix_static(&small_world(), &PROBABILITIES).unwrap();
    let expected: Vec<Vec<Vec<i64>>> = vec![
        vec![
            vec![900_000, 100_000, 0, 0],
            vec![100_000, 900_000, 0, 0],
            vec![0, 0, 0, 0],
            vec![0, 800_000, 0, 200_000],
        ],
        vec![
            vec![900_000, 100_000, 0, 0],
            vec![100_000, 100_000, 0, 800_000],
            vec![0, 0, 0, 0],
            vec![0, 0, 0, 1_000_000],
        ],
        vec![
            vec![200_000, 800_000, 0, 0],
            vec![0, 900_000, 0, 100_000],
            vec![0, 0, 0, 0],
            vec![0, 100_000, 0, 900_000],
        ],
        vec![
            vec![1_000_000, 0, 0, 0],
            vec![800_000, 100_000, 0, 100_000],
            vec![0, 0, 0, 0],
            vec![0, 100_000, 0, 900_000],
        ],
    ];
    assert_eq!(tensor, expected);
}

#[test]
fn mass_turned_back_by_a_wall_stays_on_the_cell() {
    let world = reference_world();
    let tensor = Mdp::gen_transicion_matrix(&world);
    let row = &tensor[2][27];
    assert_eq!(row[28], 800_000);
    assert_eq!(row[27], 100_000);
    assert_eq!(row[35], 100_000);
    assert_eq!(row.iter().filter(|p| **p != 0).count(), 3);
    let corner = &tensor[0][0];
    assert_eq!(corner[0], 900_000);
    assert_eq!(corner[1], 100_000);
    let wall = &tensor[1][5];
    assert!(wall.iter().all(|p| *p == 0));
}

#[test]
fn outcomes_are_the_action_and_its_two_laterals() {
    assert_eq!([outcome_heading(0, 0), outcome_heading(0, 1), outcome_heading(0, 2)], [0, 3, 2]);
    assert_eq!([outcome_heading(1, 0), outcome_heading(1, 1), outcome_heading(1, 2)], [1, 2, 3]);
    assert_eq!([outcome_heading(2, 0), outcome_heading(2, 1), outcome_heading(2, 2)], [2, 0, 1]);
    assert_eq!([outcome_heading(3, 0), outcome_heading(3, 1), outcome_heading(3, 2)], [3, 1, 0]);
}

#[test]
fn outcome_probabilities_must_sum_to_one() {
    assert!(outcomes_valid(&[800_000, 100_000, 100_000]));
    assert!(outcomes_valid(&[1_000_000, 0, 0]));
    assert!(outcomes_valid(&[0, 0, 1_000_000]));
    assert!(!outcomes_valid(&[800_000, 100_000, 100_001]));
    assert!(!outcomes_valid(&[800_000, 100_000, 99_999]));
    assert!(!outcomes_valid(&[1_100_000, -100_000, 0]));
    assert!(!outcomes_valid(&[i64::MAX, i64::MAX, i64::MAX]));
    assert!(!outcomes_valid(&[0, 0, 0]));
}

#[test]
fn invalid_outcome_probabilities_are_refused() {
    let r = Mdp::build_transition_matrix_static(&small_world(), &[500_000, 100_000, 100_000]);
    assert_eq!(r, Err(ConfigurationError::OutcomeProbabilities));
    assert!(matches!(
        Mdp::new(small_world(), &[1_200_000, -100_000, -100_000]),
        Err(ConfigurationError::OutcomeProbabilities)
    ));
}

#[test]
fn the_mass_of_a_row_is_its_sum() {
    assert_eq!(row_mass(&vec![1, 2, 3]), Some(6));
    assert_eq!(row_mass(&vec![]), Some(0));
    assert_eq!(row_mass(&vec![i64::MAX, i64::MAX]), Some(2 * (i64::MAX as i128)));
    assert_eq!(row_mass(&vec![5, -1, 5]), None);
}

#[test]
fn a_built_tensor_fits_its_grid() {
    let world = reference_world();
    let tensor = Mdp::build_transition_matrix_static(&world, &PROBABILITIES).unwrap();
    assert_eq!(check_tensor(&world, &tensor), Ok(()));
    let mdp = Mdp::new_with_transition_matrix(world, tensor.clone()).unwrap();
    assert_eq!(mdp.transition_matrix(), &tensor);
    assert_eq!(mdp.q_values(), &vec![vec![0i64; 4]; 48]);
}

#[test]
fn a_tensor_of_the_wrong_shape_is_refused() {
    let world = small_world();
    let tensor = Mdp::build_transition_matrix_static(&world, &PROBABILITIES).unwrap();
    let mut three_actions = tensor.clone();
    three_actions.pop();
    assert_eq!(check_tensor(&world, &three_actions), Err(ConfigurationError::Shape));
    let mut short_table = tensor.clone();
    short_table[2].pop();
    assert_eq!(check_tensor(&world, &short_table), Err(ConfigurationError::Shape));
    let mut long_row = tensor.clone();
    long_row[3][1].push(0);
    assert_eq!(check_tensor(&world, &long_row), Err(ConfigurationError::Shape));
    assert!(matches!(
        Mdp::new_with_transition_matrix(small_world(), long_row),
        Err(ConfigurationError::Shape)
    ));
    let other = Mdp::build_transition_matrix_static(&reference_world(), &PROBABILITIES).unwrap();
    assert_eq!(check_tensor(&world, &other), Err(ConfigurationError::Shape));
}

#[test]
fn a_tensor_that_loses_mass_is_refused() {
    let world = small_world();
    let tensor = Mdp::build_transition_matrix_static(&world, &PROBABILITIES).unwrap();
    let mut lossy = tensor.clone();
    lossy[0][0][0] -= 1;
    assert_eq!(check_tensor(&world, &lossy), Err(ConfigurationError::MassNotConserved));
    let mut negative = tensor.clone();
    negative[1][3][3] = 1_000_001;
    negative[1][3][0] = -1;
    assert_eq!(check_tensor(&world, &negative), Err(ConfigurationError::MassNotConserved));
    let mut leaking_wall = tensor.clone();
    leaking_wall[2][2][2] = 1_000_000;
    assert_eq!(check_tensor(&world, &leaking_wall), Err(ConfigurationError::MassNotConserved));
    assert!(matches!(
        Mdp::new_with_transition_matrix(small_world(), lossy),
        Err(ConfigurationError::MassNotConserved)
    ));
}

#[test]
fn a_wrong_shape_is_reported_before_lost_mass() {
    let world = small_world();
    let mut tensor = Mdp::build_transition_matrix_static(&world, &PROBABILITIES).unwrap();
    tensor[0][0][0] -= 1;
    tensor[3][3].pop();
    assert_eq!(check_tensor(&world, &tensor), Err(ConfigurationError::Shape));
}

#[test]
fn the_standard_tensor_is_the_tensor_of_the_standard_outcomes() {
    let world = small_world();
    let direct = Mdp::gen_transicion_matrix(&world);
    assert_eq!(Ok(direct), Mdp::build_transition_matrix_static(&world, &PROBABILITIES));
    let sure = Mdp::build_transition_matrix_static(&world, &[1_000_000, 0, 0]).unwrap();
    assert_eq!(sure[2][0], vec![0, 1_000_000, 0, 0]);
    assert_eq!(sure[0][0], vec![1_000_000, 0, 0, 0]);
    assert_eq!(sure[0][3], vec![0, 1_000_000, 0, 0]);
}
