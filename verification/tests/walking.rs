use grid_mdp::error::ConfigurationError;
use grid_mdp::mdp::Mdp;
use grid_mdp::mdp::PROBABILITIES;
use grid_mdp::random::RandomSource;
use grid_mdp::robot::resolve_direction;
use grid_mdp::robot::Robot;
use grid_mdp::simulation::walk;
use grid_mdp::simulation::Core;
use grid_mdp::simulation::SIMULATION_STEPS;
use grid_mdp::simulation::SUCCESS_PROBABILITIES;
use grid_mdp::world::GridWorld;
use grid_mdp::world::Position;

fn reference_world() -> GridWorld {
    GridWorld::new(&vec![
        vec!["S0", "S1", "P1", "O1", "S3", "O2", "S4", "S5"],
        vec!["O3", "S6", "S7", "S8", "S9", "S10", "S11", "O4"],
        vec!["S12", "P2", "S14", "O5", "S15", "P3", "S17", "S18"],
        vec!["S19", "S20", "S21", "S22", "M", "S24", "S25", "O6"],
        vec!["S26", "O7", "O8", "S27", "S28", "S29", "P4", "S31"],
        vec!["S32", "O9", "S33", "S34", "O10", "S35", "S36", "S37"],
    ])
    .unwrap()
}

#[test]
fn a_robot_is_built_with_a_probability() {
    let robot = Robot::new(Position { row: 2, col: 3 }, 800_000).unwrap();
    assert_eq!(robot.get_position(), Position { row: 2, col: 3 });
    assert_eq!(robot.get_matricial_position(), [2, 3]);
    assert!(matches!(
        Robot::new(Position { row: 0, col: 0 }, -1),
        Err(ConfigurationError::SuccessProbability)
    ));
    assert!(matches!(
        Robot::new(Position { row: 0, col: 0 }, 1_000_001),
        Err(ConfigurationError::SuccessProbability)
    ));
    assert!(Robot::new(Position { row: 0, col: 0 }, 0).is_ok());
    assert!(Robot::new(Position { row: 0, col: 0 }, 1_000_000).is_ok());
}

#[test]
fn the_normalized_position_is_the_linear_index() {
    let world = reference_world();
    let mut robot = Robot::new(Position { row: 3, col: 4 }, 800_000).unwrap();
    assert_eq!(robot.get_normalized_position(&world), 28);
    robot.set_position(Position { row: 5, col: 7 });
    assert_eq!(robot.get_normalized_position(&world), 47);
    assert_eq!(robot.get_matricial_position(), [5, 7]);
    assert_eq!(robot.get_position(), Position { row: 5, col: 7 });
}

#[test]
fn a_robot_slips_across_its_heading() {
    for action in 0..4 {
        assert_eq!(resolve_direction(action, true, true), action);
        assert_eq!(resolve_direction(action, true, false), action);
    }
    assert_eq!(resolve_direction(0, false, true), 2);
    assert_eq!(resolve_direction(0, false, false), 3);
    assert_eq!(resolve_direction(1, false, true), 2);
    assert_eq!(resolve_direction(1, false, false), 3);
    assert_eq!(resolve_direction(2, false, true), 0);
    assert_eq!(resolve_direction(2, false, false), 1);
    assert_eq!(resolve_direction(3, false, true), 1);
    assert_eq!(resolve_direction(3, false, false), 0);
}

#[test]
fn a_reliable_robot_moves_where_it_heads() {
    let robot = Robot::new(Position { row: 0, col: 0 }, 1_000_000).unwrap();
    let mut source = RandomSource::new(1);
    for action in 0..4 {
        for _ in 0..50 {
            assert_eq!(robot.calc_next_action(action, &mut source), action);
        }
    }
}

#[test]
fn an_unreliable_robot_always_slips() {
    let robot = Robot::new(Position { row: 0, col: 0 }, 0).unwrap();
    let mut source = RandomSource::new(1);
    let mut east = 0;
    let mut west = 0;
    for _ in 0..400 {
        match robot.calc_next_action(0, &mut source) {
            2 => east += 1,
            3 => west += 1,
            other => panic!("moved {}", other),
        }
    }
    assert!(east > 120 && west > 120);
}

#[test]
fn a_robot_moves_unless_something_is_in_the_way() {
    let world = reference_world();
    let mut robot = Robot::new(Position { row: 3, col: 3 }, 1_000_000).unwrap();
    robot.advance(&world, 2);
    assert_eq!(robot.get_position(), Position { row: 3, col: 4 });
    robot.advance(&world, 0);
    assert_eq!(robot.get_position(), Position { row: 2, col: 4 });
    robot.advance(&world, 3);
    assert_eq!(robot.get_position(), Position { row: 2, col: 4 });
    robot.set_position(Position { row: 5, col: 0 });
    robot.advance(&world, 1);
    assert_eq!(robot.get_position(), Position { row: 5, col: 0 });
    robot.advance(&world, 2);
    assert_eq!(robot.get_position(), Position { row: 5, col: 0 });
}

#[test]
fn a_reliable_robot_follows_the_policy() {
    let world = reference_world();
    let mut mdp = Mdp::new(reference_world(), &PROBABILITIES).unwrap();
    let policy = mdp.solve(900_000, 1000).unwrap();
    let mut source = RandomSource::new(3);
    for start in 0..48usize {
        if !world.state_at(start).kind.is_open() {
            continue;
        }
        let mut robot = Robot::new(world.state_at(start).position, 1_000_000).unwrap();
        let mut steps = 0;
        while robot.get_normalized_position(&world) != 28 {
            let from = robot.get_position();
            let action = policy[robot.get_normalized_position(&world)];
            robot.update(&policy, &world, &mut source);
            assert_eq!(robot.get_position(), world.moved(from, action));
            steps += 1;
            assert!(steps < 20);
        }
    }
}

#[test]
fn a_policy_that_does_not_reach_the_robot_leaves_it() {
    let world = reference_world();
    let mut robot = Robot::new(Position { row: 3, col: 3 }, 500_000).unwrap();
    let mut source = RandomSource::new(3);
    let short = vec![2usize; 27];
    for _ in 0..20 {
        robot.update(&short, &world, &mut source);
        assert_eq!(robot.get_position(), Position { row: 3, col: 3 });
    }
    let reaching = vec![2usize; 28];
    let mut moved = false;
    for _ in 0..20 {
        robot.set_position(Position { row: 3, col: 3 });
        robot.update(&reaching, &world, &mut source);
        let at = robot.get_position();
        assert!(
            at == (Position { row: 3, col: 4 })
                || at == (Position { row: 3, col: 3 })
                || at == (Position { row: 4, col: 3 })
        );
        moved |= at != (Position { row: 3, col: 3 });
    }
    assert!(moved);
}

#[test]
fn a_walk_records_one_reward_for_every_step() {
    let world = reference_world();
    let mut mdp = Mdp::new(reference_world(), &PROBABILITIES).unwrap();
    let policy = mdp.solve(900_000, 1000).unwrap();
    let mut robot = Robot::new(Position { row: 0, col: 0 }, 1_000_000).unwrap();
    let mut source = RandomSource::new(12);
    let rewards = walk(&world, &policy, &mut robot, 7, &mut source);
    assert_eq!(
        rewards,
        vec![-100_000, -100_000, -500_000, -100_000, -100_000, -100_000, 10_000_000]
    );
    assert!(world.is_valid_position(robot.get_position()));
    let none = walk(&world, &policy, &mut robot, 0, &mut source);
    assert!(none.is_empty());
}

#[test]
fn the_simulation_core_records_rewards() {
    let mut core = Core::new(reference_world(), 900_000, 900_000, 17).unwrap();
    assert_eq!(core.simulation_steps(), 0);
    assert!(core.rewards().is_empty());
    assert_eq!(core.mdp().q_values()[27], vec![38_827_681, 35_295_267, 43_173_329, 34_029_043]);
    let world = reference_world();
    let mut goals = 0;
    for k in 0..500u32 {
        assert!(world.is_valid_position(core.robot().get_position()));
        core.simulate();
        assert_eq!(core.simulation_steps(), k + 1);
        assert_eq!(core.rewards().len(), (k + 1) as usize);
        let last = *core.rewards().last().unwrap();
        assert!(last == -100_000 || last == -500_000 || last == 10_000_000);
        if last == 10_000_000 {
            goals += 1;
        } else {
            assert_eq!(last, core.get_reward());
        }
    }
    assert!(goals > 20);
    core.reset_robot();
    assert!(world.is_valid_position(core.robot().get_position()));
    assert_eq!(core.simulation_steps(), 500);
    assert_eq!(core.rewards().len(), 500);
}

#[test]
fn the_simulation_core_checks_its_configuration() {
    assert!(matches!(
        Core::new(reference_world(), 1_000_000, 900_000, 1),
        Err(ConfigurationError::DiscountFactor)
    ));
    assert!(matches!(
        Core::new(reference_world(), 0, 2_000_000, 1),
        Err(ConfigurationError::DiscountFactor)
    ));
    assert!(matches!(
        Core::new(reference_world(), 900_000, 2_000_000, 1),
        Err(ConfigurationError::SuccessProbability)
    ));
    assert!(matches!(
        Core::new(reference_world(), 900_000, -1, 1),
        Err(ConfigurationError::SuccessProbability)
    ));
}

#[test]
fn the_comparative_runs_have_the_expected_shape() {
    let world = reference_world();
    let results = Core::run_simulation(&world, 5);
    assert_eq!(results.len(), 4);
    assert_eq!(SUCCESS_PROBABILITIES, [500_000, 700_000, 800_000, 900_000]);
    for by_success in &results {
        assert_eq!(by_success.len(), 4);
        for rewards in by_success {
            assert_eq!(rewards.len(), SIMULATION_STEPS);
            assert!(rewards.iter().all(|r| *r == -100_000 || *r == -500_000 || *r == 10_000_000));
            assert!(rewards.iter().any(|r| *r == 10_000_000));
        }
    }
    let total = |series: &Vec<i64>| series.iter().sum::<i64>();
    let weak: i64 = results[0].iter().map(total).sum();
    let strong: i64 = results[3].iter().map(total).sum();
    assert!(strong > weak);
}
