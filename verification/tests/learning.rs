use grid_mdp::environment::check_table;
use grid_mdp::environment::Config;
use grid_mdp::environment::Environment;
use grid_mdp::error::ConfigurationError;
use grid_mdp::status::StatusType;
use grid_mdp::world::GridWorld;
use grid_mdp::world::Position;

fn small_world() -> GridWorld {
    GridWorld::new(&vec![vec!["S0", "G"], vec!["W0", "S1"]]).unwrap()
}

fn open_world() -> GridWorld {
    GridWorld::new(&vec![
        vec!["S0", "S1", "S2", "S3"],
        vec!["S4", "W0", "W1", "S5"],
        vec!["S6", "S7", "W2", "S8"],
        vec!["S9", "S10", "S11", "G"],
    ])
    .unwrap()
}

fn scenario_config(success_prob: i64) -> Config {
    Config {
        success_prob,
        epsilon: 100_000,
        learning_rate: 100_000,
        discount_factor: 950_000,
        epsilon_decay: 900_000,
        episodes: 5000,
        max_steps: 100,
    }
}

#[test]
fn learning_on_the_small_grid_converges_to_short_episodes() {
    for seed in 0..5u64 {
        for success_prob in [700_000i64, 900_000, 1_000_000] {
            let mut env =
                Environment::new(small_world(), scenario_config(success_prob), seed).unwrap();
            let episodes = env.run();
            assert_eq!(episodes.len(), 5000);
            let tail = &episodes[4900..];
            let total: usize = tail.iter().map(|e| e.steps).sum();
            assert!(total <= 300);
            assert_eq!(env.get_best_action(env.get_state(0, 0)), 2);
            assert_eq!(env.get_best_action(env.get_state(1, 1)), 0);
        }
    }
}

#[test]
fn the_standard_configuration_is_valid() {
    let config = Config::standard(700_000);
    assert_eq!(config.success_prob, 700_000);
    assert_eq!(config.epsilon, 100_000);
    assert_eq!(config.learning_rate, 100_000);
    assert_eq!(config.discount_factor, 950_000);
    assert_eq!(config.epsilon_decay, 900_000);
    assert_eq!(config.episodes, 10000);
    assert_eq!(config.max_steps, 1000);
    assert_eq!(config.check(), Ok(()));
}

#[test]
fn each_fault_of_a_configuration_is_reported() {
    let good = scenario_config(900_000);
    assert_eq!(good.check(), Ok(()));
    for bad in [-1, 1_000_001] {
        let c = Config { success_prob: bad, ..good };
        assert_eq!(c.check(), Err(ConfigurationError::SuccessProbability));
        let c = Config { epsilon: bad, ..good };
        assert_eq!(c.check(), Err(ConfigurationError::Epsilon));
    }
    for bad in [0, -1, 1_000_001] {
        let c = Config { learning_rate: bad, ..good };
        assert_eq!(c.check(), Err(ConfigurationError::LearningRate));
    }
    for bad in [0, -5, 1_000_000, 2_000_000] {
        let c = Config { discount_factor: bad, ..good };
        assert_eq!(c.check(), Err(ConfigurationError::DiscountFactor));
    }
    for bad in [-1, 1_000_000, 1_000_001] {
        let c = Config { epsilon_decay: bad, ..good };
        assert_eq!(c.check(), Err(ConfigurationError::EpsilonDecay));
    }
    let edge = Config {
        success_prob: 0,
        epsilon: 1_000_000,
        learning_rate: 1_000_000,
        discount_factor: 1,
        epsilon_decay: 0,
        ..good
    };
    assert_eq!(edge.check(), Ok(()));
}

#[test]
fn the_first_fault_of_a_configuration_is_reported() {
    let all_bad = Config {
        success_prob: -1,
        epsilon: -1,
        learning_rate: 0,
        discount_factor: 0,
        epsilon_decay: -1,
        episodes: 1,
        max_steps: 1,
    };
    assert_eq!(all_bad.check(), Err(ConfigurationError::SuccessProbability));
    let c = Config { success_prob: 0, ..all_bad };
    assert_eq!(c.check(), Err(ConfigurationError::Epsilon));
    let c = Config { epsilon: 0, ..c };
    assert_eq!(c.check(), Err(ConfigurationError::LearningRate));
    let c = Config { learning_rate: 1, ..c };
    assert_eq!(c.check(), Err(ConfigurationError::DiscountFactor));
    let c = Config { discount_factor: 1, ..c };
    assert_eq!(c.check(), Err(ConfigurationError::EpsilonDecay));
    assert!(matches!(
        Environment::new(small_world(), all_bad, 0),
        Err(ConfigurationError::SuccessProbability)
    ));
}

#[test]
fn a_new_learner_knows_nothing() {
    let env = Environment::new(small_world(), scenario_config(900_000), 1).unwrap();
    assert_eq!(env.q_table(), &vec![vec![0i64; 4]; 4]);
    assert_eq!(env.epsilon(), 100_000);
    assert_eq!(env.agent_position(), Position { row: 0, col: 0 });
    assert_eq!(env.config(), scenario_config(900_000));
    assert_eq!(env.map().n_states(), 4);
    assert_eq!(env.get_best_action(env.get_state(0, 0)), 0);
    assert_eq!(env.get_state(0, 1).kind, StatusType::Goal);
}

#[test]
fn an_update_mixes_old_value_and_target() {
    let mut env = Environment::new(small_world(), scenario_config(1_000_000), 1).unwrap();
    let start = *env.get_state(0, 0);
    let goal = *env.get_state(0, 1);
    env.set_q_table(vec![vec![5, 0, -7, 1_000_000], vec![0, 0, 0, 2_000_000], vec![0; 4], vec![0; 4]])
        .unwrap();
    env.update_q_table(&start, 3, &goal);
    assert_eq!(env.q_table()[0], vec![5, 0, -7, 1_190_000]);
    env.set_q_table(vec![vec![5, 0, 0, 0], vec![0; 4], vec![0; 4], vec![0; 4]]).unwrap();
    env.update_q_table(&start, 0, &start);
    assert_eq!(env.q_table()[0], vec![-9_996, 0, 0, 0]);
    env.update_q_table(&start, 1, &goal);
    assert_eq!(env.q_table()[0], vec![-9_996, 100_000, 0, 0]);
    env.set_q_table(vec![vec![-5, -5, -5, -5], vec![0; 4], vec![0; 4], vec![-9; 4]]).unwrap();
    let below = *env.get_state(1, 1);
    env.update_q_table(&start, 2, &below);
    assert_eq!(env.q_table()[0], vec![-5, -5, -10_006, -5]);
    env.set_q_table(vec![vec![-7, -9, -9, -9], vec![0; 4], vec![0; 4], vec![1, 2, 3, 0]]).unwrap();
    env.update_q_table(&start, 0, &below);
    assert_eq!(env.q_table()[0], vec![-10_007, -9, -9, -9]);
}

#[test]
fn a_full_learning_rate_forgets_the_old_value() {
    let config = Config { learning_rate: 1_000_000, ..scenario_config(1_000_000) };
    let mut env = Environment::new(small_world(), config, 1).unwrap();
    env.set_q_table(vec![vec![123_456; 4], vec![0; 4], vec![0; 4], vec![0; 4]]).unwrap();
    let start = *env.get_state(0, 0);
    env.update_q_table(&start, 2, &start);
    assert_eq!(env.q_table()[0], vec![123_456, 123_456, 17_283, 123_456]);
}

#[test]
fn learning_changes_one_entry_of_the_table() {
    let mut env = Environment::new(small_world(), scenario_config(1_000_000), 1).unwrap();
    let start = *env.get_state(0, 0);
    let goal = *env.get_state(0, 1);
    env.update_q_table(&start, 2, &goal);
    assert_eq!(
        env.q_table(),
        &vec![vec![0, 0, 100_000, 0], vec![0; 4], vec![0; 4], vec![0; 4]]
    );
    env.update_q_table(&start, 2, &goal);
    assert_eq!(env.q_table()[0], vec![0, 0, 190_000, 0]);
    env.update_q_table(&start, 0, &start);
    assert_eq!(env.q_table()[0], vec![8_050, 0, 190_000, 0]);
    let below = *env.get_state(1, 1);
    env.update_q_table(&below, 3, &below);
    assert_eq!(env.q_table()[3], vec![0, 0, 0, -10_000]);
    assert_eq!(env.q_table()[1], vec![0, 0, 0, 0]);
    assert_eq!(env.get_best_action(&start), 2);
    assert_eq!(env.get_best_action(&below), 0);
}

#[test]
fn a_table_of_the_wrong_shape_or_range_is_refused() {
    let mut env = Environment::new(small_world(), scenario_config(900_000), 1).unwrap();
    let good = vec![vec![1, 2, 3, 4], vec![0; 4], vec![-7; 4], vec![9, 9, 9, 9]];
    assert_eq!(env.set_q_table(good.clone()), Ok(()));
    assert_eq!(env.q_table(), &good);
    assert_eq!(env.set_q_table(vec![vec![0; 4]; 3]), Err(ConfigurationError::Shape));
    assert_eq!(env.set_q_table(vec![vec![0; 4]; 5]), Err(ConfigurationError::Shape));
    assert_eq!(env.set_q_table(vec![vec![0; 3]; 4]), Err(ConfigurationError::Shape));
    let limit = 1_000_000_000_000_000_000i64;
    let mut high = good.clone();
    high[2][1] = limit + 1;
    assert_eq!(env.set_q_table(high), Err(ConfigurationError::ValueOutOfRange));
    let mut low = good.clone();
    low[3][3] = -limit - 1;
    assert_eq!(env.set_q_table(low), Err(ConfigurationError::ValueOutOfRange));
    assert_eq!(env.q_table(), &good);
    let mut at_limit = good.clone();
    at_limit[0][0] = limit;
    at_limit[0][1] = -limit;
    assert_eq!(env.set_q_table(at_limit.clone()), Ok(()));
    assert_eq!(check_table(&at_limit, 4), Ok(()));
    assert_eq!(check_table(&at_limit, 5), Err(ConfigurationError::Shape));
    let mut both = vec![vec![0i64; 4]; 3];
    both[0][0] = i64::MAX;
    assert_eq!(check_table(&both, 4), Err(ConfigurationError::Shape));
}

#[test]
fn the_largest_values_stay_within_the_limit() {
    let limit = 1_000_000_000_000_000_000i64;
    let config = Config { learning_rate: 1_000_000, discount_factor: 999_999, ..scenario_config(1_000_000) };
    let mut env = Environment::new(small_world(), config, 1).unwrap();
    env.set_q_table(vec![vec![limit; 4]; 4]).unwrap();
    let start = *env.get_state(0, 0);
    let goal = *env.get_state(0, 1);
    env.update_q_table(&start, 1, &goal);
    assert_eq!(env.q_table()[0][1], 999_999_000_001_000_000);
    env.set_q_table(vec![vec![-limit; 4]; 4]).unwrap();
    env.update_q_table(&start, 1, &start);
    assert_eq!(env.q_table()[0][1], -999_999_000_000_100_000);
}

#[test]
fn an_agent_that_attempts_nothing_stays() {
    let mut env = Environment::new(open_world(), scenario_config(900_000), 4).unwrap();
    let start = *env.get_state(0, 0);
    for action in 0..4 {
        let next = env.advance(&start, action, false);
        assert_eq!(next.index, 0);
        assert_eq!(env.agent_position(), Position { row: 0, col: 0 });
    }
}

#[test]
fn an_agent_that_attempts_a_move_is_turned_back_by_edge_and_walls() {
    let mut env = Environment::new(open_world(), scenario_config(900_000), 4).unwrap();
    let start = *env.get_state(0, 0);
    assert_eq!(env.advance(&start, 0, true).index, 0);
    assert_eq!(env.advance(&start, 3, true).index, 0);
    let east = env.advance(&start, 2, true);
    assert_eq!(east.index, 1);
    assert_eq!(east.key, "S1");
    assert_eq!(env.agent_position(), Position { row: 0, col: 1 });
    let blocked = env.advance(&east, 1, true);
    assert_eq!(blocked.index, 1);
    let west = env.advance(&blocked, 3, true);
    assert_eq!(west.index, 0);
    let south = env.advance(&west, 1, true);
    assert_eq!(south.index, 4);
    assert_eq!(south.position, Position { row: 1, col: 0 });
    assert_eq!(env.agent_position(), Position { row: 1, col: 0 });
}

#[test]
fn a_sure_move_is_always_carried_out() {
    let mut env = Environment::new(open_world(), scenario_config(1_000_000), 9).unwrap();
    for _ in 0..50 {
        let from = *env.get_state(3, 0);
        let mut here = env.reset_agent();
        while here.index != from.index {
            here = env.reset_agent();
        }
        let next = env.step(&here, 2);
        assert_eq!(next.index, 13);
        let back = env.step(&next, 3);
        assert_eq!(back.index, 12);
    }
}

#[test]
fn an_impossible_move_is_never_carried_out() {
    let mut env = Environment::new(open_world(), scenario_config(0), 9).unwrap();
    let here = env.reset_agent();
    for action in 0..4 {
        for _ in 0..25 {
            let next = env.step(&here, action);
            assert_eq!(next.index, here.index);
            assert_eq!(env.agent_position(), here.position);
        }
    }
}

#[test]
fn an_unsure_move_is_sometimes_carried_out() {
    let mut env = Environment::new(open_world(), scenario_config(500_000), 9).unwrap();
    let mut moved = 0;
    let mut stayed = 0;
    for _ in 0..400 {
        let mut here = env.reset_agent();
        while here.index != 0 {
            here = env.reset_agent();
        }
        let next = env.step(&here, 2);
        if next.index == 1 {
            moved += 1;
        } else {
            assert_eq!(next.index, 0);
            stayed += 1;
        }
    }
    assert!(moved > 120 && stayed > 120);
}

#[test]
fn without_exploration_the_choice_is_greedy() {
    let config = Config { epsilon: 0, ..scenario_config(900_000) };
    let mut env = Environment::new(small_world(), config, 21).unwrap();
    env.set_q_table(vec![vec![1, 5, 5, 2], vec![0; 4], vec![0; 4], vec![-1, -1, -1, 0]]).unwrap();
    let first = *env.get_state(0, 0);
    let last = *env.get_state(1, 1);
    for _ in 0..200 {
        assert_eq!(env.choose_action(&first), 1);
        assert_eq!(env.choose_action(&last), 3);
    }
}

#[test]
fn with_full_exploration_every_action_is_chosen() {
    let config = Config { epsilon: 1_000_000, ..scenario_config(900_000) };
    let mut env = Environment::new(small_world(), config, 21).unwrap();
    let first = *env.get_state(0, 0);
    let mut seen = [0usize; 4];
    for _ in 0..400 {
        let action = env.choose_action(&first);
        assert!(action < 4);
        seen[action] += 1;
    }
    assert!(seen.iter().all(|n| *n > 50));
}

#[test]
fn resetting_puts_the_agent_on_an_open_cell() {
    let mut env = Environment::new(small_world(), scenario_config(900_000), 2).unwrap();
    let mut seen = [false; 4];
    for _ in 0..200 {
        let state = env.reset_agent();
        assert_ne!(state.kind, StatusType::Wall);
        assert_eq!(env.agent_position(), state.position);
        seen[state.index] = true;
    }
    assert_eq!(seen, [true, true, false, true]);
    let before = env.agent_position();
    for _ in 0..50 {
        let state = env.get_random_state();
        assert_ne!(state.kind, StatusType::Wall);
        assert_eq!(env.agent_position(), before);
    }
}

#[test]
fn an_episode_ends_at_the_goal_or_with_the_budget() {
    let config = Config { max_steps: 7, episodes: 3, ..scenario_config(0) };
    let mut env = Environment::new(small_world(), config, 5).unwrap();
    for _ in 0..30 {
        let episode = env.run_episode();
        assert!(episode.steps >= 1 && episode.steps <= 7);
        assert_eq!(episode.policy.len(), 4);
        assert!(episode.policy.iter().all(|a| *a < 4));
        if episode.steps < 7 {
            assert_eq!(episode.steps, 1);
            assert_eq!(episode.reward, 1_000_000);
            assert_eq!(env.agent_position(), Position { row: 0, col: 1 });
        } else {
            assert_eq!(episode.reward, -700_000);
        }
    }
}

#[test]
fn an_episode_without_budget_takes_no_step() {
    let config = Config { max_steps: 0, ..scenario_config(900_000) };
    let mut env = Environment::new(small_world(), config, 5).unwrap();
    let episode = env.run_episode();
    assert_eq!(episode.steps, 0);
    assert_eq!(episode.reward, 0);
    assert_eq!(episode.policy, vec![0, 0, 0, 0]);
    assert_eq!(env.q_table(), &vec![vec![0i64; 4]; 4]);
    assert_eq!(env.epsilon(), 90_000);
}

#[test]
fn exploration_decays_after_every_episode() {
    let config = Config { episodes: 4, ..scenario_config(900_000) };
    let mut env = Environment::new(small_world(), config, 5).unwrap();
    let mut expected = vec![];
    for _ in 0..6 {
        env.run_episode();
        expected.push(env.epsilon());
    }
    assert_eq!(expected, vec![90_000, 81_000, 72_900, 65_610, 59_049, 53_144]);
    let mut other = Environment::new(small_world(), config, 6).unwrap();
    let episodes = other.run();
    assert_eq!(episodes.len(), 4);
    assert_eq!(other.epsilon(), 65_610);
    let mut long = Environment::new(small_world(), scenario_config(900_000), 6).unwrap();
    long.run();
    assert_eq!(long.epsilon(), 0);
}

#[test]
fn the_last_policy_of_a_run_is_the_greedy_policy() {
    let config = Config { episodes: 50, ..scenario_config(900_000) };
    let mut env = Environment::new(open_world(), config, 8).unwrap();
    let episodes = env.run();
    let last = &episodes[49].policy;
    assert_eq!(last.len(), 16);
    for s in 0..16 {
        let row = &env.q_table()[s];
        let best = *row.iter().max().unwrap();
        assert_eq!(row[last[s]], best);
        assert!(row[..last[s]].iter().all(|v| *v < best));
    }
}

#[test]
fn equal_seeds_give_equal_runs() {
    let config = Config { episodes: 200, ..scenario_config(700_000) };
    let mut a = Environment::new(open_world(), config, 77).unwrap();
    let mut b = Environment::new(open_world(), config, 77).unwrap();
    let ea = a.run();
    let eb = b.run();
    assert_eq!(a.q_table(), b.q_table());
    for k in 0..200 {
        assert_eq!(ea[k].steps, eb[k].steps);
        assert_eq!(ea[k].reward, eb[k].reward);
        assert_eq!(ea[k].policy, eb[k].policy);
    }
}

#[test]
fn greedy_learning_with_sure_moves_finds_shortest_paths() {
    let distance = [6usize, 5, 4, 3, 5, 0, 0, 2, 4, 3, 0, 1, 3, 2, 1, 0];
    for seed in [1u64, 2, 3] {
        let config = Config {
            success_prob: 1_000_000,
            epsilon: 0,
            episodes: 3000,
            max_steps: 200,
            ..scenario_config(1_000_000)
        };
        let mut env = Environment::new(open_world(), config, seed).unwrap();
        let episodes = env.run();
        assert!(episodes[2900..].iter().all(|e| e.steps <= 6));
        for start in 0..16usize {
            if !env.map().state_at(start).kind.is_open() || start == 15 {
                continue;
            }
            let mut at = env.map().state_at(start).position;
            let mut steps = 0;
            while env.map().get_state(at.row, at.col).kind != StatusType::Goal {
                let action = env.get_best_action(env.map().get_state(at.row, at.col));
                at = env.map().moved(at, action);
                steps += 1;
                assert!(steps <= 16);
            }
            assert_eq!(steps, distance[start]);
        }
    }
}

#[test]
fn a_greedy_sure_episode_is_the_greedy_walk() {
    let config = Config {
        success_prob: 1_000_000,
        epsilon: 0,
        max_steps: 10,
        ..scenario_config(1_000_000)
    };
    for seed in 0..20u64 {
        let mut env = Environment::new(small_world(), config, seed).unwrap();
        let start = *env.get_state(0, 0);
        let episode = env.run_episode_from(&start);
        assert_eq!(episode.steps, 3);
        assert_eq!(episode.reward, 800_000);
        assert_eq!(
            env.q_table(),
            &vec![vec![-10_000, -10_000, 100_000, 0], vec![0; 4], vec![0; 4], vec![0; 4]]
        );
        assert_eq!(env.agent_position(), Position { row: 0, col: 1 });
        assert_eq!(episode.policy, vec![2, 0, 0, 0]);
        assert_eq!(env.epsilon(), 0);
    }
}

#[test]
fn a_greedy_sure_episode_stops_with_the_budget() {
    let config = Config {
        success_prob: 1_000_000,
        epsilon: 0,
        max_steps: 2,
        ..scenario_config(1_000_000)
    };
    let mut env = Environment::new(small_world(), config, 3).unwrap();
    let start = *env.get_state(0, 0);
    let episode = env.run_episode_from(&start);
    assert_eq!(episode.steps, 2);
    assert_eq!(episode.reward, -200_000);
    assert_eq!(env.q_table()[0], vec![-10_000, -10_000, 0, 0]);
    assert_eq!(env.agent_position(), Position { row: 0, col: 0 });
}

#[test]
fn greedy_sure_episodes_do_not_depend_on_the_seed() {
    let config = Config {
        success_prob: 1_000_000,
        epsilon: 0,
        max_steps: 60,
        ..scenario_config(1_000_000)
    };
    let mut a = Environment::new(open_world(), config, 1).unwrap();
    let mut b = Environment::new(open_world(), config, 2).unwrap();
    for round in 0..40usize {
        let cell = [0usize, 3, 12, 8, 7][round % 5];
        let mut start = a.reset_agent();
        while start.index != cell {
            start = a.reset_agent();
        }
        let mut same = b.reset_agent();
        while same.index != cell {
            same = b.reset_agent();
        }
        let ea = a.run_episode_from(&start);
        let eb = b.run_episode_from(&same);
        assert_eq!(ea.steps, eb.steps);
        assert_eq!(ea.reward, eb.reward);
        assert_eq!(ea.policy, eb.policy);
        assert_eq!(a.q_table(), b.q_table());
        assert_eq!(a.agent_position(), b.agent_position());
    }
}
