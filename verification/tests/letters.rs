use grid_mdp::policy::argmax;
use grid_mdp::policy::direction_to_num;
use grid_mdp::policy::greedy_policy;
use grid_mdp::policy::num_to_direction;
use grid_mdp::policy::policy_from_string;
use grid_mdp::policy::policy_to_string;

#[test]
fn the_greedy_action_is_the_first_largest() {
    assert_eq!(argmax(&[1, 2, 3, 4]), 3);
    assert_eq!(argmax(&[4, 3, 2, 1]), 0);
    assert_eq!(argmax(&[1, 7, 7, 1]), 1);
    assert_eq!(argmax(&[0, 0, 0, 0]), 0);
    assert_eq!(argmax(&[-5, -3, -3, -4]), 1);
    assert_eq!(argmax(&[i64::MIN, i64::MIN, i64::MAX, i64::MAX]), 2);
    assert_eq!(argmax(&[-1, -1, -1, 0]), 3);
}

#[test]
fn the_greedy_policy_takes_the_greedy_action_in_every_state() {
    let q = vec![vec![1, 2, 3, 4], vec![9, 9, 9, 9], vec![-1, 0, -1, 0], vec![5, 6, 6, 5]];
    assert_eq!(greedy_policy(&q), vec![3, 0, 1, 1]);
    assert_eq!(greedy_policy(&q), greedy_policy(&q.clone()));
    assert_eq!(greedy_policy(&vec![]), Vec::<usize>::new());
}

#[test]
fn actions_have_letters() {
    assert_eq!(num_to_direction(0), "N");
    assert_eq!(num_to_direction(1), "S");
    assert_eq!(num_to_direction(2), "E");
    assert_eq!(num_to_direction(3), "W");
    assert_eq!(direction_to_num('N'), Some(0));
    assert_eq!(direction_to_num('S'), Some(1));
    assert_eq!(direction_to_num('E'), Some(2));
    assert_eq!(direction_to_num('W'), Some(3));
    assert_eq!(direction_to_num('n'), None);
    assert_eq!(direction_to_num(','), None);
}

#[test]
fn a_policy_is_written_out_with_commas() {
    assert_eq!(policy_to_string(&vec![0, 1, 2, 3]), "N,S,E,W");
    assert_eq!(policy_to_string(&vec![2]), "E");
    assert_eq!(policy_to_string(&vec![]), "");
    assert_eq!(policy_to_string(&vec![3, 3, 0]), "W,W,N");
}

#[test]
fn a_written_policy_is_read_back() {
    assert_eq!(policy_from_string("N,S,E,W"), Some(vec![0, 1, 2, 3]));
    assert_eq!(policy_from_string("E"), Some(vec![2]));
    assert_eq!(policy_from_string(""), Some(vec![]));
}

#[test]
fn a_text_that_is_no_policy_is_refused() {
    assert_eq!(policy_from_string("N,S,"), None);
    assert_eq!(policy_from_string(","), None);
    assert_eq!(policy_from_string("NS"), None);
    assert_eq!(policy_from_string("N;S"), None);
    assert_eq!(policy_from_string("N,X"), None);
    assert_eq!(policy_from_string("N, S"), None);
    assert_eq!(policy_from_string("n"), None);
    assert_eq!(policy_from_string(",N"), None);
    assert_eq!(policy_from_string("N,,S"), None);
}

#[test]
fn writing_and_reading_a_policy_gives_it_back() {
    let mut policy = Vec::new();
    let mut x: usize = 12345;
    for _ in 0..180 {
        x = x.wrapping_mul(1_103_515_245).wrapping_add(12345) % 2_147_483_648;
        policy.push((x >> 16) % 4);
        let text = policy_to_string(&policy);
        assert_eq!(text.len(), 2 * policy.len() - 1);
        assert_eq!(policy_from_string(&text), Some(policy.clone()));
    }
}

#[test]
fn a_table_and_its_copy_give_the_same_decisions() {
    let q = vec![vec![3, 3, 1, 0], vec![-2, -2, -2, -2], vec![0, 1, 2, 2]];
    let policy = greedy_policy(&q);
    let text = policy_to_string(&policy);
    let reloaded = policy_from_string(&text).unwrap();
    assert_eq!(reloaded, greedy_policy(&q.clone()));
    assert_eq!(reloaded, vec![0, 0, 2]);
}
