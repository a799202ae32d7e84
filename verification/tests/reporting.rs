use grid_mdp::series::cumulative_rewards;
use grid_mdp::series::downsample;

#[test]
fn every_nth_entry_is_kept_with_its_place() {
    let data = [10, 11, 12, 13, 14, 15, 16];
    assert_eq!(downsample(&data, 3), vec![(0, 10), (3, 13), (6, 16)]);
    assert_eq!(downsample(&data, 1).len(), 7);
    assert_eq!(downsample(&data, 7), vec![(0, 10)]);
    assert_eq!(downsample(&data, 100), vec![(0, 10)]);
    assert_eq!(downsample(&data, usize::MAX), vec![(0, 10)]);
    assert_eq!(downsample(&data, 2), vec![(0, 10), (2, 12), (4, 14), (6, 16)]);
    assert_eq!(downsample(&data[..6], 2), vec![(0, 10), (2, 12), (4, 14)]);
    let none: [i64; 0] = [];
    assert_eq!(downsample(&none, 5), vec![]);
}

#[test]
fn a_long_series_is_thinned_out_by_fifty() {
    let data: Vec<f64> = (0..10000).map(|i| i as f64 * 0.5).collect();
    let sample = downsample(&data, 50);
    assert_eq!(sample.len(), 200);
    for (k, (place, value)) in sample.iter().enumerate() {
        assert_eq!(*place, 50 * k);
        assert_eq!(*value, data[50 * k]);
    }
}

#[test]
fn running_totals_add_up() {
    let rewards = vec![-100_000, -500_000, 10_000_000, -100_000];
    assert_eq!(cumulative_rewards(&rewards), vec![-100_000, -600_000, 9_400_000, 9_300_000]);
    assert_eq!(cumulative_rewards(&vec![]), Vec::<i128>::new());
    let limit = 1_000_000_000_000i64;
    let large = vec![limit; 10_000];
    let totals = cumulative_rewards(&large);
    assert_eq!(totals[9_999], 10_000 * limit as i128);
    let low = vec![-limit; 3];
    assert_eq!(cumulative_rewards(&low), vec![-(limit as i128), -2 * limit as i128, -3 * limit as i128]);
}

#[test]
fn running_totals_of_the_largest_integers_fit() {
    let high = vec![i64::MAX; 1000];
    assert_eq!(cumulative_rewards(&high)[999], 1000 * i64::MAX as i128);
    let low = vec![i64::MIN; 1000];
    assert_eq!(cumulative_rewards(&low)[999], 1000 * i64::MIN as i128);
}
