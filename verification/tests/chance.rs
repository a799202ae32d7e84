use grid_mdp::random::happens;
use grid_mdp::random::RandomSource;
use grid_mdp::world::GridWorld;

#[test]
fn drawn_indices_lie_below_the_bound() {
    let mut source = RandomSource::new(7);
    let mut seen = [false; 4];
    for _ in 0..400 {
        let drawn = source.index_below(4);
        assert!(drawn < 4);
        seen[drawn] = true;
    }
    assert!(seen.iter().all(|s| *s));
    for _ in 0..100 {
        assert_eq!(source.index_below(1), 0);
    }
}

#[test]
fn drawn_fractions_lie_in_the_unit_interval() {
    let mut source = RandomSource::new(11);
    let mut low = false;
    let mut high = false;
    for _ in 0..2000 {
        let drawn = source.fraction();
        assert!(0 <= drawn && drawn < 1_000_000);
        low |= drawn < 500_000;
        high |= drawn >= 500_000;
    }
    assert!(low && high);
}

#[test]
fn the_coin_shows_both_faces() {
    let mut source = RandomSource::new(3);
    let mut heads = 0;
    for _ in 0..1000 {
        if source.coin() {
            heads += 1;
        }
    }
    assert!(heads > 300 && heads < 700);
}

#[test]
fn equal_seeds_give_equal_draws() {
    let mut a = RandomSource::new(99);
    let mut b = RandomSource::new(99);
    for _ in 0..50 {
        assert_eq!(a.fraction(), b.fraction());
        assert_eq!(a.index_below(1000), b.index_below(1000));
    }
}

#[test]
fn an_event_happens_on_the_first_part_of_the_unit_interval() {
    assert!(happens(1_000_000, 0));
    assert!(happens(1_000_000, 999_999));
    assert!(!happens(0, 0));
    assert!(!happens(0, 999_999));
    assert!(happens(300_000, 299_999));
    assert!(!happens(300_000, 300_000));
}

#[test]
fn random_positions_are_open_cells() {
    let world = GridWorld::new(&vec![vec!["W0", "S0", "W1"], vec!["G", "W2", "S1"]]).unwrap();
    let mut source = RandomSource::new(5);
    let mut seen = [false; 6];
    for _ in 0..300 {
        let p = source_position(&world, &mut source);
        seen[p] = true;
    }
    assert_eq!(seen, [false, true, false, true, false, true]);
}

fn source_position(world: &GridWorld, source: &mut RandomSource) -> usize {
    let p = world.get_random_valid_position(source);
    assert!(world.is_valid_position(p));
    p.row * 3 + p.col
}
