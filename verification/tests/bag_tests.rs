use cops_and_robbers::bag::Bag;

#[test]
fn new_bag_counts_are_uniform() {
    let bag = Bag::new(4);
    assert_eq!(bag.counts().len(), 4);
    for &c in bag.counts() {
        assert_eq!(c, 50);
    }
}

#[test]
fn increase_adds_reward() {
    let mut bag = Bag::new(3);
    bag.increase(1);
    assert_eq!(bag.counts()[0], 50);
    assert_eq!(bag.counts()[1], 53);
    assert_eq!(bag.counts()[2], 50);
}

#[test]
fn decrease_subtracts_one() {
    let mut bag = Bag::new(3);
    bag.decrease(2);
    assert_eq!(bag.counts()[0], 50);
    assert_eq!(bag.counts()[1], 50);
    assert_eq!(bag.counts()[2], 49);
}

#[test]
fn decrease_floors_at_zero() {
    let mut bag = Bag::new(2);
    for _ in 0..60 {
        bag.decrease(0);
    }
    // Entry 0 bottomed out at zero and stayed there; entry 1 kept the total
    // positive, so no reset happened.
    assert_eq!(bag.counts()[0], 0);
    assert_eq!(bag.counts()[1], 50);
}

#[test]
fn decrease_resets_a_starved_bag() {
    let mut bag = Bag::new(2);
    for _ in 0..50 {
        bag.decrease(0);
    }
    for _ in 0..49 {
        bag.decrease(1);
    }
    assert_eq!(bag.counts()[0], 0);
    assert_eq!(bag.counts()[1], 1);
    // This penalty would leave every count at zero: the whole table resets
    // to the uniform initial value instead.
    bag.decrease(1);
    assert_eq!(bag.counts()[0], 50);
    assert_eq!(bag.counts()[1], 50);
}

#[test]
fn draw_survives_any_penalty_sequence() {
    let mut bag = Bag::new(3);
    for _ in 0..1000 {
        let victim = bag.draw();
        bag.decrease(victim);
        let chosen = bag.draw();
        assert!(chosen < bag.size());
        assert!(bag.counts()[chosen] > 0);
    }
}

#[test]
fn increase_then_decrease_round_trip() {
    let mut bag = Bag::new(5);
    bag.increase(3);
    bag.decrease(3);
    bag.decrease(3);
    bag.decrease(3);
    assert_eq!(bag.counts()[3], 50);
}
