use hl_blobox::wildcard::Rng;

#[test]
fn draws_follow_the_seed() {
    let mut rng = Rng::new(42);
    let drawn: Vec<u32> = (0..6).map(|_| rng.next_u32()).collect();
    assert_eq!(
        drawn,
        [1456360119, 3359763283, 3393612768, 4054632243, 3283045847, 3589475362]
    );
}

#[test]
fn the_seed_zero_counts_as_one() {
    let mut zero = Rng::new(0);
    let mut one = Rng::new(1);
    for _ in 0..20 {
        assert_eq!(zero.next_u32(), one.next_u32());
    }
    assert_eq!(Rng::new(1).next_u32(), 1206177355);
}

#[test]
fn ranges_hold_what_is_drawn_from_them() {
    let mut rng = Rng::new(7);
    for _ in 0..100 {
        let v = rng.next_range(-3, 4);
        assert!((-3..4).contains(&v));
    }
    assert_eq!(Rng::new(42).next_range(0, 1_000_000_000_000), 1456360119);
    assert_eq!(Rng::new(42).next_range(5, 5), 5);
    assert_eq!(Rng::new(42).next_range(5, -5), 5);
    let wide = Rng::new(42).next_range(i64::MIN, i64::MAX);
    assert_eq!(wide, i64::MIN + 1456360119);
}

#[test]
fn an_empty_range_draws_nothing() {
    let mut rng = Rng::new(42);
    rng.next_range(9, 1);
    assert_eq!(rng.next_u32(), 1456360119);
}

#[test]
fn choices_and_texts_come_from_what_is_offered() {
    let mut rng = Rng::new(42);
    assert_eq!(rng.choice(&["a", "b", "c"]), "a");
    assert_eq!(Rng::new(42).random_from("0123456789abcdef", 8), "7303726b");
    assert_eq!(Rng::new(42).random_from("xyz", 0), "");
    assert_eq!(Rng::new(42).random_from("é", 3).chars().count(), 3);
}

#[test]
fn the_generator_never_gets_stuck() {
    let mut rng = Rng::new(0);
    let mut drawn: Vec<u32> = (0..10_000).map(|_| rng.next_u32()).collect();
    drawn.sort();
    drawn.dedup();
    assert!(drawn.len() > 9_990);
}
