use algorithms::random::{draw_items, make_random_vec, seed_from_clock, Prng};

#[test]
fn generator_steps_as_the_congruence_says() {
    let mut prng = Prng::from_seed(1);
    assert_eq!(prng.next_u32(), 1_103_527_590);
    assert_eq!(prng.next_u32(), 377_401_575);
    assert_eq!(prng.next_u32(), 662_824_084);
    assert_eq!(prng.next_u32(), 1_147_902_781);
    assert_eq!(prng.next_u32(), 2_035_015_474);
    let mut top = Prng::from_seed(u32::MAX);
    assert_eq!(top.next_u32(), 1_043_980_748);
}

#[test]
fn next_i32_scales_the_state_into_the_range() {
    let mut prng = Prng::from_seed(42);
    let drawn: Vec<i32> = (0..6).map(|_| prng.next_i32(-5, 5)).collect();
    assert_eq!(drawn, vec![0, 0, -1, 2, -1, -5]);
    let mut prng = Prng::from_seed(1);
    let drawn: Vec<i32> = (0..5).map(|_| prng.next_i32(0, 100)).collect();
    assert_eq!(drawn, vec![51, 17, 30, 53, 94]);
}

#[test]
fn next_i32_of_a_reversed_range_counts_down_from_its_first_bound() {
    let mut prng = Prng::from_seed(42);
    let drawn: Vec<i32> = (0..6).map(|_| prng.next_i32(5, -5)).collect();
    assert_eq!(drawn, vec![0, 0, 1, -2, 1, 5]);
    let mut prng = Prng::from_seed(1);
    assert_eq!(draw_items(&mut prng, 5, -100), vec![-51, -17, -30, -53, -94]);
    let mut prng = Prng::from_seed(3);
    for _ in 0..1000 {
        let x = prng.next_i32(i32::MAX, i32::MIN);
        assert!(x > i32::MIN);
    }
}

#[test]
fn next_i32_of_an_empty_range_is_its_lower_end() {
    let mut prng = Prng::from_seed(7);
    assert_eq!(prng.next_i32(3, 3), 3);
    assert_eq!(prng.next_i32(i32::MAX, i32::MAX), i32::MAX);
    assert_eq!(prng.next_i32(i32::MIN, i32::MIN), i32::MIN);
}

#[test]
fn next_i32_stays_within_the_widest_range() {
    let mut prng = Prng::from_seed(99);
    for _ in 0..1000 {
        let x = prng.next_i32(i32::MIN, i32::MAX);
        assert!(x < i32::MAX);
        let y = prng.next_i32(-1, 1);
        assert!(y == -1 || y == 0);
    }
}

#[test]
fn drawn_items_follow_the_generator() {
    let mut prng = Prng::from_seed(1);
    assert_eq!(draw_items(&mut prng, 5, 100), vec![51, 17, 30, 53, 94]);
    let mut again = Prng::from_seed(1);
    assert_eq!(draw_items(&mut again, 2, 100), vec![51, 17]);
    assert_eq!(draw_items(&mut again, 3, 100), vec![30, 53, 94]);
    assert_eq!(draw_items(&mut again, 0, 100), Vec::<i32>::new());
    assert_eq!(draw_items(&mut again, 3, 0), vec![0, 0, 0]);
}

#[test]
fn random_vectors_have_the_length_and_range_asked_for() {
    for (n, max) in [(0, 10), (1, 1), (50, 3), (1000, 100), (5, 0)] {
        let vec = make_random_vec(n, max);
        assert_eq!(vec.len(), n as usize);
        for &x in vec.iter() {
            assert!(0 <= x && x <= max);
            assert!(max == 0 || x < max);
        }
    }
    let vec = make_random_vec(200, -4);
    assert_eq!(vec.len(), 200);
    assert!(vec.iter().all(|&x| -4 < x && x <= 0));
}

#[test]
fn clock_seeded_generator_yields_states_below_the_modulus() {
    let mut prng = Prng::new();
    for _ in 0..100 {
        assert!(prng.next_u32() < 0x8000_0000);
    }
}

#[test]
fn seed_from_clock_keeps_the_low_32_bits() {
    assert_eq!(seed_from_clock(None), 0);
    assert_eq!(seed_from_clock(Some(0)), 0);
    assert_eq!(seed_from_clock(Some(12_345)), 12_345);
    assert_eq!(seed_from_clock(Some(0xffff_ffff)), u32::MAX);
    assert_eq!(seed_from_clock(Some(0x1_0000_0000)), 0);
    assert_eq!(seed_from_clock(Some(1_793_000_000_123)), 1_998_637_691);
    assert_eq!(seed_from_clock(Some(u128::MAX)), u32::MAX);
}
