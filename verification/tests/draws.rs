use draw_lots::course::RETRY_LIMIT;
use draw_lots::draw_lots::{DrawLots, MAX_TOTAL};
use draw_lots::error::DrawError;
use draw_lots::random_number::{RandomNumber, Replay};
use draw_lots::winners::is_winner;
use std::collections::BTreeMap;

/// A fixed stream of values, good enough to stand for randomness in tests.
fn stream(seed: u64, len: usize) -> Vec<u32> {
    let mut state = seed;
    let mut values = Vec::with_capacity(len);
    for _ in 0..len {
        state = state.wrapping_mul(6364136223846793005).wrapping_add(1442695040888963407);
        values.push((state >> 32) as u32);
    }
    values
}

fn winners(tails: &BTreeMap<u128, u8>, flag: bool, total: u128) -> u128 {
    (1..=total).filter(|serial| is_winner(*serial, tails, flag)).count() as u128
}

fn matched(tails: &BTreeMap<u128, u8>, total: u128) -> u128 {
    (1..=total)
        .filter(|serial| tails.iter().any(|(tail, pos)| serial % 10u128.pow(*pos as u32) == *tail))
        .count() as u128
}

fn assert_partition(tails: &BTreeMap<u128, u8>, total: u128) {
    for (tail, pos) in tails {
        assert!(*pos >= 1);
        assert!(*tail <= total);
        assert!(*tail < 10u128.pow(*pos as u32));
    }
    for (a, pa) in tails {
        for (b, pb) in tails {
            if a != b && pa <= pb {
                assert_ne!(b % 10u128.pow(*pa as u32), *a, "{} is a suffix of {}", a, b);
            }
        }
    }
    for serial in 1..=total {
        let hits = tails
            .iter()
            .filter(|(tail, pos)| serial % 10u128.pow(**pos as u32) == **tail)
            .count();
        assert!(hits <= 1, "serial {} is matched {} times", serial, hits);
    }
}

fn draw(seed: u64, target: u128, total: u128) -> (BTreeMap<u128, u8>, bool) {
    let mut drawer = DrawLots::new(Replay::new(stream(seed, 100_000)));
    match drawer.draw_lots(7, target, total) {
        Ok(result) => result,
        Err(e) => panic!("draw of {} in {} failed: {:?}", target, total, e),
    }
}

#[test]
fn draw_rejects_a_target_of_zero() {
    let mut drawer = DrawLots::new(Replay::new(stream(1, 100)));
    assert_eq!(drawer.draw_lots(1, 0, 1000), Err(DrawError::InvalidInput));
}

#[test]
fn draw_rejects_a_target_equal_to_the_total() {
    let mut drawer = DrawLots::new(Replay::new(stream(1, 100)));
    assert_eq!(drawer.draw_lots(1, 1000, 1000), Err(DrawError::InvalidInput));
}

#[test]
fn draw_rejects_a_target_above_the_total() {
    let mut drawer = DrawLots::new(Replay::new(stream(1, 100)));
    assert_eq!(drawer.draw_lots(1, 1001, 1000), Err(DrawError::InvalidInput));
}

#[test]
fn draw_rejects_an_empty_pool() {
    let mut drawer = DrawLots::new(Replay::new(stream(1, 100)));
    assert_eq!(drawer.draw_lots(1, 5, 0), Err(DrawError::InvalidInput));
    assert_eq!(drawer.draw_lots(1, 0, 0), Err(DrawError::InvalidInput));
}

#[test]
fn draw_of_73_in_1000() {
    for seed in 0..50 {
        let (tails, flag) = draw(seed, 73, 1000);
        // four digits, a win rate of 0730 of 10000: below one half, no flip
        assert!(flag);
        assert_eq!(matched(&tails, 1000), 73);
        assert_eq!(winners(&tails, flag, 1000), 73);
        assert_partition(&tails, 1000);
    }
}

#[test]
fn draw_of_3_in_10() {
    for seed in 0..50 {
        let (tails, flag) = draw(seed, 3, 10);
        assert!(flag);
        assert_eq!(matched(&tails, 10), 3);
        assert_eq!(winners(&tails, flag, 10), 3);
        assert_partition(&tails, 10);
    }
}

#[test]
fn draw_above_one_half_names_the_losers() {
    for seed in 0..20 {
        let (tails, flag) = draw(seed, 700, 1000);
        assert!(!flag);
        assert_eq!(matched(&tails, 1000), 300);
        assert_eq!(winners(&tails, flag, 1000), 700);
        assert_partition(&tails, 1000);
    }
}

#[test]
fn draw_of_exactly_one_half_does_not_flip() {
    let (tails, flag) = draw(3, 500, 1000);
    assert!(flag);
    assert_eq!(winners(&tails, flag, 1000), 500);
}

#[test]
fn draw_just_above_one_half_flips() {
    let (tails, flag) = draw(3, 501, 1000);
    assert!(!flag);
    assert_eq!(matched(&tails, 1000), 499);
    assert_eq!(winners(&tails, flag, 1000), 501);
}

#[test]
fn draw_converges_for_every_target_of_small_pools() {
    for total in [2u128, 3, 7, 10, 11, 19, 20, 25, 99, 100, 101, 137] {
        for target in 1..total {
            let mut drawer = DrawLots::new(Replay::new(stream(total as u64 * 1000 + target as u64, 50_000)));
            match drawer.draw_lots(0, target, total) {
                Ok((tails, flag)) => {
                    assert_eq!(winners(&tails, flag, total), target);
                    assert_partition(&tails, total);
                },
                Err(e) => assert_eq!(e, DrawError::ExhaustedCandidateSpace),
            }
        }
    }
}

#[test]
fn draw_converges_for_every_pool_up_to_150() {
    for total in 2u128..=150 {
        for target in 1..total {
            let seed = total as u64 * 7919 + target as u64;
            let mut drawer = DrawLots::new(Replay::new(stream(seed, 20_000)));
            match drawer.draw_lots(3, target, total) {
                Ok((tails, flag)) => {
                    assert_eq!(winners(&tails, flag, total), target);
                    // the rate has as many places as the pool has digits
                    let places = total.to_string().len() as u32;
                    let rate = target * 10u128.pow(places) / total;
                    assert_eq!(flag, rate <= 5 * 10u128.pow(places - 1));
                },
                Err(e) => assert_eq!(e, DrawError::ExhaustedCandidateSpace),
            }
        }
    }
}

#[test]
fn draw_converges_for_uneven_pools() {
    for (target, total) in [(1u128, 4321u128), (17, 4321), (999, 4321), (2160, 4321), (2161, 4321), (4320, 4321), (12345, 54321)] {
        let (tails, flag) = draw(target as u64, target, total);
        assert_eq!(winners(&tails, flag, total), target);
        assert_partition(&tails, total);
    }
}

#[test]
fn same_values_give_the_same_draw() {
    let values = stream(42, 10_000);
    let mut first = DrawLots::new(Replay::new(values.clone()));
    let mut second = DrawLots::new(Replay::new(values));
    let a = first.draw_lots(1, 73, 1000);
    let b = second.draw_lots(1, 73, 1000);
    assert!(a.is_ok());
    assert_eq!(a, b);
}

#[test]
fn the_salt_is_only_handed_to_the_source() {
    let values = stream(42, 10_000);
    let mut first = DrawLots::new(Replay::new(values.clone()));
    let mut second = DrawLots::new(Replay::new(values));
    assert_eq!(first.draw_lots(1, 73, 1000), second.draw_lots(2, 73, 1000));
}

#[test]
fn other_values_give_another_draw() {
    let (a, _) = draw(1, 73, 1000);
    let (b, _) = draw(2, 73, 1000);
    assert_ne!(a, b);
}

#[test]
fn a_drawer_can_draw_again() {
    let mut drawer = DrawLots::new(Replay::new(stream(5, 100_000)));
    let (first, _) = drawer.draw_lots(0, 73, 1000).unwrap();
    let (second, flag) = drawer.draw_lots(0, 250, 2000).unwrap();
    assert_eq!(matched(&first, 1000), 73);
    assert_eq!(winners(&second, flag, 2000), 250);
    assert_partition(&second, 2000);
}

#[test]
fn a_draw_with_known_values() {
    // pool of 10, 3 winners: two digits, rate 30, digits 3 and 0.
    // Digit 3 is served as 2 + 1: base 4 with companion 9, then base 7.
    let mut drawer = DrawLots::new(Replay::new(vec![14, 29, 7]));
    let (tails, flag) = drawer.draw_lots(0, 3, 10).unwrap();
    let mut expected = BTreeMap::new();
    expected.insert(4u128, 1u8);
    expected.insert(9u128, 1u8);
    expected.insert(7u128, 1u8);
    assert_eq!(tails, expected);
    assert!(flag);
}

#[test]
fn a_shortfall_is_closed_with_tails_of_full_length() {
    // pool of 299, 3 winners: rate 010. Position 2 places the tail 00, which
    // matches the serials 100 and 200. One serial is missing; the tail 007
    // of full length closes the gap.
    let mut drawer = DrawLots::new(Replay::new(vec![100, 7]));
    let (tails, flag) = drawer.draw_lots(0, 3, 299).unwrap();
    let mut expected = BTreeMap::new();
    expected.insert(0u128, 2u8);
    expected.insert(7u128, 3u8);
    assert_eq!(tails, expected);
    assert!(flag);
    assert_eq!(winners(&tails, flag, 299), 3);
}

#[test]
fn tails_that_overshoot_at_the_last_position_are_taken_back() {
    // pool of 11, 5 winners: rate 45, digits 4 and 5.
    // Position 1, factors 2 + 2: base 1 (serials 1 and 11) and 6, then base 2
    // and 7: five serials. Position 2, factor 5: every tail of two digits
    // overshoots and is taken back.
    let mut drawer = DrawLots::new(Replay::new(vec![1, 2, 3]));
    let (tails, flag) = drawer.draw_lots(0, 5, 11).unwrap();
    let mut expected = BTreeMap::new();
    expected.insert(1u128, 1u8);
    expected.insert(6u128, 1u8);
    expected.insert(2u128, 1u8);
    expected.insert(7u128, 1u8);
    assert_eq!(tails, expected);
    assert!(flag);
    assert_eq!(winners(&tails, flag, 11), 5);
}

#[test]
fn draw_fails_when_the_source_runs_dry() {
    let mut drawer = DrawLots::new(Replay::new(Vec::new()));
    assert_eq!(drawer.draw_lots(0, 73, 1000), Err(DrawError::RandomUnavailable));
    let mut drawer = DrawLots::new(Replay::new(vec![14]));
    assert_eq!(drawer.draw_lots(0, 3, 10), Err(DrawError::RandomUnavailable));
}

#[test]
fn draw_gives_up_after_the_retry_limit() {
    // pool of 11: the tail 50 of two digits is beyond the pool, and the first
    // position needs a tail of one digit, which 0 gives; then the base 0 and
    // its companions fill position one
    let mut values = vec![0u32, 1];
    values.extend(std::iter::repeat(50).take(RETRY_LIMIT as usize));
    let mut drawer = DrawLots::new(Replay::new(values.clone()));
    assert_eq!(drawer.draw_lots(0, 5, 11), Err(DrawError::ExhaustedCandidateSpace));
    // one value short of the limit the source runs dry first
    values.pop();
    let mut drawer = DrawLots::new(Replay::new(values));
    assert_eq!(drawer.draw_lots(0, 5, 11), Err(DrawError::RandomUnavailable));
}

#[test]
fn draw_on_the_largest_pool() {
    let mut drawer = DrawLots::new(Replay::new(stream(9, 100_000)));
    let (tails, flag) = drawer.draw_lots(0, 73, MAX_TOTAL).unwrap();
    assert!(flag);
    for (tail, pos) in &tails {
        assert!(*tail <= MAX_TOTAL);
        assert!(*pos >= 1 && *pos <= 38);
    }
}

#[test]
fn draw_with_the_environment_as_source() {
    let mut drawer = DrawLots::new(RandomNumber::new());
    match drawer.draw_lots(0, 73, 1000) {
        Ok((tails, flag)) => {
            assert_eq!(winners(&tails, flag, 1000), 73);
            assert_partition(&tails, 1000);
        },
        Err(e) => assert_ne!(e, DrawError::InvalidInput),
    }
}

#[test]
fn the_source_can_be_read_after_a_draw() {
    let mut drawer = DrawLots::new(Replay::new(vec![14, 29, 7, 8, 9]));
    assert!(drawer.draw_lots(0, 3, 10).is_ok());
    // three values were consumed, two are left
    assert_eq!(drawer.random().remaining(), 2);
}

fn tails_of(entries: &[(u128, u8)]) -> BTreeMap<u128, u8> {
    entries.iter().copied().collect()
}

#[test]
fn eight_tails_skip_the_fourth_step() {
    // pool of 100, 8 winners: rate 080, so position two places eight tails:
    // the base 05 and its companions 1, 2, 3, 8, 5, 6 and 7 tens further on
    let mut drawer = DrawLots::new(Replay::new(vec![5]));
    let (tails, flag) = drawer.draw_lots(0, 8, 100).unwrap();
    assert_eq!(
        tails,
        tails_of(&[(5, 2), (15, 2), (25, 2), (35, 2), (85, 2), (55, 2), (65, 2), (75, 2)])
    );
    assert!(flag);
    assert_eq!(winners(&tails, flag, 100), 8);
}

#[test]
fn a_companion_that_is_taken_moves_one_step_on() {
    // pool of 100, 7 winners: rate 070, served as 5 + 2. The five tails are
    // 15, 35, 55, 75, 95. The second base 25 has the companion 75, which is
    // taken, so 85 is recorded in its place.
    let mut drawer = DrawLots::new(Replay::new(vec![15, 25]));
    let (tails, flag) = drawer.draw_lots(0, 7, 100).unwrap();
    assert_eq!(
        tails,
        tails_of(&[(15, 2), (35, 2), (55, 2), (75, 2), (95, 2), (25, 2), (85, 2)])
    );
    assert!(flag);
    assert_eq!(winners(&tails, flag, 100), 7);
}

#[test]
fn a_tail_with_a_leading_zero_bars_its_last_digit() {
    // pool of 100, 7 winners: the five tails 05, 25, 45, 65, 85 hold the
    // value 5, so every later tail that ends in 5 is refused
    let mut drawer = DrawLots::new(Replay::new(vec![5, 15, 35, 16]));
    let (tails, flag) = drawer.draw_lots(0, 7, 100).unwrap();
    assert_eq!(
        tails,
        tails_of(&[(5, 2), (25, 2), (45, 2), (65, 2), (85, 2), (16, 2), (66, 2)])
    );
    assert_eq!(winners(&tails, flag, 100), 7);
}

#[test]
fn an_overshoot_is_taken_back_and_later_positions_serve_nine() {
    // pool of 1004, 211 winners: rate 2101.
    // Position 1, digit 2: the tails 1 (101 serials) and 6 (100 serials).
    // Position 2, digit 1: the tail 02 would add 11 serials and pass the
    // target, so it is taken back and positions 3 and 4 serve the digit 9.
    // Position 3: the base 010 and its eight companions, one serial each.
    // Position 4: the base 0003 closes the count; its companions overshoot
    // or lie beyond the pool.
    let mut drawer = DrawLots::new(Replay::new(vec![1, 2, 10, 3]));
    let (tails, flag) = drawer.draw_lots(0, 211, 1004).unwrap();
    assert_eq!(
        tails,
        tails_of(&[
            (1, 1),
            (6, 1),
            (10, 3),
            (110, 3),
            (210, 3),
            (310, 3),
            (410, 3),
            (510, 3),
            (610, 3),
            (710, 3),
            (810, 3),
            (3, 4),
        ])
    );
    assert!(flag);
    assert_eq!(winners(&tails, flag, 1004), 211);
    assert_eq!(drawer.random().remaining(), 0);
}

#[test]
fn a_refused_value_is_drawn_again() {
    // pool of 10, 3 winners: after the tails 4 and 9 the values 24 and 19
    // stand for tails that are taken, 7 is the first that is free
    let mut drawer = DrawLots::new(Replay::new(vec![14, 24, 19, 7]));
    let (tails, _) = drawer.draw_lots(0, 3, 10).unwrap();
    assert_eq!(tails, tails_of(&[(4, 1), (9, 1), (7, 1)]));
}

#[test]
fn a_value_beyond_the_pool_is_drawn_again() {
    // pool of 11, 5 winners, position 2: 50 is beyond the pool, 3 is not
    let mut drawer = DrawLots::new(Replay::new(vec![1, 2, 50, 3]));
    let (tails, flag) = drawer.draw_lots(0, 5, 11).unwrap();
    assert_eq!(tails, tails_of(&[(1, 1), (6, 1), (2, 1), (7, 1)]));
    assert_eq!(winners(&tails, flag, 11), 5);
}

#[test]
fn replenishment_records_tails_of_full_length() {
    // pool of 1000, 1 winner: rate 0010, so position 3 places one tail of
    // three digits, which matches one serial: nothing is left to replenish.
    let mut drawer = DrawLots::new(Replay::new(vec![123]));
    let (tails, _) = drawer.draw_lots(0, 1, 1000).unwrap();
    assert_eq!(tails, tails_of(&[(123, 3)]));
    // pool of 3, 1 winner: rate 3 of 10. The base 5 and its companion 0 lie
    // beyond the pool or match nothing that is left, the second base 2
    // matches the serial 2.
    let mut drawer = DrawLots::new(Replay::new(vec![2, 9, 1]));
    let (tails, flag) = drawer.draw_lots(0, 1, 3).unwrap();
    assert_eq!(winners(&tails, flag, 3), 1);
    assert_partition(&tails, 3);
}

#[test]
fn draw_of_a_third_of_the_largest_pool() {
    let mut drawer = DrawLots::new(Replay::new(stream(11, 200_000)));
    match drawer.draw_lots(0, MAX_TOTAL / 3, MAX_TOTAL) {
        Ok((tails, flag)) => {
            assert!(flag);
            for (a, pa) in &tails {
                assert!(*a <= MAX_TOTAL);
                for (b, pb) in &tails {
                    if a != b && pa <= pb {
                        assert_ne!(b % 10u128.pow(*pa as u32), *a);
                    }
                }
            }
        },
        Err(e) => assert_eq!(e, DrawError::ExhaustedCandidateSpace),
    }
}
