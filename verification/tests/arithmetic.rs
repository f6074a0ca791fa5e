use draw_lots::digits::{get_digits_length, power_of_ten};
use draw_lots::error::DrawError;
use draw_lots::rate::{get_rate_digits, get_win_rate};
use draw_lots::tails::{get_factors, get_quantity_per_tail};

#[test]
fn powers_of_ten() {
    assert_eq!(power_of_ten(0), 1);
    assert_eq!(power_of_ten(1), 10);
    assert_eq!(power_of_ten(4), 10_000);
    assert_eq!(power_of_ten(38), 100_000_000_000_000_000_000_000_000_000_000_000_000);
}

#[test]
fn digits_length_of_zero_is_refused() {
    assert_eq!(get_digits_length(0), Err(DrawError::InvalidInput));
}

#[test]
fn digits_length_counts_decimal_digits() {
    assert_eq!(get_digits_length(1), Ok(1));
    assert_eq!(get_digits_length(9), Ok(1));
    assert_eq!(get_digits_length(10), Ok(2));
    assert_eq!(get_digits_length(99), Ok(2));
    assert_eq!(get_digits_length(100), Ok(3));
    assert_eq!(get_digits_length(1000), Ok(4));
    assert_eq!(get_digits_length(u128::MAX), Ok(39));
}

#[test]
fn factors_of_every_digit() {
    assert_eq!(get_factors(0), vec![0, 0]);
    assert_eq!(get_factors(1), vec![1, 0]);
    assert_eq!(get_factors(2), vec![2, 0]);
    assert_eq!(get_factors(3), vec![2, 1]);
    assert_eq!(get_factors(4), vec![2, 2]);
    assert_eq!(get_factors(5), vec![5, 0]);
    assert_eq!(get_factors(6), vec![5, 1]);
    assert_eq!(get_factors(7), vec![5, 2]);
    assert_eq!(get_factors(8), vec![8, 0]);
    assert_eq!(get_factors(9), vec![9, 0]);
}

#[test]
fn factors_sum_to_the_digit() {
    for digit in 0u8..10 {
        let factors = get_factors(digit);
        assert_eq!(factors.len(), 2);
        assert_eq!(factors[0] + factors[1], digit);
    }
}

#[test]
fn quantity_per_tail_exact_values() {
    // 1000 serials, tails of two digits: ten serials each
    assert_eq!(get_quantity_per_tail(2, 0, 1000), 10);
    assert_eq!(get_quantity_per_tail(2, 73, 1000), 10);
    // 1005 serials: the tails 01..05 have one more
    assert_eq!(get_quantity_per_tail(2, 5, 1005), 11);
    assert_eq!(get_quantity_per_tail(2, 6, 1005), 10);
    assert_eq!(get_quantity_per_tail(2, 0, 1005), 10);
    // a tail of full length matches the one serial that it spells
    assert_eq!(get_quantity_per_tail(4, 73, 1000), 1);
    assert_eq!(get_quantity_per_tail(4, 1000, 1000), 1);
    assert_eq!(get_quantity_per_tail(4, 1001, 1000), 0);
    assert_eq!(get_quantity_per_tail(4, 0, 1000), 0);
}

fn count_by_hand(pos: u32, tail: u128, total: u128) -> u128 {
    let unit = 10u128.pow(pos);
    (1..=total).filter(|s| s % unit == tail).count() as u128
}

#[test]
fn quantity_per_tail_is_the_number_of_matching_serials() {
    for total in [1u128, 9, 10, 11, 99, 100, 101, 257, 1000] {
        for pos in 1u8..=4 {
            let unit = 10u128.pow(pos as u32);
            for tail in (0..unit).step_by(7) {
                assert_eq!(
                    get_quantity_per_tail(pos, tail, total),
                    count_by_hand(pos as u32, tail, total)
                );
            }
        }
    }
}

#[test]
fn win_rate_exact_values() {
    assert_eq!(get_win_rate(73, 1000, 4), 730);
    assert_eq!(get_win_rate(3, 10, 2), 30);
    assert_eq!(get_win_rate(1, 3, 1), 3);
    assert_eq!(get_win_rate(2, 3, 5), 66_666);
    assert_eq!(get_win_rate(700, 1000, 4), 7000);
    assert_eq!(get_win_rate(5, 11, 2), 45);
    assert_eq!(get_win_rate(0, 7, 3), 0);
}

#[test]
fn win_rate_of_a_very_large_pool() {
    // the plain product target * 10^places would not fit in 128 bits
    let total = u128::MAX / 10;
    let target = total / 2;
    // target / total is one half less 1 / (2 * total), and 10^38 / (2 * total)
    // lies between one and two
    let rate = get_win_rate(target, total, 38);
    assert_eq!(rate, 49_999_999_999_999_999_999_999_999_999_999_999_998);
}

#[test]
fn rate_digits_most_significant_first() {
    assert_eq!(get_rate_digits(730, 4), vec![0, 7, 3, 0]);
    assert_eq!(get_rate_digits(30, 2), vec![3, 0]);
    assert_eq!(get_rate_digits(2800, 4), vec![2, 8, 0, 0]);
    assert_eq!(get_rate_digits(0, 3), vec![0, 0, 0]);
    assert_eq!(get_rate_digits(7, 0), Vec::<u8>::new());
}
