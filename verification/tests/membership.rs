use draw_lots::winners::{count_winners, is_winner};
use std::collections::BTreeMap;

#[test]
fn is_winner_matches_by_suffix() {
    let mut tails = BTreeMap::new();
    tails.insert(7u128, 1u8);
    tails.insert(12u128, 2u8);
    assert!(is_winner(7, &tails, true));
    assert!(is_winner(17, &tails, true));
    assert!(is_winner(1007, &tails, true));
    assert!(is_winner(12, &tails, true));
    assert!(is_winner(912, &tails, true));
    assert!(!is_winner(8, &tails, true));
    assert!(!is_winner(13, &tails, true));
    assert!(!is_winner(70, &tails, true));
}

#[test]
fn is_winner_is_inverted_without_the_flag() {
    let mut tails = BTreeMap::new();
    tails.insert(7u128, 1u8);
    assert!(!is_winner(7, &tails, false));
    assert!(!is_winner(27, &tails, false));
    assert!(is_winner(8, &tails, false));
    assert!(is_winner(70, &tails, false));
}

#[test]
fn is_winner_respects_the_length_of_a_tail() {
    // the tail 5 of three digits stands for ...005, not for every ...5
    let mut tails = BTreeMap::new();
    tails.insert(5u128, 3u8);
    assert!(is_winner(5, &tails, true));
    assert!(is_winner(1005, &tails, true));
    assert!(is_winner(22005, &tails, true));
    assert!(!is_winner(15, &tails, true));
    assert!(!is_winner(105, &tails, true));
}

#[test]
fn is_winner_with_no_tails() {
    let tails: BTreeMap<u128, u8> = BTreeMap::new();
    assert!(!is_winner(1, &tails, true));
    assert!(is_winner(1, &tails, false));
}

#[test]
fn is_winner_with_tails_longer_than_any_serial() {
    let mut tails = BTreeMap::new();
    tails.insert(42u128, 200u8);
    assert!(is_winner(42, &tails, true));
    assert!(!is_winner(142, &tails, true));
    tails.insert(u128::MAX, 39u8);
    assert!(is_winner(u128::MAX, &tails, true));
}

#[test]
fn is_winner_agrees_with_a_scan_of_all_tails() {
    let mut tails = BTreeMap::new();
    tails.insert(3u128, 1u8);
    tails.insert(41u128, 2u8);
    tails.insert(7u128, 3u8);
    tails.insert(0u128, 2u8);
    for serial in 1u128..=3000 {
        let scanned = tails.iter().any(|(tail, pos)| serial % 10u128.pow(*pos as u32) == *tail);
        assert_eq!(is_winner(serial, &tails, true), scanned);
        assert_eq!(is_winner(serial, &tails, false), !scanned);
    }
}

#[test]
fn count_winners_of_sections() {
    let mut tails = BTreeMap::new();
    tails.insert(7u128, 1u8);
    tails.insert(12u128, 2u8);
    // 7, 12, 17, 27 in 1..=30
    assert_eq!(count_winners(1, 30, &tails, true), 4);
    assert_eq!(count_winners(1, 30, &tails, false), 26);
    assert_eq!(count_winners(8, 17, &tails, true), 2);
    assert_eq!(count_winners(7, 7, &tails, true), 1);
    assert_eq!(count_winners(8, 8, &tails, true), 0);
    assert_eq!(count_winners(9, 8, &tails, true), 0);
    assert_eq!(count_winners(0, 7, &tails, true), 1);
    assert_eq!(count_winners(0, 0, &tails, false), 0);
}

#[test]
fn count_winners_at_the_top_of_the_range() {
    let mut tails = BTreeMap::new();
    tails.insert(5u128, 1u8);
    // u128::MAX ends in 5
    assert_eq!(count_winners(u128::MAX - 10, u128::MAX, &tails, true), 2);
}
