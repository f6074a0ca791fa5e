use ink_prelude::collections::BTreeMap;
use vstd::prelude::*;
use vstd::arithmetic::div_mod::lemma_small_mod;
use crate::digits::{lemma_pow10_increases, lemma_pow10_positive, pow10, power_of_ten, MAX_POS};
use crate::tails::{ends_in, hit, matched_count};

verus! {

/// Whether a serial wins under a set of tails and its direction flag: with
/// the flag set the tails name the winners, without it the losers.
pub open spec fn wins(serial: nat, tails: Map<u128, u8>, flag: bool) -> bool {
    hit(tails, serial) == flag
}

/// How many serials of `1..=n` win.
pub open spec fn winner_count(tails: Map<u128, u8>, flag: bool, n: nat) -> nat
    decreases n,
{
    if n == 0 {
        0
    } else {
        winner_count(tails, flag, (n - 1) as nat) + if wins(n, tails, flag) {
            1nat
        } else {
            0nat
        }
    }
}

/// With the flag set the winners are the matched serials; without it they
/// are all the others.
pub proof fn lemma_winner_count(tails: Map<u128, u8>, flag: bool, n: nat)
    ensures
        flag ==> winner_count(tails, flag, n) == matched_count(tails, n),
        !flag ==> winner_count(tails, flag, n) == n - matched_count(tails, n),
    decreases n,
{
    if n > 0 {
        lemma_winner_count(tails, flag, (n - 1) as nat);
    }
}

/// How many serials of the section `start..=end` win. Serials are numbered
/// from one; a section that starts at zero starts at one.
pub open spec fn winners_between(tails: Map<u128, u8>, flag: bool, start: nat, end: nat) -> nat
    decreases end,
{
    if end < start || end == 0 {
        0
    } else {
        winners_between(tails, flag, start, (end - 1) as nat) + if wins(end, tails, flag) {
            1nat
        } else {
            0nat
        }
    }
}

/// The winners of a section are the winners up to its end less the winners
/// before its start.
pub proof fn lemma_winners_between(tails: Map<u128, u8>, flag: bool, start: nat, end: nat)
    requires
        1 <= start <= end + 1,
    ensures
        winners_between(tails, flag, start, end) == winner_count(tails, flag, end) - winner_count(
            tails,
            flag,
            (start - 1) as nat,
        ),
        winners_between(tails, flag, start, end) <= end + 1 - start,
    decreases end,
{
    if end >= start {
        lemma_winners_between(tails, flag, start, (end - 1) as nat);
    }
}

/// Ten to the 39 is more than a `u128` holds, and so is every higher power.
proof fn lemma_pow10_beyond(n: nat)
    requires
        n >= 39,
    ensures
        pow10(n) > u128::MAX,
{
    reveal_with_fuel(pow10, 40);
    assert(pow10(39) > u128::MAX);
    lemma_pow10_increases(39, n);
}

/// Tells whether the ticket with the given serial wins.
///
/// A tail of the set matches the serial when the serial, cut to the tail's
/// length, equals the tail's value. Each length is looked up once, so the
/// cost does not grow with the number of tails.
pub fn is_winner(serial: u128, winning_tails: &BTreeMap<u128, u8>, flag: bool) -> (won: bool)
    ensures
        won == wins(serial as nat, winning_tails@, flag),
{
    let mut matched = false;
    let mut n: u8 = 0;
    while n <= MAX_POS && !matched
        invariant
            n <= MAX_POS + 1,
            matched ==> hit(winning_tails@, serial as nat),
            !matched ==> forall|v: u128| #[trigger]
                winning_tails@.contains_key(v) && winning_tails@[v] < n ==> !ends_in(
                    serial as nat,
                    v as nat,
                    winning_tails@[v] as nat,
                ),
        decreases MAX_POS + 1 - n, if matched { 0int } else { 1int },
    {
        let unit = power_of_ten(n);
        proof {
            lemma_pow10_positive(n as nat);
        }
        let key = serial % unit;
        match winning_tails.get(&key) {
            Some(length) => {
                if *length == n {
                    assert(winning_tails@.contains_key(key) && ends_in(
                        serial as nat,
                        key as nat,
                        winning_tails@[key] as nat,
                    ));
                    matched = true;
                }
            },
            None => {},
        }
        if !matched {
            n = n + 1;
        }
    }
    if !matched {
        match winning_tails.get(&serial) {
            Some(length) => {
                if *length > MAX_POS {
                    proof {
                        lemma_pow10_beyond(*length as nat);
                        lemma_small_mod(serial as nat, pow10(*length as nat));
                    }
                    assert(winning_tails@.contains_key(serial) && ends_in(
                        serial as nat,
                        serial as nat,
                        winning_tails@[serial] as nat,
                    ));
                    matched = true;
                }
            },
            None => {},
        }
        proof {
            if !matched && hit(winning_tails@, serial as nat) {
                let v = choose|v: u128| #[trigger]
                    winning_tails@.contains_key(v) && ends_in(
                        serial as nat,
                        v as nat,
                        winning_tails@[v] as nat,
                    );
                let length = winning_tails@[v] as nat;
                assert(length > MAX_POS);
                lemma_pow10_beyond(length);
                lemma_small_mod(serial as nat, pow10(length));
                assert(v == serial);
                assert(false);
            }
        }
    }
    matched == flag
}

/// Counts the winners among the tickets of the section `start..=end`, one
/// membership test per ticket.
pub fn count_winners(
    start: u128,
    end: u128,
    winning_tails: &BTreeMap<u128, u8>,
    flag: bool,
) -> (quantity: u128)
    ensures
        quantity == winners_between(winning_tails@, flag, start as nat, end as nat),
        1 <= start <= end ==> quantity == winner_count(winning_tails@, flag, end as nat)
            - winner_count(winning_tails@, flag, (start - 1) as nat),
{
    proof {
        if 1 <= start <= end {
            lemma_winners_between(winning_tails@, flag, start as nat, end as nat);
        }
    }
    if end < start || end == 0 {
        return 0;
    }
    let first: u128 = if start == 0 {
        1
    } else {
        start
    };
    let mut quantity: u128 = 0;
    let mut num: u128 = first;
    proof {
        lemma_section_from_one(winning_tails@, flag, end as nat);
        assert(winners_between(winning_tails@, flag, first as nat, (first - 1) as nat) == 0);
    }
    while num < end
        invariant
            1 <= first <= num <= end,
            quantity <= num - first,
            quantity == winners_between(
                winning_tails@,
                flag,
                first as nat,
                (num - 1) as nat,
            ),
        decreases end - num,
    {
        if is_winner(num, winning_tails, flag) {
            quantity = quantity + 1;
        }
        num = num + 1;
    }
    if is_winner(end, winning_tails, flag) {
        quantity = quantity + 1;
    }
    quantity
}

/// A section that starts at zero holds the same tickets as the one that
/// starts at one.
proof fn lemma_section_from_one(tails: Map<u128, u8>, flag: bool, end: nat)
    ensures
        winners_between(tails, flag, 0, end) == winners_between(tails, flag, 1, end),
    decreases end,
{
    if end > 0 {
        lemma_section_from_one(tails, flag, (end - 1) as nat);
    }
}

} // verus!
