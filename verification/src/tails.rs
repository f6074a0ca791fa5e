use ink_prelude::vec::Vec;
use vstd::prelude::*;
use vstd::arithmetic::div_mod::{
    lemma_fundamental_div_mod, lemma_fundamental_div_mod_converse, lemma_mod_pos_bound,
};
use crate::digits::{lemma_pow10_positive, pow10, power_of_ten, MAX_POS};

verus! {

/// A tail `(value, length)` stands for every serial whose last `length`
/// decimal digits, read as a number, are `value`.
pub open spec fn ends_in(serial: nat, value: nat, length: nat) -> bool {
    serial % pow10(length) == value
}

/// Whether some tail of the set matches the serial.
pub open spec fn hit(tails: Map<u128, u8>, serial: nat) -> bool {
    exists|v: u128| #[trigger] tails.contains_key(v) && ends_in(serial, v as nat, tails[v] as nat)
}

/// How many serials of `1..=n` end in the tail `(value, length)`.
pub open spec fn block_count(value: nat, length: nat, n: nat) -> nat
    decreases n,
{
    if n == 0 {
        0
    } else {
        block_count(value, length, (n - 1) as nat) + if ends_in(n, value, length) {
            1nat
        } else {
            0nat
        }
    }
}

/// How many serials of `1..=n` are matched by at least one tail of the set.
pub open spec fn matched_count(tails: Map<u128, u8>, n: nat) -> nat
    decreases n,
{
    if n == 0 {
        0
    } else {
        matched_count(tails, (n - 1) as nat) + if hit(tails, n) {
            1nat
        } else {
            0nat
        }
    }
}

/// The closed form of a block: one serial per full run of `10^pos`, and one
/// more where the tail is not zero and still fits in the last, partial run.
pub open spec fn block_size(pos: nat, tail: nat, total: nat) -> nat {
    total / pow10(pos) + if tail != 0 && tail <= total % pow10(pos) {
        1nat
    } else {
        0nat
    }
}

/// The factors of a rate digit: how many evenly spaced tails realise it, as
/// one set or as the sum of two.
pub open spec fn factors_of(digit: u8) -> (u8, u8) {
    if digit == 3 {
        (2, 1)
    } else if digit == 4 {
        (2, 2)
    } else if digit == 6 {
        (5, 1)
    } else if digit == 7 {
        (5, 2)
    } else {
        (digit, 0)
    }
}

/// The two factors of a digit always sum to the digit.
pub proof fn lemma_factors_sum(digit: u8)
    requires
        digit <= 9,
    ensures
        factors_of(digit).0 + factors_of(digit).1 == digit,
        factors_of(digit).0 <= 9,
        factors_of(digit).1 <= 2,
{
}

/// Splits a rate digit into its two factors.
pub fn get_factors(rate_bit: u8) -> (factors: Vec<u8>)
    ensures
        factors@.len() == 2,
        factors@[0] == factors_of(rate_bit).0,
        factors@[1] == factors_of(rate_bit).1,
{
    let mut factors: Vec<u8> = Vec::new();
    if rate_bit == 3 {
        factors.push(2);
        factors.push(1);
    } else if rate_bit == 4 {
        factors.push(2);
        factors.push(2);
    } else if rate_bit == 6 {
        factors.push(5);
        factors.push(1);
    } else if rate_bit == 7 {
        factors.push(5);
        factors.push(2);
    } else {
        factors.push(rate_bit);
        factors.push(0);
    }
    factors
}

/// Stepping from `n - 1` to `n` either moves the remainder up by one or wraps
/// it to zero and moves the quotient up by one.
proof fn lemma_div_mod_step(n: nat, m: nat)
    requires
        n > 0,
        m > 0,
    ensures
        n % m != 0 ==> (n - 1) / (m as int) == n / m && (n - 1) % (m as int) == n % m - 1,
        n % m == 0 ==> (n - 1) / (m as int) == n / m - 1 && (n - 1) % (m as int) == m - 1,
{
    let q = (n / m) as int;
    let r = (n % m) as int;
    lemma_fundamental_div_mod(n as int, m as int);
    lemma_mod_pos_bound(n as int, m as int);
    if r != 0 {
        assert(n - 1 == q * m + (r - 1)) by (nonlinear_arith)
            requires
                n == m * q + r,
        ;
        lemma_fundamental_div_mod_converse(n - 1, m as int, q, r - 1);
    } else {
        assert(n - 1 == (q - 1) * m + (m - 1)) by (nonlinear_arith)
            requires
                n == m * q + r,
                r == 0,
        ;
        lemma_fundamental_div_mod_converse(n - 1, m as int, q - 1, m - 1);
    }
}

/// The closed form counts the block: `block_size` is the number of serials of
/// `1..=total` that end in the tail.
pub proof fn lemma_block_size_counts(pos: nat, tail: nat, total: nat)
    requires
        tail < pow10(pos),
    ensures
        block_count(tail, pos, total) == block_size(pos, tail, total),
    decreases total,
{
    let m = pow10(pos);
    lemma_pow10_positive(pos);
    if total == 0 {
        assert(0nat / m == 0) by (nonlinear_arith)
            requires
                m > 0,
        ;
        assert(0nat % m == 0) by (nonlinear_arith)
            requires
                m > 0,
        ;
    } else {
        lemma_block_size_counts(pos, tail, (total - 1) as nat);
        lemma_div_mod_step(total, m);
        lemma_mod_pos_bound(total as int, m as int);
    }
}

/// The number of serials of `1..=total_quantity` that end in `winning_tail`
/// read as a tail of `pos` digits.
pub fn get_quantity_per_tail(pos: u8, winning_tail: u128, total_quantity: u128) -> (quantity: u128)
    requires
        pos <= MAX_POS,
    ensures
        quantity == block_size(pos as nat, winning_tail as nat, total_quantity as nat),
        winning_tail < pow10(pos as nat) ==> quantity == block_count(
            winning_tail as nat,
            pos as nat,
            total_quantity as nat,
        ),
        quantity <= total_quantity,
{
    let unit = power_of_ten(pos);
    proof {
        lemma_pow10_positive(pos as nat);
        lemma_fundamental_div_mod(total_quantity as int, unit as int);
        lemma_mod_pos_bound(total_quantity as int, unit as int);
        if winning_tail < pow10(pos as nat) {
            lemma_block_size_counts(pos as nat, winning_tail as nat, total_quantity as nat);
        }
        assert(total_quantity / unit + (if total_quantity % unit > 0 { 1int } else { 0int })
            <= total_quantity) by (nonlinear_arith)
            requires
                unit >= 1,
                total_quantity == unit * (total_quantity / unit) + total_quantity % unit,
                0 <= total_quantity % unit,
                0 <= total_quantity / unit,
        ;
    }
    let mut quantity_per_tail = total_quantity / unit;
    let pos_value = total_quantity % unit;
    if winning_tail != 0 && winning_tail <= pos_value {
        quantity_per_tail = quantity_per_tail + 1;
    }
    quantity_per_tail
}

} // verus!
