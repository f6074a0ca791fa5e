use ink_prelude::vec::Vec;
use vstd::prelude::*;
use vstd::arithmetic::div_mod::{
    lemma_fundamental_div_mod, lemma_fundamental_div_mod_converse, lemma_mod_pos_bound,
};
use crate::digits::{
    decimal_length, lemma_pow10_fits, lemma_pow10_positive, pow10, power_of_ten, MAX_POS,
};

verus! {

/// The share `target / total` as a fixed-point fraction of `places` decimal
/// places, rounded down.
pub open spec fn share(target: nat, total: nat, places: nat) -> nat {
    (target * pow10(places)) / total
}

/// The win rate: the wanted share of the pool with as many decimal places as
/// the pool has digits.
pub open spec fn win_rate(target: nat, total: nat) -> nat {
    share(target, total, decimal_length(total))
}

/// Whether the draw works on the losers: the win rate is above one half.
pub open spec fn flips(target: nat, total: nat) -> bool {
    win_rate(target, total) > 5 * pow10((decimal_length(total) - 1) as nat)
}

/// The rate the draw works on: the win rate, or its complement where the
/// draw flips.
pub open spec fn working_rate(target: nat, total: nat) -> nat {
    if flips(target, total) {
        (pow10(decimal_length(total)) - win_rate(target, total)) as nat
    } else {
        win_rate(target, total)
    }
}

/// How many serials the tails have to match: the winners, or the losers
/// where the draw flips.
pub open spec fn working_target(target: nat, total: nat) -> nat {
    if flips(target, total) {
        (total - target) as nat
    } else {
        target
    }
}

/// The digit of a rate of `len` places that position `pos` serves: the
/// `pos`-th digit after the decimal point, which weighs `10^-pos` just as a
/// tail of `pos` digits matches one serial in `10^pos`.
pub open spec fn rate_digit(rate: nat, len: nat, pos: nat) -> nat {
    (rate / pow10((len - pos) as nat)) % 10
}

/// The digits of a rate of `len` places, the digit of position `p` at index
/// `p - 1`.
pub open spec fn rate_digits(rate: nat, len: nat) -> Seq<u8> {
    Seq::new(len, |i: int| rate_digit(rate, len, (i + 1) as nat) as u8)
}

/// One step of long division: ten times a number divides as ten times its
/// quotient plus the quotient of ten times its remainder.
proof fn lemma_long_division_step(x: nat, d: nat)
    requires
        d > 0,
    ensures
        (10 * x) / d == 10 * (x / d) + (10 * (x % d)) / d,
        (10 * x) % d == (10 * (x % d)) % d,
        (10 * (x % d)) / d <= 9,
{
    let q = (x / d) as int;
    let r = (x % d) as int;
    let t = 10 * r;
    let tq = t / (d as int);
    let tr = t % (d as int);
    lemma_fundamental_div_mod(x as int, d as int);
    lemma_mod_pos_bound(x as int, d as int);
    lemma_fundamental_div_mod(t, d as int);
    lemma_mod_pos_bound(t, d as int);
    assert(10 * x == (10 * q + tq) * d + tr) by (nonlinear_arith)
        requires
            x == d * q + r,
            t == 10 * r,
            t == d * tq + tr,
    ;
    lemma_fundamental_div_mod_converse((10 * x) as int, d as int, 10 * q + tq, tr);
    assert(tq <= 9) by (nonlinear_arith)
        requires
            t == d * tq + tr,
            0 <= tr,
            t < 10 * d,
            d > 0,
    ;
}

/// The share `target / total` as a fixed-point fraction of `places` decimal
/// places, rounded down. The quotient is built digit by digit, so that
/// nothing larger than ten times the pool is ever formed.
pub fn get_win_rate(target_quantity: u128, total_quantity: u128, places: u8) -> (rate: u128)
    requires
        target_quantity < total_quantity,
        total_quantity <= u128::MAX / 10,
        places <= MAX_POS,
    ensures
        rate == share(target_quantity as nat, total_quantity as nat, places as nat),
        rate < pow10(places as nat),
{
    let mut rate: u128 = 0;
    let mut rest: u128 = target_quantity;
    let mut k: u8 = 0;
    proof {
        assert(pow10(0) == 1);
        assert((target_quantity as nat) * pow10(0) == target_quantity) by (nonlinear_arith)
            requires
                pow10(0) == 1,
        ;
        lemma_fundamental_div_mod_converse(
            target_quantity as int,
            total_quantity as int,
            0,
            target_quantity as int,
        );
    }
    while k < places
        invariant
            k <= places <= MAX_POS,
            target_quantity < total_quantity,
            total_quantity <= u128::MAX / 10,
            rate == share(target_quantity as nat, total_quantity as nat, k as nat),
            rest == ((target_quantity as nat) * pow10(k as nat)) % (total_quantity as nat),
            rate < pow10(k as nat),
        decreases places - k,
    {
        proof {
            let x: nat = (target_quantity as nat) * pow10(k as nat);
            lemma_pow10_positive(k as nat);
            lemma_long_division_step(x, total_quantity as nat);
            lemma_mod_pos_bound(x as int, total_quantity as int);
            assert(pow10((k + 1) as nat) == 10 * pow10(k as nat));
            assert((target_quantity as nat) * pow10((k + 1) as nat) == 10 * x) by (nonlinear_arith)
                requires
                    pow10((k + 1) as nat) == 10 * pow10(k as nat),
                    x == (target_quantity as nat) * pow10(k as nat),
            ;
            lemma_pow10_fits((k + 1) as nat);
        }
        let grown = rest * 10;
        rate = rate * 10 + grown / total_quantity;
        rest = grown % total_quantity;
        k = k + 1;
    }
    rate
}

/// The digits of a rate of `highest_pos` places, one per position: the digit
/// of position `p` stands at index `p - 1`.
pub fn get_rate_digits(win_rate: u128, highest_pos: u8) -> (rate_vec: Vec<u8>)
    requires
        highest_pos <= MAX_POS,
    ensures
        rate_vec@ == rate_digits(win_rate as nat, highest_pos as nat),
        forall|i: int| 0 <= i < rate_vec@.len() ==> #[trigger] rate_vec@[i] <= 9,
{
    let mut rate_vec: Vec<u8> = Vec::new();
    let mut pos: u8 = 0;
    while pos < highest_pos
        invariant
            pos <= highest_pos <= MAX_POS,
            rate_vec@.len() == pos,
            forall|i: int|
                0 <= i < pos ==> #[trigger] rate_vec@[i] == rate_digit(
                    win_rate as nat,
                    highest_pos as nat,
                    (i + 1) as nat,
                ) as u8,
            forall|i: int| 0 <= i < pos ==> #[trigger] rate_vec@[i] <= 9,
        decreases highest_pos - pos,
    {
        let unit = power_of_ten(highest_pos - pos - 1);
        proof {
            lemma_pow10_positive((highest_pos - pos - 1) as nat);
        }
        let digit = ((win_rate / unit) % 10) as u8;
        rate_vec.push(digit);
        pos = pos + 1;
    }
    assert(rate_vec@ =~= rate_digits(win_rate as nat, highest_pos as nat));
    rate_vec
}

} // verus!
