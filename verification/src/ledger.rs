use vstd::prelude::*;
use vstd::arithmetic::div_mod::lemma_mod_pos_bound;
use crate::digits::{lemma_pow10_positive, pow10};
use crate::tail_set::{
    clear_below, lemma_clear_below_shifted, lemma_insert_adds_block, lemma_insert_well_formed,
    lemma_step_keeps_suffix, well_formed,
};
use crate::tails::{block_size, lemma_block_size_counts, matched_count};

verus! {

/// The books of a draw in progress: the tails recorded so far, how many
/// serials they match, and the rate digits still to be served, one per
/// position, the digit of position `p` at index `p - 1`.
pub struct Ledger {
    pub tails: Map<u128, u8>,
    pub matched: nat,
    pub digits: Seq<u8>,
}

/// The books are in order while position `pos` is served: the tails are well
/// formed and no longer than `pos`, the running count is the number of
/// serials they match, and it has not passed the target.
pub open spec fn sound(l: Ledger, pos: nat, target: nat, total: nat) -> bool {
    &&& well_formed(l.tails, pos, total)
    &&& l.matched == matched_count(l.tails, total)
    &&& l.matched <= target
    &&& pos <= l.digits.len()
    &&& forall|i: int| 0 <= i < l.digits.len() ==> #[trigger] l.digits[i] <= 9
}

/// The rate digits after an overshoot at `pos`: the digit of `pos` goes down
/// by one, never below zero, and every later position is set to nine.
pub open spec fn rolled_back(digits: Seq<u8>, pos: nat) -> Seq<u8> {
    Seq::new(
        digits.len(),
        |i: int|
            if i < pos - 1 {
                digits[i]
            } else if i == pos - 1 {
                if digits[i] > 0 {
                    (digits[i] - 1) as u8
                } else {
                    0u8
                }
            } else {
                9u8
            },
    )
}

/// Accounts for one tail at `pos`. Its block is added to the running count.
/// If that passes the target, the block is taken back and the tail is not
/// recorded; below the last position the rate digits are rolled back too.
/// Otherwise the tail is recorded.
pub open spec fn account(l: Ledger, pos: nat, tail: nat, target: nat, total: nat) -> Ledger {
    let block = block_size(pos, tail, total);
    if l.matched + block > target {
        Ledger {
            tails: l.tails,
            matched: l.matched,
            digits: if pos != l.digits.len() {
                rolled_back(l.digits, pos)
            } else {
                l.digits
            },
        }
    } else {
        Ledger {
            tails: l.tails.insert(tail as u128, pos as u8),
            matched: l.matched + block,
            digits: l.digits,
        }
    }
}

/// The tail `steps` units of `10^(pos - 1)` further on, wrapping at `10^pos`.
pub open spec fn stepped(tail: nat, steps: nat, pos: nat) -> nat {
    (tail + steps * pow10((pos - 1) as nat)) % pow10(pos)
}

/// One of the evenly spaced companions of a base tail: the base moved on by
/// `steps` units; if that value is taken, moved on by one unit more. What is
/// then still taken, or lies beyond the pool, is dropped; the rest is
/// accounted for.
pub open spec fn place_step(
    l: Ledger,
    pos: nat,
    steps: nat,
    base: nat,
    target: nat,
    total: nat,
) -> Ledger {
    let first = stepped(base, steps, pos);
    let tail = if l.tails.contains_key(first as u128) {
        stepped(first, 1, pos)
    } else {
        first
    };
    if l.tails.contains_key(tail as u128) || tail > total {
        l
    } else {
        account(l, pos, tail, target, total)
    }
}

/// The multiple of the step that the `i`-th companion uses. With eight tails
/// the fourth moves to the eighth place, which keeps the eight spread evenly.
pub open spec fn step_index(factor: nat, i: nat) -> nat {
    if factor == 8 && i == 4 {
        8
    } else {
        i
    }
}

/// How many units the `i`-th companion lies beyond the base: the step, ten
/// divided by the factor, times the multiple that the companion uses.
pub open spec fn companion_steps(factor: nat, i: nat) -> nat {
    ((10nat / factor) * step_index(factor, i)) as nat
}

/// Places the companions `from..factor` of a base tail, in order.
pub open spec fn place_rest(
    l: Ledger,
    pos: nat,
    factor: nat,
    from: nat,
    base: nat,
    target: nat,
    total: nat,
) -> Ledger
    decreases factor - from,
{
    if from >= factor {
        l
    } else {
        place_rest(
            place_step(l, pos, companion_steps(factor, from), base, target, total),
            pos,
            factor,
            from + 1,
            base,
            target,
            total,
        )
    }
}

/// Places a base tail and its `factor - 1` companions.
pub open spec fn place(
    l: Ledger,
    pos: nat,
    factor: nat,
    base: nat,
    target: nat,
    total: nat,
) -> Ledger {
    place_rest(account(l, pos, base, target, total), pos, factor, 1, base, target, total)
}

/// Accounting for a tail that is new and clear keeps the books in order.
pub proof fn lemma_account_sound(l: Ledger, pos: nat, tail: nat, target: nat, total: nat)
    requires
        sound(l, pos, target, total),
        1 <= pos <= 38,
        tail < pow10(pos),
        tail <= total,
        total <= u128::MAX,
        !l.tails.contains_key(tail as u128),
        clear_below(l.tails, tail, pos),
    ensures
        sound(account(l, pos, tail, target, total), pos, target, total),
        account(l, pos, tail, target, total).digits.len() == l.digits.len(),
{
    let after = account(l, pos, tail, target, total);
    let block = block_size(pos, tail, total);
    if l.matched + block > target {
    } else {
        lemma_insert_well_formed(l.tails, total, tail as u128, pos as u8);
        lemma_insert_adds_block(l.tails, total, tail as u128, pos as u8, total);
        lemma_block_size_counts(pos, tail, total);
    }
}

/// A companion of a base tail is written with `pos` digits and has the
/// base's shorter suffixes.
pub proof fn lemma_stepped_clear(tails: Map<u128, u8>, base: nat, steps: nat, pos: nat)
    requires
        pos >= 1,
        clear_below(tails, base, pos),
    ensures
        stepped(base, steps, pos) < pow10(pos),
        clear_below(tails, stepped(base, steps, pos), pos),
{
    lemma_pow10_positive(pos);
    lemma_mod_pos_bound((base + steps * pow10((pos - 1) as nat)) as int, pow10(pos) as int);
    lemma_step_keeps_suffix(base, steps, pos);
    lemma_clear_below_shifted(tails, base, stepped(base, steps, pos), pos);
}

/// Placing a companion keeps the books in order.
pub proof fn lemma_place_step_sound(
    l: Ledger,
    pos: nat,
    steps: nat,
    base: nat,
    target: nat,
    total: nat,
)
    requires
        sound(l, pos, target, total),
        1 <= pos <= 38,
        total <= u128::MAX,
        clear_below(l.tails, base, pos),
    ensures
        sound(place_step(l, pos, steps, base, target, total), pos, target, total),
        clear_below(place_step(l, pos, steps, base, target, total).tails, base, pos),
        place_step(l, pos, steps, base, target, total).digits.len() == l.digits.len(),
{
    let first = stepped(base, steps, pos);
    lemma_stepped_clear(l.tails, base, steps, pos);
    lemma_stepped_clear(l.tails, first, 1, pos);
    let tail = if l.tails.contains_key(first as u128) {
        stepped(first, 1, pos)
    } else {
        first
    };
    if l.tails.contains_key(tail as u128) || tail > total {
    } else {
        lemma_account_sound(l, pos, tail, target, total);
    }
}

/// Placing the remaining companions keeps the books in order.
pub proof fn lemma_place_rest_sound(
    l: Ledger,
    pos: nat,
    factor: nat,
    from: nat,
    base: nat,
    target: nat,
    total: nat,
)
    requires
        sound(l, pos, target, total),
        1 <= pos <= 38,
        total <= u128::MAX,
        clear_below(l.tails, base, pos),
    ensures
        sound(place_rest(l, pos, factor, from, base, target, total), pos, target, total),
        place_rest(l, pos, factor, from, base, target, total).digits.len() == l.digits.len(),
    decreases factor - from,
{
    if from < factor {
        let steps = companion_steps(factor, from);
        lemma_place_step_sound(l, pos, steps, base, target, total);
        lemma_place_rest_sound(
            place_step(l, pos, steps, base, target, total),
            pos,
            factor,
            from + 1,
            base,
            target,
            total,
        );
    }
}

/// Placing a base tail that is new and clear, with its companions, keeps the
/// books in order.
pub proof fn lemma_place_sound(
    l: Ledger,
    pos: nat,
    factor: nat,
    base: nat,
    target: nat,
    total: nat,
)
    requires
        sound(l, pos, target, total),
        1 <= pos <= 38,
        total <= u128::MAX,
        base < pow10(pos),
        base <= total,
        !l.tails.contains_key(base as u128),
        clear_below(l.tails, base, pos),
    ensures
        sound(place(l, pos, factor, base, target, total), pos, target, total),
        place(l, pos, factor, base, target, total).digits.len() == l.digits.len(),
{
    lemma_account_sound(l, pos, base, target, total);
    lemma_place_rest_sound(
        account(l, pos, base, target, total),
        pos,
        factor,
        1,
        base,
        target,
        total,
    );
}

} // verus!
