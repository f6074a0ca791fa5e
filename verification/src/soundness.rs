use vstd::prelude::*;
use vstd::arithmetic::div_mod::{lemma_basic_div, lemma_mod_pos_bound, lemma_small_mod};
use crate::course::{
    course, lemma_pick_found, opening, pick, place_drawn, refill, replenish, serve, serve_from,
    RETRY_LIMIT,
};
use crate::digits::{
    decimal_length, lemma_decimal_length_bounds, lemma_pow10_increases, lemma_pow10_max,
    lemma_pow10_positive, pow10,
};
use crate::error::DrawError;
use crate::ledger::{lemma_place_sound, sound, Ledger};
use crate::rate::{flips, working_target};
use crate::tail_set::{
    lemma_empty_matches_nothing, lemma_free_is_clear, lemma_insert_adds_block,
    lemma_insert_well_formed, lemma_well_formed_longer, well_formed,
};
use crate::tails::{block_size, factors_of, lemma_block_size_counts, matched_count};
use crate::winners::{lemma_winner_count, winner_count};

verus! {

/// A tail that a search finds is written with `pos` digits, lies within the
/// pool, is new to the set and clear of its shorter tails.
pub proof fn lemma_picked_tail_fits(
    l: Ledger,
    pos: nat,
    target: nat,
    total: nat,
    drawn: Seq<u32>,
    at: nat,
    tries: nat,
)
    requires
        sound(l, pos, target, total),
        pos >= 1,
        total <= u128::MAX,
    ensures
        pick(l.tails, pos, total, drawn, at, tries) matches Ok((tail, next)) ==> {
            &&& at < next <= drawn.len()
            &&& tail < pow10(pos)
            &&& tail <= total
            &&& !l.tails.contains_key(tail as u128)
            &&& crate::tail_set::clear_below(l.tails, tail, pos)
        },
{
    lemma_pick_found(l.tails, pos, total, drawn, at, tries);
    match pick(l.tails, pos, total, drawn, at, tries) {
        Ok((tail, next)) => {
            lemma_pow10_positive(pos);
            lemma_mod_pos_bound(drawn[next - 1] as int, pow10(pos) as int);
            lemma_free_is_clear(l.tails, pos, total, tail, pos);
        },
        Err(_) => {},
    }
}

/// Placing a factor keeps the books in order.
pub proof fn lemma_place_drawn_sound(
    l: Ledger,
    pos: nat,
    factor: nat,
    target: nat,
    total: nat,
    drawn: Seq<u32>,
    at: nat,
)
    requires
        sound(l, pos, target, total),
        1 <= pos <= 38,
        total <= u128::MAX,
    ensures
        place_drawn(l, pos, factor, target, total, drawn, at) matches Ok((placed, next)) ==> {
            &&& sound(placed, pos, target, total)
            &&& placed.digits.len() == l.digits.len()
            &&& factor > 0 ==> at < next <= drawn.len()
        },
{
    if factor > 0 {
        lemma_picked_tail_fits(l, pos, target, total, drawn, at, RETRY_LIMIT as nat);
        match pick(l.tails, pos, total, drawn, at, RETRY_LIMIT as nat) {
            Ok((base, next)) => {
                lemma_place_sound(l, pos, factor, base, target, total);
            },
            Err(_) => {},
        }
    }
}

/// Serving the positions from `pos` on keeps the books in order, with tails
/// of at most `highest` digits.
pub proof fn lemma_serve_from_sound(
    l: Ledger,
    pos: nat,
    highest: nat,
    target: nat,
    total: nat,
    drawn: Seq<u32>,
    at: nat,
)
    requires
        1 <= pos <= highest + 1,
        highest <= 38,
        highest == l.digits.len(),
        total <= u128::MAX,
        sound(l, (pos - 1) as nat, target, total),
    ensures
        serve_from(l, pos, highest, target, total, drawn, at) matches Ok((served, next)) ==> {
            &&& sound(served, highest, target, total)
            &&& served.digits.len() == highest
        },
    decreases highest + 1 - pos,
{
    if pos <= highest {
        lemma_well_formed_longer(l.tails, (pos - 1) as nat, pos, total);
        let factors = factors_of(l.digits[pos - 1]);
        lemma_place_drawn_sound(l, pos, factors.0 as nat, target, total, drawn, at);
        match place_drawn(l, pos, factors.0 as nat, target, total, drawn, at) {
            Ok((first, middle)) => {
                lemma_place_drawn_sound(first, pos, factors.1 as nat, target, total, drawn, middle);
                match place_drawn(first, pos, factors.1 as nat, target, total, drawn, middle) {
                    Ok((served, next)) => {
                        lemma_serve_from_sound(
                            served,
                            pos + 1,
                            highest,
                            target,
                            total,
                            drawn,
                            next,
                        );
                    },
                    Err(_) => {},
                }
            },
            Err(_) => {},
        }
    }
}

/// Replenishment keeps the books in order and ends with the running count
/// at the target.
pub proof fn lemma_replenish_sound(
    l: Ledger,
    highest: nat,
    target: nat,
    total: nat,
    drawn: Seq<u32>,
    at: nat,
)
    requires
        1 <= highest <= 38,
        total < pow10(highest),
        total <= u128::MAX,
        sound(l, highest, target, total),
    ensures
        replenish(l, highest, target, total, drawn, at) matches Ok((closed, next)) ==> {
            &&& sound(closed, highest, target, total)
            &&& closed.matched == target
        },
    decreases drawn.len() - at,
{
    if l.matched < target {
        lemma_picked_tail_fits(l, highest, target, total, drawn, at, RETRY_LIMIT as nat);
        match pick(l.tails, highest, total, drawn, at, RETRY_LIMIT as nat) {
            Ok((tail, next)) => {
                let filled = refill(l, highest, tail, total);
                lemma_insert_well_formed(l.tails, total, tail as u128, highest as u8);
                lemma_insert_adds_block(l.tails, total, tail as u128, highest as u8, total);
                lemma_block_size_counts(highest, tail, total);
                lemma_pow10_positive(highest);
                lemma_small_mod(total, pow10(highest));
                lemma_basic_div(total as int, pow10(highest) as int);
                assert(block_size(highest, tail, total) <= 1);
                lemma_replenish_sound(filled, highest, target, total, drawn, next);
            },
            Err(_) => {},
        }
    }
}

/// Whatever values the random source hands out, a draw that succeeds is
/// exact: its tails are well formed, so that no two of them match the same
/// serial and none exceeds the pool; they match exactly the winners, or
/// exactly the losers where the draw flips; and the membership test marks
/// exactly the wanted number of serials as winners.
pub proof fn lemma_course_exact(target: nat, total: nat, drawn: Seq<u32>, at: nat)
    requires
        total < pow10(38),
    ensures
        course(target, total, drawn, at) matches Ok((tails, flag)) ==> {
            &&& 0 < target < total
            &&& flag == !flips(target, total)
            &&& well_formed(tails, decimal_length(total), total)
            &&& matched_count(tails, total) == working_target(target, total)
            &&& winner_count(tails, flag, total) == target
        },
        (course(target, total, drawn, at) matches Err(DrawError::InvalidInput)) <==> !(0 < target
            < total),
{
    if 0 < target < total {
        let highest = decimal_length(total);
        let goal = working_target(target, total);
        let l = opening(target, total);
        lemma_decimal_length_bounds(total);
        lemma_pow10_max();
        if highest > 38 {
            lemma_pow10_increases(38, (highest - 1) as nat);
        }
        lemma_empty_matches_nothing(total);
        assert(sound(l, 0, goal, total));
        lemma_serve_from_sound(l, 1, highest, goal, total, drawn, at);
        lemma_serve_from_no_invalid(l, 1, highest, goal, total, drawn, at);
        match serve_from(l, 1, highest, goal, total, drawn, at) {
            Ok((served, next)) => {
                lemma_replenish_sound(served, highest, goal, total, drawn, next);
                lemma_replenish_no_invalid(served, highest, goal, total, drawn, next);
                match replenish(served, highest, goal, total, drawn, next) {
                    Ok((closed, _)) => {
                        lemma_winner_count(closed.tails, !flips(target, total), total);
                    },
                    Err(_) => {},
                }
            },
            Err(_) => {},
        }
    }
}

/// Serving positions never fails for want of valid input.
proof fn lemma_serve_from_no_invalid(
    l: Ledger,
    pos: nat,
    highest: nat,
    target: nat,
    total: nat,
    drawn: Seq<u32>,
    at: nat,
)
    ensures
        !(serve_from(l, pos, highest, target, total, drawn, at) matches Err(
            DrawError::InvalidInput,
        )),
    decreases highest + 1 - pos,
{
    if pos <= highest {
        let factors = factors_of(l.digits[pos - 1]);
        lemma_pick_found(l.tails, pos, total, drawn, at, RETRY_LIMIT as nat);
        match place_drawn(l, pos, factors.0 as nat, target, total, drawn, at) {
            Ok((first, middle)) => {
                lemma_pick_found(first.tails, pos, total, drawn, middle, RETRY_LIMIT as nat);
                match serve(l, pos, target, total, drawn, at) {
                    Ok((served, next)) => {
                        lemma_serve_from_no_invalid(
                            served,
                            pos + 1,
                            highest,
                            target,
                            total,
                            drawn,
                            next,
                        );
                    },
                    Err(_) => {},
                }
            },
            Err(_) => {},
        }
    }
}

/// Replenishment never fails for want of valid input.
proof fn lemma_replenish_no_invalid(
    l: Ledger,
    highest: nat,
    target: nat,
    total: nat,
    drawn: Seq<u32>,
    at: nat,
)
    ensures
        !(replenish(l, highest, target, total, drawn, at) matches Err(DrawError::InvalidInput)),
    decreases drawn.len() - at,
{
    if l.matched < target {
        lemma_pick_found(l.tails, highest, total, drawn, at, RETRY_LIMIT as nat);
        match pick(l.tails, highest, total, drawn, at, RETRY_LIMIT as nat) {
            Ok((tail, next)) => {
                lemma_replenish_no_invalid(
                    refill(l, highest, tail, total),
                    highest,
                    target,
                    total,
                    drawn,
                    next,
                );
            },
            Err(_) => {},
        }
    }
}

} // verus!
