use ink_prelude::vec::Vec;
use vstd::prelude::*;
use vstd::arithmetic::div_mod::{lemma_fundamental_div_mod_converse, lemma_small_mod};
use crate::course::{extends, pick, place_drawn, salted, step_settled, RETRY_LIMIT};
use crate::digits::{lemma_pow10_fits, pow10, power_of_ten, MAX_POS};
use crate::draw_lots::{DrawLots, MAX_TOTAL};
use crate::error::DrawError;
use crate::ledger::{
    companion_steps, lemma_place_step_sound, lemma_stepped_clear, place, place_rest, place_step,
    sound, step_index, stepped, Ledger,
};
use crate::random_number::RandomSource;
use crate::tail_set::{clear_below, lemma_free_is_clear};

verus! {

impl<R: RandomSource> DrawLots<R> {
    /// Places one companion of a base tail: the base moved on by `step * i`
    /// units of `10^(pos - 1)`, wrapping at `10^pos`. A value that is taken
    /// moves on by one unit more; what is then still taken, or lies beyond
    /// the pool, is dropped.
    pub(crate) fn deal_with_rest_by_step(
        &mut self,
        step: u128,
        pos: u32,
        i: u128,
        winning_tail: u128,
        target_quantity: u128,
        total_quantity: u128,
        rate_vec: &mut Vec<u8>,
    )
        requires
            1 <= pos <= old(self).highest() <= MAX_POS,
            old(rate_vec)@.len() == old(self).highest(),
            total_quantity <= MAX_TOTAL,
            target_quantity < total_quantity,
            sound(
                old(self).ledger(old(rate_vec)@),
                pos as nat,
                target_quantity as nat,
                total_quantity as nat,
            ),
            step * i <= 9,
            winning_tail < pow10(pos as nat),
            clear_below(old(self).tails(), winning_tail as nat, pos as nat),
        ensures
            final(self).source() == old(self).source(),
            final(self).highest() == old(self).highest(),
            final(self).ledger(final(rate_vec)@) == place_step(
                old(self).ledger(old(rate_vec)@),
                pos as nat,
                (step * i) as nat,
                winning_tail as nat,
                target_quantity as nat,
                total_quantity as nat,
            ),
            sound(
                final(self).ledger(final(rate_vec)@),
                pos as nat,
                target_quantity as nat,
                total_quantity as nat,
            ),
            clear_below(final(self).tails(), winning_tail as nat, pos as nat),
            final(rate_vec)@.len() == old(rate_vec)@.len(),
    {
        let ghost base = winning_tail as nat;
        let ghost steps = (step * i) as nat;
        let ghost first = stepped(base, steps, pos as nat);
        proof {
            lemma_place_step_sound(
                self.ledger(rate_vec@),
                pos as nat,
                steps,
                base,
                target_quantity as nat,
                total_quantity as nat,
            );
            lemma_stepped_clear(self.tails(), base, steps, pos as nat);
            lemma_stepped_clear(self.tails(), first, 1, pos as nat);
            lemma_pow10_fits(pos as nat);
            lemma_pow10_fits((pos - 1) as nat);
            assert(pow10(pos as nat) == 10 * pow10((pos - 1) as nat));
        }
        let pos8 = pos as u8;
        let unit = power_of_ten(pos8 - 1);
        let full = power_of_ten(pos8);
        assert(step * i * unit <= 9 * unit) by (nonlinear_arith)
            requires
                step * i <= 9,
                unit >= 0,
        ;
        let tail_by_step = winning_tail + step * i * unit;
        let mut tmp_winning_tail = if tail_by_step < full {
            tail_by_step
        } else {
            tail_by_step - full
        };
        proof {
            // one wrap is enough: the sum stays below twice ten to the pos
            assert(tail_by_step == base + steps * pow10((pos - 1) as nat));
            if tail_by_step < full {
                lemma_small_mod(tail_by_step as nat, full as nat);
            } else {
                lemma_wrap_once(tail_by_step as nat, full as nat);
            }
            assert(tmp_winning_tail == first);
        }
        if self.winning_tails.contains_key(&tmp_winning_tail) {
            tmp_winning_tail = tmp_winning_tail + unit;
            if tmp_winning_tail >= full {
                tmp_winning_tail = tmp_winning_tail - full;
            }
            proof {
                assert(1 * pow10((pos - 1) as nat) == pow10((pos - 1) as nat));
                if first + unit < full {
                    lemma_small_mod((first + unit) as nat, full as nat);
                } else {
                    lemma_wrap_once((first + unit) as nat, full as nat);
                }
                assert(tmp_winning_tail == stepped(first, 1, pos as nat));
            }
        }
        if !self.winning_tails.contains_key(&tmp_winning_tail) && tmp_winning_tail
            <= total_quantity {
            self.count_quantity_deal_with_win_rate(
                pos8,
                tmp_winning_tail,
                target_quantity,
                total_quantity,
                rate_vec,
            );
        }
    }

    /// Places one factor of a rate digit at `pos`: a base tail drawn at
    /// random and, evenly spaced from it, the `factor - 1` companions that
    /// make up the factor. Nothing is placed for a factor of zero. When no
    /// base tail is found the books stay as they were.
    pub(crate) fn get_winning_tail_count_quantity(
        &mut self,
        salt: u32,
        factor: u8,
        pos: u8,
        target_quantity: u128,
        total_quantity: u128,
        rate_vec: &mut Vec<u8>,
    ) -> (r: Result<(), DrawError>)
        requires
            1 <= pos <= old(self).highest() <= MAX_POS,
            old(rate_vec)@.len() == old(self).highest(),
            total_quantity <= MAX_TOTAL,
            target_quantity < total_quantity,
            factor <= 9,
            sound(
                old(self).ledger(old(rate_vec)@),
                pos as nat,
                target_quantity as nat,
                total_quantity as nat,
            ),
        ensures
            final(self).highest() == old(self).highest(),
            final(rate_vec)@.len() == old(rate_vec)@.len(),
            extends(final(self).source().drawn(), old(self).source().drawn()),
            salted(old(self).source().salts(), final(self).source().salts(), salt),
            sound(
                final(self).ledger(final(rate_vec)@),
                pos as nat,
                target_quantity as nat,
                total_quantity as nat,
            ),
            r is Err ==> final(self).ledger(final(rate_vec)@) == old(self).ledger(old(rate_vec)@),
            !(r matches Err(DrawError::InvalidInput)),
            step_settled(
                |h: Seq<u32>|
                    place_drawn(
                        old(self).ledger(old(rate_vec)@),
                        pos as nat,
                        factor as nat,
                        target_quantity as nat,
                        total_quantity as nat,
                        h,
                        old(self).source().drawn().len(),
                    ),
                final(self).source().drawn(),
                final(self).ledger(final(rate_vec)@),
                r,
            ),
    {
        let ghost start = self.random.drawn();
        let ghost opened = self.ledger(rate_vec@);
        if factor == 0 {
            return Ok(());
        }
        let winning_tail = match self.get_valid_winning_tail(salt, pos, total_quantity) {
            Ok(tail) => tail,
            Err(e) => {
                return Err(e);
            },
        };
        let ghost base = winning_tail as nat;
        let ghost after = self.random.drawn();
        proof {
            lemma_free_is_clear(
                self.tails(),
                pos as nat,
                total_quantity as nat,
                base,
                pos as nat,
            );
        }
        self.count_quantity_deal_with_win_rate(
            pos,
            winning_tail,
            target_quantity,
            total_quantity,
            rate_vec,
        );
        let ghost based = self.ledger(rate_vec@);
        proof {
            assert(clear_below(self.tails(), base, pos as nat));
        }
        let step = 10 / factor;
        let mut i: u8 = 1;
        while i < factor
            invariant
                1 <= i,
                1 <= factor <= 9,
                step == 10u8 / factor,
                1 <= pos <= self.highest() <= MAX_POS,
                self.highest() == old(self).highest(),
                rate_vec@.len() == self.highest(),
                total_quantity <= MAX_TOTAL,
                target_quantity < total_quantity,
                winning_tail < pow10(pos as nat),
                base == winning_tail,
                self.random.drawn() == after,
                salted(old(self).source().salts(), self.random.salts(), salt),
                sound(
                    self.ledger(rate_vec@),
                    pos as nat,
                    target_quantity as nat,
                    total_quantity as nat,
                ),
                clear_below(self.tails(), base, pos as nat),
                place_rest(
                    self.ledger(rate_vec@),
                    pos as nat,
                    factor as nat,
                    i as nat,
                    base,
                    target_quantity as nat,
                    total_quantity as nat,
                ) == place_rest(
                    based,
                    pos as nat,
                    factor as nat,
                    1,
                    base,
                    target_quantity as nat,
                    total_quantity as nat,
                ),
            decreases factor - i,
        {
            let multiple: u8 = if factor == 8 && i == 4 {
                8
            } else {
                i
            };
            proof {
                lemma_companion_steps(factor as nat, i as nat);
                assert(step as nat == 10nat / (factor as nat)) by {
                    lemma_companion_steps(factor as nat, i as nat);
                }
                assert((step as u128) * (multiple as u128) == companion_steps(
                    factor as nat,
                    i as nat,
                )) by (nonlinear_arith)
                    requires
                        step as nat == 10nat / (factor as nat),
                        multiple as nat == step_index(factor as nat, i as nat),
                        companion_steps(factor as nat, i as nat) == (10nat / (factor as nat))
                            * step_index(factor as nat, i as nat),
                ;
            }
            self.deal_with_rest_by_step(
                step as u128,
                pos as u32,
                multiple as u128,
                winning_tail,
                target_quantity,
                total_quantity,
                rate_vec,
            );
            i = i + 1;
        }
        proof {
            let closed = self.ledger(rate_vec@);
            assert(closed == place(
                opened,
                pos as nat,
                factor as nat,
                base,
                target_quantity as nat,
                total_quantity as nat,
            ));
            assert forall|h: Seq<u32>| #[trigger] extends(h, after) implies place_drawn(
                opened,
                pos as nat,
                factor as nat,
                target_quantity as nat,
                total_quantity as nat,
                h,
                start.len(),
            ) == Ok::<(Ledger, nat), DrawError>((closed, after.len())) by {
                assert(pick(
                    opened.tails,
                    pos as nat,
                    total_quantity as nat,
                    h,
                    start.len(),
                    RETRY_LIMIT as nat,
                ) == Ok::<(nat, nat), DrawError>((base, after.len())));
            }
        }
        Ok(())
    }
}

/// The companions of a base tail lie at most nine units beyond it.
proof fn lemma_companion_steps(factor: nat, i: nat)
    requires
        1 <= factor <= 9,
        1 <= i < factor,
    ensures
        companion_steps(factor, i) <= 9,
        companion_steps(factor, i) == (10nat / factor) * step_index(factor, i),
{
    if factor == 1 {
    } else if factor == 2 {
        assert(10nat / 2 == 5);
    } else if factor == 3 {
        assert(10nat / 3 == 3);
    } else if factor == 4 {
        assert(10nat / 4 == 2);
    } else if factor == 5 {
        assert(10nat / 5 == 2);
    } else if factor == 6 {
        assert(10nat / 6 == 1);
    } else if factor == 7 {
        assert(10nat / 7 == 1);
    } else if factor == 8 {
        assert(10nat / 8 == 1);
    } else {
        assert(10nat / 9 == 1);
    }
}

/// A number from `m` up to, but not including, `2 * m` wraps to itself less
/// `m`.
proof fn lemma_wrap_once(x: nat, m: nat)
    requires
        0 < m <= x < 2 * m,
    ensures
        x % m == x - m,
{
    lemma_fundamental_div_mod_converse(x as int, m as int, 1, x - m);
}

} // verus!
