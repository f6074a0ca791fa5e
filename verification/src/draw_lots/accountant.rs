use ink_prelude::vec::Vec;
use vstd::prelude::*;
use crate::digits::{pow10, MAX_POS};
use crate::draw_lots::{DrawLots, MAX_TOTAL};
use crate::ledger::{account, lemma_account_sound, rolled_back, sound};
use crate::random_number::RandomSource;
use crate::tail_set::clear_below;
use crate::tails::get_quantity_per_tail;

verus! {

impl<R: RandomSource> DrawLots<R> {
    /// Accounts for one tail at `pos`: adds its block to the running count
    /// and records the tail, or, where the count would pass the target,
    /// leaves both as they were and rolls the rate digits back.
    pub(crate) fn count_quantity_deal_with_win_rate(
        &mut self,
        pos: u8,
        winning_tail: u128,
        target_quantity: u128,
        total_quantity: u128,
        rate_vec: &mut Vec<u8>,
    )
        requires
            1 <= pos <= old(self).highest() <= MAX_POS,
            old(rate_vec)@.len() == old(self).highest(),
            total_quantity <= MAX_TOTAL,
            target_quantity < total_quantity,
            sound(
                old(self).ledger(old(rate_vec)@),
                pos as nat,
                target_quantity as nat,
                total_quantity as nat,
            ),
            winning_tail < pow10(pos as nat),
            winning_tail <= total_quantity,
            !old(self).tails().contains_key(winning_tail),
            clear_below(old(self).tails(), winning_tail as nat, pos as nat),
        ensures
            final(self).source() == old(self).source(),
            final(self).highest() == old(self).highest(),
            final(self).ledger(final(rate_vec)@) == account(
                old(self).ledger(old(rate_vec)@),
                pos as nat,
                winning_tail as nat,
                target_quantity as nat,
                total_quantity as nat,
            ),
            sound(
                final(self).ledger(final(rate_vec)@),
                pos as nat,
                target_quantity as nat,
                total_quantity as nat,
            ),
            final(rate_vec)@.len() == old(rate_vec)@.len(),
    {
        proof {
            lemma_account_sound(
                self.ledger(rate_vec@),
                pos as nat,
                winning_tail as nat,
                target_quantity as nat,
                total_quantity as nat,
            );
        }
        let quantity_per_tail = get_quantity_per_tail(pos, winning_tail, total_quantity);
        if self.total_win_quantity + quantity_per_tail > target_quantity {
            if pos != self.highest_pos {
                let ghost before = rate_vec@;
                let at = (pos - 1) as usize;
                let digit = rate_vec[at];
                if digit > 0 {
                    rate_vec.set(at, digit - 1);
                } else {
                    rate_vec.set(at, 0);
                }
                let mut i: usize = pos as usize;
                while i < self.highest_pos as usize
                    invariant
                        pos <= i <= self.highest_pos,
                        rate_vec@.len() == self.highest_pos,
                        rate_vec@.len() == before.len(),
                        forall|j: int|
                            0 <= j < i ==> rate_vec@[j] == rolled_back(before, pos as nat)[j],
                        forall|j: int| i <= j < rate_vec@.len() ==> rate_vec@[j] == before[j],
                    decreases self.highest_pos - i,
                {
                    rate_vec.set(i, 9);
                    i = i + 1;
                }
                assert(rate_vec@ =~= rolled_back(before, pos as nat));
            }
        } else {
            self.total_win_quantity = self.total_win_quantity + quantity_per_tail;
            self.storage_winning_info(winning_tail, pos);
        }
    }
}

} // verus!
