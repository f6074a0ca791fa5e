use vstd::prelude::*;
use vstd::arithmetic::div_mod::{lemma_basic_div, lemma_small_mod};
use crate::course::{
    extends, lemma_extends_transitive, lemma_pick_found, pick, refill, replenish, salted,
    step_settled, RETRY_LIMIT,
};
use crate::digits::{lemma_pow10_positive, pow10, MAX_POS};
use crate::draw_lots::{DrawLots, MAX_TOTAL};
use crate::error::DrawError;
use crate::ledger::{sound, Ledger};
use crate::random_number::RandomSource;
use crate::tail_set::{lemma_free_is_clear, lemma_insert_adds_block, lemma_insert_well_formed};
use crate::tails::get_quantity_per_tail;

verus! {

impl<R: RandomSource> DrawLots<R> {
    /// Closes a shortfall of `lack_quantity` serials with tails of full
    /// length. Such a tail matches the one serial that it spells, so each
    /// adds one to the running count; only the tail zero, which no serial
    /// spells, adds nothing. `digits` are the rate digits of the books; they
    /// stay as they are.
    pub(crate) fn replenish_with_highest_pos_tail(
        &mut self,
        salt: u32,
        lack_quantity: u128,
        total_quantity: u128,
        Ghost(digits): Ghost<Seq<u8>>,
    ) -> (r: Result<(), DrawError>)
        requires
            1 <= old(self).highest() <= MAX_POS,
            total_quantity <= MAX_TOTAL,
            total_quantity < pow10(old(self).highest()),
            old(self).matched() + lack_quantity < total_quantity,
            sound(
                old(self).ledger(digits),
                old(self).highest(),
                (old(self).matched() + lack_quantity) as nat,
                total_quantity as nat,
            ),
        ensures
            final(self).highest() == old(self).highest(),
            extends(final(self).source().drawn(), old(self).source().drawn()),
            salted(old(self).source().salts(), final(self).source().salts(), salt),
            sound(
                final(self).ledger(digits),
                old(self).highest(),
                (old(self).matched() + lack_quantity) as nat,
                total_quantity as nat,
            ),
            r is Ok ==> final(self).matched() == (old(self).matched() + lack_quantity) as nat,
            !(r matches Err(DrawError::InvalidInput)),
            step_settled(
                |h: Seq<u32>|
                    replenish(
                        old(self).ledger(digits),
                        old(self).highest(),
                        (old(self).matched() + lack_quantity) as nat,
                        total_quantity as nat,
                        h,
                        old(self).source().drawn().len(),
                    ),
                final(self).source().drawn(),
                final(self).ledger(digits),
                r,
            ),
    {
        let ghost start = self.random.drawn();
        let ghost opened = self.ledger(digits);
        let ghost highest = self.highest();
        let ghost target: nat = (self.matched() + lack_quantity) as nat;
        let ghost total = total_quantity as nat;
        let mut lack = lack_quantity;
        while lack > 0
            invariant
                1 <= highest <= MAX_POS,
                highest == self.highest(),
                highest == old(self).highest(),
                total == total_quantity,
                total_quantity <= MAX_TOTAL,
                total < pow10(highest),
                target < total,
                target == (old(self).matched() + lack_quantity) as nat,
                self.matched() + lack == target,
                start == old(self).source().drawn(),
                opened == old(self).ledger(digits),
                sound(self.ledger(digits), highest, target, total),
                extends(self.random.drawn(), start),
                salted(old(self).source().salts(), self.random.salts(), salt),
                forall|h: Seq<u32>| #[trigger]
                    extends(h, self.random.drawn()) ==> replenish(
                        opened,
                        highest,
                        target,
                        total,
                        h,
                        start.len(),
                    ) == replenish(
                        self.ledger(digits),
                        highest,
                        target,
                        total,
                        h,
                        self.random.drawn().len(),
                    ),
            decreases lack, (if self.tails().contains_key(0) { 0int } else { 1int }),
        {
            let ghost seen = self.random.drawn();
            let ghost books = self.ledger(digits);
            let highest_pos = self.highest_pos;
            let winning_tail = match self.get_valid_winning_tail(
                salt,
                highest_pos,
                total_quantity,
            ) {
                Ok(tail) => tail,
                Err(e) => {
                    proof {
                        let grown = self.random.drawn();
                        lemma_extends_transitive(grown, seen, start);
                        lemma_pick_found(
                            books.tails,
                            highest,
                            total,
                            grown,
                            seen.len(),
                            RETRY_LIMIT as nat,
                        );
                        assert(extends(grown, grown));
                        assert forall|h: Seq<u32>| #[trigger]
                            extends(h, grown) && e != DrawError::RandomUnavailable implies replenish(
                            opened,
                            highest,
                            target,
                            total,
                            h,
                            start.len(),
                        ) == Err::<(Ledger, nat), DrawError>(e) by {
                            lemma_extends_transitive(h, grown, seen);
                        }
                    }
                    return Err(e);
                },
            };
            let ghost grown = self.random.drawn();
            let ghost tail = winning_tail as nat;
            proof {
                lemma_free_is_clear(self.tails(), highest, total, tail, highest);
                lemma_insert_well_formed(self.tails(), total, winning_tail, highest_pos);
                lemma_insert_adds_block(self.tails(), total, winning_tail, highest_pos, total);
                lemma_pow10_positive(highest);
                lemma_small_mod(total, pow10(highest));
                lemma_basic_div(total as int, pow10(highest) as int);
                assert(pow10(1) == 10 * pow10(0) && pow10(0) == 1);
                lemma_small_mod(0, pow10(1));
                if tail == 0 {
                    assert(!self.tails().contains_key((tail % pow10(1)) as u128));
                }
            }
            let quantity_per_tail = get_quantity_per_tail(
                highest_pos,
                winning_tail,
                total_quantity,
            );
            self.total_win_quantity = self.total_win_quantity + quantity_per_tail;
            self.storage_winning_info(winning_tail, highest_pos);
            lack = lack - quantity_per_tail;
            proof {
                assert(self.ledger(digits) == refill(books, highest, tail, total));
                lemma_extends_transitive(grown, seen, start);
                assert forall|h: Seq<u32>| #[trigger] extends(h, grown) implies replenish(
                    opened,
                    highest,
                    target,
                    total,
                    h,
                    start.len(),
                ) == replenish(self.ledger(digits), highest, target, total, h, grown.len()) by {
                    lemma_extends_transitive(h, grown, seen);
                    assert(pick(books.tails, highest, total, h, seen.len(), RETRY_LIMIT as nat)
                        == Ok::<(nat, nat), DrawError>((tail, grown.len())));
                }
            }
        }
        Ok(())
    }
}

} // verus!
