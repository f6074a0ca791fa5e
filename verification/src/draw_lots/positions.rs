use ink_prelude::vec::Vec;
use vstd::prelude::*;
use crate::course::{
    extends, lemma_extends_transitive, salted, serve, serve_from, step_settled,
};
use crate::digits::MAX_POS;
use crate::draw_lots::{DrawLots, MAX_TOTAL};
use crate::error::DrawError;
use crate::ledger::{sound, Ledger};
use crate::random_number::RandomSource;
use crate::tail_set::lemma_well_formed_longer;
use crate::tails::{get_factors, lemma_factors_sum};

verus! {

impl<R: RandomSource> DrawLots<R> {
    /// Serves one position: splits its rate digit into factors and places
    /// the first, then the second.
    pub(crate) fn serve_position(
        &mut self,
        salt: u32,
        pos: u8,
        target_quantity: u128,
        total_quantity: u128,
        rate_vec: &mut Vec<u8>,
    ) -> (r: Result<(), DrawError>)
        requires
            1 <= pos <= old(self).highest() <= MAX_POS,
            old(rate_vec)@.len() == old(self).highest(),
            total_quantity <= MAX_TOTAL,
            target_quantity < total_quantity,
            sound(
                old(self).ledger(old(rate_vec)@),
                pos as nat,
                target_quantity as nat,
                total_quantity as nat,
            ),
        ensures
            final(self).highest() == old(self).highest(),
            final(rate_vec)@.len() == old(rate_vec)@.len(),
            extends(final(self).source().drawn(), old(self).source().drawn()),
            salted(old(self).source().salts(), final(self).source().salts(), salt),
            sound(
                final(self).ledger(final(rate_vec)@),
                pos as nat,
                target_quantity as nat,
                total_quantity as nat,
            ),
            !(r matches Err(DrawError::InvalidInput)),
            step_settled(
                |h: Seq<u32>|
                    serve(
                        old(self).ledger(old(rate_vec)@),
                        pos as nat,
                        target_quantity as nat,
                        total_quantity as nat,
                        h,
                        old(self).source().drawn().len(),
                    ),
                final(self).source().drawn(),
                final(self).ledger(final(rate_vec)@),
                r,
            ),
    {
        let ghost seen = self.random.drawn();
        let ghost books = self.ledger(rate_vec@);
        let ghost goal = target_quantity as nat;
        let ghost total = total_quantity as nat;
        let factors = get_factors(rate_vec[(pos - 1) as usize]);
        proof {
            lemma_factors_sum(rate_vec@[pos - 1]);
        }
        match self.get_winning_tail_count_quantity(
            salt,
            factors[0],
            pos,
            target_quantity,
            total_quantity,
            rate_vec,
        ) {
            Ok(_) => {},
            Err(e) => {
                return Err(e);
            },
        }
        let ghost middle = self.random.drawn();
        let ghost halfway = self.ledger(rate_vec@);
        match self.get_winning_tail_count_quantity(
            salt,
            factors[1],
            pos,
            target_quantity,
            total_quantity,
            rate_vec,
        ) {
            Ok(_) => {},
            Err(e) => {
                proof {
                    let grown = self.random.drawn();
                    lemma_extends_transitive(grown, middle, seen);
                    assert(extends(grown, grown));
                    assert forall|h: Seq<u32>| #[trigger]
                        extends(h, grown) && e != DrawError::RandomUnavailable implies serve(
                        books,
                        pos as nat,
                        goal,
                        total,
                        h,
                        seen.len(),
                    ) == Err::<(Ledger, nat), DrawError>(e) by {
                        lemma_extends_transitive(h, grown, middle);
                    }
                }
                return Err(e);
            },
        }
        proof {
            let grown = self.random.drawn();
            lemma_extends_transitive(grown, middle, seen);
            assert forall|h: Seq<u32>| #[trigger] extends(h, grown) implies serve(
                books,
                pos as nat,
                goal,
                total,
                h,
                seen.len(),
            ) == Ok::<(Ledger, nat), DrawError>((self.ledger(rate_vec@), grown.len())) by {
                lemma_extends_transitive(h, grown, middle);
            }
        }
        Ok(())
    }

    /// Serves the positions one to the highest, in order: at each the rate
    /// digit is split into its factors and both are placed. The first
    /// failure ends the run.
    pub(crate) fn serve_positions(
        &mut self,
        salt: u32,
        target_quantity: u128,
        total_quantity: u128,
        rate_vec: &mut Vec<u8>,
    ) -> (r: Result<(), DrawError>)
        requires
            1 <= old(self).highest() <= MAX_POS,
            old(rate_vec)@.len() == old(self).highest(),
            total_quantity <= MAX_TOTAL,
            target_quantity < total_quantity,
            sound(
                old(self).ledger(old(rate_vec)@),
                0,
                target_quantity as nat,
                total_quantity as nat,
            ),
        ensures
            final(self).highest() == old(self).highest(),
            final(rate_vec)@.len() == old(rate_vec)@.len(),
            extends(final(self).source().drawn(), old(self).source().drawn()),
            salted(old(self).source().salts(), final(self).source().salts(), salt),
            sound(
                final(self).ledger(final(rate_vec)@),
                old(self).highest(),
                target_quantity as nat,
                total_quantity as nat,
            ),
            !(r matches Err(DrawError::InvalidInput)),
            step_settled(
                |h: Seq<u32>|
                    serve_from(
                        old(self).ledger(old(rate_vec)@),
                        1,
                        old(self).highest(),
                        target_quantity as nat,
                        total_quantity as nat,
                        h,
                        old(self).source().drawn().len(),
                    ),
                final(self).source().drawn(),
                final(self).ledger(final(rate_vec)@),
                r,
            ),
    {
        let ghost start = self.random.drawn();
        let ghost opened = self.ledger(rate_vec@);
        let ghost goal = target_quantity as nat;
        let ghost total = total_quantity as nat;
        let highest = self.highest_pos;
        proof {
            assert(extends(start, start));
        }
        let mut pos: u8 = 1;
        while pos <= highest
            invariant
                1 <= pos <= highest + 1,
                1 <= highest <= MAX_POS,
                highest == self.highest(),
                highest == old(self).highest(),
                rate_vec@.len() == highest,
                total == total_quantity,
                goal == target_quantity,
                total_quantity <= MAX_TOTAL,
                target_quantity < total_quantity,
                start == old(self).source().drawn(),
                opened == old(self).ledger(old(rate_vec)@),
                old(rate_vec)@.len() == highest,
                sound(self.ledger(rate_vec@), (pos - 1) as nat, goal, total),
                extends(self.random.drawn(), start),
                salted(old(self).source().salts(), self.random.salts(), salt),
                forall|h: Seq<u32>| #[trigger]
                    extends(h, self.random.drawn()) ==> serve_from(
                        opened,
                        1,
                        highest as nat,
                        goal,
                        total,
                        h,
                        start.len(),
                    ) == serve_from(
                        self.ledger(rate_vec@),
                        pos as nat,
                        highest as nat,
                        goal,
                        total,
                        h,
                        self.random.drawn().len(),
                    ),
            decreases highest + 1 - pos,
        {
            let ghost seen = self.random.drawn();
            let ghost books = self.ledger(rate_vec@);
            proof {
                lemma_well_formed_longer(books.tails, (pos - 1) as nat, pos as nat, total);
            }
            match self.serve_position(salt, pos, target_quantity, total_quantity, rate_vec) {
                Ok(_) => {},
                Err(e) => {
                    proof {
                        let grown = self.random.drawn();
                        lemma_extends_transitive(grown, seen, start);
                        assert(extends(grown, grown));
                        assert forall|h: Seq<u32>| #[trigger]
                            extends(h, grown) && e != DrawError::RandomUnavailable implies serve_from(
                            opened,
                            1,
                            highest as nat,
                            goal,
                            total,
                            h,
                            start.len(),
                        ) == Err::<(Ledger, nat), DrawError>(e) by {
                            lemma_extends_transitive(h, grown, seen);
                        }
                        lemma_well_formed_longer(
                            self.tails(),
                            pos as nat,
                            highest as nat,
                            total,
                        );
                    }
                    return Err(e);
                },
            }
            proof {
                let grown = self.random.drawn();
                lemma_extends_transitive(grown, seen, start);
                assert forall|h: Seq<u32>| #[trigger] extends(h, grown) implies serve_from(
                    opened,
                    1,
                    highest as nat,
                    goal,
                    total,
                    h,
                    start.len(),
                ) == serve_from(
                    self.ledger(rate_vec@),
                    (pos + 1) as nat,
                    highest as nat,
                    goal,
                    total,
                    h,
                    grown.len(),
                ) by {
                    lemma_extends_transitive(h, grown, seen);
                }
            }
            pos = pos + 1;
        }
        Ok(())
    }
}

} // verus!
