use vstd::prelude::*;
use vstd::arithmetic::div_mod::lemma_mod_pos_bound;
use crate::course::{accepts, extends, pick, pick_settled, salted, tail_of, RETRY_LIMIT};
use crate::digits::{lemma_pow10_positive, pow10, power_of_ten, MAX_POS};
use crate::draw_lots::DrawLots;
use crate::error::DrawError;
use crate::random_number::RandomSource;
use crate::tail_set::collides;

verus! {

impl<R: RandomSource> DrawLots<R> {
    /// Whether some suffix of the tail, of one to `pos` digits, is the value
    /// of a recorded tail.
    pub(crate) fn collides_with(&self, winning_tail: u128, pos: u8) -> (found: bool)
        requires
            pos <= MAX_POS,
        ensures
            found == collides(self.tails(), winning_tail as nat, pos as nat),
    {
        let mut n: u8 = 1;
        while n <= pos
            invariant
                1 <= n <= pos + 1,
                pos <= MAX_POS,
                forall|m: nat|
                    1 <= m < n ==> !#[trigger] self.tails().contains_key(
                        ((winning_tail as nat) % pow10(m)) as u128,
                    ),
            decreases pos + 1 - n,
        {
            let unit = power_of_ten(n);
            proof {
                lemma_pow10_positive(n as nat);
            }
            let tmp_tail = winning_tail % unit;
            if self.winning_tails.contains_key(&tmp_tail) {
                assert(self.tails().contains_key(((winning_tail as nat) % pow10(n as nat)) as u128));
                return true;
            }
            n = n + 1;
        }
        false
    }

    /// The tail of `pos` digits that a random value stands for, if it lies
    /// within the pool and collides with no recorded tail.
    pub(crate) fn check_winning_tail(
        &self,
        rand_num: u32,
        pos: u8,
        total_quantity: u128,
    ) -> (r: Option<u128>)
        requires
            1 <= pos <= MAX_POS,
        ensures
            r is Some <==> accepts(self.tails(), rand_num, pos as nat, total_quantity as nat),
            r matches Some(tail) ==> tail == tail_of(rand_num, pos as nat),
    {
        let unit = power_of_ten(pos);
        proof {
            lemma_pow10_positive(pos as nat);
        }
        let winning_tail = rand_num as u128 % unit;
        if winning_tail > total_quantity {
            return None;
        }
        if self.collides_with(winning_tail, pos) {
            return None;
        }
        Some(winning_tail)
    }

    /// Draws random values until one of them stands for an acceptable tail
    /// of `pos` digits. The search is given up after `RETRY_LIMIT` refused
    /// values, and fails when the source has no value to give.
    pub(crate) fn get_valid_winning_tail(
        &mut self,
        salt: u32,
        pos: u8,
        total_quantity: u128,
    ) -> (r: Result<u128, DrawError>)
        requires
            1 <= pos <= MAX_POS,
        ensures
            final(self).tails() == old(self).tails(),
            final(self).matched() == old(self).matched(),
            final(self).highest() == old(self).highest(),
            extends(final(self).source().drawn(), old(self).source().drawn()),
            salted(old(self).source().salts(), final(self).source().salts(), salt),
            pick_settled(
                old(self).tails(),
                pos as nat,
                total_quantity as nat,
                old(self).source().drawn(),
                final(self).source().drawn(),
                r,
            ),
            r matches Ok(tail) ==> {
                &&& tail < pow10(pos as nat)
                &&& tail <= total_quantity
                &&& !collides(old(self).tails(), tail as nat, pos as nat)
            },
            !(r matches Err(DrawError::InvalidInput)),
    {
        let ghost start = self.random.drawn();
        let ghost tails = self.tails();
        let mut tries: u32 = 0;
        while tries < RETRY_LIMIT
            invariant
                1 <= pos <= MAX_POS,
                tries <= RETRY_LIMIT,
                self.tails() == tails,
                self.matched() == old(self).matched(),
                self.highest() == old(self).highest(),
                extends(self.random.drawn(), start),
                salted(old(self).source().salts(), self.random.salts(), salt),
                start == old(self).source().drawn(),
                tails == old(self).tails(),
                forall|h: Seq<u32>| #[trigger]
                    extends(h, self.random.drawn()) ==> pick(
                        tails,
                        pos as nat,
                        total_quantity as nat,
                        h,
                        start.len(),
                        RETRY_LIMIT as nat,
                    ) == pick(
                        tails,
                        pos as nat,
                        total_quantity as nat,
                        h,
                        self.random.drawn().len(),
                        (RETRY_LIMIT - tries) as nat,
                    ),
            decreases RETRY_LIMIT - tries,
        {
            let ghost seen = self.random.drawn();
            match self.random.next(salt) {
                None => {
                    assert(extends(seen, seen));
                    return Err(DrawError::RandomUnavailable);
                },
                Some(rand_num) => {
                    let ghost grown = self.random.drawn();
                    assert(grown == seen.push(rand_num));
                    assert forall|h: Seq<u32>| #[trigger] extends(h, grown) implies extends(
                        h,
                        seen,
                    ) && h[seen.len() as int] == rand_num by {
                        assert(h[seen.len() as int] == grown[seen.len() as int]);
                    }
                    match self.check_winning_tail(rand_num, pos, total_quantity) {
                        Some(winning_tail) => {
                            proof {
                                lemma_pow10_positive(pos as nat);
                                lemma_mod_pos_bound(rand_num as int, pow10(pos as nat) as int);
                            }
                            return Ok(winning_tail);
                        },
                        None => {
                            tries = tries + 1;
                        },
                    }
                },
            }
        }
        Err(DrawError::ExhaustedCandidateSpace)
    }
}

} // verus!
