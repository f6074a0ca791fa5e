use ink_prelude::collections::BTreeMap;
use vstd::prelude::*;
use crate::course::{course, draw_settled, extends, lemma_extends_transitive, opening, salted};
use crate::digits::{
    decimal_length, get_digits_length, lemma_pow10_fits, lemma_pow10_increases, lemma_pow10_max,
    pow10, power_of_ten, MAX_POS,
};
use crate::error::DrawError;
use crate::ledger::Ledger;
use crate::random_number::RandomSource;
use crate::rate::{flips, get_rate_digits, get_win_rate, working_rate, working_target};
use crate::tail_set::{lemma_empty_matches_nothing, well_formed};
use crate::tails::matched_count;
use crate::winners::{lemma_winner_count, winner_count};

mod accountant;
mod generator;
mod placement;
mod positions;
mod replenishment;

verus! {

/// The largest pool a draw accepts: ten times the pool still fits in a
/// `u128`, which the long division of the win rate needs.
pub const MAX_TOTAL: u128 = 34028236692093846346337460743176821145;

/// Draws winning tails: a set of decimal suffixes that together match a
/// wanted number of the serials `1..=total`.
pub struct DrawLots<R: RandomSource> {
    /// Where the random values come from.
    random: R,
    /// The number of digits of the pool of the current draw.
    highest_pos: u8,
    /// How many serials the recorded tails match.
    total_win_quantity: u128,
    /// The recorded tails, each with its length.
    winning_tails: BTreeMap<u128, u8>,
}

impl<R: RandomSource> DrawLots<R> {
    /// The random source.
    pub closed spec fn source(&self) -> R {
        self.random
    }

    /// The tails recorded by the draw in progress or, after it, by the last
    /// draw.
    pub closed spec fn tails(&self) -> Map<u128, u8> {
        self.winning_tails@
    }

    /// The running count of matched serials.
    pub closed spec fn matched(&self) -> nat {
        self.total_win_quantity as nat
    }

    /// The number of digits of the pool of the draw in progress.
    pub closed spec fn highest(&self) -> nat {
        self.highest_pos as nat
    }

    /// The books of the draw in progress, with the rate digits that the
    /// caller holds.
    pub open spec fn ledger(&self, digits: Seq<u8>) -> Ledger {
        Ledger { tails: self.tails(), matched: self.matched(), digits }
    }

    /// A drawer on the given random source, with nothing recorded.
    pub fn new(random: R) -> (drawer: Self)
        ensures
            drawer.source() == random,
            drawer.tails() == Map::<u128, u8>::empty(),
            drawer.matched() == 0,
            drawer.highest() == 0,
    {
        DrawLots { random, highest_pos: 0, total_win_quantity: 0, winning_tails: BTreeMap::new() }
    }

    /// The random source, as the draws have left it.
    pub fn random(&self) -> (random: &R)
        ensures
            *random == self.source(),
    {
        &self.random
    }

    /// Forgets the last draw.
    pub(crate) fn reset_data(&mut self)
        ensures
            final(self).source() == old(self).source(),
            final(self).tails() == Map::<u128, u8>::empty(),
            final(self).matched() == 0,
            final(self).highest() == 0,
    {
        self.highest_pos = 0;
        self.total_win_quantity = 0;
        self.winning_tails = BTreeMap::new();
    }

    /// Records a tail with its length.
    pub(crate) fn storage_winning_info(&mut self, tail: u128, pos: u8)
        ensures
            final(self).source() == old(self).source(),
            final(self).tails() == old(self).tails().insert(tail, pos),
            final(self).matched() == old(self).matched(),
            final(self).highest() == old(self).highest(),
    {
        self.winning_tails.insert(tail, pos);
    }

    /// Draws the tails that select `target_quantity` winners among the
    /// serials `1..=total_quantity`.
    ///
    /// The result is the set of tails with their lengths, and the direction
    /// flag: with the flag set a serial wins when a tail matches it, without
    /// it a serial wins when none does. Above a win rate of one half the
    /// tails name the losers, which keeps the set small.
    ///
    /// The draw is refused as `InvalidInput` unless the wanted quantity lies
    /// strictly between zero and the size of the pool. It fails when a tail
    /// cannot be found within the retry limit or the random source runs dry;
    /// nothing of a failed draw stays recorded.
    pub fn draw_lots(
        &mut self,
        salt: u32,
        target_quantity: u128,
        total_quantity: u128,
    ) -> (r: Result<(BTreeMap<u128, u8>, bool), DrawError>)
        requires
            total_quantity <= MAX_TOTAL,
        ensures
            (r matches Err(DrawError::InvalidInput)) <==> !(0 < target_quantity < total_quantity),
            extends(final(self).source().drawn(), old(self).source().drawn()),
            salted(old(self).source().salts(), final(self).source().salts(), salt),
            draw_settled(
                target_quantity as nat,
                total_quantity as nat,
                old(self).source().drawn(),
                final(self).source().drawn(),
                outcome(r),
            ),
            r matches Ok((tails, flag)) ==> {
                &&& flag == !flips(target_quantity as nat, total_quantity as nat)
                &&& well_formed(
                    tails@,
                    decimal_length(total_quantity as nat),
                    total_quantity as nat,
                )
                &&& matched_count(tails@, total_quantity as nat) == working_target(
                    target_quantity as nat,
                    total_quantity as nat,
                )
                &&& winner_count(tails@, flag, total_quantity as nat) == target_quantity
                &&& final(self).tails() == tails@
                &&& final(self).matched() == working_target(
                    target_quantity as nat,
                    total_quantity as nat,
                )
                &&& final(self).highest() == decimal_length(total_quantity as nat)
            },
            r is Err ==> {
                &&& final(self).tails() == Map::<u128, u8>::empty()
                &&& final(self).matched() == 0
                &&& final(self).highest() == 0
            },
    {
        self.reset_data();
        let ghost start = self.random.drawn();
        proof {
            assert(extends(start, start));
        }
        if !(target_quantity > 0 && target_quantity < total_quantity) {
            return Err(DrawError::InvalidInput);
        }
        let ghost total = total_quantity as nat;
        let highest = match get_digits_length(total_quantity) {
            Ok(length) => length,
            Err(e) => {
                return Err(e);
            },
        };
        proof {
            lemma_pow10_max();
            if highest > MAX_POS {
                lemma_pow10_increases(38, (highest - 1) as nat);
            }
            lemma_pow10_fits(highest as nat);
            lemma_pow10_fits((highest - 1) as nat);
            assert(pow10(highest as nat) == 10 * pow10((highest - 1) as nat));
        }
        self.highest_pos = highest;
        let mut flag = true;
        let mut target = target_quantity;
        let mut win_rate = get_win_rate(target_quantity, total_quantity, highest);
        let half = 5 * power_of_ten(highest - 1);
        if win_rate > half {
            win_rate = power_of_ten(highest) - win_rate;
            target = total_quantity - target_quantity;
            flag = false;
        }
        let mut rate_vec = get_rate_digits(win_rate, highest);
        let ghost goal = target as nat;
        let ghost opened = self.ledger(rate_vec@);
        proof {
            assert(flag == !flips(target_quantity as nat, total));
            assert(goal == working_target(target_quantity as nat, total));
            assert(win_rate == working_rate(target_quantity as nat, total));
            assert(opened == opening(target_quantity as nat, total));
            lemma_empty_matches_nothing(total);
        }
        match self.serve_positions(salt, target, total_quantity, &mut rate_vec) {
            Ok(_) => {},
            Err(e) => {
                proof {
                    let grown = self.random.drawn();
                    assert(extends(grown, grown));
                    assert forall|h: Seq<u32>| #[trigger]
                        extends(h, grown) && e != DrawError::RandomUnavailable implies course(
                        target_quantity as nat,
                        total,
                        h,
                        start.len(),
                    ) == Err::<(Map<u128, u8>, bool), DrawError>(e) by {}
                }
                self.reset_data();
                return Err(e);
            },
        }
        let ghost served = self.ledger(rate_vec@);
        let ghost middle = self.random.drawn();
        if self.total_win_quantity < target {
            let lack_quantity = target - self.total_win_quantity;
            match self.replenish_with_highest_pos_tail(
                salt,
                lack_quantity,
                total_quantity,
                Ghost(rate_vec@),
            ) {
                Ok(_) => {},
                Err(e) => {
                    proof {
                        let grown = self.random.drawn();
                        lemma_extends_transitive(grown, middle, start);
                        assert(extends(grown, grown));
                        assert forall|h: Seq<u32>| #[trigger]
                            extends(h, grown) && e != DrawError::RandomUnavailable implies course(
                            target_quantity as nat,
                            total,
                            h,
                            start.len(),
                        ) == Err::<(Map<u128, u8>, bool), DrawError>(e) by {
                            lemma_extends_transitive(h, grown, middle);
                        }
                    }
                    self.reset_data();
                    return Err(e);
                },
            }
        }
        proof {
            let grown = self.random.drawn();
            lemma_extends_transitive(grown, middle, start);
            lemma_winner_count(self.tails(), flag, total);
            assert forall|h: Seq<u32>| #[trigger] extends(h, grown) implies course(
                target_quantity as nat,
                total,
                h,
                start.len(),
            ) == Ok::<(Map<u128, u8>, bool), DrawError>((self.tails(), flag)) by {
                lemma_extends_transitive(h, grown, middle);
            }
        }
        Ok((self.winning_tails.clone(), flag))
    }
}

/// The outcome of a draw with the set of tails taken as the map that it holds.
pub open spec fn outcome(r: Result<(BTreeMap<u128, u8>, bool), DrawError>) -> Result<
    (Map<u128, u8>, bool),
    DrawError,
> {
    match r {
        Ok((tails, flag)) => Ok((tails@, flag)),
        Err(e) => Err(e),
    }
}

} // verus!
