use vstd::prelude::*;
use crate::digits::{decimal_length, pow10};
use crate::error::DrawError;
use crate::ledger::{place, Ledger};
use crate::rate::{flips, rate_digits, working_rate, working_target};
use crate::tail_set::collides;
use crate::tails::factors_of;

verus! {

/// How many values in a row a draw asks of its random source for one tail
/// before it gives the tail up.
pub const RETRY_LIMIT: u32 = 1024;

/// `longer` starts with `record`: it is the same record, or a later state of
/// it.
pub open spec fn extends(longer: Seq<u32>, record: Seq<u32>) -> bool {
    &&& record.len() <= longer.len()
    &&& forall|i: int| 0 <= i < record.len() ==> longer[i] == record[i]
}

/// The record of salts `after` starts with `before`, and every salt added
/// since is `salt`.
pub open spec fn salted(before: Seq<u32>, after: Seq<u32>, salt: u32) -> bool {
    &&& extends(after, before)
    &&& forall|i: int| before.len() <= i < after.len() ==> after[i] == salt
}

/// The tail of `pos` digits that a random value stands for.
pub open spec fn tail_of(rand_num: u32, pos: nat) -> nat {
    (rand_num as nat) % pow10(pos)
}

/// Whether the tail of a random value is acceptable: it lies within the pool
/// and collides with no recorded tail.
pub open spec fn accepts(tails: Map<u128, u8>, rand_num: u32, pos: nat, total: nat) -> bool {
    tail_of(rand_num, pos) <= total && !collides(tails, tail_of(rand_num, pos), pos)
}

/// Looks for a tail of `pos` digits in the values `drawn[at..]`, trying at
/// most `tries` of them: the tail of the first value that is accepted, with
/// the index behind that value. The search is given up after `tries` refused
/// values, and fails where the values end before that.
pub open spec fn pick(
    tails: Map<u128, u8>,
    pos: nat,
    total: nat,
    drawn: Seq<u32>,
    at: nat,
    tries: nat,
) -> Result<(nat, nat), DrawError>
    decreases tries,
{
    if tries == 0 {
        Err(DrawError::ExhaustedCandidateSpace)
    } else if at >= drawn.len() {
        Err(DrawError::RandomUnavailable)
    } else if accepts(tails, drawn[at as int], pos, total) {
        Ok((tail_of(drawn[at as int], pos), at + 1))
    } else {
        pick(tails, pos, total, drawn, at + 1, (tries - 1) as nat)
    }
}

/// A tail that was found was read off a value at or behind `at`, and is
/// acceptable.
pub proof fn lemma_pick_found(
    tails: Map<u128, u8>,
    pos: nat,
    total: nat,
    drawn: Seq<u32>,
    at: nat,
    tries: nat,
)
    ensures
        pick(tails, pos, total, drawn, at, tries) matches Ok((tail, next)) ==> {
            &&& at < next <= drawn.len()
            &&& tail == tail_of(drawn[next - 1], pos)
            &&& accepts(tails, drawn[next - 1], pos, total)
        },
        !(pick(tails, pos, total, drawn, at, tries) matches Err(DrawError::InvalidInput)),
    decreases tries,
{
    if tries > 0 && at < drawn.len() && !accepts(tails, drawn[at as int], pos, total) {
        lemma_pick_found(tails, pos, total, drawn, at + 1, (tries - 1) as nat);
    }
}

/// What `get` says of a search that started at the end of the record
/// `before` and left the record as `after`: a tail that was found, or a search
/// that was given up, is what `pick` computes on every continuation of
/// `after`; a search that the source broke off is what `pick` computes on
/// `after` itself.
pub open spec fn pick_settled(
    tails: Map<u128, u8>,
    pos: nat,
    total: nat,
    before: Seq<u32>,
    after: Seq<u32>,
    get: Result<u128, DrawError>,
) -> bool {
    match get {
        Ok(tail) => forall|h: Seq<u32>| #[trigger]
            extends(h, after) ==> pick(tails, pos, total, h, before.len(), RETRY_LIMIT as nat)
                == Ok::<(nat, nat), DrawError>((tail as nat, after.len())),
        Err(DrawError::RandomUnavailable) => pick(
            tails,
            pos,
            total,
            after,
            before.len(),
            RETRY_LIMIT as nat,
        ) == Err::<(nat, nat), DrawError>(DrawError::RandomUnavailable),
        Err(e) => forall|h: Seq<u32>| #[trigger]
            extends(h, after) ==> pick(tails, pos, total, h, before.len(), RETRY_LIMIT as nat)
                == Err::<(nat, nat), DrawError>(e),
    }
}

/// What `done` says of a step of the draw that left the record as `after`
/// and the books as `out`, where `step` computes the step from a record: a
/// step that was finished, or given up, is what `step` computes on every
/// continuation of `after`; a step that the source broke off is what `step`
/// computes on `after` itself.
pub open spec fn step_settled(
    step: spec_fn(Seq<u32>) -> Result<(Ledger, nat), DrawError>,
    after: Seq<u32>,
    out: Ledger,
    done: Result<(), DrawError>,
) -> bool {
    match done {
        Ok(_) => forall|h: Seq<u32>| #[trigger]
            extends(h, after) ==> step(h) == Ok::<(Ledger, nat), DrawError>((out, after.len())),
        Err(DrawError::RandomUnavailable) => step(after) == Err::<(Ledger, nat), DrawError>(
            DrawError::RandomUnavailable,
        ),
        Err(e) => forall|h: Seq<u32>| #[trigger]
            extends(h, after) ==> step(h) == Err::<(Ledger, nat), DrawError>(e),
    }
}

/// A continuation of a continuation is a continuation.
pub proof fn lemma_extends_transitive(a: Seq<u32>, b: Seq<u32>, c: Seq<u32>)
    requires
        extends(a, b),
        extends(b, c),
    ensures
        extends(a, c),
{
}

/// Places one factor of a rate digit: nothing for a factor of zero, else a
/// freshly picked base tail with its companions.
pub open spec fn place_drawn(
    l: Ledger,
    pos: nat,
    factor: nat,
    target: nat,
    total: nat,
    drawn: Seq<u32>,
    at: nat,
) -> Result<(Ledger, nat), DrawError> {
    if factor == 0 {
        Ok((l, at))
    } else {
        match pick(l.tails, pos, total, drawn, at, RETRY_LIMIT as nat) {
            Ok((base, next)) => Ok((place(l, pos, factor, base, target, total), next)),
            Err(e) => Err(e),
        }
    }
}

/// Serves one position: splits its rate digit into factors and places both.
pub open spec fn serve(
    l: Ledger,
    pos: nat,
    target: nat,
    total: nat,
    drawn: Seq<u32>,
    at: nat,
) -> Result<(Ledger, nat), DrawError> {
    let factors = factors_of(l.digits[pos - 1]);
    match place_drawn(l, pos, factors.0 as nat, target, total, drawn, at) {
        Ok((first, next)) => place_drawn(first, pos, factors.1 as nat, target, total, drawn, next),
        Err(e) => Err(e),
    }
}

/// Serves the positions `pos..=highest`, in order.
pub open spec fn serve_from(
    l: Ledger,
    pos: nat,
    highest: nat,
    target: nat,
    total: nat,
    drawn: Seq<u32>,
    at: nat,
) -> Result<(Ledger, nat), DrawError>
    decreases highest + 1 - pos,
{
    if pos > highest {
        Ok((l, at))
    } else {
        match serve(l, pos, target, total, drawn, at) {
            Ok((served, next)) => serve_from(served, pos + 1, highest, target, total, drawn, next),
            Err(e) => Err(e),
        }
    }
}

/// Records a tail of full length during replenishment, with its block.
pub open spec fn refill(l: Ledger, highest: nat, tail: nat, total: nat) -> Ledger {
    Ledger {
        tails: l.tails.insert(tail as u128, highest as u8),
        matched: l.matched + crate::tails::block_size(highest, tail, total),
        digits: l.digits,
    }
}

/// Closes the shortfall with tails of full length, picked one after another
/// until the running count has reached the target.
pub open spec fn replenish(
    l: Ledger,
    highest: nat,
    target: nat,
    total: nat,
    drawn: Seq<u32>,
    at: nat,
) -> Result<(Ledger, nat), DrawError>
    decreases drawn.len() - at,
{
    if l.matched >= target {
        Ok((l, at))
    } else {
        match pick(l.tails, highest, total, drawn, at, RETRY_LIMIT as nat) {
            Ok((tail, next)) => {
                proof {
                    lemma_pick_found(l.tails, highest, total, drawn, at, RETRY_LIMIT as nat);
                }
                replenish(refill(l, highest, tail, total), highest, target, total, drawn, next)
            },
            Err(e) => Err(e),
        }
    }
}

/// The books at the start of a draw: nothing recorded, and the digits of
/// the working rate.
pub open spec fn opening(target: nat, total: nat) -> Ledger {
    Ledger {
        tails: Map::empty(),
        matched: 0,
        digits: rate_digits(working_rate(target, total), decimal_length(total)),
    }
}

/// The whole draw as a function of its inputs and of the values that the
/// random source hands out from index `at` of its record on: the tails and
/// the direction flag, or the reason why there are none.
pub open spec fn course(target: nat, total: nat, drawn: Seq<u32>, at: nat) -> Result<
    (Map<u128, u8>, bool),
    DrawError,
> {
    if !(0 < target < total) {
        Err(DrawError::InvalidInput)
    } else {
        let highest = decimal_length(total);
        let goal = working_target(target, total);
        match serve_from(opening(target, total), 1, highest, goal, total, drawn, at) {
            Ok((served, next)) => match replenish(served, highest, goal, total, drawn, next) {
                Ok((closed, _)) => Ok((closed.tails, !flips(target, total))),
                Err(e) => Err(e),
            },
            Err(e) => Err(e),
        }
    }
}

/// What `out` says of a draw that started at the end of the record `before`
/// and left the record as `after`: an outcome other than a source run dry is
/// what `course` computes on every continuation of `after`, so that values
/// the source might have handed out later play no part; a source run dry is
/// what `course` computes on `after` itself.
pub open spec fn draw_settled(
    target: nat,
    total: nat,
    before: Seq<u32>,
    after: Seq<u32>,
    out: Result<(Map<u128, u8>, bool), DrawError>,
) -> bool {
    match out {
        Err(DrawError::RandomUnavailable) => course(target, total, after, before.len()) == out,
        _ => forall|h: Seq<u32>| #[trigger]
            extends(h, after) ==> course(target, total, h, before.len()) == out,
    }
}

/// Skipping further into a sequence is skipping the sum.
proof fn lemma_skip_further(s: Seq<u32>, at: nat, more: nat)
    requires
        at + more <= s.len(),
    ensures
        s.skip(at as int).skip(more as int) == s.skip((at + more) as int),
{
    assert(s.skip(at as int).skip(more as int) =~= s.skip((at + more) as int));
}

/// Two steps agree: both fail for the same reason, or both end with the same
/// books after consuming the same number of values.
pub open spec fn same_step(
    x: Result<(Ledger, nat), DrawError>,
    at_x: nat,
    y: Result<(Ledger, nat), DrawError>,
    at_y: nat,
) -> bool {
    match x {
        Ok((l, next)) => at_x <= next && y == Ok::<(Ledger, nat), DrawError>(
            (l, (next - at_x + at_y) as nat),
        ),
        Err(e) => y == Err::<(Ledger, nat), DrawError>(e),
    }
}

/// A search depends on the values from its starting index on, not on where
/// in the record they stand.
pub proof fn lemma_pick_shift(
    tails: Map<u128, u8>,
    pos: nat,
    total: nat,
    a: Seq<u32>,
    at_a: nat,
    b: Seq<u32>,
    at_b: nat,
    tries: nat,
)
    requires
        at_a <= a.len(),
        at_b <= b.len(),
        a.skip(at_a as int) == b.skip(at_b as int),
    ensures
        match pick(tails, pos, total, a, at_a, tries) {
            Ok((tail, next)) => at_a < next <= a.len() && pick(tails, pos, total, b, at_b, tries)
                == Ok::<(nat, nat), DrawError>((tail, (next - at_a + at_b) as nat)),
            Err(e) => pick(tails, pos, total, b, at_b, tries) == Err::<(nat, nat), DrawError>(e),
        },
    decreases tries,
{
    assert(a.skip(at_a as int).len() == a.len() - at_a);
    assert(b.skip(at_b as int).len() == b.len() - at_b);
    if tries > 0 && at_a < a.len() {
        assert(a[at_a as int] == a.skip(at_a as int)[0]);
        assert(b[at_b as int] == b.skip(at_b as int)[0]);
        if !accepts(tails, a[at_a as int], pos, total) {
            lemma_skip_further(a, at_a, 1);
            lemma_skip_further(b, at_b, 1);
            lemma_pick_shift(tails, pos, total, a, at_a + 1, b, at_b + 1, (tries - 1) as nat);
        }
    }
}

/// Placing a factor depends on the values from its starting index on.
pub proof fn lemma_place_drawn_shift(
    l: Ledger,
    pos: nat,
    factor: nat,
    target: nat,
    total: nat,
    a: Seq<u32>,
    at_a: nat,
    b: Seq<u32>,
    at_b: nat,
)
    requires
        at_a <= a.len(),
        at_b <= b.len(),
        a.skip(at_a as int) == b.skip(at_b as int),
    ensures
        same_step(
            place_drawn(l, pos, factor, target, total, a, at_a),
            at_a,
            place_drawn(l, pos, factor, target, total, b, at_b),
            at_b,
        ),
        place_drawn(l, pos, factor, target, total, a, at_a) matches Ok((_, next)) ==> next
            <= a.len(),
{
    lemma_pick_shift(l.tails, pos, total, a, at_a, b, at_b, RETRY_LIMIT as nat);
}

/// Serving a position depends on the values from its starting index on.
pub proof fn lemma_serve_shift(
    l: Ledger,
    pos: nat,
    target: nat,
    total: nat,
    a: Seq<u32>,
    at_a: nat,
    b: Seq<u32>,
    at_b: nat,
)
    requires
        at_a <= a.len(),
        at_b <= b.len(),
        a.skip(at_a as int) == b.skip(at_b as int),
    ensures
        same_step(
            serve(l, pos, target, total, a, at_a),
            at_a,
            serve(l, pos, target, total, b, at_b),
            at_b,
        ),
        serve(l, pos, target, total, a, at_a) matches Ok((_, next)) ==> next <= a.len(),
{
    let factors = factors_of(l.digits[pos - 1]);
    lemma_place_drawn_shift(l, pos, factors.0 as nat, target, total, a, at_a, b, at_b);
    match place_drawn(l, pos, factors.0 as nat, target, total, a, at_a) {
        Ok((first, next)) => {
            let moved = (next - at_a + at_b) as nat;
            lemma_skip_further(a, at_a, (next - at_a) as nat);
            lemma_skip_further(b, at_b, (next - at_a) as nat);
            lemma_place_drawn_shift(first, pos, factors.1 as nat, target, total, a, next, b, moved);
        },
        Err(_) => {},
    }
}

/// Serving the positions depends on the values from the starting index on.
pub proof fn lemma_serve_from_shift(
    l: Ledger,
    pos: nat,
    highest: nat,
    target: nat,
    total: nat,
    a: Seq<u32>,
    at_a: nat,
    b: Seq<u32>,
    at_b: nat,
)
    requires
        at_a <= a.len(),
        at_b <= b.len(),
        a.skip(at_a as int) == b.skip(at_b as int),
    ensures
        same_step(
            serve_from(l, pos, highest, target, total, a, at_a),
            at_a,
            serve_from(l, pos, highest, target, total, b, at_b),
            at_b,
        ),
        serve_from(l, pos, highest, target, total, a, at_a) matches Ok((_, next)) ==> next
            <= a.len(),
    decreases highest + 1 - pos,
{
    if pos <= highest {
        lemma_serve_shift(l, pos, target, total, a, at_a, b, at_b);
        match serve(l, pos, target, total, a, at_a) {
            Ok((served, next)) => {
                let moved = (next - at_a + at_b) as nat;
                lemma_skip_further(a, at_a, (next - at_a) as nat);
                lemma_skip_further(b, at_b, (next - at_a) as nat);
                lemma_serve_from_shift(served, pos + 1, highest, target, total, a, next, b, moved);
            },
            Err(_) => {},
        }
    }
}

/// Replenishment depends on the values from its starting index on.
pub proof fn lemma_replenish_shift(
    l: Ledger,
    highest: nat,
    target: nat,
    total: nat,
    a: Seq<u32>,
    at_a: nat,
    b: Seq<u32>,
    at_b: nat,
)
    requires
        at_a <= a.len(),
        at_b <= b.len(),
        a.skip(at_a as int) == b.skip(at_b as int),
    ensures
        same_step(
            replenish(l, highest, target, total, a, at_a),
            at_a,
            replenish(l, highest, target, total, b, at_b),
            at_b,
        ),
    decreases a.len() - at_a,
{
    if l.matched < target {
        lemma_pick_shift(l.tails, highest, total, a, at_a, b, at_b, RETRY_LIMIT as nat);
        match pick(l.tails, highest, total, a, at_a, RETRY_LIMIT as nat) {
            Ok((tail, next)) => {
                let moved = (next - at_a + at_b) as nat;
                lemma_skip_further(a, at_a, (next - at_a) as nat);
                lemma_skip_further(b, at_b, (next - at_a) as nat);
                lemma_replenish_shift(
                    refill(l, highest, tail, total),
                    highest,
                    target,
                    total,
                    a,
                    next,
                    b,
                    moved,
                );
            },
            Err(_) => {},
        }
    }
}

/// A draw is determined by its inputs and the values that its random source
/// hands out: two draws of the same quantities whose sources hand out the
/// same values, wherever in their records, have the same outcome.
pub proof fn lemma_same_values_same_draw(
    target: nat,
    total: nat,
    a: Seq<u32>,
    at_a: nat,
    b: Seq<u32>,
    at_b: nat,
)
    requires
        at_a <= a.len(),
        at_b <= b.len(),
        a.skip(at_a as int) == b.skip(at_b as int),
    ensures
        course(target, total, a, at_a) == course(target, total, b, at_b),
{
    if 0 < target < total {
        let highest = decimal_length(total);
        let goal = working_target(target, total);
        let l = opening(target, total);
        lemma_serve_from_shift(l, 1, highest, goal, total, a, at_a, b, at_b);
        match serve_from(l, 1, highest, goal, total, a, at_a) {
            Ok((served, next)) => {
                let moved = (next - at_a + at_b) as nat;
                lemma_skip_further(a, at_a, (next - at_a) as nat);
                lemma_skip_further(b, at_b, (next - at_a) as nat);
                lemma_replenish_shift(served, highest, goal, total, a, next, b, moved);
            },
            Err(_) => {},
        }
    }
}

} // verus!
