use vstd::prelude::*;
use vstd::arithmetic::div_mod::{lemma_mod_mod, lemma_mod_multiples_vanish, lemma_small_mod};
use crate::digits::{lemma_pow10_adds, lemma_pow10_positive, pow10};
use crate::tails::{block_count, ends_in, hit, matched_count};

verus! {

/// No tail of the set is a decimal suffix of another one: cut down to the
/// length of a shorter tail (or one of equal length), a tail never equals it.
pub open spec fn suffix_free(tails: Map<u128, u8>) -> bool {
    forall|a: u128, b: u128|
        #![trigger tails.contains_key(a), tails.contains_key(b)]
        tails.contains_key(a) && tails.contains_key(b) && a != b && tails[a] <= tails[b] ==> (
        b as nat) % pow10(tails[a] as nat) != a
}

/// Each tail has between one and `max_len` digits, is written with no more
/// digits than its length, and does not exceed the size of the pool.
pub open spec fn tails_in_range(tails: Map<u128, u8>, max_len: nat, total: nat) -> bool {
    forall|v: u128| #[trigger]
        tails.contains_key(v) ==> 1 <= tails[v] <= max_len && v < pow10(tails[v] as nat) && v
            <= total
}

/// The invariant of a set of tails under construction.
pub open spec fn well_formed(tails: Map<u128, u8>, max_len: nat, total: nat) -> bool {
    &&& tails_in_range(tails, max_len, total)
    &&& suffix_free(tails)
}

/// Some suffix of `tail`, of one to `pos` digits, is the value of a tail of
/// the set. This is the test a freshly drawn tail has to pass; it looks at
/// values only, so it may refuse a tail that would have been harmless.
pub open spec fn collides(tails: Map<u128, u8>, tail: nat, pos: nat) -> bool {
    exists|n: nat| 1 <= n <= pos && #[trigger] tails.contains_key((tail % pow10(n)) as u128)
}

/// No strictly shorter tail of the set is a suffix of `tail`.
pub open spec fn clear_below(tails: Map<u128, u8>, tail: nat, pos: nat) -> bool {
    forall|v: u128| #[trigger]
        tails.contains_key(v) && tails[v] < pos ==> tail % pow10(tails[v] as nat) != v
}

/// Cutting a number to `long` digits and then to `short` digits is cutting it
/// to `short` digits.
pub proof fn lemma_suffix_of_suffix(x: nat, short: nat, long: nat)
    requires
        short <= long,
    ensures
        (x % pow10(long)) % pow10(short) == x % pow10(short),
{
    let rest = (long - short) as nat;
    lemma_pow10_positive(short);
    lemma_pow10_positive(rest);
    lemma_pow10_adds(short, rest);
    assert(pow10(long) == pow10(short) * pow10(rest));
    lemma_mod_mod(x as int, pow10(short) as int, pow10(rest) as int);
}

/// The serials matched by two different tails of a well-formed set are
/// disjoint.
pub proof fn lemma_tails_disjoint(tails: Map<u128, u8>, a: u128, b: u128, serial: nat)
    requires
        suffix_free(tails),
        tails.contains_key(a),
        tails.contains_key(b),
        a != b,
    ensures
        !(ends_in(serial, a as nat, tails[a] as nat) && ends_in(serial, b as nat, tails[b] as nat)),
{
    let la = tails[a] as nat;
    let lb = tails[b] as nat;
    if ends_in(serial, a as nat, la) && ends_in(serial, b as nat, lb) {
        if la <= lb {
            lemma_suffix_of_suffix(serial, la, lb);
            assert((b as nat) % pow10(la) == a);
        } else {
            lemma_suffix_of_suffix(serial, lb, la);
            assert((a as nat) % pow10(lb) == b);
        }
    }
}

/// A tail that passes the collision test is new to the set and has no
/// shorter tail of the set as a suffix.
pub proof fn lemma_free_is_clear(tails: Map<u128, u8>, max_len: nat, total: nat, tail: nat, pos: nat)
    requires
        tails_in_range(tails, max_len, total),
        max_len <= pos,
        tail < pow10(pos),
        tail <= u128::MAX,
        pos >= 1,
        !collides(tails, tail, pos),
    ensures
        clear_below(tails, tail, pos),
        !tails.contains_key(tail as u128),
{
    lemma_small_mod(tail, pow10(pos));
    assert(!tails.contains_key((tail % pow10(pos)) as u128));
    assert forall|v: u128| #[trigger] tails.contains_key(v) && tails[v] < pos implies tail % pow10(
        tails[v] as nat,
    ) != v by {
        let n = tails[v] as nat;
        lemma_pow10_positive(n);
        if tail % pow10(n) == v {
            assert(tails.contains_key((tail % pow10(n)) as u128));
        }
    }
}

/// Two tails that agree in their last `pos - 1` digits have the same shorter
/// suffixes, so one is clear of the shorter tails when the other is.
pub proof fn lemma_clear_below_shifted(
    tails: Map<u128, u8>,
    tail: nat,
    other: nat,
    pos: nat,
)
    requires
        pos >= 1,
        clear_below(tails, tail, pos),
        tail % pow10((pos - 1) as nat) == other % pow10((pos - 1) as nat),
    ensures
        clear_below(tails, other, pos),
{
    assert forall|v: u128| #[trigger] tails.contains_key(v) && tails[v] < pos implies other
        % pow10(tails[v] as nat) != v by {
        let n = tails[v] as nat;
        lemma_suffix_of_suffix(tail, n, (pos - 1) as nat);
        lemma_suffix_of_suffix(other, n, (pos - 1) as nat);
    }
}

/// Adding whole steps of `10^(pos - 1)` and wrapping at `10^pos` leaves the
/// last `pos - 1` digits as they were.
pub proof fn lemma_step_keeps_suffix(tail: nat, steps: nat, pos: nat)
    requires
        pos >= 1,
    ensures
        ((tail + steps * pow10((pos - 1) as nat)) % pow10(pos)) % pow10((pos - 1) as nat) == tail
            % pow10((pos - 1) as nat),
{
    let unit = pow10((pos - 1) as nat);
    lemma_pow10_positive((pos - 1) as nat);
    lemma_suffix_of_suffix(tail + steps * unit, (pos - 1) as nat, pos);
    assert(tail + steps * unit == unit * steps + tail) by (nonlinear_arith);
    lemma_mod_multiples_vanish(steps as int, tail as int, unit as int);
}

/// Recording a tail that is new and clear of the shorter ones keeps the set
/// well formed.
pub proof fn lemma_insert_well_formed(
    tails: Map<u128, u8>,
    total: nat,
    tail: u128,
    pos: u8,
)
    requires
        well_formed(tails, pos as nat, total),
        pos >= 1,
        tail < pow10(pos as nat),
        tail <= total,
        !tails.contains_key(tail),
        clear_below(tails, tail as nat, pos as nat),
    ensures
        well_formed(tails.insert(tail, pos), pos as nat, total),
{
    let after = tails.insert(tail, pos);
    assert forall|a: u128, b: u128|
        #![trigger after.contains_key(a), after.contains_key(b)]
        after.contains_key(a) && after.contains_key(b) && a != b && after[a] <= after[b] implies (
    b as nat) % pow10(after[a] as nat) != a by {
        if a == tail {
            // b is an old tail of the same length, and is written in full.
            assert(tails.contains_key(b));
            assert(tails[b] == pos);
            lemma_small_mod(b as nat, pow10(pos as nat));
        } else if b == tail {
            assert(tails.contains_key(a));
            if tails[a] < pos {
            } else {
                lemma_small_mod(tail as nat, pow10(pos as nat));
            }
        } else {
            assert(tails.contains_key(a) && tails.contains_key(b));
        }
    }
    assert forall|v: u128| #[trigger] after.contains_key(v) implies 1 <= after[v] <= pos && v
        < pow10(after[v] as nat) && v <= total by {
        if v != tail {
            assert(tails.contains_key(v));
        }
    }
}

/// A serial that ends in a new, clear tail is matched by no tail of the set.
pub proof fn lemma_new_tail_disjoint(
    tails: Map<u128, u8>,
    total: nat,
    tail: u128,
    pos: u8,
    serial: nat,
)
    requires
        well_formed(tails, pos as nat, total),
        !tails.contains_key(tail),
        clear_below(tails, tail as nat, pos as nat),
        ends_in(serial, tail as nat, pos as nat),
    ensures
        !hit(tails, serial),
{
    if hit(tails, serial) {
        let v = choose|v: u128| #[trigger]
            tails.contains_key(v) && ends_in(serial, v as nat, tails[v] as nat);
        let n = tails[v] as nat;
        if n < pos {
            lemma_suffix_of_suffix(serial, n, pos as nat);
            assert((tail as nat) % pow10(n) == v);
        } else {
            assert(n == pos);
            assert(v == tail);
        }
    }
}

/// Recording a new, clear tail adds exactly its block to the matched serials.
pub proof fn lemma_insert_adds_block(
    tails: Map<u128, u8>,
    total: nat,
    tail: u128,
    pos: u8,
    n: nat,
)
    requires
        well_formed(tails, pos as nat, total),
        !tails.contains_key(tail),
        clear_below(tails, tail as nat, pos as nat),
    ensures
        matched_count(tails.insert(tail, pos), n) == matched_count(tails, n) + block_count(
            tail as nat,
            pos as nat,
            n,
        ),
    decreases n,
{
    if n > 0 {
        lemma_insert_adds_block(tails, total, tail, pos, (n - 1) as nat);
        let after = tails.insert(tail, pos);
        if ends_in(n, tail as nat, pos as nat) {
            lemma_new_tail_disjoint(tails, total, tail, pos, n);
            assert(after.contains_key(tail));
            assert(hit(after, n));
        } else if hit(tails, n) {
            let v = choose|v: u128| #[trigger]
                tails.contains_key(v) && ends_in(n, v as nat, tails[v] as nat);
            assert(after.contains_key(v) && after[v] == tails[v]);
            assert(hit(after, n));
        } else {
            if hit(after, n) {
                let v = choose|v: u128| #[trigger]
                    after.contains_key(v) && ends_in(n, v as nat, after[v] as nat);
                assert(v != tail);
                assert(tails.contains_key(v));
                assert(false);
            }
        }
    }
}

/// The empty set matches nothing.
pub proof fn lemma_empty_matches_nothing(n: nat)
    ensures
        matched_count(Map::<u128, u8>::empty(), n) == 0,
        well_formed(Map::<u128, u8>::empty(), 0, n),
    decreases n,
{
    if n > 0 {
        lemma_empty_matches_nothing((n - 1) as nat);
    }
    assert(forall|m: nat| well_formed(Map::<u128, u8>::empty(), 0, m));
}

/// A set that is well formed up to some length stays so for any longer one.
pub proof fn lemma_well_formed_longer(tails: Map<u128, u8>, max_len: nat, longer: nat, total: nat)
    requires
        well_formed(tails, max_len, total),
        max_len <= longer,
    ensures
        well_formed(tails, longer, total),
{
}

} // verus!
