use vstd::prelude::*;
use crate::error::DrawError;

verus! {

/// The largest exponent whose power of ten fits in a `u128`.
pub const MAX_POS: u8 = 38;

/// Ten to the `n`.
pub open spec fn pow10(n: nat) -> nat
    decreases n,
{
    if n == 0 {
        1
    } else {
        10 * pow10((n - 1) as nat)
    }
}

/// Every power of ten is positive.
pub proof fn lemma_pow10_positive(n: nat)
    ensures
        pow10(n) > 0,
    decreases n,
{
    if n > 0 {
        lemma_pow10_positive((n - 1) as nat);
    }
}

/// Powers of ten grow with the exponent.
pub proof fn lemma_pow10_increases(a: nat, b: nat)
    requires
        a <= b,
    ensures
        pow10(a) <= pow10(b),
        a < b ==> 10 * pow10(a) <= pow10(b),
    decreases b,
{
    lemma_pow10_positive(a);
    if a < b {
        lemma_pow10_increases(a, (b - 1) as nat);
    }
}

/// Exponents add when powers of ten are multiplied.
pub proof fn lemma_pow10_adds(a: nat, b: nat)
    ensures
        pow10(a + b) == pow10(a) * pow10(b),
    decreases a,
{
    if a == 0 {
        assert(pow10(0) == 1);
        assert(pow10(a + b) == pow10(b));
        assert(1 * pow10(b) == pow10(b));
    } else {
        let a1 = (a - 1) as nat;
        lemma_pow10_adds(a1, b);
        assert(pow10(a + b) == 10 * pow10(a1 + b));
        assert(10 * (pow10(a1) * pow10(b)) == (10 * pow10(a1)) * pow10(b)) by (nonlinear_arith);
    }
}

/// The largest power of ten a `u128` can hold.
pub proof fn lemma_pow10_max()
    ensures
        pow10(38) == 100000000000000000000000000000000000000,
        pow10(38) <= u128::MAX,
{
    reveal_with_fuel(pow10, 39);
}

/// Below the largest exponent every power of ten fits in a `u128`.
pub proof fn lemma_pow10_fits(n: nat)
    requires
        n <= 38,
    ensures
        0 < pow10(n) <= 100000000000000000000000000000000000000,
{
    lemma_pow10_max();
    lemma_pow10_increases(n, 38);
    lemma_pow10_positive(n);
}

/// Ten to the `pos`, as a machine integer.
pub fn power_of_ten(pos: u8) -> (r: u128)
    requires
        pos <= MAX_POS,
    ensures
        r == pow10(pos as nat),
{
    let mut r: u128 = 1;
    let mut i: u8 = 0;
    while i < pos
        invariant
            i <= pos <= MAX_POS,
            r == pow10(i as nat),
        decreases pos - i,
    {
        proof {
            lemma_pow10_fits((i + 1) as nat);
        }
        r = r * 10;
        i = i + 1;
    }
    r
}

/// The number of decimal digits of `n`; zero has none.
pub open spec fn decimal_length(n: nat) -> nat
    decreases n,
{
    if n == 0 {
        0
    } else {
        1 + decimal_length(n / 10)
    }
}

/// A positive number of `d` digits lies between ten to the `d - 1` and ten to
/// the `d`.
pub proof fn lemma_decimal_length_bounds(n: nat)
    requires
        n > 0,
    ensures
        decimal_length(n) >= 1,
        pow10((decimal_length(n) - 1) as nat) <= n < pow10(decimal_length(n)),
    decreases n,
{
    if n < 10 {
        assert(n / 10 == 0);
        assert(decimal_length(n / 10) == 0);
        assert(decimal_length(n) == 1);
        assert(pow10(0) == 1);
        assert(pow10(1) == 10 * pow10(0));
    } else {
        let m = n / 10;
        lemma_decimal_length_bounds(m);
        let d = decimal_length(m);
        assert(decimal_length(n) == d + 1);
        assert(pow10(d) == 10 * pow10((d - 1) as nat));
        assert(pow10(d + 1) == 10 * pow10(d));
    }
}

/// Counts the decimal digits of `digit` by dividing by ten until nothing is
/// left. Zero has no digits and is refused.
pub fn get_digits_length(digit: u128) -> (r: Result<u8, DrawError>)
    ensures
        r == Err::<u8, DrawError>(DrawError::InvalidInput) <==> digit == 0,
        r is Err <==> digit == 0,
        r matches Ok(d) ==> {
            &&& d == decimal_length(digit as nat)
            &&& 1 <= d <= 39
            &&& pow10((d - 1) as nat) <= digit < pow10(d as nat)
        },
{
    if digit == 0 {
        return Err(DrawError::InvalidInput);
    }
    let mut rest: u128 = digit;
    let mut length: u8 = 0;
    proof {
        assert(pow10(0) == 1);
        assert(rest * pow10(0) == rest) by (nonlinear_arith)
            requires
                pow10(0) == 1,
        ;
    }
    while rest != 0
        invariant
            length <= 39,
            decimal_length(digit as nat) == length + decimal_length(rest as nat),
            rest > 0 ==> rest * pow10(length as nat) <= digit,
            digit > 0,
        decreases rest,
    {
        proof {
            lemma_pow10_positive(length as nat);
            if length >= 39 {
                lemma_pow10_increases(39, length as nat);
                reveal_with_fuel(pow10, 40);
                assert(pow10(39) > u128::MAX);
                assert(rest * pow10(length as nat) >= pow10(length as nat)) by (nonlinear_arith)
                    requires
                        rest >= 1,
                        pow10(length as nat) > 0,
                ;
            }
            assert(length < 39);
            let q = (rest / 10) as nat;
            assert(pow10((length + 1) as nat) == 10 * pow10(length as nat));
            if q > 0 {
                assert(q * pow10((length + 1) as nat) <= rest * pow10(length as nat))
                    by (nonlinear_arith)
                    requires
                        q * 10 <= rest,
                        pow10((length + 1) as nat) == 10 * pow10(length as nat),
                        pow10(length as nat) > 0,
                ;
            }
        }
        length = length + 1;
        rest = rest / 10;
    }
    proof {
        lemma_decimal_length_bounds(digit as nat);
    }
    Ok(length)
}

} // verus!
