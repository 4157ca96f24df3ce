use vstd::prelude::*;

verus! {

/// Whether every decimal digit of `n` is even. The one digit of a one-digit
/// number (zero included) is the number itself.
pub open spec fn all_digits_even(n: nat) -> bool
    decreases n,
{
    if n < 10 {
        n % 2 == 0
    } else {
        (n % 10) % 2 == 0 && all_digits_even(n / 10)
    }
}

/// Whether no decimal digit of `value` is odd, found by peeling digits off
/// the low end.
pub fn has_no_odd_digit(value: u32) -> (r: bool)
    ensures
        r == all_digits_even(value as nat),
{
    let mut n: u32 = value;
    while n >= 10
        invariant
            all_digits_even(n as nat) == all_digits_even(value as nat),
        decreases n,
    {
        if (n % 10) % 2 != 0 {
            return false;
        }
        n = n / 10;
    }
    n % 2 == 0
}

/// The value of x + xx + xxx + xxxx for a decimal digit x, where xx, xxx and
/// xxxx are the numbers written with two, three and four copies of that digit.
/// Since xx == 11*x, xxx == 111*x and xxxx == 1111*x, the total is 1234*x.
pub fn calc_digit(x: u32) -> (r: u32)
    requires
        x <= 9,
    ensures
        r == 1234 * x,
{
    1234 * x
}

} // verus!
