mod bignat;
mod digits;
mod fib;
mod intersect;

pub use bignat::BigNat;
pub use digits::calc_digit;
pub use digits::has_no_odd_digit;
pub use fib::sum_even_fib;
pub use intersect::intersect_arrays;
