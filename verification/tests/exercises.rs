use algo_exercises::{calc_digit, has_no_odd_digit, intersect_arrays, sum_even_fib, BigNat};

#[test]
fn test_sum_event_fib() {
    assert_eq!(sum_even_fib(1).to_decimal(), "2");
    assert_eq!(sum_even_fib(2).to_decimal(), "10");
    assert_eq!(sum_even_fib(3).to_decimal(), "44");
    assert_eq!(sum_even_fib(4).to_decimal(), "188");
    assert_eq!(sum_even_fib(5).to_decimal(), "798");
    assert_eq!(sum_even_fib(6).to_decimal(), "3382");
    assert_eq!(sum_even_fib(7).to_decimal(), "14328");
}

#[test]
fn test_intersect_arrays() {
    let a1 = [1, 1, 1, 2, 3, 3, 3, 4, 4, 5, 5, 5];
    let a2 = [2, 2, 2, 3, 3, 4, 4, 6, 6, 6, 6, 7, 7, 7, 7, 7];
    let expected = [2, 3, 4];
    let actual = intersect_arrays(&a1, &a2);
    assert_eq!(&actual[..], &expected[..]);

    let a1 = [];
    let a2 = [2, 2, 2, 3, 3, 4, 4, 6, 6, 6, 6, 7, 7, 7, 7, 7];
    let expected: [i32; 0] = [];
    let actual = intersect_arrays(&a1, &a2);
    assert_eq!(&actual[..], &expected[..]);

    let a1 = [1, 1, 1, 1];
    let a2 = [1, 1, 1, 1];
    let expected = [1];
    let actual = intersect_arrays(&a1, &a2);
    assert_eq!(&actual[..], &expected[..]);

    let a1 = [];
    let a2 = [];
    let expected: [i32; 0] = [];
    let actual = intersect_arrays(&a1, &a2);
    assert_eq!(&actual[..], &expected[..]);
}

#[test]
fn test_has_no_odd_digit() {
    assert_eq!(has_no_odd_digit(0), true);
    assert_eq!(has_no_odd_digit(1), false);
    assert_eq!(has_no_odd_digit(2), true);
    assert_eq!(has_no_odd_digit(10), false);
    assert_eq!(has_no_odd_digit(20), true);
}

#[test]
fn test_calc_digit() {
    assert_eq!(calc_digit(3), 3702);
    assert_eq!(calc_digit(0), 0);
    assert_eq!(calc_digit(1), 1 + 11 + 111 + 1111);
    assert_eq!(calc_digit(5), 5 + 55 + 555 + 5555);
    assert_eq!(calc_digit(9), 9 + 99 + 999 + 9999);
}

#[test]
fn test_sum_even_fib_zero() {
    assert_eq!(sum_even_fib(0).to_decimal(), "0");
}

#[test]
fn test_sum_even_fib_hundred() {
    assert_eq!(
        sum_even_fib(100).to_decimal(),
        "290905784918002003245752779317049533129517076702883498623284700"
    );
}

/// The first even-valued Fibonacci numbers, found by walking the plain
/// sequence 1, 1, 2, 3, 5, ... and keeping the even values.
fn naive_even_fib_terms(count: usize) -> Vec<u64> {
    let mut terms = Vec::new();
    let mut a: u64 = 1;
    let mut b: u64 = 1;
    while terms.len() < count {
        let c = a + b;
        a = b;
        b = c;
        if c % 2 == 0 {
            terms.push(c);
        }
    }
    terms
}

#[test]
fn test_sum_matches_naive_even_terms() {
    let terms = naive_even_fib_terms(12);
    let mut expected: u64 = 0;
    for (k, t) in terms.iter().enumerate() {
        expected += t;
        let got: u64 = sum_even_fib((k + 1) as u32).to_decimal().parse().unwrap();
        assert_eq!(got, expected);
    }
}

#[test]
fn test_sum_increment_is_next_even_term() {
    let terms = naive_even_fib_terms(12);
    for n in 0..12 {
        let s_n: u64 = sum_even_fib(n as u32).to_decimal().parse().unwrap();
        let s_n1: u64 = sum_even_fib((n + 1) as u32).to_decimal().parse().unwrap();
        assert_eq!(s_n1 - s_n, terms[n]);
    }
}

#[test]
fn test_even_term_recurrence() {
    // Each even term comes from the previous even term and its Fibonacci
    // predecessor: term(k+1) == 3*term(k) + 2*fib(3k+1).
    let terms = naive_even_fib_terms(10);
    let mut fibs: Vec<u64> = vec![1, 1];
    for i in 2..32 {
        let next = fibs[i - 1] + fibs[i - 2];
        fibs.push(next);
    }
    for k in 0..9 {
        assert_eq!(terms[k], fibs[3 * k + 2]);
        assert_eq!(terms[k + 1], 3 * terms[k] + 2 * fibs[3 * k + 1]);
    }
}

#[test]
fn test_sum_monotonic() {
    let mut sums: Vec<u64> = Vec::new();
    for n in 0..=12u32 {
        sums.push(sum_even_fib(n).to_decimal().parse().unwrap());
    }
    for a in 0..=12usize {
        for b in a..=12usize {
            assert!(sums[a] <= sums[b]);
        }
    }
}

#[test]
fn test_bignat_from_u64_and_to_decimal() {
    assert_eq!(BigNat::from_u64(0).to_decimal(), "0");
    assert_eq!(BigNat::from_u64(7).to_decimal(), "7");
    assert_eq!(BigNat::from_u64(12345).to_decimal(), "12345");
    assert_eq!(
        BigNat::from_u64(u64::MAX).to_decimal(),
        "18446744073709551615"
    );
}

#[test]
fn test_bignat_add_carries_across_limbs() {
    let one = BigNat::from_u64(1);
    let max = BigNat::from_u64(u64::MAX);
    assert_eq!(max.add(&one).to_decimal(), "18446744073709551616");
    assert_eq!(max.add(&max).to_decimal(), "36893488147419103230");
    let mut big = BigNat::from_u64(u64::MAX);
    big = big.add(&big); // 2^65 - 2
    big = big.add(&big); // 2^66 - 4
    assert_eq!(big.to_decimal(), "73786976294838206460");
}

#[test]
fn test_intersect_with_negatives() {
    let a1 = [-3, -1, -1, 0, 2];
    let a2 = [-1, 0, 3];
    let expected = [-1, 0];
    let actual = intersect_arrays(&a1, &a2);
    assert_eq!(&actual[..], &expected[..]);
}

#[test]
fn test_has_no_odd_digit_more() {
    assert_eq!(has_no_odd_digit(2048), true);
    assert_eq!(has_no_odd_digit(86421), false);
    assert_eq!(has_no_odd_digit(680), true);
    assert_eq!(has_no_odd_digit(999), false);
}
