use number_theory::euclid::traced_gcd;
use number_theory::math::{get_gcd, get_primes, is_prime, prime_factors, remainder_table, EuclideanRow, TableOp};
use number_theory::primes;
use number_theory::residue::{build_residue_tables, ResidueError};

fn brute_force_prime(n: usize) -> bool {
    n >= 2 && (2..n).all(|d| n % d != 0)
}

fn reference_gcd(a: usize, b: usize) -> usize {
    if b == 0 {
        a
    } else {
        reference_gcd(b, a % b)
    }
}

#[test]
fn test_is_prime() {
    let cases = [(1, false), (2, true), (3, true), (5, true), (7, true), (29, true)];

    for (value, expected) in cases {
        assert_eq!(is_prime(value), expected, "Failed on input ({})", value);
    }
}

#[test]
fn test_get_gcd() {
    let mut rows: Vec<EuclideanRow> = Vec::new();
    let gcd = get_gcd(54, 24, &mut rows);
    assert_eq!(gcd, 6, "Failed on input ({})", gcd);
    for row in rows {
        println!("{} = {} * {} + {}", row.a, row.b, row.quotient, row.remainder);
    }
}

#[test]
fn is_prime_matches_brute_force_up_to_ten_thousand() {
    for n in 0..=10000usize {
        let expected = brute_force_prime(n);
        assert_eq!(is_prime(n), expected, "math::is_prime({})", n);
        assert_eq!(primes::is_prime(n), expected, "primes::is_prime({})", n);
    }
    assert!(!is_prime(0));
    assert!(!is_prime(1));
    assert!(is_prime(2));
    assert!(is_prime(97));
    assert!(!is_prime(100));
}

#[test]
fn is_prime_on_squares_of_primes_and_large_values() {
    assert!(!is_prime(49));
    assert!(!is_prime(10007 * 10007));
    assert!(is_prime(2147483647));
    assert!(!is_prime(4294967297));
}

#[test]
fn traced_gcd_of_54_and_24() {
    let r = traced_gcd(54, 24);
    assert_eq!(r.gcd, 6);
    let expected = vec![
        EuclideanRow { a: 54, b: 24, quotient: 2, remainder: 6 },
        EuclideanRow { a: 24, b: 6, quotient: 4, remainder: 0 },
    ];
    assert_eq!(r.steps, expected);
}

#[test]
fn traced_gcd_with_zero_divisor_takes_no_steps() {
    let r = traced_gcd(17, 0);
    assert_eq!(r.gcd, 17);
    assert!(r.steps.is_empty());
    let r = traced_gcd(0, 0);
    assert_eq!(r.gcd, 0);
    assert!(r.steps.is_empty());
    let r = traced_gcd(0, 5);
    assert_eq!(r.gcd, 5);
    assert_eq!(r.steps, vec![EuclideanRow { a: 0, b: 5, quotient: 0, remainder: 0 }]);
}

#[test]
fn get_gcd_appends_to_existing_rows() {
    let first = EuclideanRow { a: 1, b: 1, quotient: 1, remainder: 0 };
    let mut rows = vec![first];
    let g = get_gcd(21, 13, &mut rows);
    assert_eq!(g, 1);
    assert_eq!(rows[0], first);
    assert_eq!(rows.len(), 1 + 6);
    assert_eq!(rows[1], EuclideanRow { a: 21, b: 13, quotient: 1, remainder: 8 });
}

#[test]
fn traced_gcd_divides_both_and_replays() {
    for a in 0..60usize {
        for b in 0..60usize {
            let r = traced_gcd(a, b);
            assert_eq!(r.gcd, reference_gcd(a, b));
            if r.gcd != 0 {
                assert_eq!(a % r.gcd, 0);
                assert_eq!(b % r.gcd, 0);
            }
            assert_eq!(r.steps.is_empty(), b == 0);
            let (mut x, mut y) = (a, b);
            for step in &r.steps {
                assert_eq!((step.a, step.b), (x, y));
                assert_eq!(step.a, step.b * step.quotient + step.remainder);
                assert!(step.remainder < step.b);
                x = step.b;
                y = step.remainder;
            }
            assert_eq!(y, 0);
            assert_eq!(x, r.gcd);
        }
    }
}

#[test]
fn flat_prime_factors_examples() {
    assert_eq!(prime_factors(0), Vec::<usize>::new());
    assert_eq!(prime_factors(1), Vec::<usize>::new());
    assert_eq!(prime_factors(2), vec![2]);
    assert_eq!(prime_factors(12), vec![2, 2, 3]);
    assert_eq!(prime_factors(360), vec![2, 2, 2, 3, 3, 5]);
    assert_eq!(prime_factors(97), vec![97]);
    assert_eq!(prime_factors(1001), vec![7, 11, 13]);
}

#[test]
fn flat_prime_factors_reconstruct_n() {
    for n in 2..3000usize {
        let f = prime_factors(n);
        assert_eq!(f.iter().product::<usize>(), n);
        assert!(f.iter().all(|&p| is_prime(p)));
        assert!(f.windows(2).all(|w| w[0] <= w[1]));
    }
}

#[test]
fn grouped_prime_factors_examples() {
    assert_eq!(primes::prime_factors(0), vec![]);
    assert_eq!(primes::prime_factors(1), vec![]);
    assert_eq!(primes::prime_factors(360), vec![(2, 3), (3, 2), (5, 1)]);
    assert_eq!(primes::prime_factors(1024), vec![(2, 10)]);
    assert_eq!(primes::prime_factors(9), vec![(3, 2)]);
    assert_eq!(primes::prime_factors(97), vec![(97, 1)]);
    assert_eq!(
        primes::prime_factors(u64::MAX),
        vec![(3, 1), (5, 1), (17, 1), (257, 1), (641, 1), (65537, 1), (6700417, 1)]
    );
    assert_eq!(primes::prime_factors(1u64 << 63), vec![(2, 63)]);
}

#[test]
fn grouped_prime_factors_reconstruct_n() {
    for n in 2..3000u64 {
        let g = primes::prime_factors(n);
        let product: u64 = g.iter().map(|&(p, e)| p.pow(e)).product();
        assert_eq!(product, n);
        assert!(g.iter().all(|&(p, e)| is_prime(p as usize) && e >= 1));
        assert!(g.windows(2).all(|w| w[0].0 < w[1].0));
    }
}

#[test]
fn get_primes_lists_primes_up_to_bound() {
    assert_eq!(get_primes(0), Vec::<usize>::new());
    assert_eq!(get_primes(1), Vec::<usize>::new());
    assert_eq!(get_primes(2), vec![2]);
    assert_eq!(get_primes(5), vec![2, 3, 5]);
    assert_eq!(get_primes(30), vec![2, 3, 5, 7, 11, 13, 17, 19, 23, 29]);
}

#[test]
fn remainder_tables_modulo_five() {
    let add = remainder_table(5, TableOp::Add);
    let mul = remainder_table(5, TableOp::Multiply);
    assert_eq!(add.len(), 6);
    assert_eq!(mul.len(), 6);
    assert!(add.iter().all(|row| row.len() == 6));
    assert!(mul.iter().all(|row| row.len() == 6));
    assert_eq!(add[3][4], 2);
    assert_eq!(mul[3][4], 2);
    assert_eq!(add[5][5], 0);
    assert_eq!(mul[4][4], 1);
    assert_eq!(add[0], vec![0, 1, 2, 3, 4, 0]);
}

#[test]
fn remainder_table_modulo_one_is_all_zero() {
    let t = remainder_table(1, TableOp::Multiply);
    assert_eq!(t, vec![vec![0, 0], vec![0, 0]]);
}

#[test]
fn build_residue_tables_modulo_five() {
    let t = build_residue_tables(5).unwrap();
    assert_eq!(t.modulus, 5);
    assert!(t.modulus_is_prime);
    assert_eq!(t.primes_up_to_modulus, vec![2, 3, 5]);
    assert_eq!(t.addition_table[3][4], 2);
    assert_eq!(t.multiplication_table[3][4], 2);
    assert_eq!(t.addition_table.len(), 6);
    assert_eq!(t.multiplication_table.len(), 6);
    assert!(t.addition_table.iter().all(|r| r.len() == 6));
}

#[test]
fn build_residue_tables_composite_modulus() {
    let t = build_residue_tables(6).unwrap();
    assert!(!t.modulus_is_prime);
    assert_eq!(t.primes_up_to_modulus, vec![2, 3, 5]);
    assert_eq!(t.multiplication_table[2][3], 0);
}

#[test]
fn build_residue_tables_refuses_zero_modulus() {
    assert!(matches!(build_residue_tables(0), Err(ResidueError::ZeroModulus)));
}

#[test]
fn core_functions_are_repeatable() {
    assert_eq!(traced_gcd(987, 610).steps, traced_gcd(987, 610).steps);
    assert_eq!(prime_factors(123456), prime_factors(123456));
    assert_eq!(primes::prime_factors(123456), primes::prime_factors(123456));
    assert_eq!(is_prime(7919), is_prime(7919));
    assert_eq!(get_primes(50), get_primes(50));
    assert_eq!(remainder_table(7, TableOp::Add), remainder_table(7, TableOp::Add));
}
