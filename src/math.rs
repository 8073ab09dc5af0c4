//! Euclidean steps, primality, trial-division factorization and residue tables.
use vstd::prelude::*;
use crate::arith::{
    lemma_increasing_same_members, lemma_least_divisor_is_prime, lemma_past_square_root, lemma_prime_by_small_divisors,
    lemma_product_push, lemma_quotient_divides, lemma_quotient_keeps_no_small_divisor, product,
    spec_is_prime,
};
use crate::euclid::{spec_gcd, spec_trace};
use crate::factorization::lemma_factorization_unique;

verus! {

/// One division step of the Euclidean algorithm: `a = b * quotient + remainder`.
#[derive(Clone, Copy, Debug, PartialEq, Eq, Structural)]
pub struct EuclideanRow {
    pub a: usize,
    pub b: usize,
    pub quotient: usize,
    pub remainder: usize,
}

/// Runs the Euclidean algorithm on `(a, b)`, appends each division step to `rows`
/// and returns the gcd.
pub fn get_gcd(a0: usize, b0: usize, rows: &mut Vec<EuclideanRow>) -> (r: usize)
    ensures
        r == spec_gcd(a0 as nat, b0 as nat),
        final(rows)@ == old(rows)@ + spec_trace(a0, b0),
{
    let mut a = a0;
    let mut b = b0;
    while b != 0
        invariant
            spec_gcd(a as nat, b as nat) == spec_gcd(a0 as nat, b0 as nat),
            rows@ + spec_trace(a, b) == old(rows)@ + spec_trace(a0, b0),
        decreases b,
    {
        let quotient = a / b;
        let remainder = a % b;
        let ghost before = rows@;
        rows.push(EuclideanRow { a, b, quotient, remainder });
        proof {
            let row = EuclideanRow { a, b, quotient, remainder };
            assert(spec_trace(a, b) == seq![row] + spec_trace(b, remainder));
            assert(before + spec_trace(a, b) == rows@ + spec_trace(b, remainder));
        }
        a = b;
        b = remainder;
    }
    proof {
        assert(rows@ + spec_trace(a, b) == rows@);
    }
    a
}

/// Whether `num` is prime, by trial division with every `i` from 2 while `i * i <= num`.
pub fn is_prime(num: usize) -> (r: bool)
    ensures
        r == spec_is_prime(num as nat),
{
    if num <= 1 {
        return false;
    }
    let mut i: usize = 2;
    while i <= num / i
        invariant
            2 <= i,
            num >= 2,
            forall|d: nat| 2 <= d < i ==> #[trigger] ((num as nat) % d) != 0,
        decreases num - i,
    {
        proof {
            vstd::arithmetic::div_mod::lemma_fundamental_div_mod(num as int, i as int);
            let q = num / i;
            assert(i < num) by (nonlinear_arith)
                requires
                    num == i * q + num % i,
                    num % i >= 0,
                    i <= q,
                    i >= 2,
            ;
        }
        if num % i == 0 {
            assert((num as nat) % (i as nat) == 0);
            return false;
        }
        i += 1;
    }
    proof {
        lemma_past_square_root(num as nat, i as nat);
        lemma_prime_by_small_divisors(num as nat, i as nat);
    }
    true
}

/// Product of a list of factors.
pub open spec fn factor_product(s: Seq<usize>) -> nat {
    product(s.map_values(|x: usize| x as nat))
}

/// `f` lists primes in ascending order, with repetition, whose product is `n`.
pub open spec fn is_prime_factor_list(f: Seq<usize>, n: nat) -> bool {
    &&& factor_product(f) == n
    &&& forall|k: int| 0 <= k < f.len() ==> spec_is_prime(#[trigger] f[k] as nat)
    &&& forall|k1: int, k2: int| 0 <= k1 <= k2 < f.len() ==> #[trigger] f[k1] <= #[trigger] f[k2]
}

/// The factor list of `n` is determined by `n`: two ascending lists of primes
/// whose product is `n` are the same list.
pub proof fn lemma_prime_factors_unique(n: nat, f1: Seq<usize>, f2: Seq<usize>)
    requires
        is_prime_factor_list(f1, n),
        is_prime_factor_list(f2, n),
    ensures
        f1 == f2,
{
    let m1 = f1.map_values(|x: usize| x as nat);
    let m2 = f2.map_values(|x: usize| x as nat);
    assert forall|k: int| 0 <= k < m1.len() implies spec_is_prime(#[trigger] m1[k]) by {
        assert(spec_is_prime(f1[k] as nat));
    }
    assert forall|k: int| 0 <= k < m2.len() implies spec_is_prime(#[trigger] m2[k]) by {
        assert(spec_is_prime(f2[k] as nat));
    }
    assert forall|k1: int, k2: int| 0 <= k1 <= k2 < m1.len() implies #[trigger] m1[k1] <= #[trigger] m1[k2] by {
        assert(f1[k1] <= f1[k2]);
    }
    assert forall|k1: int, k2: int| 0 <= k1 <= k2 < m2.len() implies #[trigger] m2[k1] <= #[trigger] m2[k2] by {
        assert(f2[k1] <= f2[k2]);
    }
    lemma_factorization_unique(m1, m2);
    assert forall|k: int| 0 <= k < f1.len() implies #[trigger] f1[k] == f2[k] by {
        assert(m1[k] == m2[k]);
    }
    assert(f1 =~= f2);
}

/// The prime factors of `n0` in ascending order, each repeated as often as it
/// divides `n0`: their product is `n0`. Below 2 the list is empty.
pub fn prime_factors(n0: usize) -> (factors: Vec<usize>)
    ensures
        n0 < 2 ==> factors@.len() == 0,
        n0 >= 2 ==> is_prime_factor_list(factors@, n0 as nat),
{
    let mut factors: Vec<usize> = Vec::new();
    if n0 < 2 {
        return factors;
    }
    let mut n = n0;
    let mut divisor: usize = 2;
    proof {
        assert(factors@.map_values(|x: usize| x as nat) =~= Seq::<nat>::empty());
        assert(product(Seq::<nat>::empty()) == 1);
        assert(factor_product(factors@) == 1);
    }
    while divisor <= n / divisor
        invariant
            2 <= divisor <= n0,
            1 <= n <= n0,
            factor_product(factors@) * n == n0,
            forall|k: int| 0 <= k < factors@.len() ==> spec_is_prime(#[trigger] factors@[k] as nat),
            forall|k: int| 0 <= k < factors@.len() ==> #[trigger] factors@[k] < divisor,
            forall|k1: int, k2: int| 0 <= k1 <= k2 < factors@.len() ==> #[trigger] factors@[k1] <= #[trigger] factors@[k2],
            forall|d: nat| 2 <= d < divisor ==> #[trigger] ((n as nat) % d) != 0,
        decreases n0 - divisor,
    {
        proof {
            vstd::arithmetic::div_mod::lemma_fundamental_div_mod(n as int, divisor as int);
            let q = n / divisor;
            assert(divisor < n) by (nonlinear_arith)
                requires
                    n == divisor * q + n % divisor,
                    n % divisor >= 0,
                    divisor <= q,
                    divisor >= 2,
            ;
        }
        while n % divisor == 0
            invariant
                2 <= divisor < n0,
                1 <= n <= n0,
                factor_product(factors@) * n == n0,
                forall|k: int| 0 <= k < factors@.len() ==> spec_is_prime(#[trigger] factors@[k] as nat),
                forall|k: int| 0 <= k < factors@.len() ==> #[trigger] factors@[k] <= divisor,
                forall|k1: int, k2: int| 0 <= k1 <= k2 < factors@.len() ==> #[trigger] factors@[k1] <= #[trigger] factors@[k2],
                forall|d: nat| 2 <= d < divisor ==> #[trigger] ((n as nat) % d) != 0,
            decreases n,
        {
            proof {
                lemma_least_divisor_is_prime(n as nat, divisor as nat);
                lemma_quotient_divides(n as nat, divisor as nat);
                lemma_quotient_keeps_no_small_divisor(n as nat, divisor as nat, divisor as nat);
                vstd::arithmetic::div_mod::lemma_fundamental_div_mod(n as int, divisor as int);
                let ghost s0 = factors@.map_values(|x: usize| x as nat);
                lemma_product_push(s0, divisor as nat);
                assert(factors@.push(divisor).map_values(|x: usize| x as nat) =~= s0.push(divisor as nat));
                let q = n / divisor;
                let p0 = factor_product(factors@);
                assert((p0 * divisor) * q == n0) by (nonlinear_arith)
                    requires
                        p0 * n == n0,
                        n == divisor * q,
                ;
                assert(q >= 1);
            }
            factors.push(divisor);
            n = n / divisor;
        }
        divisor += 1;
    }
    proof {
        lemma_past_square_root(n as nat, divisor as nat);
    }
    if n > 1 {
        proof {
            lemma_prime_by_small_divisors(n as nat, divisor as nat);
            if n < divisor {
                vstd::arithmetic::div_mod::lemma_mod_self_0(n as int);
                assert((n as nat) % (n as nat) == 0);
            }
            let ghost s0 = factors@.map_values(|x: usize| x as nat);
            lemma_product_push(s0, n as nat);
            assert(factors@.push(n).map_values(|x: usize| x as nat) =~= s0.push(n as nat));
        }
        factors.push(n);
    } else {
        assert(factor_product(factors@) * 1 == factor_product(factors@));
    }
    factors
}

/// The primes up to and including `m`, ascending, each once.
pub open spec fn lists_primes_up_to(primes: Seq<usize>, m: nat) -> bool {
    &&& forall|k: int| 0 <= k < primes.len() ==> spec_is_prime(#[trigger] primes[k] as nat) && primes[k] <= m
    &&& forall|k1: int, k2: int| 0 <= k1 < k2 < primes.len() ==> #[trigger] primes[k1] < #[trigger] primes[k2]
    &&& forall|p: nat| p <= m && spec_is_prime(p) ==> #[trigger] primes.contains(p as usize)
}

/// The list of primes up to `m` is determined by `m`.
pub proof fn lemma_prime_list_unique(m: nat, s1: Seq<usize>, s2: Seq<usize>)
    requires
        lists_primes_up_to(s1, m),
        lists_primes_up_to(s2, m),
    ensures
        s1 == s2,
{
    assert forall|x: usize| #[trigger] s1.contains(x) <==> s2.contains(x) by {
        if s1.contains(x) {
            let k = choose|k: int| 0 <= k < s1.len() && s1[k] == x;
            assert(spec_is_prime(s1[k] as nat));
            assert(s2.contains((x as nat) as usize));
        }
        if s2.contains(x) {
            let k = choose|k: int| 0 <= k < s2.len() && s2[k] == x;
            assert(spec_is_prime(s2[k] as nat));
            assert(s1.contains((x as nat) as usize));
        }
    }
    lemma_increasing_same_members(s1, s2);
}

/// Every prime from 0 up to and including `moduli`, ascending.
pub fn get_primes(moduli: usize) -> (primes: Vec<usize>)
    ensures
        lists_primes_up_to(primes@, moduli as nat),
{
    let mut primes: Vec<usize> = Vec::new();
    let mut number: usize = 0;
    loop
        invariant_except_break
            number <= moduli,
            forall|k: int| 0 <= k < primes@.len() ==> spec_is_prime(#[trigger] primes@[k] as nat) && primes@[k] < number,
            forall|k1: int, k2: int| 0 <= k1 < k2 < primes@.len() ==> #[trigger] primes@[k1] < #[trigger] primes@[k2],
            forall|p: nat| p < number && spec_is_prime(p) ==> #[trigger] primes@.contains(p as usize),
        ensures
            lists_primes_up_to(primes@, moduli as nat),
        decreases moduli - number,
    {
        let ghost before = primes@;
        if is_prime(number) {
            primes.push(number);
        }
        proof {
            assert forall|p: nat| p <= number && spec_is_prime(p) implies #[trigger] primes@.contains(p as usize) by {
                if p < number {
                    assert(before.contains(p as usize));
                    let k = choose|k: int| 0 <= k < before.len() && before[k] == p as usize;
                    assert(primes@[k] == p as usize);
                } else {
                    assert(primes@[primes@.len() - 1] == p as usize);
                }
            }
        }
        if number == moduli {
            break;
        }
        number += 1;
    }
    primes
}

/// The two operations a residue table can show.
#[derive(Clone, Copy, Debug, PartialEq, Eq, Structural)]
pub enum TableOp {
    Add,
    Multiply,
}

/// The operation applied to two naturals.
pub open spec fn apply_op(op: TableOp, r: nat, c: nat) -> nat {
    match op {
        TableOp::Add => r + c,
        TableOp::Multiply => r * c,
    }
}

/// `data` is the `(m + 1) x (m + 1)` table of `op(r, c) mod m` for `r, c` in `0..=m`.
pub open spec fn is_residue_table(data: Seq<Vec<usize>>, m: nat, op: TableOp) -> bool {
    &&& data.len() == m + 1
    &&& forall|r: int| 0 <= r <= m ==> #[trigger] data[r]@.len() == m + 1
    &&& forall|r: int, c: int|
        0 <= r <= m && 0 <= c <= m ==> #[trigger] data[r]@[c] == apply_op(op, r as nat, c as nat) % m
}

/// `op(row, col) mod moduli`, the result always in `0..moduli`.
fn residue(row: usize, col: usize, moduli: usize, op: TableOp) -> (v: usize)
    requires
        moduli >= 1,
    ensures
        v == apply_op(op, row as nat, col as nat) % (moduli as nat),
{
    let r = row as u128;
    let c = col as u128;
    proof {
        assert(r <= u64::MAX && c <= u64::MAX);
        assert(r * c <= u64::MAX * u64::MAX) by (nonlinear_arith)
            requires
                r <= u64::MAX,
                c <= u64::MAX,
        ;
    }
    let value = match op {
        TableOp::Add => r + c,
        TableOp::Multiply => r * c,
    };
    (value % (moduli as u128)) as usize
}

/// The table of `op(row, col) mod moduli` for `row` and `col` in `0..=moduli`.
pub fn remainder_table(moduli: usize, op: TableOp) -> (data: Vec<Vec<usize>>)
    requires
        1 <= moduli < usize::MAX,
    ensures
        is_residue_table(data@, moduli as nat, op),
{
    let mut data: Vec<Vec<usize>> = Vec::new();
    let mut row: usize = 0;
    while row <= moduli
        invariant
            1 <= moduli < usize::MAX,
            row <= moduli + 1,
            data@.len() == row,
            forall|r: int| 0 <= r < row ==> #[trigger] data@[r]@.len() == moduli + 1,
            forall|r: int, c: int|
                0 <= r < row && 0 <= c <= moduli ==> #[trigger] data@[r]@[c] == apply_op(op, r as nat, c as nat)
                    % (moduli as nat),
        decreases moduli + 1 - row,
    {
        let mut row_data: Vec<usize> = Vec::new();
        let mut col: usize = 0;
        while col <= moduli
            invariant
                1 <= moduli < usize::MAX,
                col <= moduli + 1,
                row_data@.len() == col,
                forall|c: int| 0 <= c < col ==> #[trigger] row_data@[c] == apply_op(op, row as nat, c as nat) % (moduli as nat),
            decreases moduli + 1 - col,
        {
            let value = residue(row, col, moduli, op);
            row_data.push(value);
            col += 1;
        }
        data.push(row_data);
        row += 1;
    }
    data
}

} // verus!
