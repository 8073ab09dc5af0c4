//! Divisibility and primality as mathematical statements.
use vstd::prelude::*;
use vstd::arithmetic::div_mod::{lemma_fundamental_div_mod, lemma_mod_multiples_basic};

verus! {

/// `d` divides `n`. Zero divides only zero.
pub open spec fn divides(d: nat, n: nat) -> bool {
    if d == 0 {
        n == 0
    } else {
        n % d == 0
    }
}

/// `n` is prime: at least 2, with no divisor strictly between 1 and `n`.
pub open spec fn spec_is_prime(n: nat) -> bool {
    n >= 2 && forall|d: nat| 2 <= d < n ==> #[trigger] (n % d) != 0
}

/// A positive `d` divides `n` exactly when `n` is a multiple of it.
pub proof fn lemma_divides_witness(d: nat, n: nat)
    requires
        d > 0,
    ensures
        divides(d, n) <==> n == d * (n / d),
{
    lemma_fundamental_div_mod(n as int, d as int);
}

/// Every multiple of a positive `d` is divisible by it.
pub proof fn lemma_multiple_divisible(d: nat, k: int)
    requires
        d > 0,
        k * d >= 0,
    ensures
        ((k * d) as nat) % d == 0,
{
    lemma_mod_multiples_basic(k, d as int);
}

/// A number from 2 up with no divisor below `i`, where `i * i` exceeds it, is prime.
pub proof fn lemma_prime_by_small_divisors(n: nat, i: nat)
    requires
        n >= 2,
        i * i > n,
        forall|d: nat| 2 <= d < i ==> #[trigger] (n % d) != 0,
    ensures
        spec_is_prime(n),
{
    assert forall|d: nat| 2 <= d < n implies #[trigger] (n % d) != 0 by {
        if n % d == 0 && d >= i {
            lemma_fundamental_div_mod(n as int, d as int);
            let e = n / d;
            assert(n == d * e);
            assert(2 <= e < i) by (nonlinear_arith)
                requires
                    n == d * e,
                    d < n,
                    d >= i,
                    i * i > n,
                    i >= 0,
            ;
            lemma_mod_multiples_basic(d as int, e as int);
            assert(n % e == 0);
        }
    }
}

/// Trial division stops once the candidate exceeds `n / i`: then `i * i > n`.
pub proof fn lemma_past_square_root(n: nat, i: nat)
    requires
        i > 0,
        i > n / i,
    ensures
        i * i > n,
{
    lemma_fundamental_div_mod(n as int, i as int);
    let q = n / i;
    assert(i * i > n) by (nonlinear_arith)
        requires
            n == i * q + n % i,
            n % i < i,
            i > q,
    ;
}

/// A divisor of a divisor of `n` divides `n`.
pub proof fn lemma_divides_trans(a: nat, b: nat, n: nat)
    requires
        a > 0,
        b > 0,
        b % a == 0,
        n % b == 0,
    ensures
        n % a == 0,
{
    lemma_fundamental_div_mod(b as int, a as int);
    lemma_fundamental_div_mod(n as int, b as int);
    let kb = b / a;
    let kn = n / b;
    assert(n == (kb * kn) * a) by (nonlinear_arith)
        requires
            b == a * kb,
            n == b * kn,
    ;
    lemma_mod_multiples_basic((kb * kn) as int, a as int);
}

/// Dividing `n` by one of its divisors `d` leaves a divisor of `n`.
pub proof fn lemma_quotient_divides(n: nat, d: nat)
    requires
        d > 0,
        n % d == 0,
    ensures
        n % (n / d) == 0 || n / d == 0,
        n / d <= n,
        d >= 2 && n > 0 ==> n / d < n,
{
    lemma_fundamental_div_mod(n as int, d as int);
    let q = n / d;
    assert(q <= n && (d >= 2 && n > 0 ==> q < n)) by (nonlinear_arith)
        requires
            n == d * q,
            d > 0,
    ;
    if q > 0 {
        lemma_mod_multiples_basic(d as int, q as int);
        assert(n == d * q);
    }
}

/// Where `d` divides `n` and `n` has no divisor in `2..bound`, neither has `n / d`.
pub proof fn lemma_quotient_keeps_no_small_divisor(n: nat, d: nat, bound: nat)
    requires
        d > 0,
        n > 0,
        n % d == 0,
        forall|e: nat| 2 <= e < bound ==> #[trigger] (n % e) != 0,
    ensures
        forall|e: nat| 2 <= e < bound ==> #[trigger] ((n / d) % e) != 0,
{
    lemma_quotient_divides(n, d);
    assert forall|e: nat| 2 <= e < bound implies #[trigger] ((n / d) % e) != 0 by {
        if (n / d) % e == 0 {
            if n / d == 0 {
                lemma_fundamental_div_mod(n as int, d as int);
            } else {
                lemma_divides_trans(e, n / d, n);
            }
        }
    }
}

/// The least divisor of `n` from 2 up is prime.
pub proof fn lemma_least_divisor_is_prime(n: nat, d: nat)
    requires
        d >= 2,
        n > 0,
        n % d == 0,
        forall|e: nat| 2 <= e < d ==> #[trigger] (n % e) != 0,
    ensures
        spec_is_prime(d),
{
    assert forall|e: nat| 2 <= e < d implies #[trigger] (d % e) != 0 by {
        if d % e == 0 {
            lemma_divides_trans(e, d, n);
        }
    }
}

/// Product of a sequence of numbers.
pub open spec fn product(s: Seq<nat>) -> nat
    decreases s.len(),
{
    if s.len() == 0 {
        1
    } else {
        product(s.drop_last()) * s.last()
    }
}

/// Appending a factor multiplies the product by it.
pub proof fn lemma_product_push(s: Seq<nat>, x: nat)
    ensures
        product(s.push(x)) == product(s) * x,
{
    assert(s.push(x).drop_last() == s);
}

/// The sequence is strictly increasing.
pub open spec fn strictly_increasing(s: Seq<usize>) -> bool {
    forall|k1: int, k2: int| 0 <= k1 < k2 < s.len() ==> #[trigger] s[k1] < #[trigger] s[k2]
}

/// Two strictly increasing sequences with the same members agree up to index `k`.
proof fn lemma_increasing_prefix_agree(s1: Seq<usize>, s2: Seq<usize>, k: int)
    requires
        strictly_increasing(s1),
        strictly_increasing(s2),
        forall|x: usize| #[trigger] s1.contains(x) <==> s2.contains(x),
        0 <= k < s1.len(),
        0 <= k < s2.len(),
    ensures
        forall|i: int| 0 <= i <= k ==> #[trigger] s1[i] == s2[i],
    decreases k,
{
    if k > 0 {
        lemma_increasing_prefix_agree(s1, s2, k - 1);
    }
    if s1[k] < s2[k] {
        assert(s1.contains(s1[k]));
        assert(s2.contains(s1[k]));
        let j = choose|j: int| 0 <= j < s2.len() && s2[j] == s1[k];
        if j < k {
            assert(s1[j] == s2[j]);
        } else if j > k {
            assert(s2[k] < s2[j]);
        }
    } else if s2[k] < s1[k] {
        assert(s2.contains(s2[k]));
        assert(s1.contains(s2[k]));
        let j = choose|j: int| 0 <= j < s1.len() && s1[j] == s2[k];
        if j < k {
            assert(s1[j] == s2[j]);
        } else if j > k {
            assert(s1[k] < s1[j]);
        }
    }
}

/// A strictly increasing sequence is determined by its members.
pub proof fn lemma_increasing_same_members(s1: Seq<usize>, s2: Seq<usize>)
    requires
        strictly_increasing(s1),
        strictly_increasing(s2),
        forall|x: usize| #[trigger] s1.contains(x) <==> s2.contains(x),
    ensures
        s1 == s2,
{
    if s1.len() > 0 && s2.len() > 0 {
        let m = if s1.len() < s2.len() {
            s1.len() - 1
        } else {
            s2.len() - 1
        };
        lemma_increasing_prefix_agree(s1, s2, m);
    }
    if s1.len() < s2.len() {
        let k = s1.len() as int;
        assert(s2.contains(s2[k]));
        assert(s1.contains(s2[k]));
        let j = choose|j: int| 0 <= j < s1.len() && s1[j] == s2[k];
        assert(s1[j] == s2[j]);
    } else if s2.len() < s1.len() {
        let k = s2.len() as int;
        assert(s1.contains(s1[k]));
        assert(s2.contains(s1[k]));
        let j = choose|j: int| 0 <= j < s2.len() && s2[j] == s1[k];
        assert(s1[j] == s2[j]);
    }
    assert(s1 =~= s2);
}

} // verus!
