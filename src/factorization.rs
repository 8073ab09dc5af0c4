//! Unique factorization: a nondecreasing list of primes is determined by its product.
use vstd::prelude::*;
use vstd::arithmetic::div_mod::{lemma_fundamental_div_mod, lemma_mod_multiples_basic};
use crate::arith::{divides, lemma_divides_witness, product, spec_is_prime};
use crate::euclid::{lemma_gcd_is_greatest_common_divisor, lemma_gcd_scale, spec_gcd};

verus! {

/// Every element is prime.
pub open spec fn all_prime(s: Seq<nat>) -> bool {
    forall|k: int| 0 <= k < s.len() ==> spec_is_prime(#[trigger] s[k])
}

/// The sequence never decreases.
pub open spec fn nondecreasing(s: Seq<nat>) -> bool {
    forall|k1: int, k2: int| 0 <= k1 <= k2 < s.len() ==> #[trigger] s[k1] <= #[trigger] s[k2]
}

/// A positive divisor of a positive number is at most that number.
proof fn lemma_divisor_le(d: nat, n: nat)
    requires
        d > 0,
        n > 0,
        n % d == 0,
    ensures
        d <= n,
{
    lemma_fundamental_div_mod(n as int, d as int);
    let q = n / d;
    assert(d <= n) by (nonlinear_arith)
        requires
            n == d * q,
            n > 0,
            d > 0,
    ;
}

/// A prime dividing a product divides one of the two factors.
pub proof fn lemma_prime_divides_factor(p: nat, a: nat, b: nat)
    requires
        spec_is_prime(p),
        (a * b) % p == 0,
    ensures
        a % p == 0 || b % p == 0,
{
    let g = spec_gcd(p, a);
    lemma_gcd_is_greatest_common_divisor(p, a);
    assert(g > 0);
    lemma_divisor_le(g, p);
    if g == p {
        assert(a % p == 0);
    } else {
        if g >= 2 {
            assert(p % g == 0);
        }
        assert(g == 1);
        lemma_gcd_scale(b, p, a);
        lemma_gcd_is_greatest_common_divisor(b * p, b * a);
        lemma_mod_multiples_basic(b as int, p as int);
        assert((b * p) % p == 0);
        assert(b * a == a * b) by (nonlinear_arith);
        assert(divides(p, b * p) && divides(p, b * a));
        assert(divides(p, spec_gcd(b * p, b * a)));
        assert(spec_gcd(b * p, b * a) == b * 1);
    }
}

/// A prime dividing the product of a list of primes is one of them.
pub proof fn lemma_prime_divides_list(p: nat, s: Seq<nat>)
    requires
        spec_is_prime(p),
        all_prime(s),
        product(s) % p == 0,
    ensures
        exists|k: int| 0 <= k < s.len() && s[k] == p,
    decreases s.len(),
{
    if s.len() == 0 {
        assert(product(s) == 1);
        vstd::arithmetic::div_mod::lemma_small_mod(1, p);
    } else {
        let init = s.drop_last();
        let last = s.last();
        assert(spec_is_prime(s[s.len() - 1]));
        lemma_prime_divides_factor(p, product(init), last);
        if last % p == 0 {
            lemma_divisor_le(p, last);
            if p < last {
                assert(last % p != 0);
            }
            assert(s[s.len() - 1] == p);
        } else {
            assert forall|k: int| 0 <= k < init.len() implies spec_is_prime(#[trigger] init[k]) by {
                assert(init[k] == s[k]);
            }
            lemma_prime_divides_list(p, init);
            let k = choose|k: int| 0 <= k < init.len() && init[k] == p;
            assert(s[k] == p);
        }
    }
}

/// The product of a list of primes is at least 1, and at least 2 when the list is not empty.
proof fn lemma_product_of_primes(s: Seq<nat>)
    requires
        all_prime(s),
    ensures
        product(s) >= 1,
        s.len() > 0 ==> product(s) >= 2,
    decreases s.len(),
{
    if s.len() > 0 {
        let init = s.drop_last();
        assert forall|k: int| 0 <= k < init.len() implies spec_is_prime(#[trigger] init[k]) by {
            assert(init[k] == s[k]);
        }
        lemma_product_of_primes(init);
        assert(spec_is_prime(s[s.len() - 1]));
        let a = product(init);
        let l = s.last();
        assert(a * l >= 2) by (nonlinear_arith)
            requires
                a >= 1,
                l >= 2,
        ;
    }
}

/// Two nondecreasing lists of primes with the same product are the same list.
pub proof fn lemma_factorization_unique(s1: Seq<nat>, s2: Seq<nat>)
    requires
        all_prime(s1),
        all_prime(s2),
        nondecreasing(s1),
        nondecreasing(s2),
        product(s1) == product(s2),
    ensures
        s1 == s2,
    decreases s1.len(),
{
    lemma_product_of_primes(s1);
    lemma_product_of_primes(s2);
    if s1.len() == 0 || s2.len() == 0 {
        assert(s1.len() == 0 && s2.len() == 0);
        assert(s1 =~= s2);
    } else {
        let i1 = s1.drop_last();
        let i2 = s2.drop_last();
        let l1 = s1.last();
        let l2 = s2.last();
        assert(spec_is_prime(s1[s1.len() - 1]));
        assert(spec_is_prime(s2[s2.len() - 1]));
        lemma_mod_multiples_basic(product(i1) as int, l1 as int);
        lemma_mod_multiples_basic(product(i2) as int, l2 as int);
        lemma_prime_divides_list(l1, s2);
        lemma_prime_divides_list(l2, s1);
        let k2 = choose|k: int| 0 <= k < s2.len() && s2[k] == l1;
        let k1 = choose|k: int| 0 <= k < s1.len() && s1[k] == l2;
        assert(s2[k2] <= s2[s2.len() - 1]);
        assert(s1[k1] <= s1[s1.len() - 1]);
        assert(l1 == l2);
        let a = product(i1);
        let b = product(i2);
        assert(a == b) by (nonlinear_arith)
            requires
                a * l1 == b * l1,
                l1 > 0,
        ;
        assert forall|k: int| 0 <= k < i1.len() implies spec_is_prime(#[trigger] i1[k]) by {
            assert(i1[k] == s1[k]);
        }
        assert forall|k: int| 0 <= k < i2.len() implies spec_is_prime(#[trigger] i2[k]) by {
            assert(i2[k] == s2[k]);
        }
        assert forall|k1: int, k2: int| 0 <= k1 <= k2 < i1.len() implies #[trigger] i1[k1] <= #[trigger] i1[k2] by {
            assert(i1[k1] == s1[k1] && i1[k2] == s1[k2]);
        }
        assert forall|k1: int, k2: int| 0 <= k1 <= k2 < i2.len() implies #[trigger] i2[k1] <= #[trigger] i2[k2] by {
            assert(i2[k1] == s2[k1] && i2[k2] == s2[k2]);
        }
        lemma_factorization_unique(i1, i2);
        assert(s1 =~= i1.push(l1));
        assert(s2 =~= i2.push(l2));
    }
}

} // verus!
