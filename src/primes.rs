//! Trial-division factorization into primes with their multiplicities.
use vstd::prelude::*;
use vstd::arithmetic::power::{lemma_pow1, lemma_pow_adds, lemma_pow_increases, lemma_pow_positive, pow};
use vstd::arithmetic::power2::{lemma2_to64, lemma_pow2};
use crate::factorization::lemma_prime_divides_factor;
use crate::arith::{
    lemma_divides_trans, lemma_divides_witness, lemma_least_divisor_is_prime, lemma_multiple_divisible, lemma_past_square_root,
    lemma_prime_by_small_divisors, lemma_product_push, lemma_quotient_divides,
    lemma_quotient_keeps_no_small_divisor, product, spec_is_prime,
};

verus! {

/// `prime ^ multiplicity` of one entry of a grouped factor list.
pub open spec fn group_value(g: (u64, u32)) -> nat {
    pow(g.0 as int, g.1 as nat) as nat
}

/// Product of a grouped factor list: each prime raised to its multiplicity.
pub open spec fn grouped_product(s: Seq<(u64, u32)>) -> nat {
    product(s.map_values(|g: (u64, u32)| group_value(g)))
}

/// A larger base gives a larger power.
proof fn lemma_pow_base_monotone(a: nat, b: nat, e: nat)
    requires
        a <= b,
    ensures
        pow(a as int, e) <= pow(b as int, e),
        pow(a as int, e) >= 0,
    decreases e,
{
    reveal(pow);
    if e > 0 {
        lemma_pow_base_monotone(a, b, (e - 1) as nat);
        let x = pow(a as int, (e - 1) as nat);
        let y = pow(b as int, (e - 1) as nat);
        assert(a * x <= b * y && a * x >= 0) by (nonlinear_arith)
            requires
                0 <= x <= y,
                0 <= a <= b,
        ;
    }
}

/// A power of a base from 2 up that fits in 64 bits has an exponent below 64.
proof fn lemma_exponent_fits(p: nat, c: nat)
    requires
        p >= 2,
        pow(p as int, c) <= u64::MAX,
    ensures
        c < 64,
{
    if c >= 64 {
        lemma_pow_increases(p, 64, c);
        lemma_pow_base_monotone(2, p, 64);
        lemma2_to64();
        lemma_pow2(64);
    }
}

/// One more division by `p`: `p^(c+1) * (n / p) == p^c * n`.
proof fn lemma_divide_once(p: nat, c: nat, n: nat, m: nat)
    requires
        p >= 2,
        n >= 1,
        n % p == 0,
        pow(p as int, c) * n == m,
    ensures
        pow(p as int, c + 1) * (n / p) == m,
        n / p >= 1,
        n / p < n,
{
    reveal(pow);
    vstd::arithmetic::div_mod::lemma_fundamental_div_mod(n as int, p as int);
    lemma_quotient_divides(n, p);
    let q = n / p;
    let x = pow(p as int, c);
    assert(pow(p as int, c + 1) == p * x);
    assert((p * x) * q == m && q >= 1) by (nonlinear_arith)
        requires
            x * n == m,
            n == p * q,
            n >= 1,
    ;
}

/// Appending `(p, c)` to a list multiplies its product by `p^c`.
proof fn lemma_grouped_push(s: Seq<(u64, u32)>, g: (u64, u32))
    ensures
        grouped_product(s.push(g)) == grouped_product(s) * group_value(g),
{
    let f = |g: (u64, u32)| group_value(g);
    assert(s.push(g).map_values(f) =~= s.map_values(f).push(group_value(g)));
    lemma_product_push(s.map_values(f), group_value(g));
}

/// `g` lists `(prime, multiplicity)` pairs, primes strictly ascending and each
/// multiplicity at least 1, whose product (each prime raised to its
/// multiplicity) is `n`.
pub open spec fn is_grouped_factor_list(g: Seq<(u64, u32)>, n: nat) -> bool {
    &&& grouped_product(g) == n
    &&& forall|k: int| 0 <= k < g.len() ==> spec_is_prime((#[trigger] g[k]).0 as nat) && g[k].1 >= 1
    &&& forall|k1: int, k2: int| 0 <= k1 < k2 < g.len() ==> (#[trigger] g[k1]).0 < (#[trigger] g[k2]).0
}

/// A prime dividing a power of a prime is that prime.
proof fn lemma_prime_divides_power(q: nat, p: nat, e: nat)
    requires
        spec_is_prime(q),
        spec_is_prime(p),
        pow(p as int, e) % (q as int) == 0,
    ensures
        q == p,
    decreases e,
{
    reveal(pow);
    if e == 0 {
        vstd::arithmetic::div_mod::lemma_small_mod(1, q);
    } else {
        let x = pow(p as int, (e - 1) as nat);
        lemma_pow_base_monotone(0, p, (e - 1) as nat);
        assert(pow(p as int, e) == p * x);
        lemma_prime_divides_factor(q, p, x as nat);
        if p % q == 0 {
            if q < p {
                assert(p % q != 0);
            }
            if q > p {
                vstd::arithmetic::div_mod::lemma_small_mod(p, q);
            }
        } else {
            lemma_prime_divides_power(q, p, (e - 1) as nat);
        }
    }
}

/// The product of a list without its last entry, times the last entry's value.
proof fn lemma_grouped_split(g: Seq<(u64, u32)>)
    requires
        g.len() > 0,
    ensures
        grouped_product(g) == grouped_product(g.drop_last()) * group_value(g.last()),
{
    assert(g.drop_last().push(g.last()) =~= g);
    lemma_grouped_push(g.drop_last(), g.last());
}

/// Each prime of a grouped list with positive multiplicities divides its product.
proof fn lemma_entry_divides(g: Seq<(u64, u32)>, k: int)
    requires
        0 <= k < g.len(),
        g[k].0 > 0,
        forall|i: int| 0 <= i < g.len() ==> (#[trigger] g[i]).1 >= 1,
    ensures
        grouped_product(g) % (g[k].0 as nat) == 0,
    decreases g.len(),
{
    let init = g.drop_last();
    let last = g.last();
    let q = g[k].0 as nat;
    lemma_grouped_split(g);
    lemma_pow_base_monotone(0, last.0 as nat, last.1 as nat);
    let a = grouped_product(init);
    let v = group_value(last);
    if k == g.len() - 1 {
        reveal(pow);
        assert(g[g.len() - 1].1 >= 1);
        let w = pow(q as int, (last.1 - 1) as nat);
        lemma_pow_base_monotone(0, q, (last.1 - 1) as nat);
        assert(v == q * w);
        lemma_multiple_divisible(q, (a * w) as int);
        assert(a * v == (a * w) * q) by (nonlinear_arith)
            requires
                v == q * w,
        ;
    } else {
        assert forall|i: int| 0 <= i < init.len() implies (#[trigger] init[i]).1 >= 1 by {
            assert(init[i] == g[i]);
        }
        assert(init[k] == g[k]);
        lemma_entry_divides(init, k);
        lemma_divides_witness(q, a);
        lemma_multiple_divisible(q, ((a / q) * v) as int);
        assert(a * v == ((a / q) * v) * q) by (nonlinear_arith)
            requires
                a == q * (a / q),
        ;
    }
}

/// Where `a p^e1 = b p^e2` with `e1 < e2`, `p` divides `a`.
proof fn lemma_cancel_power(a: nat, b: nat, p: nat, e1: nat, e2: nat)
    requires
        p >= 2,
        e1 < e2,
        a * pow(p as int, e1) == b * pow(p as int, e2),
    ensures
        a % p == 0,
{
    let d = (e2 - e1) as nat;
    lemma_pow_adds(p as int, e1, d);
    lemma_pow_positive(p as int, e1);
    lemma_pow_base_monotone(0, p, (d - 1) as nat);
    reveal(pow);
    let v = pow(p as int, e1);
    let w = pow(p as int, (d - 1) as nat);
    assert(pow(p as int, d) == p * w);
    assert(a == (b * w) * p) by (nonlinear_arith)
        requires
            a * v == b * (v * (p * w)),
            v > 0,
    ;
    lemma_multiple_divisible(p, (b * w) as int);
}

/// A prime dividing the product of a grouped list of primes is one of its primes.
proof fn lemma_prime_divides_grouped(q: nat, g: Seq<(u64, u32)>)
    requires
        spec_is_prime(q),
        forall|k: int| 0 <= k < g.len() ==> spec_is_prime((#[trigger] g[k]).0 as nat),
        grouped_product(g) % q == 0,
    ensures
        exists|k: int| 0 <= k < g.len() && g[k].0 == q,
    decreases g.len(),
{
    if g.len() == 0 {
        let f = |x: (u64, u32)| group_value(x);
        assert(g.map_values(f) =~= Seq::<nat>::empty());
        assert(grouped_product(g) == 1);
        vstd::arithmetic::div_mod::lemma_small_mod(1, q);
    } else {
        let init = g.drop_last();
        let last = g.last();
        lemma_grouped_split(g);
        lemma_pow_base_monotone(0, last.0 as nat, last.1 as nat);
        lemma_prime_divides_factor(q, grouped_product(init), group_value(last));
        assert(spec_is_prime(g[g.len() - 1].0 as nat));
        if group_value(last) % q == 0 {
            lemma_prime_divides_power(q, last.0 as nat, last.1 as nat);
            assert(g[g.len() - 1].0 == q);
        } else {
            assert forall|k: int| 0 <= k < init.len() implies spec_is_prime((#[trigger] init[k]).0 as nat) by {
                assert(init[k] == g[k]);
            }
            lemma_prime_divides_grouped(q, init);
            let k = choose|k: int| 0 <= k < init.len() && init[k].0 == q;
            assert(g[k].0 == q);
        }
    }
}

/// The grouped factor list of `n` is determined by `n`: two lists of
/// `(prime, multiplicity)` pairs, primes strictly ascending and multiplicities
/// positive, with the same product, are the same list.
pub proof fn lemma_grouped_factors_unique(n: nat, g1: Seq<(u64, u32)>, g2: Seq<(u64, u32)>)
    requires
        is_grouped_factor_list(g1, n),
        is_grouped_factor_list(g2, n),
    ensures
        g1 == g2,
    decreases g1.len(),
{
    if g1.len() == 0 || g2.len() == 0 {
        if g1.len() > 0 || g2.len() > 0 {
            let g = if g1.len() > 0 {
                g1
            } else {
                g2
            };
            let f = |x: (u64, u32)| group_value(x);
            let e = if g1.len() > 0 {
                g2
            } else {
                g1
            };
            assert(e.map_values(f) =~= Seq::<nat>::empty());
            assert(grouped_product(e) == 1);
            assert(spec_is_prime(g[0].0 as nat));
            vstd::arithmetic::div_mod::lemma_small_mod(1, g[0].0 as nat);
            lemma_entry_divides(g, 0);
        }
        assert(g1 =~= g2);
    } else {
        let i1 = g1.drop_last();
        let i2 = g2.drop_last();
        let l1 = g1.last();
        let l2 = g2.last();
        let p1 = l1.0 as nat;
        let p2 = l2.0 as nat;
        assert(spec_is_prime(g1[g1.len() - 1].0 as nat) && g1[g1.len() - 1].1 >= 1);
        assert(spec_is_prime(g2[g2.len() - 1].0 as nat) && g2[g2.len() - 1].1 >= 1);
        lemma_entry_divides(g1, g1.len() - 1);
        lemma_entry_divides(g2, g2.len() - 1);
        lemma_prime_divides_grouped(p1, g2);
        lemma_prime_divides_grouped(p2, g1);
        let k2 = choose|k: int| 0 <= k < g2.len() && g2[k].0 == p1;
        let k1 = choose|k: int| 0 <= k < g1.len() && g1[k].0 == p2;
        if k2 < g2.len() - 1 {
            assert(g2[k2].0 < g2[g2.len() - 1].0);
        }
        if k1 < g1.len() - 1 {
            assert(g1[k1].0 < g1[g1.len() - 1].0);
        }
        assert(p1 == p2);
        let p = p1;
        assert forall|k: int| 0 <= k < i1.len() implies spec_is_prime((#[trigger] i1[k]).0 as nat) && i1[k].1
            >= 1 && i1[k].0 < p by {
            assert(i1[k] == g1[k]);
            assert(g1[k].0 < g1[g1.len() - 1].0);
        }
        assert forall|k: int| 0 <= k < i2.len() implies spec_is_prime((#[trigger] i2[k]).0 as nat) && i2[k].1
            >= 1 && i2[k].0 < p by {
            assert(i2[k] == g2[k]);
            assert(g2[k].0 < g2[g2.len() - 1].0);
        }
        assert forall|k1: int, k2: int| 0 <= k1 < k2 < i1.len() implies (#[trigger] i1[k1]).0 < (
        #[trigger] i1[k2]).0 by {
            assert(i1[k1] == g1[k1] && i1[k2] == g1[k2]);
        }
        assert forall|k1: int, k2: int| 0 <= k1 < k2 < i2.len() implies (#[trigger] i2[k1]).0 < (
        #[trigger] i2[k2]).0 by {
            assert(i2[k1] == g2[k1] && i2[k2] == g2[k2]);
        }
        let a = grouped_product(i1);
        let b = grouped_product(i2);
        lemma_grouped_split(g1);
        lemma_grouped_split(g2);
        let e1 = l1.1 as nat;
        let e2 = l2.1 as nat;
        lemma_pow_base_monotone(0, p, e1);
        lemma_pow_base_monotone(0, p, e2);
        // p divides neither remaining product
        if a % p == 0 {
            lemma_prime_divides_grouped(p, i1);
            let k = choose|k: int| 0 <= k < i1.len() && i1[k].0 == p;
        }
        if b % p == 0 {
            lemma_prime_divides_grouped(p, i2);
            let k = choose|k: int| 0 <= k < i2.len() && i2[k].0 == p;
        }
        if e1 < e2 {
            lemma_cancel_power(a, b, p, e1, e2);
        } else if e2 < e1 {
            lemma_cancel_power(b, a, p, e2, e1);
        }
        assert(e1 == e2);
        lemma_pow_positive(p as int, e1);
        let v = pow(p as int, e1);
        assert(a == b) by (nonlinear_arith)
            requires
                a * v == b * v,
                v > 0,
        ;
        lemma_grouped_factors_unique(a, i1, i2);
        assert(l1 == l2);
        assert(g1 =~= i1.push(l1));
        assert(g2 =~= i2.push(l2));
    }
}

/// The prime factorization of `n0` as `(prime, multiplicity)` pairs, primes
/// strictly ascending: the product of each prime raised to its multiplicity is
/// `n0`. Below 2 the list is empty.
pub fn prime_factors(n0: u64) -> (res: Vec<(u64, u32)>)
    ensures
        n0 < 2 ==> res@.len() == 0,
        n0 >= 2 ==> is_grouped_factor_list(res@, n0 as nat),
{
    let mut res: Vec<(u64, u32)> = Vec::new();
    if n0 < 2 {
        return res;
    }
    let mut n = n0;
    proof {
        let f = |g: (u64, u32)| group_value(g);
        assert(res@.map_values(f) =~= Seq::<nat>::empty());
        assert(product(Seq::<nat>::empty()) == 1);
        assert(grouped_product(res@) == 1);
    }
    if n % 2 == 0 {
        let mut count: u32 = 0;
        proof {
            reveal(pow);
            assert(pow(2, 0) == 1);
        }
        while n % 2 == 0
            invariant
                1 <= n <= n0,
                count < 64,
                pow(2, count as nat) * n == n0,
            decreases n,
        {
            proof {
                lemma_divide_once(2, count as nat, n as nat, n0 as nat);
                lemma_pow_base_monotone(0, 2, (count + 1) as nat);
                assert(pow(2, (count + 1) as nat) <= n0) by (nonlinear_arith)
                    requires
                        pow(2, (count + 1) as nat) * (n / 2) == n0,
                        n / 2 >= 1,
                        pow(2, (count + 1) as nat) >= 0,
                ;
                lemma_exponent_fits(2, (count + 1) as nat);
            }
            n = n / 2;
            count += 1;
        }
        proof {
            lemma_grouped_push(res@, (2u64, count));
            assert(spec_is_prime(2));
        }
        res.push((2, count));
        proof {
            lemma_pow_base_monotone(0, 2, count as nat);
            assert(grouped_product(res@) == pow(2, count as nat));
        }
    }
    let mut p: u64 = 3;
    while p <= n / p
        invariant
            3 <= p,
            p % 2 == 1,
            1 <= n <= n0,
            grouped_product(res@) * n == n0,
            forall|k: int|
                0 <= k < res@.len() ==> spec_is_prime((#[trigger] res@[k]).0 as nat) && res@[k].1 >= 1,
            forall|k: int| 0 <= k < res@.len() ==> (#[trigger] res@[k]).0 < p,
            forall|k1: int, k2: int| 0 <= k1 < k2 < res@.len() ==> (#[trigger] res@[k1]).0 < (#[trigger] res@[k2]).0,
            forall|d: nat| 2 <= d < p ==> #[trigger] ((n as nat) % d) != 0,
        decreases n0 - p,
    {
        proof {
            vstd::arithmetic::div_mod::lemma_fundamental_div_mod(n as int, p as int);
            let q = n / p;
            assert(p + 2 <= n) by (nonlinear_arith)
                requires
                    n == p * q + n % p,
                    n % p >= 0,
                    p <= q,
                    p >= 3,
            ;
        }
        if n % p == 0 {
            let mut count: u32 = 0;
            let ghost m = n;
            let ghost before = grouped_product(res@);
            proof {
                reveal(pow);
                assert(pow(p as int, 0) == 1);
                lemma_least_divisor_is_prime(n as nat, p as nat);
            }
            while n % p == 0
                invariant
                    3 <= p,
                    1 <= n <= m,
                    m <= n0,
                    count < 64,
                    pow(p as int, count as nat) * n == m,
                    forall|d: nat| 2 <= d < p ==> #[trigger] ((n as nat) % d) != 0,
                decreases n,
            {
                proof {
                    lemma_divide_once(p as nat, count as nat, n as nat, m as nat);
                    lemma_quotient_keeps_no_small_divisor(n as nat, p as nat, p as nat);
                    lemma_pow_base_monotone(0, p as nat, (count + 1) as nat);
                    assert(pow(p as int, (count + 1) as nat) <= m) by (nonlinear_arith)
                        requires
                            pow(p as int, (count + 1) as nat) * (n / p) == m,
                            n / p >= 1,
                            pow(p as int, (count + 1) as nat) >= 0,
                    ;
                    lemma_exponent_fits(p as nat, (count + 1) as nat);
                }
                n = n / p;
                count += 1;
            }
            proof {
                lemma_grouped_push(res@, (p, count));
                let gv = pow(p as int, count as nat);
                assert(count >= 1) by {
                    if count == 0 {
                        reveal(pow);
                    }
                }
                assert((before * gv) * n == n0) by (nonlinear_arith)
                    requires
                        before * m == n0,
                        gv * n == m,
                ;
            }
            res.push((p, count));
            proof {
                let gv = pow(p as int, count as nat);
                lemma_pow_base_monotone(0, p as nat, count as nat);
                assert(grouped_product(res@) == before * gv);
                assert(grouped_product(res@) * n == n0) by (nonlinear_arith)
                    requires
                        grouped_product(res@) == before * gv,
                        (before * gv) * n == n0,
                ;
            }
        }
        proof {
            assert forall|d: nat| 2 <= d < p + 2 implies #[trigger] ((n as nat) % d) != 0 by {
                if d == p + 1 && (n as nat) % d == 0 {
                    lemma_divides_trans(2, d, n as nat);
                }
            }
        }
        p += 2;
    }
    proof {
        lemma_past_square_root(n as nat, p as nat);
    }
    if n > 1 {
        proof {
            lemma_prime_by_small_divisors(n as nat, p as nat);
            if n < p {
                vstd::arithmetic::div_mod::lemma_mod_self_0(n as int);
                assert((n as nat) % (n as nat) == 0);
            }
            lemma_pow1(n as int);
            assert(group_value((n, 1u32)) == n);
            lemma_grouped_push(res@, (n, 1u32));
        }
        res.push((n, 1));
    } else {
        assert(grouped_product(res@) * 1 == grouped_product(res@));
    }
    res
}

/// Whether `num` is prime, by trial division up to its square root.
pub fn is_prime(num: usize) -> (r: bool)
    ensures
        r == spec_is_prime(num as nat),
{
    crate::math::is_prime(num)
}

} // verus!
