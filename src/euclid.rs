//! The Euclidean algorithm as a mathematical object: its step trace and its result.
use vstd::prelude::*;
use crate::arith::{divides, lemma_divides_witness, lemma_multiple_divisible};
use crate::math::{get_gcd, EuclideanRow};

verus! {

/// gcd by repeated division: `gcd(a, 0) = a`, `gcd(a, b) = gcd(b, a mod b)`.
pub open spec fn spec_gcd(a: nat, b: nat) -> nat
    decreases b,
{
    if b == 0 {
        a
    } else {
        spec_gcd(b, a % b)
    }
}

/// The division steps that the Euclidean algorithm takes on `(a, b)`, in order.
pub open spec fn spec_trace(a: usize, b: usize) -> Seq<EuclideanRow>
    decreases b,
{
    if b == 0 {
        Seq::empty()
    } else {
        seq![EuclideanRow { a, b, quotient: (a / b) as usize, remainder: (a % b) as usize }]
            + spec_trace(b, (a % b) as usize)
    }
}

/// Number of division steps the Euclidean algorithm takes on `(a, b)`.
pub open spec fn spec_steps(a: nat, b: nat) -> nat
    decreases b,
{
    if b == 0 {
        0
    } else {
        1 + spec_steps(b, a % b)
    }
}

/// The trace has one row per division step.
pub proof fn lemma_trace_len(a: usize, b: usize)
    ensures
        spec_trace(a, b).len() == spec_steps(a as nat, b as nat),
    decreases b,
{
    if b != 0 {
        lemma_trace_len(b, (a % b) as usize);
    }
}

/// The number of steps never exceeds the second argument.
pub proof fn lemma_steps_bounded(a: nat, b: nat)
    ensures
        spec_steps(a, b) <= b,
    decreases b,
{
    if b != 0 {
        lemma_steps_bounded(b, a % b);
    }
}

/// What the Euclidean algorithm returns divides both inputs, and every common
/// divisor of the inputs divides it: it is their greatest common divisor.
pub proof fn lemma_gcd_is_greatest_common_divisor(a: nat, b: nat)
    ensures
        divides(spec_gcd(a, b), a),
        divides(spec_gcd(a, b), b),
        forall|d: nat| divides(d, a) && divides(d, b) ==> #[trigger] divides(d, spec_gcd(a, b)),
    decreases b,
{
    if b != 0 {
        let r = a % b;
        let q = a / b;
        lemma_gcd_is_greatest_common_divisor(b, r);
        let g = spec_gcd(b, r);
        lemma_divides_witness(b, a);
        vstd::arithmetic::div_mod::lemma_fundamental_div_mod(a as int, b as int);
        assert(g > 0);
        lemma_divides_witness(g, b);
        lemma_divides_witness(g, r);
        let kb = b / g;
        let kr = r / g;
        assert(a == (kb * q + kr) * g) by (nonlinear_arith)
            requires
                a == b * q + r,
                b == g * kb,
                r == g * kr,
        ;
        lemma_multiple_divisible(g, (kb * q + kr) as int);
        assert(a % g == 0);
        assert forall|d: nat| divides(d, a) && divides(d, b) implies #[trigger] divides(d, g) by {
            assert(d > 0);
            lemma_divides_witness(d, a);
            lemma_divides_witness(d, b);
            let ka = a / d;
            let kd = b / d;
            assert(r == (ka - kd * q) * d) by (nonlinear_arith)
                requires
                    a == b * q + r,
                    a == d * ka,
                    b == d * kd,
            ;
            lemma_multiple_divisible(d, ka - kd * q);
        }
    } else if a > 0 {
        vstd::arithmetic::div_mod::lemma_mod_self_0(a as int);
    }
}

/// Scaling both inputs scales the gcd: `gcd(k x, k y) = k gcd(x, y)`.
pub proof fn lemma_gcd_scale(k: nat, x: nat, y: nat)
    ensures
        spec_gcd(k * x, k * y) == k * spec_gcd(x, y),
    decreases y,
{
    if y == 0 {
        assert(k * y == 0);
    } else if k == 0 {
        assert(k * x == 0 && k * y == 0);
        assert(spec_gcd(0, 0) == 0);
    } else {
        lemma_gcd_scale(k, y, x % y);
        vstd::arithmetic::div_mod::lemma_truncate_middle(x as int, k as int, y as int);
        assert((k * x) % (k * y) == k * (x % y));
        assert(k * y > 0);
    }
}

/// Replaying a trace: each row is a division `a = b * quotient + remainder` with
/// `remainder < b`, the first row starts from the inputs, each next row divides the
/// previous divisor by the previous remainder, the last remainder is zero and the
/// gcd is the last divisor. The trace is empty exactly when `b` is zero, and then
/// the gcd is `a`.
pub open spec fn replays(a: usize, b: usize, t: Seq<EuclideanRow>, g: nat) -> bool {
    &&& (t.len() == 0 <==> b == 0)
    &&& t.len() == 0 ==> g == a
    &&& t.len() > 0 ==> {
        &&& t[0].a == a && t[0].b == b
        &&& t[t.len() - 1].remainder == 0
        &&& g == t[t.len() - 1].b
    }
    &&& forall|k: int|
        0 <= k < t.len() ==> {
            &&& (#[trigger] t[k]).a == t[k].b * t[k].quotient + t[k].remainder
            &&& t[k].remainder < t[k].b
        }
    &&& forall|k: int|
        0 <= k < t.len() - 1 ==> (#[trigger] t[k + 1]).a == t[k].b && t[k + 1].b == t[k].remainder
}

/// The trace of the Euclidean algorithm replays to its own gcd.
pub proof fn lemma_trace_replays(a: usize, b: usize)
    ensures
        replays(a, b, spec_trace(a, b), spec_gcd(a as nat, b as nat)),
    decreases b,
{
    if b != 0 {
        let r = (a % b) as usize;
        lemma_trace_replays(b, r);
        let head = EuclideanRow { a, b, quotient: (a / b) as usize, remainder: r };
        let tail = spec_trace(b, r);
        let t = spec_trace(a, b);
        assert(t == seq![head] + tail);
        vstd::arithmetic::div_mod::lemma_fundamental_div_mod(a as int, b as int);
        assert(a == b * (a / b) + r);
        assert forall|k: int| 0 <= k < t.len() implies {
            &&& (#[trigger] t[k]).a == t[k].b * t[k].quotient + t[k].remainder
            &&& t[k].remainder < t[k].b
        } by {
            if k > 0 {
                assert(t[k] == tail[k - 1]);
            }
        }
        assert forall|k: int| 0 <= k < t.len() - 1 implies (#[trigger] t[k + 1]).a == t[k].b
            && t[k + 1].b == t[k].remainder by {
            assert(t[k + 1] == tail[k]);
            if k == 0 {
                assert(t[0] == head);
                assert(tail.len() > 0);
                assert(tail[0].a == b && tail[0].b == r);
            } else {
                assert(t[k] == tail[k - 1]);
                let j = k - 1;
                assert(tail[j + 1].a == tail[j].b && tail[j + 1].b == tail[j].remainder);
            }
        }
    }
}

/// The gcd of two numbers together with the division steps that produced it.
pub struct TracedGcd {
    pub gcd: usize,
    pub steps: Vec<EuclideanRow>,
}

/// Computes `gcd(a, b)` by the Euclidean algorithm and records every division step.
pub fn traced_gcd(a: usize, b: usize) -> (r: TracedGcd)
    ensures
        r.gcd == spec_gcd(a as nat, b as nat),
        r.steps@ == spec_trace(a, b),
{
    let mut steps: Vec<EuclideanRow> = Vec::new();
    let gcd = get_gcd(a, b, &mut steps);
    proof {
        assert(Seq::<EuclideanRow>::empty() + spec_trace(a, b) == spec_trace(a, b));
    }
    TracedGcd { gcd, steps }
}

} // verus!
