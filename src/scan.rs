//! The scan over all pairs `1 <= j < i < upper` for the pairs on which the
//! Euclidean algorithm takes the most division steps.
use vstd::prelude::*;
use crate::euclid::{lemma_steps_bounded, lemma_trace_len, spec_steps, spec_trace};
use crate::math::{get_gcd, EuclideanRow};

verus! {

/// The pair `p` is visited before position `(i, j)`: the scan runs over `i`
/// ascending, and for each `i` over `j` ascending in `1..i`.
pub open spec fn scanned_before(i: nat, j: nat, p: (nat, nat)) -> bool {
    1 <= p.1 < p.0 && (p.0 < i || (p.0 == i && p.1 < j))
}

/// A pair of machine integers as a pair of naturals.
pub open spec fn nat_pair(p: (usize, usize)) -> (nat, nat) {
    (p.0 as nat, p.1 as nat)
}

/// Number of `j'` in `1..j` on which `(i, j')` takes `s` steps.
pub open spec fn row_count(i: nat, j: nat, s: nat) -> nat
    decreases j,
{
    if j <= 1 {
        0
    } else {
        row_count(i, (j - 1) as nat, s) + if spec_steps(i, (j - 1) as nat) == s {
            1nat
        } else {
            0nat
        }
    }
}

/// Number of pairs `1 <= j' < i' < i` that take `s` steps.
pub open spec fn scan_count(i: nat, s: nat) -> nat
    decreases i,
{
    if i <= 1 {
        0
    } else {
        scan_count((i - 1) as nat, s) + row_count((i - 1) as nat, (i - 1) as nat, s)
    }
}

/// Number of pairs visited before position `(i, j)` that take `s` steps.
pub open spec fn count_before(i: nat, j: nat, s: nat) -> nat {
    scan_count(i, s) + row_count(i, j, s)
}

/// `e` is the first pair visited before position `(i, j)` that takes `s` steps.
pub open spec fn first_with_steps(i: nat, j: nat, s: nat, e: (nat, nat)) -> bool {
    &&& scanned_before(i, j, e)
    &&& spec_steps(e.0, e.1) == s
    &&& forall|p: (nat, nat)| #[trigger] scanned_before(e.0, e.1, p) ==> spec_steps(p.0, p.1) != s
}

/// `max` is the largest step count among the pairs visited before `(i, j)`, and
/// `best` the first of them to reach it; with no pair visited, both are zero.
pub open spec fn best_before(i: nat, j: nat, max: nat, best: (nat, nat)) -> bool {
    &&& forall|p: (nat, nat)| #[trigger] scanned_before(i, j, p) ==> spec_steps(p.0, p.1) <= max
    &&& max == 0 ==> best == (0nat, 0nat)
    &&& max > 0 ==> {
        &&& scanned_before(i, j, best)
        &&& spec_steps(best.0, best.1) == max
        &&& forall|p: (nat, nat)| #[trigger] scanned_before(best.0, best.1, p) ==> spec_steps(p.0, p.1) < max
    }
}

/// The position reached once every pair below `upper` was visited: the start
/// of row `upper` (of row 1 when `upper` is 0).
pub open spec fn scan_position(upper: nat) -> nat {
    if upper < 1 {
        1
    } else {
        upper
    }
}

/// How often one step count occurred, and the first pair that produced it.
#[derive(Clone, Copy, Debug)]
pub struct StepTally {
    pub occurrences: usize,
    pub example: (usize, usize),
}

/// The table is indexed by step count and matches the pairs visited before `(i, j)`.
pub open spec fn tally_matches(table: Seq<StepTally>, i: nat, j: nat) -> bool {
    &&& forall|s: int| 0 <= s < table.len() ==> #[trigger] table[s].occurrences == count_before(i, j, s as nat)
    &&& forall|s: nat| s >= table.len() ==> #[trigger] count_before(i, j, s) == 0
    &&& forall|s: int|
        0 <= s < table.len() && #[trigger] table[s].occurrences > 0 ==> first_with_steps(
            i,
            j,
            s as nat,
            nat_pair(table[s].example),
        )
}

/// Where no visited pair takes `s` steps, none of them does.
pub proof fn lemma_row_count_zero(i: nat, j: nat, s: nat, k: nat)
    requires
        row_count(i, j, s) == 0,
        1 <= k < j,
    ensures
        spec_steps(i, k) != s,
    decreases j,
{
    if k < j - 1 {
        lemma_row_count_zero(i, (j - 1) as nat, s, k);
    }
}

/// Where no pair visited before `(i, j)` takes `s` steps, none of them does.
pub proof fn lemma_count_zero(i: nat, j: nat, s: nat, p: (nat, nat))
    requires
        count_before(i, j, s) == 0,
        scanned_before(i, j, p),
    ensures
        spec_steps(p.0, p.1) != s,
    decreases i,
{
    if p.0 == i {
        lemma_row_count_zero(i, j, s, p.1);
    } else if p.0 == i - 1 {
        lemma_row_count_zero((i - 1) as nat, (i - 1) as nat, s, p.1);
    } else {
        lemma_count_zero((i - 1) as nat, 0, s, p);
    }
}

/// A row of `j - 1` pairs holds at most `j - 1` of any step count.
pub proof fn lemma_row_count_bound(i: nat, j: nat, s: nat)
    ensures
        row_count(i, j, s) + 1 <= j || j == 0,
    decreases j,
{
    if j > 1 {
        lemma_row_count_bound(i, (j - 1) as nat, s);
    }
}

/// The pairs before row `i` number less than `(i - 1) * (i - 1)`.
pub proof fn lemma_scan_count_bound(i: nat, s: nat)
    ensures
        i >= 1 ==> scan_count(i, s) + i <= i * i,
    decreases i,
{
    if i > 1 {
        let h = (i - 1) as nat;
        lemma_scan_count_bound(h, s);
        lemma_row_count_bound(h, h, s);
        assert(h * h + 2 * h + 1 == i * i) by (nonlinear_arith)
            requires
                i == h + 1,
        ;
        assert(scan_count(i, s) == scan_count(h, s) + row_count(h, h, s));
    } else if i == 1 {
        assert(i * i == 1) by (nonlinear_arith)
            requires
                i == 1,
        ;
    }
}

/// What one scan over the pairs `1 <= j < i < upper_bound` found: the largest step
/// count, the first pair to reach it, and for each step count (the index into
/// `by_steps`) how often it occurred and the first pair that produced it.
pub struct PairTally {
    pub upper_bound: usize,
    pub best_pair: (usize, usize),
    pub max_steps: usize,
    pub by_steps: Vec<StepTally>,
}

/// Runs the Euclidean algorithm on every pair `1 <= j < i < upper`, with `i`
/// ascending and then `j` ascending, and tallies the step counts. The bound is
/// limited so that `upper * upper` fits in a `usize`, which keeps every count of
/// pairs representable.
pub fn tally_pairs(upper: usize) -> (r: PairTally)
    requires
        upper as int * upper as int <= usize::MAX,
    ensures
        r.upper_bound == upper,
        tally_matches(r.by_steps@, scan_position(upper as nat), 1),
        best_before(scan_position(upper as nat), 1, r.max_steps as nat, nat_pair(r.best_pair)),
{
    let mut by_steps: Vec<StepTally> = Vec::new();
    let mut max_steps: usize = 0;
    let mut best_pair: (usize, usize) = (0, 0);
    let mut i: usize = 1;
    while i < upper
        invariant
            1 <= i,
            upper >= 1 ==> i <= upper,
            upper < 1 ==> i == 1,
            upper as int * upper as int <= usize::MAX,
            tally_matches(by_steps@, i as nat, 1),
            best_before(i as nat, 1, max_steps as nat, nat_pair(best_pair)),
        decreases upper - i,
    {
        let mut j: usize = 1;
        while j < i
            invariant
                1 <= j <= i < upper,
                upper as int * upper as int <= usize::MAX,
                tally_matches(by_steps@, i as nat, j as nat),
                best_before(i as nat, j as nat, max_steps as nat, nat_pair(best_pair)),
            decreases i - j,
        {
            let mut rows: Vec<EuclideanRow> = Vec::new();
            let _gcd = get_gcd(i, j, &mut rows);
            let s = rows.len();
            proof {
                lemma_trace_len(i, j);
                assert(rows@ =~= spec_trace(i, j));
                lemma_steps_bounded(i as nat, j as nat);
            }
            while by_steps.len() <= s
                invariant
                    s < i,
                    tally_matches(by_steps@, i as nat, j as nat),
                decreases s + 1 - by_steps.len(),
            {
                let ghost before = by_steps@;
                by_steps.push(StepTally { occurrences: 0, example: (0, 0) });
                proof {
                    assert forall|t: int| 0 <= t < by_steps@.len() implies #[trigger] by_steps@[t].occurrences
                        == count_before(i as nat, j as nat, t as nat) by {
                        if t < before.len() {
                            assert(by_steps@[t] == before[t]);
                        } else {
                            assert(count_before(i as nat, j as nat, t as nat) == 0);
                        }
                    }
                    assert forall|t: int| 0 <= t < by_steps@.len() && #[trigger] by_steps@[t].occurrences
                        > 0 implies first_with_steps(i as nat, j as nat, t as nat, nat_pair(by_steps@[t].example)) by {
                        assert(by_steps@[t] == before[t]);
                    }
                }
            }
            let cur = by_steps[s];
            let ghost si = s as nat;
            let ghost old_table = by_steps@;
            proof {
                lemma_scan_count_bound(i as nat, si);
                lemma_row_count_bound(i as nat, j as nat, si);
                assert(i as int * i as int <= upper as int * upper as int) by (nonlinear_arith)
                    requires
                        i < upper,
                ;
                assert(row_count(i as nat, (j + 1) as nat, si) == row_count(i as nat, j as nat, si) + 1);
            }
            if cur.occurrences == 0 {
                by_steps.set(s, StepTally { occurrences: 1, example: (i, j) });
                proof {
                    assert forall|p: (nat, nat)| #[trigger] scanned_before(i as nat, j as nat, p) implies spec_steps(
                        p.0,
                        p.1,
                    ) != si by {
                        lemma_count_zero(i as nat, j as nat, si, p);
                    }
                }
            } else {
                by_steps.set(s, StepTally { occurrences: cur.occurrences + 1, example: cur.example });
            }
            let ghost old_max = max_steps as nat;
            let ghost old_best = nat_pair(best_pair);
            if s > max_steps {
                max_steps = s;
                best_pair = (i, j);
            }
            proof {
                let ni = i as nat;
                let nj = j as nat;
                let nj1 = (j + 1) as nat;
                assert forall|t: nat| t != si implies #[trigger] row_count(ni, nj1, t) == row_count(ni, nj, t) by {}
                assert forall|t: int| 0 <= t < by_steps@.len() implies #[trigger] by_steps@[t].occurrences
                    == count_before(ni, nj1, t as nat) by {
                    if t != s {
                        assert(by_steps@[t] == old_table[t]);
                        assert(row_count(ni, nj1, t as nat) == row_count(ni, nj, t as nat));
                    }
                }
                assert forall|t: nat| t >= by_steps@.len() implies #[trigger] count_before(ni, nj1, t) == 0 by {
                    assert(row_count(ni, nj1, t) == row_count(ni, nj, t));
                    assert(count_before(ni, nj, t) == 0);
                }
                assert forall|t: int| 0 <= t < by_steps@.len() && #[trigger] by_steps@[t].occurrences > 0 implies first_with_steps(
                    ni,
                    nj1,
                    t as nat,
                    nat_pair(by_steps@[t].example),
                ) by {
                    if t != s || cur.occurrences > 0 {
                        assert(by_steps@[t].example == old_table[t].example);
                        assert(old_table[t].occurrences > 0);
                        assert(first_with_steps(ni, nj, t as nat, nat_pair(old_table[t].example)));
                    }
                }
                assert forall|p: (nat, nat)| #[trigger] scanned_before(ni, nj1, p) implies spec_steps(p.0, p.1)
                    <= max_steps as nat by {
                    if p != (ni, nj) {
                        assert(scanned_before(ni, nj, p));
                    }
                }
                if max_steps as nat > 0 {
                    if max_steps as nat == old_max {
                        assert(scanned_before(ni, nj, old_best));
                    }
                }
            }
            j += 1;
        }
        proof {
            let ni = i as nat;
            let n1 = (i + 1) as nat;
            assert forall|t: nat| #[trigger] count_before(ni, ni, t) == count_before(n1, 1, t) by {
                assert(scan_count(n1, t) == scan_count(ni, t) + row_count(ni, ni, t));
            }
            assert forall|p: (nat, nat)| #[trigger] scanned_before(n1, 1, p) == scanned_before(ni, ni, p) by {}
            assert forall|t: int| 0 <= t < by_steps@.len() implies #[trigger] by_steps@[t].occurrences
                == count_before(n1, 1, t as nat) by {
                assert(count_before(ni, ni, t as nat) == count_before(n1, 1, t as nat));
            }
            assert forall|t: nat| t >= by_steps@.len() implies #[trigger] count_before(n1, 1, t) == 0 by {
                assert(count_before(ni, ni, t) == count_before(n1, 1, t));
            }
            assert forall|t: int| 0 <= t < by_steps@.len() && #[trigger] by_steps@[t].occurrences > 0 implies first_with_steps(
                n1,
                1,
                t as nat,
                nat_pair(by_steps@[t].example),
            ) by {
                let e = nat_pair(by_steps@[t].example);
                assert(first_with_steps(ni, ni, t as nat, e));
                assert(scanned_before(ni, ni, e));
            }
            assert forall|p: (nat, nat)| #[trigger] scanned_before(n1, 1, p) implies spec_steps(p.0, p.1)
                <= max_steps as nat by {
                assert(scanned_before(ni, ni, p));
            }
            if max_steps > 0 {
                assert(scanned_before(ni, ni, nat_pair(best_pair)));
            }
        }
        i += 1;
    }
    PairTally { upper_bound: upper, best_pair, max_steps, by_steps }
}

/// One line of the step-count histogram: how many pairs took `steps` steps, and
/// the first of them in scan order.
#[derive(Clone, Copy, Debug)]
pub struct StepBucket {
    pub steps: usize,
    pub occurrences: usize,
    pub example: (usize, usize),
}

/// `h` lists the step counts that occur in `table`, ascending, each with its tally.
pub open spec fn lists_tally(table: Seq<StepTally>, h: Seq<StepBucket>) -> bool {
    &&& forall|k: int|
        0 <= k < h.len() ==> {
            &&& (#[trigger] h[k]).steps < table.len()
            &&& h[k].occurrences == table[h[k].steps as int].occurrences
            &&& h[k].occurrences > 0
            &&& h[k].example == table[h[k].steps as int].example
        }
    &&& forall|k1: int, k2: int| 0 <= k1 < k2 < h.len() ==> #[trigger] h[k1].steps < #[trigger] h[k2].steps
    &&& forall|s: int|
        0 <= s < table.len() && #[trigger] table[s].occurrences > 0 ==> exists|k: int|
            0 <= k < h.len() && #[trigger] h[k].steps == s
}

impl PairTally {
    /// The step counts that occurred, ascending, each with how often it occurred
    /// and the first pair that produced it.
    pub fn histogram(&self) -> (h: Vec<StepBucket>)
        ensures
            lists_tally(self.by_steps@, h@),
    {
        let mut h: Vec<StepBucket> = Vec::new();
        let mut s: usize = 0;
        while s < self.by_steps.len()
            invariant
                s <= self.by_steps@.len(),
                forall|k: int|
                    0 <= k < h@.len() ==> {
                        &&& (#[trigger] h@[k]).steps < s
                        &&& h@[k].occurrences == self.by_steps@[h@[k].steps as int].occurrences
                        &&& h@[k].occurrences > 0
                        &&& h@[k].example == self.by_steps@[h@[k].steps as int].example
                    },
                forall|k1: int, k2: int| 0 <= k1 < k2 < h@.len() ==> #[trigger] h@[k1].steps < #[trigger] h@[k2].steps,
                forall|t: int|
                    0 <= t < s && #[trigger] self.by_steps@[t].occurrences > 0 ==> exists|k: int|
                        0 <= k < h@.len() && #[trigger] h@[k].steps == t,
            decreases self.by_steps@.len() - s,
        {
            let cur = self.by_steps[s];
            if cur.occurrences > 0 {
                let ghost before = h@;
                h.push(StepBucket { steps: s, occurrences: cur.occurrences, example: cur.example });
                proof {
                    assert forall|t: int|
                        0 <= t < s + 1 && #[trigger] self.by_steps@[t].occurrences > 0 implies exists|k: int|
                        0 <= k < h@.len() && #[trigger] h@[k].steps == t by {
                        if t == s {
                            assert(h@[before.len() as int].steps == t);
                        } else {
                            let k = choose|k: int| 0 <= k < before.len() && #[trigger] before[k].steps == t;
                            assert(h@[k] == before[k]);
                        }
                    }
                }
            }
            s += 1;
        }
        h
    }
}

/// What the scan over the pairs `1 <= j < i < upper_bound` reports: the largest
/// step count, the first pair to reach it, and the step-count histogram.
pub struct WorstCaseResult {
    pub upper_bound: usize,
    pub best_pair: (usize, usize),
    pub max_steps: usize,
    pub step_histogram: Vec<StepBucket>,
}

/// Number of pairs `1 <= j < i < upper` on which the Euclidean algorithm takes `s` steps.
pub open spec fn occurrences(upper: nat, s: nat) -> nat {
    count_before(scan_position(upper), 1, s)
}

/// `h` is the histogram of the scan up to `upper`: every step count that occurs,
/// ascending, with its number of pairs and the first pair in scan order.
pub open spec fn is_histogram(upper: nat, h: Seq<StepBucket>) -> bool {
    &&& forall|k: int|
        0 <= k < h.len() ==> {
            &&& (#[trigger] h[k]).occurrences == occurrences(upper, h[k].steps as nat)
            &&& h[k].occurrences > 0
            &&& first_with_steps(scan_position(upper), 1, h[k].steps as nat, nat_pair(h[k].example))
        }
    &&& forall|k1: int, k2: int| 0 <= k1 < k2 < h.len() ==> #[trigger] h[k1].steps < #[trigger] h[k2].steps
    &&& forall|s: nat| #[trigger] occurrences(upper, s) > 0 ==> exists|k: int| 0 <= k < h.len() && #[trigger] h[k].steps == s
}

/// Scans every pair `1 <= j < i < upper`: the largest step count, the first pair
/// (by ascending `i`, then `j`) that reaches it, and the step-count histogram.
/// With no pair to scan (`upper <= 2`) the maximum is 0 and the pair `(0, 0)`.
/// As for `tally_pairs`, `upper * upper` must fit in a `usize`.
pub fn scan_worst_case(upper: usize) -> (r: WorstCaseResult)
    requires
        upper as int * upper as int <= usize::MAX,
    ensures
        r.upper_bound == upper,
        best_before(scan_position(upper as nat), 1, r.max_steps as nat, nat_pair(r.best_pair)),
        is_histogram(upper as nat, r.step_histogram@),
{
    let tally = tally_pairs(upper);
    let step_histogram = tally.histogram();
    proof {
        let pos = scan_position(upper as nat);
        let table = tally.by_steps@;
        let h = step_histogram@;
        assert forall|s: nat| #[trigger] occurrences(upper as nat, s) > 0 implies exists|k: int|
            0 <= k < h.len() && #[trigger] h[k].steps == s by {
            assert(s < table.len());
            assert(table[s as int].occurrences > 0);
        }
        assert forall|k: int| 0 <= k < h.len() implies {
            &&& (#[trigger] h[k]).occurrences == occurrences(upper as nat, h[k].steps as nat)
            &&& h[k].occurrences > 0
            &&& first_with_steps(pos, 1, h[k].steps as nat, nat_pair(h[k].example))
        } by {
            let t = h[k].steps as int;
            assert(table[t].occurrences > 0);
        }
    }
    WorstCaseResult {
        upper_bound: upper,
        best_pair: tally.best_pair,
        max_steps: tally.max_steps,
        step_histogram,
    }
}

/// The largest step count and the first pair to reach it are determined by the
/// scan position alone: two results that both meet the description agree.
pub proof fn lemma_worst_pair_unique(i: nat, j: nat, m1: nat, b1: (nat, nat), m2: nat, b2: (nat, nat))
    requires
        best_before(i, j, m1, b1),
        best_before(i, j, m2, b2),
    ensures
        m1 == m2,
        b1 == b2,
{
    if m1 > 0 {
        assert(scanned_before(i, j, b1));
    }
    if m2 > 0 {
        assert(scanned_before(i, j, b2));
    }
    if m1 > 0 && m2 > 0 && b1 != b2 {
        if b1.0 < b2.0 || (b1.0 == b2.0 && b1.1 < b2.1) {
            assert(scanned_before(b2.0, b2.1, b1));
        } else {
            assert(scanned_before(b1.0, b1.1, b2));
        }
    }
}

/// Two entries of histograms of one scan at the same index name the same step count.
proof fn lemma_histogram_steps_agree(upper: nat, h1: Seq<StepBucket>, h2: Seq<StepBucket>, k: int)
    requires
        is_histogram(upper, h1),
        is_histogram(upper, h2),
        0 <= k < h1.len(),
        0 <= k < h2.len(),
    ensures
        forall|i: int| 0 <= i <= k ==> #[trigger] h1[i].steps == h2[i].steps,
    decreases k,
{
    if k > 0 {
        lemma_histogram_steps_agree(upper, h1, h2, k - 1);
    }
    let s1 = h1[k].steps as nat;
    let s2 = h2[k].steps as nat;
    if s1 != s2 {
        assert(h1[k].occurrences == occurrences(upper, s1));
        assert(h2[k].occurrences == occurrences(upper, s2));
        if s1 < s2 {
            assert(occurrences(upper, s1) > 0);
            let k2 = choose|k2: int| 0 <= k2 < h2.len() && #[trigger] h2[k2].steps == s1;
            if k2 < k {
                assert(h1[k2].steps == h2[k2].steps);
                assert(h1[k2].steps < h1[k].steps);
            } else if k2 > k {
                assert(h2[k].steps < h2[k2].steps);
            }
        } else {
            assert(occurrences(upper, s2) > 0);
            let k1 = choose|k1: int| 0 <= k1 < h1.len() && #[trigger] h1[k1].steps == s2;
            if k1 < k {
                assert(h1[k1].steps == h2[k1].steps);
                assert(h2[k1].steps < h2[k].steps);
            } else if k1 > k {
                assert(h1[k].steps < h1[k1].steps);
            }
        }
    }
}

/// The first pair with a given step count is determined by the scan.
proof fn lemma_first_example_unique(i: nat, j: nat, s: nat, e1: (nat, nat), e2: (nat, nat))
    requires
        first_with_steps(i, j, s, e1),
        first_with_steps(i, j, s, e2),
    ensures
        e1 == e2,
{
    if e1 != e2 {
        if e1.0 < e2.0 || (e1.0 == e2.0 && e1.1 < e2.1) {
            assert(scanned_before(e2.0, e2.1, e1));
        } else {
            assert(scanned_before(e1.0, e1.1, e2));
        }
    }
}

/// The histogram of a scan is determined by its bound: two results that both
/// meet the description are the same list.
pub proof fn lemma_histogram_unique(upper: nat, h1: Seq<StepBucket>, h2: Seq<StepBucket>)
    requires
        is_histogram(upper, h1),
        is_histogram(upper, h2),
    ensures
        h1 == h2,
{
    if h1.len() > 0 && h2.len() > 0 {
        let m = if h1.len() < h2.len() {
            h1.len() - 1
        } else {
            h2.len() - 1
        };
        lemma_histogram_steps_agree(upper, h1, h2, m);
    }
    if h1.len() < h2.len() {
        let k = h1.len() as int;
        let s = h2[k].steps as nat;
        assert(occurrences(upper, s) > 0);
        let k1 = choose|k1: int| 0 <= k1 < h1.len() && #[trigger] h1[k1].steps == s;
        assert(h1[k1].steps == h2[k1].steps);
        assert(h2[k1].steps < h2[k].steps);
    } else if h2.len() < h1.len() {
        let k = h2.len() as int;
        let s = h1[k].steps as nat;
        assert(occurrences(upper, s) > 0);
        let k2 = choose|k2: int| 0 <= k2 < h2.len() && #[trigger] h2[k2].steps == s;
        assert(h1[k2].steps == h2[k2].steps);
        assert(h1[k2].steps < h1[k].steps);
    }
    assert forall|k: int| 0 <= k < h1.len() implies #[trigger] h1[k] == h2[k] by {
        assert(h1[k].steps == h2[k].steps);
        let s = h1[k].steps as nat;
        lemma_first_example_unique(scan_position(upper), 1, s, nat_pair(h1[k].example), nat_pair(h2[k].example));
    }
    assert(h1 =~= h2);
}

} // verus!
