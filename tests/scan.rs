use number_theory::scan::{scan_worst_case, tally_pairs};

fn reference_steps(mut a: usize, mut b: usize) -> usize {
    let mut n = 0;
    while b != 0 {
        let r = a % b;
        a = b;
        b = r;
        n += 1;
    }
    n
}

#[test]
fn scan_worst_case_up_to_ten() {
    let r = scan_worst_case(10);
    let mut max = 0;
    let mut best = (0, 0);
    for i in 1..10 {
        for j in 1..i {
            let s = reference_steps(i, j);
            if s > max {
                max = s;
                best = (i, j);
            }
        }
    }
    assert_eq!(r.upper_bound, 10);
    assert_eq!(r.max_steps, max);
    assert_eq!(r.best_pair, best);
    assert_eq!(r.max_steps, 4);
    assert_eq!(r.best_pair, (8, 5));
}

#[test]
fn scan_worst_case_histogram_up_to_ten() {
    let r = scan_worst_case(10);
    let mut reference: Vec<(usize, usize, (usize, usize))> = Vec::new();
    for i in 1..10 {
        for j in 1..i {
            let s = reference_steps(i, j);
            match reference.iter_mut().find(|e| e.0 == s) {
                Some(e) => e.1 += 1,
                None => reference.push((s, 1, (i, j))),
            }
        }
    }
    reference.sort_by_key(|e| e.0);
    let got: Vec<(usize, usize, (usize, usize))> =
        r.step_histogram.iter().map(|b| (b.steps, b.occurrences, b.example)).collect();
    assert_eq!(got, reference);
    let total: usize = r.step_histogram.iter().map(|b| b.occurrences).sum();
    assert_eq!(total, 9 * 8 / 2);
    assert_eq!(got[0], (1, 14, (2, 1)));
}

#[test]
fn scan_worst_case_with_no_pairs() {
    for upper in 0..3 {
        let r = scan_worst_case(upper);
        assert_eq!(r.max_steps, 0);
        assert_eq!(r.best_pair, (0, 0));
        assert!(r.step_histogram.is_empty());
    }
}

#[test]
fn scan_worst_case_keeps_first_pair_on_ties() {
    let r = scan_worst_case(14);
    assert_eq!(r.max_steps, 5);
    assert_eq!(r.best_pair, (13, 8));
    let r = scan_worst_case(4);
    assert_eq!(r.max_steps, 2);
    assert_eq!(r.best_pair, (3, 2));
}

#[test]
fn tally_then_histogram_matches_scan() {
    let t = tally_pairs(30);
    let h = t.histogram();
    let r = scan_worst_case(30);
    assert_eq!(t.max_steps, r.max_steps);
    assert_eq!(t.best_pair, r.best_pair);
    assert_eq!(h.len(), r.step_histogram.len());
    for (a, b) in h.iter().zip(r.step_histogram.iter()) {
        assert_eq!((a.steps, a.occurrences, a.example), (b.steps, b.occurrences, b.example));
    }
}
