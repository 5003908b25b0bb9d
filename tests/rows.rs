use semiprime_table::factor::AnalysisError;
use semiprime_table::rows::{compute_range, row_bounds, RowEngine, SequenceTracker};

#[test]
fn fifteen_first_row() {
    let mut engine = compute_range(15, 3, 5, None, None).unwrap();
    assert_eq!((engine.lo, engine.hi), (1, 8));
    assert_eq!(engine.tracker.start, 3);
    let row = engine.next_row().unwrap();
    assert_eq!(row.a, 1);
    assert_eq!(row.b, 14);
    assert_eq!(row.t, 13);
    assert_eq!(row.t0, 6);
    assert_eq!(row.t1, 7);
    assert_eq!(row.pp, 42);
    assert_eq!(row.pp_mod, 12);
    assert_eq!(row.tn, 1);
    assert_eq!(row.m, 14);
    assert_eq!(row.rl, 1);
    assert_eq!(row.rr, 1);
    assert!(!row.in_seq);
    assert!(row.adjacent);
}

#[test]
fn fifteen_full_range() {
    let mut engine = compute_range(15, 3, 5, None, None).unwrap();
    let rows = engine.rows();
    assert_eq!(rows.len(), 7);
    let a: Vec<u64> = rows.iter().map(|r| r.a).collect();
    assert_eq!(a, vec![1, 2, 3, 4, 5, 6, 7]);
    assert!(engine.next_row().is_none());
}

#[test]
fn parity_on_odd_semiprime_rows() {
    let mut engine = compute_range(35, 5, 7, None, None).unwrap();
    for row in engine.rows() {
        assert_eq!(row.t % 2, 1);
        assert_eq!(row.t0 + row.t1, row.t);
    }
}

#[test]
fn parity_follows_n_on_even_n() {
    let mut engine = RowEngine::new(16, 1, 1, 1, 100);
    let rows = engine.rows();
    assert_eq!(rows.len(), 7);
    for row in rows {
        assert_eq!(row.t % 2, 0);
    }
}

#[test]
fn sequence_marks_fifteen() {
    let mut engine = compute_range(15, 3, 5, None, None).unwrap();
    let marked: Vec<(u64, u64)> =
        engine.rows().iter().filter(|r| r.in_seq).map(|r| (r.a, r.tn)).collect();
    assert_eq!(marked, vec![(2, 3), (3, 5), (4, 7)]);
}

#[test]
fn sequence_marks_nine() {
    let mut engine = compute_range(9, 3, 3, None, None).unwrap();
    let marked: Vec<(u64, u64)> =
        engine.rows().iter().filter(|r| r.in_seq).map(|r| (r.a, r.tn)).collect();
    assert_eq!(marked, vec![(1, 1), (2, 3), (3, 5)]);
}

#[test]
fn sequence_marks_count_equals_p() {
    for (n, p, q) in [(35u64, 5u64, 7u64), (143, 11, 13), (3 * 29, 3, 29), (49, 7, 7)] {
        let mut engine = compute_range(n, p, q, None, None).unwrap();
        let count = engine.rows().iter().filter(|r| r.in_seq).count() as u64;
        assert_eq!(count, p, "n = {}", n);
    }
}

#[test]
fn maxlines_clamps_to_three_rows() {
    let mut engine = compute_range(35, 5, 7, Some(3), None).unwrap();
    let rows = engine.rows();
    let a: Vec<u64> = rows.iter().map(|r| r.a).collect();
    assert_eq!(a, vec![1, 2, 3]);
}

#[test]
fn explicit_range_is_inclusive_and_capped() {
    assert_eq!(row_bounds(15, None, Some((3, 5))), Ok((3, 6)));
    assert_eq!(row_bounds(15, Some(2), Some((3, 10))), Ok((3, 5)));
    assert_eq!(row_bounds(15, None, Some((0, 100))), Ok((1, 8)));
    assert_eq!(row_bounds(15, None, None), Ok((1, 8)));
    assert_eq!(row_bounds(15, Some(100), None), Ok((1, 8)));
    assert_eq!(row_bounds(15, Some(0), None), Ok((1, 1)));
    assert_eq!(row_bounds(15, None, Some((20, u64::MAX))), Ok((20, 8)));
}

#[test]
fn range_with_low_not_below_high_is_invalid() {
    assert_eq!(row_bounds(15, None, Some((5, 5))), Err(AnalysisError::InvalidRange));
    assert_eq!(row_bounds(15, None, Some((6, 2))), Err(AnalysisError::InvalidRange));
    assert!(matches!(
        compute_range(15, 3, 5, Some(2), Some((4, 1))),
        Err(AnalysisError::InvalidRange)
    ));
}

#[test]
fn empty_range_yields_no_rows() {
    let mut engine = compute_range(15, 3, 5, None, Some((20, 30))).unwrap();
    assert!(engine.next_row().is_none());
    assert!(engine.rows().is_empty());
}

#[test]
fn largest_n_does_not_overflow() {
    let n = u64::MAX;
    let mut engine = RowEngine::new(n, 3, 5, 1, 2);
    let row = engine.next_row().unwrap();
    assert_eq!(row.b, n - 1);
    assert_eq!(row.m, (n - 1) as u128);
    assert_eq!(row.t, n - 2);
    assert_eq!(row.tn, 1);
    assert_eq!(row.rl, 1);
    let t0 = ((n - 3) / 2) as u128;
    assert_eq!(row.pp, t0 * (t0 + 1));
    assert_eq!(row.pp_mod as u128, (t0 * (t0 + 1)) % n as u128);
}

#[test]
fn tracker_terms_and_observe() {
    let tracker = SequenceTracker::new(3, 5);
    assert_eq!(tracker.terms(), vec![3, 5, 7]);
    let mut tracker = SequenceTracker::new(3, 5);
    assert!(!tracker.observe(1));
    assert!(tracker.observe(3));
    assert!(!tracker.observe(3));
    assert!(tracker.observe(5));
    assert!(tracker.observe(7));
    assert!(!tracker.observe(9));
    assert_eq!(tracker.k, 3);
    assert_eq!(SequenceTracker::new(3, 3).terms(), vec![1, 3, 5]);
}

#[test]
fn row_classes_fifteen() {
    let mut engine = compute_range(15, 3, 5, None, Some((5, 5 + 1))).unwrap();
    let row = engine.next_row().unwrap();
    assert_eq!(row.a, 5);
    assert_eq!(row.b, 10);
    assert!(!row.a_classes.div_p && row.a_classes.div_q);
    assert!(!row.b_classes.div_p && row.b_classes.div_q);
    assert_eq!(row.m, 50);
    assert_eq!(row.t, 5);
    assert!(row.t_classes.div_q);
    assert_eq!(row.rl, 10);
    assert_eq!(row.pp, 6);
    assert!(row.adjacent);
    assert_eq!(row.tn, 9);
    assert!(row.tn_classes.square && row.tn_classes.div_p);
}
