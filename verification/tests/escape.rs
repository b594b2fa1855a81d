use mandelbulb::escape::{classify, Classification, EscapeIterator};

#[test]
fn escape_on_first_iterate_is_exterior() {
    let mut it = EscapeIterator::new(20);
    assert_eq!(it.max_iter(), 20);
    assert_eq!(it.verdict(), None);
    assert_eq!(it.observe(true), Some(Classification::Exterior));
    assert_eq!(it.verdict(), Some(Classification::Exterior));
    assert_eq!(it.iterations(), 0);
}

#[test]
fn bounded_sample_is_interior_after_budget() {
    let mut it = EscapeIterator::new(20);
    for t in 0..21u64 {
        assert_eq!(it.observe(false), None);
        assert_eq!(it.iterations(), t + 1);
    }
    assert_eq!(it.observe(false), Some(Classification::Interior));
    assert_eq!(it.iterations(), 21);
}

#[test]
fn escape_on_last_iterate_is_exterior() {
    let mut it = EscapeIterator::new(20);
    for _ in 0..21 {
        assert_eq!(it.observe(false), None);
    }
    assert_eq!(it.observe(true), Some(Classification::Exterior));
    assert_eq!(it.iterations(), 21);
}

#[test]
fn iterations_stay_within_budget() {
    for max_iter in [0u32, 1, 5, 20, 100] {
        let mut it = EscapeIterator::new(max_iter);
        let mut advances: u64 = 0;
        loop {
            match it.observe(false) {
                None => advances += 1,
                Some(class) => {
                    assert_eq!(class, Classification::Interior);
                    break;
                }
            }
            assert!(advances <= max_iter as u64 + 1);
        }
        assert_eq!(advances, max_iter as u64 + 1);
        assert_eq!(it.iterations(), max_iter as u64 + 1);
    }
}

#[test]
fn verdict_is_kept() {
    let mut it = EscapeIterator::new(3);
    assert_eq!(it.observe(false), None);
    assert_eq!(it.observe(true), Some(Classification::Exterior));
    assert_eq!(it.observe(false), Some(Classification::Exterior));
    assert_eq!(it.observe(true), Some(Classification::Exterior));
    assert_eq!(it.iterations(), 1);

    let mut it = EscapeIterator::new(0);
    assert_eq!(it.observe(false), None);
    assert_eq!(it.observe(false), Some(Classification::Interior));
    assert_eq!(it.observe(true), Some(Classification::Interior));
    assert_eq!(it.iterations(), 1);
}

#[test]
fn largest_cap_does_not_overflow() {
    let mut it = EscapeIterator::new(u32::MAX);
    for t in 0..1000u64 {
        assert_eq!(it.observe(false), None);
        assert_eq!(it.iterations(), t + 1);
    }
    assert_eq!(it.observe(true), Some(Classification::Exterior));
}

#[test]
fn classify_reads_the_trace() {
    assert_eq!(classify(20, &vec![true]), Some(Classification::Exterior));
    assert_eq!(classify(20, &vec![false, false, true]), Some(Classification::Exterior));
    assert_eq!(classify(20, &vec![false; 22]), Some(Classification::Interior));
    assert_eq!(classify(20, &vec![false; 40]), Some(Classification::Interior));
}

#[test]
fn classify_is_undecided_on_short_traces() {
    assert_eq!(classify(20, &vec![]), None);
    assert_eq!(classify(20, &vec![false]), None);
    assert_eq!(classify(20, &vec![false; 21]), None);
    assert_eq!(classify(0, &vec![false]), None);
    assert_eq!(classify(0, &vec![false, false]), Some(Classification::Interior));
}

#[test]
fn classify_ignores_what_follows_the_verdict() {
    let mut late = vec![false; 22];
    late.push(true);
    assert_eq!(classify(20, &late), Some(Classification::Interior));
    let mut last = vec![false; 21];
    last.push(true);
    assert_eq!(classify(20, &last), Some(Classification::Exterior));
    assert_eq!(classify(0, &vec![false, true]), Some(Classification::Exterior));
    assert_eq!(classify(0, &vec![false, false, true]), Some(Classification::Interior));
}
