use mandelbulb::column::{scan_column, ColumnScanner};
use mandelbulb::escape::Classification;
use mandelbulb::escape::Classification::{Exterior, Interior};

fn count_maximal_runs(column: &[Classification]) -> usize {
    let mut runs = 0;
    for first in 0..column.len() {
        for last in first..column.len() {
            let all_interior = column[first..=last].iter().all(|c| *c == Interior);
            let open_left = first == 0 || column[first - 1] == Exterior;
            let open_right = last + 1 == column.len() || column[last + 1] == Exterior;
            if all_interior && open_left && open_right {
                runs += 1;
            }
        }
    }
    runs
}

#[test]
fn all_exterior_column_emits_nothing() {
    assert_eq!(scan_column(&vec![Exterior; 4]), Vec::<usize>::new());
}

#[test]
fn single_run_emits_its_first_sample() {
    assert_eq!(scan_column(&vec![Exterior, Interior, Interior, Exterior]), vec![1]);
    assert_eq!(scan_column(&vec![Interior, Interior, Interior, Interior]), vec![0]);
    assert_eq!(scan_column(&vec![Exterior, Exterior, Exterior, Interior]), vec![3]);
    let z = mandelbulb::grid::map(1, 4);
    assert_eq!(z.numer as f32 / z.denom as f32, -0.5);
}

#[test]
fn two_separated_runs_emit_two_points() {
    assert_eq!(scan_column(&vec![Interior, Exterior, Interior, Interior]), vec![0, 2]);
    assert_eq!(scan_column(&vec![Exterior, Interior, Exterior, Interior]), vec![1, 3]);
    assert_eq!(scan_column(&vec![Interior, Exterior, Exterior, Interior]), vec![0, 3]);
}

#[test]
fn empty_column_emits_nothing() {
    assert_eq!(scan_column(&vec![]), Vec::<usize>::new());
}

#[test]
fn one_sample_column() {
    assert_eq!(scan_column(&vec![Interior]), vec![0]);
    assert_eq!(scan_column(&vec![Exterior]), Vec::<usize>::new());
}

#[test]
fn one_point_per_maximal_run() {
    for len in 0..=10usize {
        for bits in 0..(1u32 << len) {
            let column: Vec<Classification> = (0..len)
                .map(|k| if bits >> k & 1 == 1 { Interior } else { Exterior })
                .collect();
            let emitted = scan_column(&column);
            assert_eq!(emitted.len(), count_maximal_runs(&column));
            for pair in emitted.windows(2) {
                assert!(pair[0] < pair[1]);
            }
            for k in 0..len {
                let starts = column[k] == Interior && (k == 0 || column[k - 1] == Exterior);
                assert_eq!(emitted.contains(&k), starts);
            }
        }
    }
}

#[test]
fn scanner_rearms_on_exterior() {
    let mut scanner = ColumnScanner::new();
    assert!(!scanner.inside_run);
    assert!(!scanner.observe(Exterior));
    assert!(!scanner.inside_run);
    assert!(scanner.observe(Interior));
    assert!(scanner.inside_run);
    assert!(!scanner.observe(Interior));
    assert!(scanner.inside_run);
    assert!(!scanner.observe(Exterior));
    assert!(!scanner.inside_run);
    assert!(scanner.observe(Interior));
    assert!(scanner.inside_run);
}
