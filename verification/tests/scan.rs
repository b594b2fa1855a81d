use mandelbulb::escape::Classification;
use mandelbulb::escape::Classification::{Exterior, Interior};
use mandelbulb::grid::GridIndex;
use mandelbulb::scan::{Action, Scan};

fn at(i: u32, j: u32, k: u32) -> GridIndex {
    GridIndex { i, j, k }
}

fn sweep_classes(n: u32, class_of: &dyn Fn(GridIndex) -> Classification) -> Vec<GridIndex> {
    let mut scan = Scan::new(n, 20);
    let mut action = scan.action();
    loop {
        match action {
            Action::Begin(idx) => action = scan.record(class_of(idx)),
            Action::Iterate => unreachable!(),
            Action::Finished => break,
        }
    }
    scan.into_points().unwrap()
}

fn expected_points(n: u32, class_of: &dyn Fn(GridIndex) -> Classification) -> Vec<GridIndex> {
    let mut points = Vec::new();
    for i in 0..n {
        for j in 0..n {
            for k in 0..n {
                let inside = class_of(at(i, j, k)) == Interior;
                let before = k > 0 && class_of(at(i, j, k - 1)) == Interior;
                if inside && !before {
                    points.push(at(i, j, k));
                }
            }
        }
    }
    points
}

fn observations_for(n: u32, class_of: &dyn Fn(GridIndex) -> Classification) -> Vec<bool> {
    let mut observations = Vec::new();
    for i in 0..n {
        for j in 0..n {
            for k in 0..n {
                match class_of(at(i, j, k)) {
                    Interior => observations.extend(vec![false; 22]),
                    Exterior => {
                        observations.extend(vec![false; ((i + j + k) % 22) as usize]);
                        observations.push(true);
                    }
                }
            }
        }
    }
    observations
}

fn scrambled(idx: GridIndex) -> Classification {
    let mut h = idx.i.wrapping_mul(73_856_093) ^ idx.j.wrapping_mul(19_349_663)
        ^ idx.k.wrapping_mul(83_492_791);
    h ^= h >> 13;
    h = h.wrapping_mul(0x5bd1_e995);
    h ^= h >> 15;
    if h % 3 == 0 {
        Exterior
    } else {
        Interior
    }
}

#[test]
fn empty_grid_is_finished_at_once() {
    let scan = Scan::new(0, 20);
    assert!(scan.is_finished());
    assert_eq!(scan.action(), Action::Finished);
    assert_eq!(scan.count(), 0);
    assert_eq!(scan.planes_done(), 0);
    assert_eq!(scan.into_points(), Some(vec![]));
}

#[test]
fn empty_grid_ignores_observations() {
    let mut scan = Scan::new(0, 20);
    assert_eq!(scan.observe(false), Action::Finished);
    assert_eq!(scan.observe(true), Action::Finished);
    assert_eq!(scan.record(Interior), Action::Finished);
    assert_eq!(scan.into_points(), Some(vec![]));
}

#[test]
fn single_sample_grid_interior() {
    let mut scan = Scan::new(1, 20);
    assert!(!scan.is_finished());
    assert_eq!(scan.action(), Action::Begin(at(0, 0, 0)));
    for _ in 0..21 {
        assert_eq!(scan.observe(false), Action::Iterate);
        assert_eq!(scan.action(), Action::Iterate);
    }
    assert_eq!(scan.observe(false), Action::Finished);
    assert!(scan.is_finished());
    assert_eq!(scan.count(), 1);
    assert_eq!(scan.planes_done(), 1);
    assert_eq!(scan.into_points(), Some(vec![at(0, 0, 0)]));
}

#[test]
fn single_sample_grid_exterior() {
    let mut scan = Scan::new(1, 20);
    assert_eq!(scan.observe(false), Action::Iterate);
    assert_eq!(scan.observe(true), Action::Finished);
    assert_eq!(scan.count(), 0);
    assert_eq!(scan.into_points(), Some(vec![]));
}

#[test]
fn unfinished_sweep_hands_out_nothing() {
    let mut scan = Scan::new(2, 20);
    assert_eq!(scan.record(Interior), Action::Begin(at(0, 0, 1)));
    assert_eq!(scan.count(), 1);
    assert!(!scan.is_finished());
    assert_eq!(scan.into_points(), None);
}

#[test]
fn samples_come_in_sweep_order() {
    let mut scan = Scan::new(2, 20);
    let mut visited = vec![];
    let mut action = scan.action();
    while let Action::Begin(idx) = action {
        visited.push(idx);
        action = scan.observe(true);
    }
    assert_eq!(action, Action::Finished);
    assert_eq!(
        visited,
        vec![
            at(0, 0, 0),
            at(0, 0, 1),
            at(0, 1, 0),
            at(0, 1, 1),
            at(1, 0, 0),
            at(1, 0, 1),
            at(1, 1, 0),
            at(1, 1, 1),
        ]
    );
    assert_eq!(scan.into_points(), Some(vec![]));
}

#[test]
fn every_sample_is_visited_once() {
    for n in 0..6u32 {
        let mut scan = Scan::new(n, 20);
        let mut visited = vec![];
        let mut action = scan.action();
        while let Action::Begin(idx) = action {
            visited.push(idx);
            action = scan.record(Exterior);
        }
        let mut expected = vec![];
        for i in 0..n {
            for j in 0..n {
                for k in 0..n {
                    expected.push(at(i, j, k));
                }
            }
        }
        assert_eq!(visited, expected);
        assert!(scan.is_finished());
    }
}

#[test]
fn all_exterior_grid_has_no_boundary() {
    assert_eq!(sweep_classes(4, &|_| Exterior), vec![]);
}

#[test]
fn all_interior_grid_has_one_point_per_column() {
    let points = sweep_classes(3, &|_| Interior);
    assert_eq!(
        points,
        vec![
            at(0, 0, 0),
            at(0, 1, 0),
            at(0, 2, 0),
            at(1, 0, 0),
            at(1, 1, 0),
            at(1, 2, 0),
            at(2, 0, 0),
            at(2, 1, 0),
            at(2, 2, 0),
        ]
    );
}

#[test]
fn run_does_not_carry_over_to_next_column() {
    let class_of = |idx: GridIndex| if idx.k == 1 || idx.j == 1 { Interior } else { Exterior };
    let points = sweep_classes(2, &class_of);
    assert_eq!(points, vec![at(0, 0, 1), at(0, 1, 0), at(1, 0, 1), at(1, 1, 0)]);
}

#[test]
fn column_with_one_run_in_grid_of_four() {
    let class_of = |idx: GridIndex| {
        if idx.i == 1 && idx.j == 2 && (idx.k == 1 || idx.k == 2) {
            Interior
        } else {
            Exterior
        }
    };
    let points = sweep_classes(4, &class_of);
    assert_eq!(points, vec![at(1, 2, 1)]);
    let p = points[0].to_domain(4);
    assert_eq!(p.x.numer as f32 / p.x.denom as f32, -0.5);
    assert_eq!(p.y.numer as f32 / p.y.denom as f32, 0.0);
    assert_eq!(p.z.numer as f32 / p.z.denom as f32, -0.5);
}

#[test]
fn column_with_two_runs_in_grid_of_four() {
    let class_of = |idx: GridIndex| {
        if idx.i == 3 && idx.j == 0 && idx.k != 1 {
            Interior
        } else {
            Exterior
        }
    };
    assert_eq!(sweep_classes(4, &class_of), vec![at(3, 0, 0), at(3, 0, 2)]);
}

#[test]
fn scrambled_grid_matches_direct_scan() {
    for n in 0..9u32 {
        assert_eq!(sweep_classes(n, &scrambled), expected_points(n, &scrambled));
    }
}

#[test]
fn points_follow_sweep_order() {
    let points = sweep_classes(8, &scrambled);
    assert!(!points.is_empty());
    for pair in points.windows(2) {
        let a = (pair[0].i, pair[0].j, pair[0].k);
        let b = (pair[1].i, pair[1].j, pair[1].k);
        assert!(a < b);
    }
    for p in &points {
        assert!(p.i < 8 && p.j < 8 && p.k < 8);
    }
}

#[test]
fn observations_decide_the_class() {
    let mut scan = Scan::new(2, 1);
    assert_eq!(scan.action(), Action::Begin(at(0, 0, 0)));
    assert_eq!(scan.observe(false), Action::Iterate);
    assert_eq!(scan.observe(false), Action::Iterate);
    assert_eq!(scan.observe(false), Action::Begin(at(0, 0, 1)));
    assert_eq!(scan.count(), 1);
    assert_eq!(scan.observe(false), Action::Iterate);
    assert_eq!(scan.observe(true), Action::Begin(at(0, 1, 0)));
    assert_eq!(scan.count(), 1);
    assert_eq!(scan.observe(true), Action::Begin(at(0, 1, 1)));
    assert_eq!(scan.observe(false), Action::Iterate);
    assert_eq!(scan.observe(false), Action::Iterate);
    assert_eq!(scan.observe(false), Action::Begin(at(1, 0, 0)));
    assert_eq!(scan.count(), 2);
    assert_eq!(scan.planes_done(), 1);
    for _ in 0..4 {
        scan.observe(true);
    }
    assert!(scan.is_finished());
    assert_eq!(scan.planes_done(), 2);
    assert_eq!(scan.into_points(), Some(vec![at(0, 0, 0), at(0, 1, 1)]));
}

#[test]
fn feed_takes_observations_in_turn() {
    let observations = vec![
        false, false, false, false, true, true, false, false, false, true, true, true, true,
    ];
    let mut fed = Scan::new(2, 1);
    assert_eq!(fed.feed(&observations), Action::Finished);
    let mut stepped = Scan::new(2, 1);
    for escaped in &observations {
        stepped.observe(*escaped);
    }
    assert_eq!(fed.count(), 2);
    assert_eq!(fed.into_points(), Some(vec![at(0, 0, 0), at(0, 1, 1)]));
    assert_eq!(stepped.into_points(), Some(vec![at(0, 0, 0), at(0, 1, 1)]));
}

#[test]
fn feed_of_nothing_changes_nothing() {
    let mut scan = Scan::new(3, 20);
    assert_eq!(scan.feed(&vec![]), Action::Begin(at(0, 0, 0)));
    assert_eq!(scan.feed(&vec![false]), Action::Iterate);
    assert_eq!(scan.feed(&vec![]), Action::Iterate);
}

#[test]
fn record_settles_the_sample_at_hand() {
    let mut scan = Scan::new(2, 20);
    assert_eq!(scan.observe(false), Action::Iterate);
    assert_eq!(scan.record(Exterior), Action::Begin(at(0, 0, 1)));
    assert_eq!(scan.action(), Action::Begin(at(0, 0, 1)));
    assert_eq!(scan.count(), 0);
}

#[test]
fn zero_cap_allows_one_iteration() {
    let mut scan = Scan::new(1, 0);
    assert_eq!(scan.observe(false), Action::Iterate);
    assert_eq!(scan.observe(false), Action::Finished);
    assert_eq!(scan.into_points(), Some(vec![at(0, 0, 0)]));
}

#[test]
fn escaping_grid_of_four_emits_nothing() {
    let mut scan = Scan::new(4, 20);
    for _ in 0..63 {
        assert!(matches!(scan.observe(true), Action::Begin(_)));
    }
    assert_eq!(scan.observe(true), Action::Finished);
    assert_eq!(scan.count(), 0);
    assert_eq!(scan.into_points(), Some(vec![]));
}

#[test]
fn observed_column_with_one_run() {
    let class_of = |idx: GridIndex| {
        if idx.i == 0 && idx.j == 3 && idx.k >= 2 {
            Interior
        } else {
            Exterior
        }
    };
    let mut scan = Scan::new(4, 20);
    assert_eq!(scan.feed(&observations_for(4, &class_of)), Action::Finished);
    assert_eq!(scan.count(), 1);
    let points = scan.into_points().unwrap();
    assert_eq!(points, vec![at(0, 3, 2)]);
    let p = points[0].to_domain(4);
    assert_eq!(p.x, mandelbulb::grid::map(0, 4));
    assert_eq!(p.y, mandelbulb::grid::map(3, 4));
    assert_eq!(p.z, mandelbulb::grid::map(2, 4));
    assert_eq!(p.z.numer as f32 / p.z.denom as f32, 0.0);
}

#[test]
fn observed_column_with_two_runs() {
    let class_of = |idx: GridIndex| {
        if idx.i == 2 && idx.j == 1 && idx.k != 2 {
            Interior
        } else {
            Exterior
        }
    };
    let mut scan = Scan::new(4, 20);
    assert_eq!(scan.feed(&observations_for(4, &class_of)), Action::Finished);
    assert_eq!(scan.into_points(), Some(vec![at(2, 1, 0), at(2, 1, 3)]));
}

#[test]
fn observed_grid_matches_direct_scan() {
    for n in 0..6u32 {
        let mut scan = Scan::new(n, 20);
        assert_eq!(scan.feed(&observations_for(n, &scrambled)), Action::Finished);
        assert_eq!(scan.into_points(), Some(expected_points(n, &scrambled)));
    }
}

#[test]
fn planes_are_counted_as_they_are_left() {
    let mut scan = Scan::new(3, 20);
    let mut last = 0;
    for step in 1..=27u32 {
        scan.record(Interior);
        let planes = scan.planes_done();
        assert!(planes >= last);
        assert_eq!(planes, step / 9);
        last = planes;
    }
    assert_eq!(last, 3);
}

#[test]
fn sweep_ends_within_its_budget() {
    let mut scan = Scan::new(2, 3);
    assert_eq!(scan.feed(&vec![false; 39]), Action::Iterate);
    assert!(!scan.is_finished());
    assert_eq!(scan.feed(&vec![false]), Action::Finished);
    assert!(scan.is_finished());
    assert_eq!(scan.count(), 4);

    let mut quick = Scan::new(2, 3);
    assert_eq!(quick.feed(&vec![true; 8]), Action::Finished);
    assert_eq!(quick.feed(&vec![false; 5]), Action::Finished);
    assert_eq!(quick.count(), 0);
}
