use mandelbulb::collector::BoundaryCollector;
use mandelbulb::grid::GridIndex;

#[test]
fn new_collector_is_empty() {
    let collector = BoundaryCollector::new();
    assert_eq!(collector.count(), 0);
    assert_eq!(collector.into_points(), Vec::<GridIndex>::new());
}

#[test]
fn append_keeps_order_and_duplicates() {
    let a = GridIndex { i: 1, j: 2, k: 3 };
    let b = GridIndex { i: 0, j: 0, k: 0 };
    let mut collector = BoundaryCollector::new();
    collector.append(a);
    assert_eq!(collector.count(), 1);
    collector.append(b);
    collector.append(a);
    assert_eq!(collector.count(), 3);
    assert_eq!(collector.into_points(), vec![a, b, a]);
}
