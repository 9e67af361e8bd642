use netflow::path::{
    add_path_if_unique, chain_stays_in_bounds, find_path, has_duplicate_path, symmetric_difference, trace_back, Commodity,
    Path,
};

fn commodity(paths: Vec<Path<f64>>) -> Commodity<f64> {
    Commodity { source: 0, target: 3, demand: 5.0, paths }
}

#[test]
fn new_path_carries_no_flow() {
    let p: Path<f64> = Path::new(vec![4, 1, 7]);
    assert_eq!(p.edges, vec![4, 1, 7]);
    assert_eq!(p.flow, 0.0);
}

#[test]
fn path_with_flow_keeps_both() {
    let p = Path::with_flow(vec![2, 3], 1.5);
    assert_eq!(p.edges, vec![2, 3]);
    assert_eq!(p.flow, 1.5);
}

#[test]
fn path_equality_compares_edges_and_flow() {
    assert!(Path::with_flow(vec![1, 2], 1.0) == Path::with_flow(vec![1, 2], 1.0));
    assert!(Path::with_flow(vec![1, 2], 1.0) != Path::with_flow(vec![1, 2], 2.0));
    assert!(Path::with_flow(vec![1, 2], 1.0) != Path::with_flow(vec![2, 1], 1.0));
}

#[test]
fn duplicate_check_ignores_flow() {
    let paths = vec![Path::with_flow(vec![0, 2], 3.0), Path::with_flow(vec![1], 1.0)];
    assert!(has_duplicate_path(&paths, &Path::new(vec![0, 2])));
    assert!(has_duplicate_path(&paths, &Path::with_flow(vec![1], 9.0)));
    assert!(!has_duplicate_path(&paths, &Path::new(vec![2, 0])));
    assert!(!has_duplicate_path(&paths, &Path::new(vec![0])));
    assert!(!has_duplicate_path(&Vec::new(), &Path::<f64>::new(vec![])));
}

#[test]
fn add_path_appends_new_route() {
    let mut c = commodity(vec![Path::with_flow(vec![0, 2], 3.0)]);
    add_path_if_unique(&mut c, Path::with_flow(vec![1, 4], 2.0));
    assert_eq!(c.paths.len(), 2);
    assert_eq!(c.paths[1].edges, vec![1, 4]);
    assert_eq!(c.paths[1].flow, 2.0);
    assert_eq!(c.source, 0);
    assert_eq!(c.target, 3);
    assert_eq!(c.demand, 5.0);
}

#[test]
fn add_path_skips_known_route() {
    let mut c = commodity(vec![Path::with_flow(vec![0, 2], 3.0)]);
    add_path_if_unique(&mut c, Path::with_flow(vec![0, 2], 7.0));
    assert_eq!(c.paths.len(), 1);
    assert_eq!(c.paths[0].flow, 3.0);
}

#[test]
fn add_path_twice_is_add_once() {
    let mut once = commodity(vec![]);
    add_path_if_unique(&mut once, Path::new(vec![5]));
    let mut twice = commodity(vec![]);
    add_path_if_unique(&mut twice, Path::new(vec![5]));
    add_path_if_unique(&mut twice, Path::with_flow(vec![5], 1.0));
    assert_eq!(once.paths, twice.paths);
    assert!(has_duplicate_path(&twice.paths, &Path::new(vec![5])));
}

#[test]
fn find_path_gives_first_match() {
    let paths = vec![
        Path::with_flow(vec![3], 1.0),
        Path::with_flow(vec![0, 1], 1.0),
        Path::with_flow(vec![0, 1], 2.0),
    ];
    assert_eq!(find_path(&paths, &vec![0, 1]), Some(1));
    assert_eq!(find_path(&paths, &vec![3]), Some(0));
    assert_eq!(find_path(&paths, &vec![1, 0]), None);
}

#[test]
fn symmetric_difference_of_routes() {
    let mut d = symmetric_difference(&vec![1, 2, 3, 2], &vec![3, 4, 4, 5]);
    assert_eq!(d, vec![1, 2, 4, 5]);
    d = symmetric_difference(&vec![3, 4, 4, 5], &vec![1, 2, 3, 2]);
    assert_eq!(d, vec![4, 5, 1, 2]);
    assert!(symmetric_difference(&vec![7, 8], &vec![8, 7]).is_empty());
    assert_eq!(symmetric_difference(&vec![], &vec![6]), vec![6]);
}

#[test]
fn trace_back_follows_links_to_the_root() {
    // 0 -e10-> 2 -e11-> 1 -e12-> 3
    let previous = vec![None, Some((2, 11)), Some((0, 10)), Some((1, 12))];
    assert_eq!(trace_back(&previous, 3), Some(vec![10, 11, 12]));
    assert_eq!(trace_back(&previous, 2), Some(vec![10]));
    assert_eq!(trace_back(&previous, 0), Some(vec![]));
}

#[test]
fn trace_back_stops_on_cycle() {
    let previous = vec![Some((1, 0)), Some((0, 1)), Some((1, 2))];
    assert_eq!(trace_back(&previous, 2), None);
}

#[test]
fn chain_bounds_are_checked() {
    let previous = vec![None, Some((2, 11)), Some((0, 10)), Some((1, 12))];
    assert!(chain_stays_in_bounds(&previous, 3));
    assert!(!chain_stays_in_bounds(&previous, 4));
    let leaving = vec![None, Some((7, 0))];
    assert!(!chain_stays_in_bounds(&leaving, 1));
    assert!(chain_stays_in_bounds(&leaving, 0));
    let cycle = vec![Some((1, 0)), Some((0, 1))];
    assert!(chain_stays_in_bounds(&cycle, 0));
    assert_eq!(trace_back(&cycle, 0), None);
}
