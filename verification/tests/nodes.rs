use nadi_gis::nodes::classify_nodes;
use nadi_gis::types::Point2D;

fn pt(x: f64, y: f64) -> Point2D {
    Point2D::new2((x.to_bits(), y.to_bits())).unwrap()
}

fn sorted(mut v: Vec<Point2D>) -> Vec<(u64, u64)> {
    let mut out: Vec<(u64, u64)> = v.drain(..).map(|p| p.coord2()).collect();
    out.sort();
    out
}

#[test]
fn a_tree_has_one_outlet_and_no_branch() {
    let s1 = pt(0.0, 2.0);
    let s2 = pt(0.0, 1.0);
    let j = pt(1.0, 1.0);
    let o = pt(2.0, 1.0);
    let lines = vec![vec![s1, pt(0.5, 1.5), j], vec![s2, j], vec![j, o]];
    let report = classify_nodes(&lines);
    assert_eq!(report.outlets, vec![o]);
    assert!(report.branches.is_empty());
    assert_eq!(report.confluences, vec![j]);
    assert_eq!(sorted(report.origins.clone()), sorted(vec![s1, s2]));
    assert_eq!(report.points, 0);
    assert!(report.is_valid());
}

#[test]
fn a_fork_is_a_branch() {
    let a = pt(0.0, 0.0);
    let b = pt(1.0, 0.0);
    let c = pt(2.0, 0.0);
    let e = pt(2.0, 1.0);
    let lines = vec![vec![a, b], vec![b, c], vec![b, e], vec![b, pt(3.0, 3.0)]];
    let report = classify_nodes(&lines);
    assert_eq!(report.branches, vec![b]);
    assert_eq!(report.outlets.len(), 3);
    assert_eq!(report.origins, vec![a]);
    assert!(report.confluences.is_empty());
    assert!(!report.is_valid());
}

#[test]
fn a_point_counts_as_a_start_only() {
    let a = pt(0.0, 0.0);
    let b = pt(1.0, 0.0);
    let lines = vec![vec![a, b], vec![b], vec![], vec![a]];
    let report = classify_nodes(&lines);
    assert_eq!(report.points, 2);
    // b starts a geometry, so it is no outlet; a starts two
    assert!(report.outlets.is_empty());
    assert_eq!(report.branches, vec![a]);
    assert_eq!(report.origins, vec![a]);
    assert!(!report.is_valid());
}

#[test]
fn a_ring_has_neither_outlet_nor_origin() {
    let a = pt(0.0, 0.0);
    let b = pt(1.0, 0.0);
    let report = classify_nodes(&vec![vec![a, b], vec![b, a]]);
    assert!(report.outlets.is_empty() && report.origins.is_empty());
    assert!(report.branches.is_empty() && report.confluences.is_empty());
    let none = classify_nodes(&Vec::new());
    assert!(none.outlets.is_empty() && none.points == 0);
}

#[test]
fn each_node_is_listed_once() {
    let s: Vec<Point2D> = (0..4).map(|i| pt(i as f64, 5.0)).collect();
    let j = pt(9.0, 9.0);
    let lines: Vec<Vec<Point2D>> = s.iter().map(|p| vec![*p, j]).collect();
    let report = classify_nodes(&lines);
    assert_eq!(report.confluences, vec![j]);
    assert_eq!(report.outlets, vec![j]);
    assert_eq!(report.origins.len(), 4);
}
