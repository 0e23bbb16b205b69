use nadi_gis::edges::{edges_from_lines, edges_from_pts, line_ends, EdgeError};
use nadi_gis::streams::{network_nodes, PointSet, Streams};
use nadi_gis::types::Point2D;

fn pt(x: f64, y: f64) -> Point2D {
    Point2D::new2((x.to_bits(), y.to_bits())).unwrap()
}

fn line(n: usize) -> Vec<Point2D> {
    (0..n).map(|i| pt(i as f64, 0.0)).collect()
}

#[test]
fn stride_one_keeps_every_vertex() {
    for n in 2..12 {
        let pts = line(n);
        let edges = edges_from_pts(&pts, 1).unwrap();
        assert_eq!(edges.len(), n - 1);
        let mut back = vec![edges[0].0];
        for e in &edges {
            back.push(e.1);
        }
        assert_eq!(back, pts);
        for (i, e) in edges.iter().enumerate() {
            assert_eq!(*e, (pts[i], pts[i + 1]));
        }
    }
}

#[test]
fn two_vertices_make_one_edge_for_any_stride() {
    let pts = line(2);
    for take in [1usize, 2, 3, 100, usize::MAX] {
        assert_eq!(edges_from_pts(&pts, take).unwrap(), vec![(pts[0], pts[1])]);
    }
}

#[test]
fn stride_three_on_ten_vertices() {
    let pts = line(10);
    let edges = edges_from_pts(&pts, 3).unwrap();
    assert_eq!(edges, vec![(pts[0], pts[1]), (pts[1], pts[4]), (pts[4], pts[9])]);
}

#[test]
fn stride_two_on_six_vertices() {
    let pts = line(6);
    let edges = edges_from_pts(&pts, 2).unwrap();
    assert_eq!(edges, vec![(pts[0], pts[1]), (pts[1], pts[3]), (pts[3], pts[5])]);
}

#[test]
fn a_stride_beyond_the_line_joins_its_ends() {
    let pts = line(7);
    assert_eq!(edges_from_pts(&pts, 6).unwrap(), vec![(pts[0], pts[6])]);
    assert_eq!(edges_from_pts(&pts, 5).unwrap(), vec![(pts[0], pts[1]), (pts[1], pts[6])]);
}

#[test]
fn edges_form_a_chain_from_first_to_last() {
    for n in 2..15 {
        for take in 1..8 {
            let pts = line(n);
            let edges = edges_from_pts(&pts, take).unwrap();
            assert_eq!(edges.len(), (n - 2) / take + 1);
            assert_eq!(edges[0].0, pts[0]);
            assert_eq!(edges[edges.len() - 1].1, pts[n - 1]);
            for w in edges.windows(2) {
                assert_eq!(w[0].1, w[1].0);
            }
        }
    }
}

#[test]
fn a_single_vertex_is_no_line() {
    assert_eq!(edges_from_pts(&line(1), 1), Err(EdgeError::TooFewVertices));
    assert_eq!(edges_from_pts(&line(0), 1), Err(EdgeError::TooFewVertices));
    assert_eq!(edges_from_pts(&line(1), 5), Err(EdgeError::TooFewVertices));
}

#[test]
fn lines_give_their_edges_one_after_the_other() {
    let a = vec![pt(0.0, 0.0), pt(1.0, 0.0), pt(2.0, 0.0)];
    let b = vec![pt(5.0, 5.0), pt(2.0, 0.0)];
    let edges = edges_from_lines(&vec![a.clone(), b.clone()], 1).unwrap();
    assert_eq!(edges, vec![(a[0], a[1]), (a[1], a[2]), (b[0], b[1])]);
    assert_eq!(edges_from_lines(&Vec::new(), 1).unwrap(), Vec::new());
    assert_eq!(
        edges_from_lines(&vec![a.clone(), vec![pt(9.0, 9.0)], b.clone()], 1),
        Err(EdgeError::TooFewVertices)
    );
}

#[test]
fn line_ends_join_first_and_last() {
    let a = vec![pt(0.0, 0.0), pt(1.0, 0.0), pt(2.0, 0.0)];
    let b = vec![pt(5.0, 5.0), pt(2.0, 0.0)];
    assert_eq!(line_ends(&vec![a.clone(), b.clone()]).unwrap(), vec![(a[0], a[2]), (b[0], b[1])]);
    assert_eq!(line_ends(&vec![a, vec![pt(1.0, 1.0)]]), Err(EdgeError::TooFewVertices));
    assert_eq!(line_ends(&vec![Vec::new()]), Err(EdgeError::TooFewVertices));
}

#[test]
fn the_table_keeps_the_first_edge_that_leaves_a_node() {
    let a = pt(0.0, 0.0);
    let b = pt(1.0, 0.0);
    let c = pt(2.0, 0.0);
    let table = Streams::from_edges(&vec![(a, b), (a, c), (b, c)]);
    assert_eq!(table.get(&a), Some(b));
    assert_eq!(table.get(&b), Some(c));
    assert_eq!(table.get(&c), None);
    assert!(table.contains(&a));
    assert!(!table.contains(&c));
}

#[test]
fn insert_replaces_an_entry() {
    let a = pt(0.0, 0.0);
    let b = pt(1.0, 0.0);
    let c = pt(2.0, 0.0);
    let mut table = Streams::new();
    assert_eq!(table.get(&a), None);
    table.insert(a, b);
    table.insert(a, c);
    assert_eq!(table.get(&a), Some(c));
}

#[test]
fn nodes_of_the_network_come_once() {
    let a = pt(0.0, 0.0);
    let b = pt(1.0, 0.0);
    let c = pt(2.0, 0.0);
    let d = pt(3.0, 0.0);
    let nodes = network_nodes(&vec![(a, b), (b, c), (a, d), (c, b)]);
    assert_eq!(nodes, vec![a, b, c]);
    assert_eq!(network_nodes(&Vec::new()), Vec::new());
}

#[test]
fn a_point_set_holds_what_was_put_in() {
    let a = pt(0.0, 0.0);
    let b = pt(1.0, 0.0);
    let c = pt(0.0, 1.0);
    let mut set = PointSet::new();
    assert!(!set.contains(&a));
    assert!(set.insert(a));
    assert!(!set.insert(a));
    assert!(set.contains(&a));
    assert!(!set.contains(&b));
    let other = PointSet::from_points(&vec![b, c, b]);
    assert!(other.contains(&b) && other.contains(&c) && !other.contains(&a));
}
