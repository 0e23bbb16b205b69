use nadi_gis::names::{insert_name, is_name_le};
use nadi_gis::network::{connections, group_by_node, Points};
use nadi_gis::outlet::{find_outlet, EdgeLog};
use nadi_gis::streams::{PointSet, Streams};
use nadi_gis::types::Point2D;

fn pt(x: f64, y: f64) -> Point2D {
    Point2D::new2((x.to_bits(), y.to_bits())).unwrap()
}

fn named(list: &[(&str, Point2D)]) -> Points {
    Points(list.iter().map(|(n, p)| (n.to_string(), *p)).collect())
}

fn texts(list: &[&str]) -> Vec<String> {
    list.iter().map(|s| s.to_string()).collect()
}

// The network A -> B -> C -> D.
fn chain() -> (Point2D, Point2D, Point2D, Point2D, Streams) {
    let a = pt(0.0, 0.0);
    let b = pt(1.0, 0.0);
    let c = pt(2.0, 0.0);
    let d = pt(3.0, 0.0);
    let table = Streams::from_edges(&vec![(a, b), (b, c), (c, d)]);
    (a, b, c, d, table)
}

#[test]
fn the_outlet_is_the_first_point_of_interest_downstream() {
    let (a, b, _c, d, table) = chain();
    let pois = PointSet::from_points(&vec![b, d]);
    let mut log = EdgeLog::new();
    assert_eq!(find_outlet(&a, &pois, &table, 100, &mut log, false), Some(b));
}

#[test]
fn a_point_of_interest_is_not_its_own_outlet() {
    let (_a, b, _c, d, table) = chain();
    let pois = PointSet::from_points(&vec![b, d]);
    let mut log = EdgeLog::new();
    assert_eq!(find_outlet(&b, &pois, &table, 100, &mut log, false), Some(d));
}

#[test]
fn the_last_node_has_no_outlet() {
    let (_a, b, _c, d, table) = chain();
    let pois = PointSet::from_points(&vec![b, d]);
    let mut log = EdgeLog::new();
    assert_eq!(find_outlet(&d, &pois, &table, 100, &mut log, false), None);
    assert_eq!(log.len(), 0);
}

#[test]
fn the_search_stops_at_its_bound() {
    let (_a, b, c, d, table) = chain();
    let pois = PointSet::from_points(&vec![b, d]);
    let mut log = EdgeLog::new();
    assert_eq!(find_outlet(&b, &pois, &table, 1, &mut log, false), None);
    assert_eq!(log.into_edges(), vec![(b, c)]);
    let mut log = EdgeLog::new();
    assert_eq!(find_outlet(&b, &pois, &table, 2, &mut log, false), Some(d));
    assert_eq!(log.into_edges(), vec![(b, c), (c, d)]);
    let mut log = EdgeLog::new();
    assert_eq!(find_outlet(&b, &pois, &table, 0, &mut log, false), None);
    assert_eq!(log.len(), 0);
}

#[test]
fn with_endpoints_only_the_connection_is_recorded() {
    let (_a, b, _c, d, table) = chain();
    let pois = PointSet::from_points(&vec![b, d]);
    let mut log = EdgeLog::new();
    assert_eq!(find_outlet(&b, &pois, &table, 100, &mut log, true), Some(d));
    assert_eq!(find_outlet(&d, &pois, &table, 100, &mut log, true), None);
    assert_eq!(log.into_edges(), vec![(b, d)]);
}

#[test]
fn a_search_without_outlet_still_records_its_edges() {
    let (a, _b, c, d, table) = chain();
    let b = pt(1.0, 0.0);
    let pois = PointSet::from_points(&vec![a]);
    let mut log = EdgeLog::new();
    assert_eq!(find_outlet(&a, &pois, &table, 100, &mut log, false), None);
    assert_eq!(log.into_edges(), vec![(a, b), (b, c), (c, d)]);
}

#[test]
fn an_edge_is_recorded_once() {
    let x = pt(0.0, 1.0);
    let (a, b, c, d, _) = chain();
    let table = Streams::from_edges(&vec![(a, b), (x, b), (b, c), (c, d)]);
    let pois = PointSet::from_points(&vec![a, x, d]);
    let mut log = EdgeLog::new();
    assert_eq!(find_outlet(&a, &pois, &table, 100, &mut log, false), Some(d));
    assert_eq!(find_outlet(&x, &pois, &table, 100, &mut log, false), Some(d));
    assert_eq!(log.into_edges(), vec![(a, b), (b, c), (c, d), (x, b)]);
}

#[test]
fn the_log_keeps_one_edge_for_each_start() {
    let (a, b, c, _d, _) = chain();
    let mut log = EdgeLog::new();
    log.record(a, b);
    log.record(a, c);
    log.record(b, c);
    log.record(a, b);
    assert_eq!(log.len(), 2);
    assert_eq!(log.into_edges(), vec![(a, b), (b, c)]);
}

#[test]
fn identifiers_compare_as_strings_do() {
    let words = ["", "a", "A", "ab", "abc", "b", "10", "9", "é", "z", "zz", "日本", "a\u{10000}", "a\u{ffff}"];
    for x in words {
        for y in words {
            assert_eq!(is_name_le(x, y), x <= y);
        }
    }
}

#[test]
fn names_enter_in_order() {
    let mut names: Vec<String> = Vec::new();
    for n in ["m", "b", "z", "a", "m", "ab", ""] {
        insert_name(&mut names, n.to_string());
    }
    assert_eq!(names, texts(&["", "a", "ab", "b", "m", "m", "z"]));
}

#[test]
fn points_on_one_node_are_grouped_in_order() {
    let p = pt(1.0, 1.0);
    let q = pt(2.0, 2.0);
    let points = named(&[("s3", p), ("t1", q), ("s1", p), ("s2", p)]);
    let groups = group_by_node(&points);
    assert_eq!(groups.len(), 2);
    assert_eq!(groups[0].node, p);
    assert_eq!(groups[0].names, texts(&["s1", "s2", "s3"]));
    assert_eq!(groups[1].node, q);
    assert_eq!(groups[1].names, texts(&["t1"]));
    assert_eq!(group_by_node(&Points(Vec::new())).len(), 0);
}

#[test]
fn grouping_does_not_depend_on_the_order_of_the_points() {
    let p = pt(1.0, 1.0);
    let one = group_by_node(&named(&[("c", p), ("a", p), ("b", p)]));
    let two = group_by_node(&named(&[("b", p), ("c", p), ("a", p)]));
    assert_eq!(one[0].names, two[0].names);
    assert_eq!(one[0].names, texts(&["a", "b", "c"]));
}

#[test]
fn connections_join_each_point_to_the_next_downstream() {
    let (a, b, _c, d, table) = chain();
    let points = named(&[("pa", a), ("pb", b), ("pd", d)]);
    let net = connections(&points, &table, 100000, false);
    assert_eq!(
        net.edges,
        vec![("pa".to_string(), "pb".to_string()), ("pb".to_string(), "pd".to_string())]
    );
    assert_eq!(net.outlets, vec![("pd".to_string(), d)]);
    assert_eq!(net.touched, vec![(a, b), (b, pt(2.0, 0.0)), (pt(2.0, 0.0), d)]);
}

#[test]
fn connections_with_endpoints_touch_only_the_connections() {
    let (a, b, _c, d, table) = chain();
    let points = named(&[("pa", a), ("pb", b), ("pd", d)]);
    let net = connections(&points, &table, 100000, true);
    assert_eq!(net.touched, vec![(a, b), (b, d)]);
    assert_eq!(net.edges.len(), 2);
}

#[test]
fn points_on_one_node_are_chained() {
    let (a, b, _c, d, table) = chain();
    let points = named(&[("b2", b), ("a1", a), ("b1", b), ("d1", d), ("b3", b)]);
    let net = connections(&points, &table, 100000, false);
    let pair = |x: &str, y: &str| (x.to_string(), y.to_string());
    assert_eq!(
        net.edges,
        vec![
            pair("b1", "b2"),
            pair("b2", "b3"),
            pair("b3", "d1"),
            pair("a1", "b1"),
        ]
    );
    assert_eq!(net.outlets, vec![("d1".to_string(), d)]);
}

#[test]
fn without_points_there_is_nothing_to_connect() {
    let (_a, _b, _c, _d, table) = chain();
    let net = connections(&Points(Vec::new()), &table, 10, false);
    assert!(net.edges.is_empty() && net.outlets.is_empty() && net.touched.is_empty());
}

#[test]
fn a_point_off_the_network_is_an_outlet() {
    let (a, b, _c, _d, table) = chain();
    let off = pt(9.0, 9.0);
    let net = connections(&named(&[("x", off), ("pa", a), ("pb", b)]), &table, 10, false);
    assert_eq!(net.edges, vec![("pa".to_string(), "pb".to_string())]);
    assert_eq!(net.outlets, vec![("x".to_string(), off), ("pb".to_string(), b)]);
}

#[test]
fn many_names_enter_in_the_order_of_a_sort() {
    let mut seed = 99u64;
    let mut names: Vec<String> = Vec::new();
    let mut given: Vec<String> = Vec::new();
    for _ in 0..300 {
        seed = seed.wrapping_mul(6364136223846793005).wrapping_add(1442695040888963407);
        let len = (seed >> 60) as usize;
        let mut word = String::new();
        let mut x = seed >> 8;
        for _ in 0..len {
            word.push(['a', 'b', 'Z', '0', ' ', 'é', '水'][(x % 7) as usize]);
            x /= 7;
        }
        given.push(word.clone());
        insert_name(&mut names, word);
    }
    given.sort();
    assert_eq!(names, given);
}

#[test]
fn repeated_identifiers_are_found() {
    let p = pt(1.0, 1.0);
    let q = pt(2.0, 2.0);
    assert_eq!(named(&[("a", p), ("b", q), ("c", p)]).repeated_name(), None);
    assert_eq!(named(&[]).repeated_name(), None);
    assert_eq!(named(&[("a", p), ("b", q), ("a", q), ("b", p)]).repeated_name(), Some((0, 2)));
    assert_eq!(named(&[("a", p), ("b", q), ("b", q), ("b", p), ("a", p)]).repeated_name(), Some((1, 2)));
}
