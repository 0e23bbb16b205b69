use nadi_gis::order::{find_sources, stream_order};
use nadi_gis::types::Point2D;

fn pt(x: f64, y: f64) -> Point2D {
    Point2D::new2((x.to_bits(), y.to_bits())).unwrap()
}

#[test]
fn a_chain_has_order_one_throughout() {
    let p: Vec<Point2D> = (0..5).map(|i| pt(i as f64, 0.0)).collect();
    let edges = vec![(p[0], p[1]), (p[1], p[2]), (p[2], p[3]), (p[3], p[4])];
    let report = stream_order(&edges, 100);
    assert_eq!(report.orders, vec![1, 1, 1, 1]);
    assert!(report.cut.is_empty());
}

#[test]
fn the_edge_before_the_outlet_counts_every_source() {
    // three sources s1, s2, s3; s1 and s2 meet at j1; j1 and s3 meet at j2;
    // j2 -> last -> outlet
    let s1 = pt(0.0, 2.0);
    let s2 = pt(0.0, 1.0);
    let s3 = pt(0.0, 0.0);
    let j1 = pt(1.0, 1.0);
    let j2 = pt(2.0, 0.0);
    let last = pt(3.0, 0.0);
    let outlet = pt(4.0, 0.0);
    let edges = vec![(j2, last), (s1, j1), (last, outlet), (s2, j1), (j1, j2), (s3, j2)];
    let report = stream_order(&edges, 1000);
    assert_eq!(report.orders, vec![3, 1, 3, 1, 2, 1]);
    assert!(report.cut.is_empty());
}

#[test]
fn a_dropped_edge_has_order_zero() {
    let a = pt(0.0, 0.0);
    let b = pt(1.0, 0.0);
    let c = pt(2.0, 0.0);
    let d = pt(3.0, 0.0);
    // of the two edges that leave a, the first is kept
    let edges = vec![(a, b), (a, c), (b, d), (c, d)];
    let report = stream_order(&edges, 10);
    // c is entered by the dropped edge, so it is no source
    assert_eq!(report.orders, vec![1, 0, 1, 0]);
}

#[test]
fn the_same_edge_twice_has_the_same_order_twice() {
    let a = pt(0.0, 0.0);
    let b = pt(1.0, 0.0);
    let report = stream_order(&vec![(a, b), (a, b)], 10);
    assert_eq!(report.orders, vec![1, 1]);
}

#[test]
fn a_walk_into_a_cycle_is_cut_at_the_bound() {
    let s = pt(0.0, 0.0);
    let a = pt(1.0, 0.0);
    let b = pt(2.0, 0.0);
    // s -> a -> b -> a -> ...
    let edges = vec![(s, a), (a, b), (b, a)];
    let report = stream_order(&edges, 5);
    // hops: s-a, a-b, b-a, a-b, b-a
    assert_eq!(report.orders, vec![1, 2, 2]);
    assert_eq!(report.cut, vec![s]);
}

#[test]
fn a_network_without_sources_has_order_zero() {
    let a = pt(1.0, 0.0);
    let b = pt(2.0, 0.0);
    let report = stream_order(&vec![(a, b), (b, a)], 5);
    assert_eq!(report.orders, vec![0, 0]);
    assert!(report.cut.is_empty());
}

#[test]
fn a_bound_of_zero_hops_counts_nothing() {
    let a = pt(1.0, 0.0);
    let b = pt(2.0, 0.0);
    let report = stream_order(&vec![(a, b)], 0);
    assert_eq!(report.orders, vec![0]);
    assert_eq!(report.cut, vec![a]);
}

#[test]
fn a_walk_that_ends_at_the_bound_is_not_cut() {
    let a = pt(1.0, 0.0);
    let b = pt(2.0, 0.0);
    let c = pt(3.0, 0.0);
    let report = stream_order(&vec![(a, b), (b, c)], 2);
    assert_eq!(report.orders, vec![1, 1]);
    assert!(report.cut.is_empty());
    let short = stream_order(&vec![(a, b), (b, c)], 1);
    assert_eq!(short.orders, vec![1, 0]);
    assert_eq!(short.cut, vec![a]);
}

#[test]
fn no_edges_no_orders() {
    let report = stream_order(&Vec::new(), 10);
    assert!(report.orders.is_empty());
    assert!(report.cut.is_empty());
}

#[test]
fn order_is_the_number_of_sources_that_pass() {
    // a comb: sources enter a spine at every node
    let n = 20;
    let spine: Vec<Point2D> = (0..=n).map(|i| pt(i as f64, 0.0)).collect();
    let mut edges = Vec::new();
    for i in 0..n {
        edges.push((pt(i as f64, 1.0), spine[i]));
    }
    for i in 0..n {
        edges.push((spine[i], spine[i + 1]));
    }
    let report = stream_order(&edges, 1000);
    for i in 0..n {
        assert_eq!(report.orders[i], 1);
        assert_eq!(report.orders[n + i], i + 1);
    }
}

#[test]
fn sources_are_the_nodes_that_nothing_enters() {
    let s1 = pt(0.0, 2.0);
    let s2 = pt(0.0, 1.0);
    let j = pt(1.0, 1.0);
    let o = pt(2.0, 1.0);
    let edges = vec![(j, o), (s2, j), (s1, j), (s2, j), (s2, o)];
    assert_eq!(find_sources(&edges), vec![s2, s1]);
    assert_eq!(find_sources(&vec![(j, o), (o, j)]), Vec::new());
    assert_eq!(find_sources(&Vec::new()), Vec::new());
    // the edge before the outlet counts them all
    let report = stream_order(&vec![(s1, j), (s2, j), (j, o)], 10);
    assert_eq!(report.orders[2], find_sources(&vec![(s1, j), (s2, j), (j, o)]).len());
}

// A small generator of numbers, the same on every run.
fn next(seed: &mut u64) -> u64 {
    *seed = seed.wrapping_mul(6364136223846793005).wrapping_add(1442695040888963407);
    *seed >> 33
}

#[test]
fn orders_agree_with_walking_every_source_by_hand() {
    let mut seed = 7u64;
    for round in 0..60 {
        let nodes = 3 + (next(&mut seed) % 12) as usize;
        let count = 1 + (next(&mut seed) % 25) as usize;
        let hops = (next(&mut seed) % 30) as usize;
        let p: Vec<Point2D> = (0..nodes).map(|i| pt(i as f64, round as f64)).collect();
        let edges: Vec<(Point2D, Point2D)> = (0..count)
            .map(|_| {
                let a = (next(&mut seed) as usize) % nodes;
                let b = (next(&mut seed) as usize) % nodes;
                (p[a], p[b])
            })
            .collect();
        // the table keeps the first edge that leaves a node
        let down = |n: &Point2D| edges.iter().find(|e| e.0 == *n).map(|e| e.1);
        let mut sources: Vec<Point2D> = Vec::new();
        for e in &edges {
            if !edges.iter().any(|x| x.1 == e.0) && !sources.contains(&e.0) {
                sources.push(e.0);
            }
        }
        let mut expected = vec![0usize; edges.len()];
        let mut cut = Vec::new();
        for s in &sources {
            let mut at = *s;
            let mut done = 0;
            while done < hops {
                match down(&at) {
                    Some(to) => {
                        for (i, e) in edges.iter().enumerate() {
                            if *e == (at, to) {
                                expected[i] += 1;
                            }
                        }
                        at = to;
                        done += 1;
                    }
                    None => break,
                }
            }
            if done == hops && down(&at).is_some() {
                cut.push(*s);
            }
        }
        let report = stream_order(&edges, hops);
        assert_eq!(report.orders, expected);
        assert_eq!(report.cut, cut);
        assert_eq!(find_sources(&edges), sources);
    }
}

#[test]
fn the_orders_of_the_edges_into_the_outlet_add_up_to_the_sources() {
    let s1 = pt(0.0, 2.0);
    let s2 = pt(0.0, 1.0);
    let s3 = pt(0.0, 0.0);
    let j = pt(1.0, 1.0);
    let o = pt(2.0, 1.0);
    // s1 and s2 meet at j; j and s3 enter the outlet by two edges
    let edges = vec![(s1, j), (s2, j), (j, o), (s3, o)];
    let report = stream_order(&edges, edges.len());
    assert_eq!(report.orders, vec![1, 1, 2, 1]);
    let into: usize = edges.iter().zip(&report.orders).filter(|(e, _)| e.1 == o).map(|(_, n)| *n).sum();
    assert_eq!(into, find_sources(&edges).len());
    assert!(report.cut.is_empty());
}
