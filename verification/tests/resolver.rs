use nadi_gis::coordinator::{resolve_all, Coordinator, Reaction};
use nadi_gis::resolver::{run_walk, Message, Resolution, Walk, Window, MAX_ITER};
use nadi_gis::streams::PointSet;
use nadi_gis::types::Point2D;

const EPSILON: f64 = 0.0000005;

fn pt(x: f64, y: f64) -> Point2D {
    Point2D::new2((x.to_bits(), y.to_bits())).unwrap()
}

fn xy(p: &Point2D) -> (f64, f64) {
    let (x, y) = p.coord2();
    (f64::from_bits(x), f64::from_bits(y))
}

fn window_at(at: &Point2D) -> Window {
    let (x, y) = xy(at);
    Window { low: pt(x - EPSILON, y - EPSILON), high: pt(x + EPSILON, y + EPSILON) }
}

fn inside(at: &Point2D, p: &Point2D) -> bool {
    let (x, y) = xy(at);
    let (px, py) = xy(p);
    px >= x - EPSILON && px <= x + EPSILON && py >= y - EPSILON && py <= y + EPSILON
}

// A store of lines: a search gives the lines that have a vertex in the
// window, in the order of the store, whatever the flag says.
fn store(lines: Vec<Vec<Point2D>>) -> impl Fn(Point2D, bool) -> (Vec<Vec<Point2D>>, Window) {
    move |at: Point2D, _searching: bool| {
        let hits = lines
            .iter()
            .filter(|line| line.iter().any(|v| inside(&at, v)))
            .cloned()
            .collect();
        (hits, window_at(&at))
    }
}

// A store that gives only the lines that start in the window.
fn store_of_starts(lines: Vec<Vec<Point2D>>) -> impl Fn(Point2D, bool) -> (Vec<Vec<Point2D>>, Window) {
    move |at: Point2D, _searching: bool| {
        let hits = lines
            .iter()
            .filter(|line| !line.is_empty() && inside(&at, &line[0]))
            .cloned()
            .collect();
        (hits, window_at(&at))
    }
}

fn a() -> Point2D {
    pt(0.0, 0.0)
}

fn b() -> Point2D {
    pt(1.0, 0.0)
}

fn c() -> Point2D {
    pt(2.0, 0.0)
}

fn d() -> Point2D {
    pt(3.0, 0.0)
}

fn e() -> Point2D {
    pt(2.0, 1.0)
}

fn chain() -> Vec<Vec<Point2D>> {
    vec![vec![a(), b()], vec![b(), c()], vec![c(), d()]]
}

fn fork() -> Vec<Vec<Point2D>> {
    vec![vec![a(), b()], vec![b(), c()], vec![b(), e()]]
}

fn says(fid: u64, input: Point2D, outlet: Point2D, resolution: Resolution) -> Message {
    Message { fid, input, outlet, resolution }
}

#[test]
fn a_window_holds_what_is_strictly_inside() {
    let w = Window { low: pt(0.0, 0.0), high: pt(2.0, 2.0) };
    assert!(w.contains(&pt(1.0, 1.0)));
    assert!(w.contains(&pt(1e-300, 1.9999999)));
    assert!(!w.contains(&pt(0.0, 1.0)));
    assert!(!w.contains(&pt(1.0, 2.0)));
    assert!(!w.contains(&pt(-1.0, 1.0)));
    assert!(!w.contains(&pt(1.0, 3.0)));
    let n = Window { low: pt(-2.0, -2.0), high: pt(-1.0, 1.0) };
    assert!(n.contains(&pt(-1.5, -0.0)));
    assert!(!n.contains(&pt(-2.5, 0.0)));
    let mine = window_at(&b());
    assert!(mine.contains(&b()));
    assert!(!mine.contains(&pt(1.000001, 0.0)));
}

#[test]
fn a_new_walk_stands_on_its_point() {
    let w = Walk::new(7, b());
    assert_eq!(
        w,
        Walk { fid: 7, input: b(), at: b(), searching: false, steps: 0, budget: MAX_ITER, done: false }
    );
    assert_eq!(MAX_ITER, 10000);
    assert_eq!(w.remaining(), 10000);
    assert_eq!(Walk::with_budget(7, b(), 3).remaining(), 3);
}

#[test]
fn resolving_from_a_finds_b() {
    let pois = PointSet::from_points(&vec![b(), d()]);
    let out = run_walk(Walk::new(1, a()), &store(chain()), &pois);
    assert_eq!(out, vec![says(1, a(), b(), Resolution::Found)]);
}

#[test]
fn resolving_from_b_finds_d_where_the_store_gives_only_what_starts_there() {
    let pois = PointSet::from_points(&vec![b(), d()]);
    let out = run_walk(Walk::new(2, b()), &store_of_starts(chain()), &pois);
    assert_eq!(out, vec![says(2, b(), d(), Resolution::Found)]);
}

#[test]
fn resolving_from_b_finds_d_where_the_store_gives_what_ends_there_too() {
    let pois = PointSet::from_points(&vec![b(), d()]);
    let out = run_walk(Walk::new(2, b()), &store(chain()), &pois);
    // the line that ends at b comes first, so the line on to c is a branch
    assert_eq!(
        out,
        vec![says(2, b(), c(), Resolution::Branch), says(2, b(), d(), Resolution::Found)]
    );
    let all = resolve_all(&vec![(2, b()), (4, d())], &store(chain()), MAX_ITER, 100);
    assert!(all.complete);
    // the walk and the walk of its branch both end at d
    assert_eq!(all.connections, vec![(2, d()), (2, d())]);
    assert_eq!(all.outlets, vec![(4, d())]);
    assert_eq!(all.branches, 1);
}

#[test]
fn resolving_from_the_outlet_finds_nothing() {
    let pois = PointSet::from_points(&vec![b(), d()]);
    let out = run_walk(Walk::new(4, d()), &store(chain()), &pois);
    assert_eq!(out, vec![says(4, d(), d(), Resolution::NotFound)]);
}

#[test]
fn a_point_off_the_network_finds_nothing() {
    let pois = PointSet::from_points(&vec![b(), d()]);
    let off = pt(50.0, 50.0);
    let out = run_walk(Walk::new(9, off), &store(chain()), &pois);
    assert_eq!(out, vec![says(9, off, off, Resolution::NotFound)]);
}

#[test]
fn a_branch_gives_two_results() {
    let points = vec![(1, a()), (3, c()), (5, e())];
    let all = resolve_all(&points, &store(fork()), MAX_ITER, 100);
    assert!(all.complete);
    let of_a: Vec<Point2D> =
        all.connections.iter().filter(|found| found.0 == 1).map(|found| found.1).collect();
    assert_eq!(of_a.len(), 2);
    assert!(of_a.contains(&c()) && of_a.contains(&e()));
    assert_eq!(all.branches, 1);
    assert_eq!(all.connections.len() + all.outlets.len(), points.len() + all.branches);
    // c and e end the network
    assert_eq!(all.connections.len(), 2);
    assert!(all.outlets.contains(&(3, c())) && all.outlets.contains(&(5, e())));
}

#[test]
fn the_walk_from_a_reports_the_branch_at_b() {
    let pois = PointSet::from_points(&vec![a(), c(), e()]);
    let search = store(fork());
    let mut w = Walk::new(1, a());
    let (lines, window) = search(w.at, w.searching);
    assert_eq!(w.step(&lines, &window, &pois), Vec::new());
    assert_eq!(
        w,
        Walk { fid: 1, input: a(), at: b(), searching: true, steps: 1, budget: MAX_ITER, done: false }
    );
    let (lines, window) = search(w.at, w.searching);
    // the line from a to b is among them, and does not count: it starts elsewhere
    assert_eq!(lines.len(), 3);
    assert_eq!(
        w.step(&lines, &window, &pois),
        vec![says(1, a(), e(), Resolution::Branch), says(1, a(), c(), Resolution::Found)]
    );
    assert!(w.done);
    assert_eq!(w.at, b());
}

#[test]
fn a_step_looks_only_downstream_of_where_it_stands() {
    let before = pt(5.0, 5.0);
    let here = pt(6.0, 5.0);
    let after = pt(7.0, 5.0);
    let pois = PointSet::from_points(&vec![before, here]);
    let mut w = Walk::new(1, here);
    let window = window_at(&here);
    let out = w.step(&vec![vec![before, here, after]], &window, &pois);
    assert_eq!(out, Vec::new());
    assert_eq!(w.at, after);
    assert!(w.searching && !w.done && w.steps == 1);

    let pois = PointSet::from_points(&vec![before, here, after]);
    let mut w = Walk::new(1, here);
    let out = w.step(&vec![vec![before, here, after]], &window, &pois);
    assert_eq!(out, vec![says(1, here, after, Resolution::Found)]);
}

#[test]
fn a_walk_does_not_find_where_it_stands() {
    let here = pt(6.0, 5.0);
    let next = pt(7.0, 5.0);
    let pois = PointSet::from_points(&vec![here]);
    let mut w = Walk::new(1, here);
    let window = window_at(&here);
    // a loop through the point: it occurs again behind its first occurrence
    let out = w.step(&vec![vec![here, next, here, next]], &window, &pois);
    assert_eq!(out, Vec::new());
    assert_eq!(w.at, next);
}

#[test]
fn a_vertex_that_is_not_on_the_lines_leaves_them_whole() {
    let here = pt(6.0, 5.0);
    let p = pt(6.0000001, 5.0);
    let q = pt(7.0, 5.0);
    let pois = PointSet::from_points(&vec![here, p]);
    let mut w = Walk::new(1, here);
    let out = w.step(&vec![vec![p, q]], &window_at(&here), &pois);
    assert_eq!(out, vec![says(1, here, p, Resolution::Found)]);
}

#[test]
fn lines_that_end_together_are_no_branch() {
    let here = pt(0.0, 0.0);
    let end = pt(1.0, 0.0);
    let other = pt(1.0, 1.0);
    let pois = PointSet::from_points(&vec![here]);
    let mut w = Walk::new(1, here);
    let lines = vec![vec![here, end], vec![here, pt(0.5, 0.5), end], vec![here, other], vec![]];
    let out = w.step(&lines, &window_at(&here), &pois);
    assert_eq!(out, vec![says(1, here, other, Resolution::Branch)]);
    assert_eq!(w.at, end);
}

#[test]
fn a_line_that_ends_on_what_was_found_is_no_branch() {
    let here = pt(0.0, 0.0);
    let mid = pt(1.0, 0.0);
    let end = pt(2.0, 0.0);
    let other = pt(2.0, 1.0);
    let pois = PointSet::from_points(&vec![here, mid]);
    let mut w = Walk::new(1, here);
    let lines = vec![vec![here, mid, end], vec![here, mid], vec![here, other], vec![here, end]];
    let out = w.step(&lines, &window_at(&here), &pois);
    assert_eq!(
        out,
        vec![says(1, here, other, Resolution::Branch), says(1, here, mid, Resolution::Found)]
    );
    assert!(w.done);
}

#[test]
fn once_searching_a_line_must_start_in_the_window() {
    let here = pt(1.0, 0.0);
    let up = pt(0.0, 0.0);
    let down = pt(2.0, 0.0);
    let pois = PointSet::from_points(&vec![up]);
    let mut w = Walk { fid: 1, input: up, at: here, searching: true, steps: 1, budget: 10, done: false };
    let out = w.step(&vec![vec![up, here], vec![here, down]], &window_at(&here), &pois);
    assert_eq!(out, Vec::new());
    assert_eq!(w.at, down);
    assert_eq!(w.steps, 2);
    let mut w = Walk { fid: 1, input: up, at: here, searching: true, steps: 1, budget: 10, done: false };
    let out = w.step(&vec![vec![up, here]], &window_at(&here), &pois);
    assert_eq!(out, vec![says(1, up, here, Resolution::NotFound)]);
    assert!(w.done);
}

#[test]
fn a_walk_in_a_circle_ends_with_its_budget() {
    let p = pt(0.0, 0.0);
    let q = pt(1.0, 0.0);
    let r = pt(1.0, 1.0);
    let circle = vec![vec![p, q], vec![q, r], vec![r, p]];
    let pois = PointSet::from_points(&vec![pt(9.0, 9.0)]);
    let out = run_walk(Walk::with_budget(1, p, 7), &store_of_starts(circle.clone()), &pois);
    // seven steps move it on: p q r p q r p q
    assert_eq!(out, vec![says(1, p, q, Resolution::NotFound)]);
    let out = run_walk(Walk::with_budget(1, p, 0), &store_of_starts(circle), &pois);
    assert_eq!(out, vec![says(1, p, p, Resolution::NotFound)]);
}

#[test]
fn the_usual_budget_is_ten_thousand_steps() {
    let p = pt(0.0, 0.0);
    let q = pt(1.0, 0.0);
    let pois = PointSet::from_points(&vec![pt(9.0, 9.0)]);
    let out = run_walk(Walk::new(1, p), &store_of_starts(vec![vec![p, q], vec![q, p]]), &pois);
    assert_eq!(out, vec![says(1, p, p, Resolution::NotFound)]);
}

#[test]
fn the_coordinator_counts_walks() {
    let pois = PointSet::from_points(&vec![a(), c()]);
    let mut co = Coordinator::new(2, 50);
    assert!(!co.is_done());
    assert_eq!(co.expected(), 2);
    assert_eq!(co.processed(), 0);
    assert_eq!(co.on_message(says(1, a(), c(), Resolution::Found), &pois), Reaction::Recorded);
    assert!(!co.is_done());
    // a branch that ends off the points of interest opens a walk
    let branch = says(1, a(), e(), Resolution::Branch);
    assert_eq!(
        co.on_message(branch, &pois),
        Reaction::Spawned(Walk {
            fid: 1,
            input: a(),
            at: e(),
            searching: false,
            steps: 0,
            budget: 50,
            done: false
        })
    );
    assert_eq!(co.expected(), 3);
    assert_eq!(co.branch_count(), 1);
    assert_eq!(co.on_message(says(3, c(), c(), Resolution::NotFound), &pois), Reaction::Recorded);
    assert!(!co.is_done());
    assert_eq!(co.on_message(says(1, a(), e(), Resolution::NotFound), &pois), Reaction::Recorded);
    assert!(co.is_done());
    assert_eq!(co.processed(), 3);
    assert_eq!(co.found(), &vec![(1, c())]);
    assert_eq!(co.not_found(), &vec![(3, c()), (1, e())]);
    // nothing is out: a late result is left aside
    assert_eq!(co.on_message(says(1, a(), c(), Resolution::Found), &pois), Reaction::Dropped);
    assert_eq!(co.processed(), 3);
    assert_eq!(co.branched(), &vec![1]);
    let (found, not_found, branched) = co.into_results();
    assert_eq!(found.len() + not_found.len(), 3);
    assert_eq!(branched, vec![1]);
}

#[test]
fn a_branch_onto_a_point_of_interest_is_resolved_there() {
    let pois = PointSet::from_points(&vec![a(), c(), e()]);
    let mut co = Coordinator::new(1, 50);
    assert_eq!(co.on_message(says(1, a(), e(), Resolution::Branch), &pois), Reaction::Recorded);
    assert_eq!(co.found(), &vec![(1, e())]);
    assert_eq!(co.expected(), 2);
    assert!(!co.is_done());
    // a branch back onto the walk's own point opens a walk
    let back = says(1, a(), a(), Resolution::Branch);
    assert_eq!(co.on_message(back, &pois), Reaction::Spawned(Walk::branch(&back, 50)));
    assert_eq!(co.expected(), 3);
}

#[test]
fn resolving_stops_when_no_walks_are_allowed() {
    let points = vec![(1, a()), (2, b())];
    let none = resolve_all(&points, &store(chain()), MAX_ITER, 0);
    assert!(!none.complete);
    assert!(none.connections.is_empty() && none.outlets.is_empty());
    assert_eq!(none.branches, 0);
    assert!(none.branched.is_empty());
    let one = resolve_all(&points, &store(chain()), MAX_ITER, 1);
    assert!(!one.complete);
    assert_eq!(one.connections.len() + one.outlets.len(), 1);
    let empty = resolve_all(&Vec::new(), &store(chain()), MAX_ITER, 0);
    assert!(empty.complete);
    assert!(empty.connections.is_empty() && empty.outlets.is_empty() && empty.branches == 0);
    let idle = resolve_all(&Vec::new(), &store(chain()), MAX_ITER, 5);
    assert!(idle.complete && idle.connections.is_empty() && idle.outlets.is_empty());
    // as many results as walks were allowed, at least
    let two = resolve_all(&vec![(1, a()), (2, b()), (3, c())], &store(chain()), MAX_ITER, 2);
    assert!(two.connections.len() + two.outlets.len() >= 2);
}

#[test]
fn every_point_gets_one_result_and_every_branch_one_more() {
    let points = vec![(1, a()), (2, b()), (3, c()), (4, d())];
    let all = resolve_all(&points, &store(chain()), MAX_ITER, 1000);
    assert!(all.complete);
    assert_eq!(all.connections.len() + all.outlets.len(), points.len() + all.branches);
    for fid in 1..=4u64 {
        let n = all.connections.iter().filter(|r| r.0 == fid).count()
            + all.outlets.iter().filter(|r| r.0 == fid).count();
        assert!(n >= 1);
    }
    assert!(all.connections.contains(&(1, b())));
    assert!(all.connections.contains(&(2, c())));
    assert!(all.connections.contains(&(3, d())));
    assert_eq!(all.outlets, vec![(4, d())]);
}

#[test]
fn each_identifier_bears_one_result_and_one_for_each_of_its_branches() {
    let points = vec![(1, a()), (3, c()), (5, e())];
    let all = resolve_all(&points, &store(fork()), MAX_ITER, 100);
    assert!(all.complete);
    assert_eq!(all.branched, vec![1]);
    for (fid, _) in &points {
        let results = all.connections.iter().filter(|r| r.0 == *fid).count()
            + all.outlets.iter().filter(|r| r.0 == *fid).count();
        let branches = all.branched.iter().filter(|f| *f == fid).count();
        assert_eq!(results, 1 + branches);
    }
}

#[test]
fn a_walk_with_a_spent_budget_ends_where_it_stands() {
    let pois = PointSet::from_points(&vec![b(), d()]);
    let spent = Walk { fid: 1, input: a(), at: b(), searching: true, steps: 4, budget: 4, done: false };
    let out = run_walk(spent, &store(fork()), &pois);
    assert_eq!(out, vec![says(1, a(), b(), Resolution::NotFound)]);
}

#[test]
fn every_walk_gets_the_budget_that_was_given() {
    let points = vec![(1, a()), (4, d())];
    let none = resolve_all(&points, &store(chain()), 0, 100);
    assert!(none.complete);
    assert!(none.connections.is_empty());
    assert!(none.outlets.contains(&(1, a())) && none.outlets.contains(&(4, d())));
    // one step takes the walk from a to b, and there it ends
    let one = resolve_all(&points, &store(chain()), 1, 100);
    assert!(one.connections.is_empty());
    assert!(one.outlets.contains(&(1, b())));
    let all = resolve_all(&points, &store(chain()), MAX_ITER, 100);
    assert_eq!(all.connections, vec![(1, d())]);
    assert_eq!(all.outlets, vec![(4, d())]);
}

#[test]
fn a_branch_is_counted_and_followed() {
    // a -> b, then b -> c and b -> x -> e: the branch to x is off the points of interest
    let x = pt(1.5, 1.0);
    let lines = vec![vec![a(), b()], vec![b(), c()], vec![b(), x], vec![x, e()]];
    let points = vec![(1, a()), (3, c()), (5, e())];
    let all = resolve_all(&points, &store(lines), MAX_ITER, 100);
    assert!(all.complete);
    assert_eq!(all.branched, vec![1]);
    assert_eq!(all.branches, 1);
    // the walk from a finds c, and the walk that its branch opens finds e
    assert!(all.connections.contains(&(1, c())));
    assert!(all.connections.contains(&(1, e())));
    assert_eq!(all.connections.len() + all.outlets.len(), 4);
}
