//! From a geometry's vertices to directed edges.

use vstd::prelude::*;
use crate::types::{Point2D, shapes};

verus! {

/// Why a geometry gave no edges.
#[derive(Clone, Copy, Debug, PartialEq, Eq, Structural)]
pub enum EdgeError {
    /// A line needs two vertices at least.
    TooFewVertices,
}

/// How many vertices between the first and the last stay nodes, of `n`
/// vertices under stride `take`.
pub open spec fn kept_between(n: int, take: int) -> int {
    (n - 2) / take
}

/// The place among `n` vertices of the `k`-th node: the first vertex, then
/// every `take`-th one from the second on, then the last vertex.
pub open spec fn node_index(k: int, n: int, take: int) -> int {
    if k <= 0 {
        0
    } else if k > kept_between(n, take) {
        n - 1
    } else {
        1 + (k - 1) * take
    }
}

/// The edges of a geometry: each node joined to the next.
pub open spec fn extracted(pts: Seq<Point2D>, take: int) -> Seq<(Point2D, Point2D)> {
    Seq::new(
        (kept_between(pts.len() as int, take) + 1) as nat,
        |k: int| (pts[node_index(k, pts.len() as int, take)], pts[node_index(k + 1, pts.len() as int, take)]),
    )
}

/// The vertices that a chain of edges runs through: where the first edge
/// starts, then where each edge ends.
pub open spec fn endpoints(edges: Seq<(Point2D, Point2D)>) -> Seq<Point2D> {
    if edges.len() == 0 {
        Seq::empty()
    } else {
        Seq::new(edges.len() + 1, |k: int| if k == 0 { edges[0].0 } else { edges[k - 1].1 })
    }
}

proof fn lemma_stride_fits(i: int, mid: int, take: int)
    requires
        take >= 1,
        mid >= 0,
        0 <= i < mid / take,
    ensures
        0 <= i * take,
        i * take + take <= mid,
        mid / take <= mid,
{
    assert((mid / take) * take <= mid) by (nonlinear_arith)
        requires
            take >= 1,
            mid >= 0,
    ;
    assert((i + 1) * take <= (mid / take) * take) by (nonlinear_arith)
        requires
            take >= 1,
            i + 1 <= mid / take,
    ;
    assert((i + 1) * take == i * take + take) by (nonlinear_arith);
    assert(0 <= i * take) by (nonlinear_arith)
        requires
            0 <= i,
            take >= 1,
    ;
    assert(mid / take <= mid) by (nonlinear_arith)
        requires
            take >= 1,
            mid >= 0,
    ;
}

/// Turns the vertices of one line into directed edges from its first vertex
/// to its last. Between the two, every `take`-th vertex from the second on
/// stays a node, as long as one more stride from it does not pass the last
/// vertex; the others are passed over. With a stride of 1 every vertex stays.
/// A line of fewer than two vertices is refused. The stride is 1 at least.
pub fn edges_from_pts(pts: &Vec<Point2D>, take: usize) -> (r: Result<
    Vec<(Point2D, Point2D)>,
    EdgeError,
>)
    requires
        take >= 1,
    ensures
        r is Err <==> pts.len() < 2,
        r is Err ==> r == Err::<Vec<(Point2D, Point2D)>, EdgeError>(EdgeError::TooFewVertices),
        r is Ok ==> r->Ok_0@ == extracted(pts@, take as int),
{
    if pts.len() < 2 {
        return Err(EdgeError::TooFewVertices);
    }
    let n: usize = pts.len();
    let mut start: Point2D = pts[0];
    let end: Point2D = pts[n - 1];
    let mid: usize = n - 2;
    let kept: usize = mid / take;
    let mut eds: Vec<(Point2D, Point2D)> = Vec::new();
    let mut i: usize = 0;
    while i < kept
        invariant
            take >= 1,
            n == pts.len(),
            n >= 2,
            mid == n - 2,
            kept == kept_between(n as int, take as int),
            i <= kept,
            eds.len() == i,
            start == pts[node_index(i as int, n as int, take as int)],
            forall|k: int| 0 <= k < i ==> #[trigger] eds[k] == extracted(pts@, take as int)[k],
        decreases kept - i,
    {
        proof {
            lemma_stride_fits(i as int, mid as int, take as int);
        }
        let p: Point2D = pts[1 + i * take];
        eds.push((start, p));
        start = p;
        i += 1;
    }
    eds.push((start, end));
    proof {
        assert(eds@ =~= extracted(pts@, take as int));
    }
    Ok(eds)
}

/// The edges of a line form one chain over it: the first starts at the first
/// vertex, the last ends at the last vertex, and each edge starts where the
/// one before it ends.
pub proof fn lemma_edges_cover_the_line(pts: Seq<Point2D>, take: int)
    requires
        pts.len() >= 2,
        take >= 1,
    ensures
        extracted(pts, take).len() >= 1,
        extracted(pts, take).first().0 == pts.first(),
        extracted(pts, take).last().1 == pts.last(),
        forall|k: int|
            0 <= k < extracted(pts, take).len() - 1 ==> (#[trigger] extracted(pts, take)[k]).1
                == extracted(pts, take)[k + 1].0,
{
    let mid = pts.len() as int - 2;
    assert(mid / take >= 0) by (nonlinear_arith)
        requires
            mid >= 0,
            take >= 1,
    ;
}

/// With stride 1 nothing is lost: there is one edge per pair of neighbouring
/// vertices, and the edges' endpoints, read in order, are the vertices.
pub proof fn lemma_stride_one_is_lossless(pts: Seq<Point2D>)
    requires
        pts.len() >= 2,
    ensures
        extracted(pts, 1).len() == pts.len() - 1,
        forall|k: int|
            0 <= k < pts.len() - 1 ==> #[trigger] extracted(pts, 1)[k] == (pts[k], pts[k + 1]),
        endpoints(extracted(pts, 1)) == pts,
{
    assert(endpoints(extracted(pts, 1)) =~= pts);
}

/// The edges of several lines, line after line.
pub open spec fn extracted_all(lines: Seq<Seq<Point2D>>, take: int) -> Seq<(Point2D, Point2D)>
    decreases lines.len(),
{
    if lines.len() == 0 {
        Seq::empty()
    } else {
        extracted_all(lines.drop_last(), take) + extracted(lines.last(), take)
    }
}

/// Whether one of the lines has fewer than two vertices.
pub open spec fn has_short_line(lines: Seq<Seq<Point2D>>) -> bool {
    exists|i: int| 0 <= i < lines.len() && (#[trigger] lines[i]).len() < 2
}

/// Turns the lines of a network into its edges: see [`edges_from_pts`]. One
/// line of fewer than two vertices refuses the network.
pub fn edges_from_lines(lines: &Vec<Vec<Point2D>>, take: usize) -> (r: Result<
    Vec<(Point2D, Point2D)>,
    EdgeError,
>)
    requires
        take >= 1,
    ensures
        r is Err <==> has_short_line(shapes(lines@)),
        r is Ok ==> r->Ok_0@ == extracted_all(shapes(lines@), take as int),
{
    let ghost all = shapes(lines@);
    let mut out: Vec<(Point2D, Point2D)> = Vec::new();
    let mut i: usize = 0;
    assert(all.take(0) =~= Seq::empty());
    while i < lines.len()
        invariant
            i <= lines.len(),
            take >= 1,
            all == shapes(lines@),
            forall|j: int| 0 <= j < i ==> (#[trigger] all[j]).len() >= 2,
            out@ == extracted_all(all.take(i as int), take as int),
        decreases lines.len() - i,
    {
        proof {
            assert(all.take(i + 1).drop_last() =~= all.take(i as int));
            assert(all.take(i + 1).last() == lines@[i as int]@);
        }
        match edges_from_pts(&lines[i], take) {
            Ok(mut eds) => {
                out.append(&mut eds);
            },
            Err(e) => {
                assert(all[i as int].len() < 2);
                return Err(e);
            },
        }
        i += 1;
    }
    assert(all.take(lines.len() as int) =~= all);
    Ok(out)
}

/// For each line the edge from its first vertex to its last.
pub open spec fn ends_of(lines: Seq<Seq<Point2D>>) -> Seq<(Point2D, Point2D)> {
    Seq::new(lines.len(), |i: int| (lines[i].first(), lines[i].last()))
}

/// Reduces each line of a network to one edge, from its first vertex to its
/// last. One line of fewer than two vertices refuses the network.
pub fn line_ends(lines: &Vec<Vec<Point2D>>) -> (r: Result<Vec<(Point2D, Point2D)>, EdgeError>)
    ensures
        r is Err <==> has_short_line(shapes(lines@)),
        r is Ok ==> r->Ok_0@ == ends_of(shapes(lines@)),
{
    let ghost all = shapes(lines@);
    let mut out: Vec<(Point2D, Point2D)> = Vec::new();
    let mut i: usize = 0;
    while i < lines.len()
        invariant
            i <= lines.len(),
            all == shapes(lines@),
            forall|j: int| 0 <= j < i ==> (#[trigger] all[j]).len() >= 2,
            out.len() == i,
            forall|j: int| 0 <= j < i ==> #[trigger] out[j] == ends_of(all)[j],
        decreases lines.len() - i,
    {
        let g = &lines[i];
        if g.len() < 2 {
            assert(all[i as int].len() < 2);
            return Err(EdgeError::TooFewVertices);
        }
        out.push((g[0], g[g.len() - 1]));
        i += 1;
    }
    assert(out@ =~= ends_of(all));
    Ok(out)
}

} // verus!
