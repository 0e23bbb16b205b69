//! What kind of node each end of a stream is: outlet, branch, confluence or
//! origin.

use vstd::prelude::*;
use crate::streams::{NodeList, added, lemma_added};
use crate::types::{Point2D, shapes};

verus! {

/// Whether a geometry starts at `p`.
pub open spec fn starts_at(g: Seq<Point2D>, p: Point2D) -> bool {
    g.len() >= 1 && g[0] == p
}

/// Whether a geometry is a line that ends at `p`.
pub open spec fn ends_at(g: Seq<Point2D>, p: Point2D) -> bool {
    g.len() >= 2 && g.last() == p
}

/// How many geometries start at `p`.
pub open spec fn start_count(geoms: Seq<Seq<Point2D>>, p: Point2D) -> nat
    decreases geoms.len(),
{
    if geoms.len() == 0 {
        0
    } else {
        start_count(geoms.drop_last(), p) + if starts_at(geoms.last(), p) {
            1nat
        } else {
            0nat
        }
    }
}

/// How many lines end at `p`.
pub open spec fn end_count(geoms: Seq<Seq<Point2D>>, p: Point2D) -> nat
    decreases geoms.len(),
{
    if geoms.len() == 0 {
        0
    } else {
        end_count(geoms.drop_last(), p) + if ends_at(geoms.last(), p) {
            1nat
        } else {
            0nat
        }
    }
}

/// How many geometries are a single point.
pub open spec fn point_count(geoms: Seq<Seq<Point2D>>) -> nat
    decreases geoms.len(),
{
    if geoms.len() == 0 {
        0
    } else {
        point_count(geoms.drop_last()) + if geoms.last().len() == 1 {
            1nat
        } else {
            0nat
        }
    }
}

/// An outlet: lines end there and nothing starts there.
pub open spec fn is_outlet(geoms: Seq<Seq<Point2D>>, p: Point2D) -> bool {
    end_count(geoms, p) >= 1 && start_count(geoms, p) == 0
}

/// A branch: more than one geometry starts there.
pub open spec fn is_branch(geoms: Seq<Seq<Point2D>>, p: Point2D) -> bool {
    start_count(geoms, p) >= 2
}

/// A confluence: more than one line ends there.
pub open spec fn is_confluence(geoms: Seq<Seq<Point2D>>, p: Point2D) -> bool {
    end_count(geoms, p) >= 2
}

/// An origin: geometries start there and no line ends there.
pub open spec fn is_origin(geoms: Seq<Seq<Point2D>>, p: Point2D) -> bool {
    start_count(geoms, p) >= 1 && end_count(geoms, p) == 0
}

/// The nodes of a stream network by kind. No list holds a node twice.
pub struct NodeReport {
    pub outlets: Vec<Point2D>,
    pub branches: Vec<Point2D>,
    pub confluences: Vec<Point2D>,
    pub origins: Vec<Point2D>,
    /// How many geometries are a single point, which a stream is not.
    pub points: usize,
}

impl NodeReport {
    /// Whether the network can serve as one: no point among its geometries,
    /// one outlet, no branch.
    pub fn is_valid(&self) -> (r: bool)
        ensures
            r == (self.points == 0 && self.outlets.len() == 1 && self.branches.len() == 0),
    {
        self.points == 0 && self.outlets.len() == 1 && self.branches.len() == 0
    }
}

/// Sorts the ends of the geometries by kind. A geometry without a vertex
/// counts for nothing, and one of a single vertex only as a start.
pub fn classify_nodes(streams: &Vec<Vec<Point2D>>) -> (report: NodeReport)
    ensures
        report.outlets@.no_duplicates(),
        report.branches@.no_duplicates(),
        report.confluences@.no_duplicates(),
        report.origins@.no_duplicates(),
        forall|p: Point2D|
            #[trigger] report.outlets@.contains(p) <==> is_outlet(shapes(streams@), p),
        forall|p: Point2D|
            #[trigger] report.branches@.contains(p) <==> is_branch(shapes(streams@), p),
        forall|p: Point2D|
            #[trigger] report.confluences@.contains(p) <==> is_confluence(shapes(streams@), p),
        forall|p: Point2D|
            #[trigger] report.origins@.contains(p) <==> is_origin(shapes(streams@), p),
        report.points == point_count(shapes(streams@)),
{
    let ghost all = shapes(streams@);
    let mut starts = NodeList::new();
    let mut ends = NodeList::new();
    let mut branches = NodeList::new();
    let mut confluences = NodeList::new();
    let mut points: usize = 0;
    let mut i: usize = 0;
    assert(all.take(0) =~= Seq::empty());
    while i < streams.len()
        invariant
            i <= streams.len(),
            all == shapes(streams@),
            points == point_count(all.take(i as int)),
            points <= i,
            forall|p: Point2D|
                #[trigger] starts@.contains(p) <==> start_count(all.take(i as int), p) >= 1,
            forall|p: Point2D| #[trigger] ends@.contains(p) <==> end_count(all.take(i as int), p) >= 1,
            forall|p: Point2D|
                #[trigger] branches@.contains(p) <==> start_count(all.take(i as int), p) >= 2,
            forall|p: Point2D|
                #[trigger] confluences@.contains(p) <==> end_count(all.take(i as int), p) >= 2,
        decreases streams.len() - i,
    {
        let g = &streams[i];
        proof {
            assert(all.take(i + 1).drop_last() =~= all.take(i as int));
            assert(all.take(i + 1).last() == g@);
        }
        if g.len() >= 1 {
            let start: Point2D = g[0];
            proof {
                lemma_added(starts@, start);
                lemma_added(branches@, start);
            }
            if starts.contains(&start) {
                branches.add(start);
            } else {
                starts.add(start);
            }
        }
        if g.len() == 1 {
            points += 1;
        }
        if g.len() >= 2 {
            let end: Point2D = g[g.len() - 1];
            proof {
                lemma_added(ends@, end);
                lemma_added(confluences@, end);
            }
            if ends.contains(&end) {
                confluences.add(end);
            } else {
                ends.add(end);
            }
        }
        i += 1;
    }
    assert(all.take(streams.len() as int) =~= all);

    let mut outlets = NodeList::new();
    let mut origins = NodeList::new();
    i = 0;
    while i < streams.len()
        invariant
            i <= streams.len(),
            all == shapes(streams@),
            forall|p: Point2D| #[trigger] starts@.contains(p) <==> start_count(all, p) >= 1,
            forall|p: Point2D| #[trigger] ends@.contains(p) <==> end_count(all, p) >= 1,
            forall|p: Point2D|
                #[trigger] outlets@.contains(p) <==> end_count(all.take(i as int), p) >= 1
                    && start_count(all, p) == 0,
            forall|p: Point2D|
                #[trigger] origins@.contains(p) <==> start_count(all.take(i as int), p) >= 1
                    && end_count(all, p) == 0,
        decreases streams.len() - i,
    {
        let g = &streams[i];
        proof {
            assert(all.take(i + 1).drop_last() =~= all.take(i as int));
            assert(all.take(i + 1).last() == g@);
        }
        if g.len() >= 1 {
            let start: Point2D = g[0];
            proof {
                lemma_added(origins@, start);
            }
            if !ends.contains(&start) {
                origins.add(start);
            }
        }
        if g.len() >= 2 {
            let end: Point2D = g[g.len() - 1];
            proof {
                lemma_added(outlets@, end);
            }
            if !starts.contains(&end) {
                outlets.add(end);
            }
        }
        i += 1;
    }
    assert(all.take(streams.len() as int) =~= all);
    NodeReport {
        outlets: outlets.into_vec(),
        branches: branches.into_vec(),
        confluences: confluences.into_vec(),
        origins: origins.into_vec(),
        points,
    }
}

} // verus!
