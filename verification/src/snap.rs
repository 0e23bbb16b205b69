//! Snapping points of interest to the nodes of the network: which points
//! take the nearest node, and which are too far from any.
//!
//! The nearest node of a point and the squared distance to it come from the
//! caller's index; what is decided here is what to make of them.

use vstd::prelude::*;
use vstd::string::StringExecFns;
use itertools::Itertools;
use crate::ieee::{greater, is_greater, is_nan, rank};
use crate::names::texts;
use crate::network::{Points, named_nodes};
use crate::types::Point2D;

verus! {

/// The node nearest to a point and the squared distance between the two, as
/// the pattern of a double.
#[derive(Clone, Copy, Debug, PartialEq, Eq, Structural)]
pub struct Nearest {
    pub point: Point2D,
    pub sq_dist: u64,
}

/// A point to snap: its identifier, where it is, and the nearest node, if
/// the index holds any node.
pub struct SnapQuery {
    pub name: String,
    pub point: Point2D,
    pub nearest: Option<Nearest>,
}

impl View for SnapQuery {
    type V = (Seq<char>, Point2D, Option<Nearest>);

    /// The identifier as its text, the point, and the nearest node.
    open spec fn view(&self) -> (Seq<char>, Point2D, Option<Nearest>) {
        (self.name@, self.point, self.nearest)
    }
}

/// What a list of queries reads as.
pub open spec fn query_views(queries: Seq<SnapQuery>) -> Seq<(Seq<char>, Point2D, Option<Nearest>)> {
    queries.map_values(|q: SnapQuery| q@)
}

/// What a list of moves reads as.
pub open spec fn move_views(moves: Seq<(String, Point2D, Point2D)>) -> Seq<
    (Seq<char>, Point2D, Point2D),
> {
    moves.map_values(|m: (String, Point2D, Point2D)| (m.0@, m.1, m.2))
}

/// Whether a squared distance is within the squared threshold: it is not
/// greater, as doubles compare. Without a threshold every distance is.
pub open spec fn within(sq_dist: u64, sq_threshold: Option<u64>) -> bool {
    match sq_threshold {
        Some(t) => !greater(sq_dist, t),
        None => true,
    }
}

/// Whether a query is snapped: it has a nearest node, within the threshold.
pub open spec fn accepted(q: (Seq<char>, Point2D, Option<Nearest>), sq_threshold: Option<u64>) -> bool {
    q.2 is Some && within(q.2->Some_0.sq_dist, sq_threshold)
}

/// The snapped points: each accepted query's identifier with its nearest
/// node, in order.
pub open spec fn snapped_of(
    queries: Seq<(Seq<char>, Point2D, Option<Nearest>)>,
    sq_threshold: Option<u64>,
) -> Seq<(Seq<char>, Point2D)>
    decreases queries.len(),
{
    if queries.len() == 0 {
        Seq::empty()
    } else {
        let rest = snapped_of(queries.drop_last(), sq_threshold);
        let q = queries.last();
        if accepted(q, sq_threshold) {
            rest.push((q.0, q.2->Some_0.point))
        } else {
            rest
        }
    }
}

/// The identifiers of the queries that are not accepted, in order.
pub open spec fn unsnapped_of(
    queries: Seq<(Seq<char>, Point2D, Option<Nearest>)>,
    sq_threshold: Option<u64>,
) -> Seq<Seq<char>>
    decreases queries.len(),
{
    if queries.len() == 0 {
        Seq::empty()
    } else {
        let rest = unsnapped_of(queries.drop_last(), sq_threshold);
        let q = queries.last();
        if accepted(q, sq_threshold) {
            rest
        } else {
            rest.push(q.0)
        }
    }
}

/// For each query that has a nearest node, accepted or not: its identifier,
/// where it is and where that node is, in order.
pub open spec fn moves_of(queries: Seq<(Seq<char>, Point2D, Option<Nearest>)>) -> Seq<
    (Seq<char>, Point2D, Point2D),
>
    decreases queries.len(),
{
    if queries.len() == 0 {
        Seq::empty()
    } else {
        let rest = moves_of(queries.drop_last());
        let q = queries.last();
        match q.2 {
            Some(n) => rest.push((q.0, q.1, n.point)),
            None => rest,
        }
    }
}

/// What snapping gave.
pub struct SnapReport {
    /// The points that were snapped, each on its nearest node.
    pub snapped: Points,
    /// The identifiers of the points that were not: no node, or too far.
    pub unsnapped: Vec<String>,
    /// From where to where each point with a nearest node would move.
    pub moves: Vec<(String, Point2D, Point2D)>,
}

/// The texts one after the other, with `sep` between each two.
pub open spec fn joined(names: Seq<Seq<char>>, sep: Seq<char>) -> Seq<char>
    decreases names.len(),
{
    if names.len() == 0 {
        Seq::empty()
    } else if names.len() == 1 {
        names[0]
    } else {
        joined(names.drop_last(), sep) + sep + names.last()
    }
}

/// `Itertools::join` over the strings: all of them in one string, in order,
/// with `sep` between each two, and the empty string for no strings.
#[verifier::external_body]
fn join_names(names: &Vec<String>, sep: &str) -> (r: String)
    ensures
        r@ == joined(texts(names@), sep@),
{
    names.iter().join(sep)
}

impl SnapReport {
    /// Whether every point was snapped.
    pub fn is_complete(&self) -> (r: bool)
        ensures
            r == (self.unsnapped@.len() == 0),
    {
        self.unsnapped.len() == 0
    }

    /// The identifiers of the unsnapped points in one line, in order, with
    /// `, ` between each two.
    pub fn unsnapped_list(&self) -> (r: String)
        ensures
            r@ == joined(texts(self.unsnapped@), ", "@),
    {
        join_names(&self.unsnapped, ", ")
    }

    /// What is wrong with the snapping, if anything is: the list of the
    /// unsnapped points, in square brackets behind the words for it.
    pub fn error_message(&self) -> (r: Option<String>)
        ensures
            r is None <==> self.unsnapped@.len() == 0,
            r is Some ==> r->Some_0@ == "Errors on snapping points to streams: ["@ + joined(
                texts(self.unsnapped@),
                ", "@,
            ) + "]"@,
    {
        if self.is_complete() {
            None
        } else {
            let mut text = String::from_str("Errors on snapping points to streams: [");
            let list = self.unsnapped_list();
            text.append(list.as_str());
            text.append("]");
            Some(text)
        }
    }
}

/// Decides whether a squared distance is within the squared threshold.
pub fn is_within(sq_dist: u64, sq_threshold: Option<u64>) -> (r: bool)
    ensures
        r == within(sq_dist, sq_threshold),
{
    match sq_threshold {
        Some(t) => !is_greater(sq_dist, t),
        None => true,
    }
}

/// Sorts the queries into snapped and unsnapped points. A point is snapped
/// on its nearest node unless it has none or the node is beyond the
/// threshold; every other point is listed as unsnapped.
pub fn snap_points(queries: &Vec<SnapQuery>, sq_threshold: Option<u64>) -> (report: SnapReport)
    ensures
        report.snapped@ == snapped_of(query_views(queries@), sq_threshold),
        texts(report.unsnapped@) == unsnapped_of(query_views(queries@), sq_threshold),
        move_views(report.moves@) == moves_of(query_views(queries@)),
{
    let mut snapped: Vec<(String, Point2D)> = Vec::new();
    let mut unsnapped: Vec<String> = Vec::new();
    let mut moves: Vec<(String, Point2D, Point2D)> = Vec::new();
    let ghost all = query_views(queries@);
    let mut i: usize = 0;
    proof {
        assert(all.take(0) =~= Seq::empty());
        assert(named_nodes(snapped@) =~= snapped_of(all.take(0), sq_threshold));
        assert(texts(unsnapped@) =~= unsnapped_of(all.take(0), sq_threshold));
        assert(move_views(moves@) =~= moves_of(all.take(0)));
    }
    while i < queries.len()
        invariant
            i <= queries.len(),
            all == query_views(queries@),
            named_nodes(snapped@) == snapped_of(all.take(i as int), sq_threshold),
            texts(unsnapped@) == unsnapped_of(all.take(i as int), sq_threshold),
            move_views(moves@) == moves_of(all.take(i as int)),
        decreases queries.len() - i,
    {
        let q = &queries[i];
        let ghost was_snapped = snapped@;
        let ghost was_unsnapped = unsnapped@;
        let ghost was_moves = moves@;
        proof {
            assert(all.take(i + 1).drop_last() =~= all.take(i as int));
            assert(all.take(i + 1).last() == q@);
        }
        match q.nearest {
            Some(n) => {
                moves.push((q.name.clone(), q.point, n.point));
                if is_within(n.sq_dist, sq_threshold) {
                    snapped.push((q.name.clone(), n.point));
                } else {
                    unsnapped.push(q.name.clone());
                }
            },
            None => {
                unsnapped.push(q.name.clone());
            },
        }
        proof {
            if q.nearest is Some {
                assert(move_views(moves@) =~= move_views(was_moves).push(
                    (q.name@, q.point, q.nearest->Some_0.point),
                ));
            }
            if accepted(q@, sq_threshold) {
                assert(named_nodes(snapped@) =~= named_nodes(was_snapped).push(
                    (q.name@, q.nearest->Some_0.point),
                ));
            } else {
                assert(texts(unsnapped@) =~= texts(was_unsnapped).push(q.name@));
            }
        }
        i += 1;
    }
    assert(all.take(queries.len() as int) =~= all);
    SnapReport { snapped: Points(snapped), unsnapped, moves }
}

/// The snap threshold: of two numbers, a squared distance is within a
/// squared threshold exactly when it is less than or equal to it.
pub proof fn lemma_threshold_decides(sq_dist: u64, sq_threshold: u64)
    requires
        !is_nan(sq_dist),
        !is_nan(sq_threshold),
    ensures
        within(sq_dist, Some(sq_threshold)) <==> rank(sq_dist) <= rank(sq_threshold),
{
}

/// No point is dropped: every query is among the snapped points or among
/// the unsnapped ones, by whether it was accepted, and the two lists together
/// are as long as the list of queries.
pub proof fn lemma_no_point_is_dropped(
    queries: Seq<(Seq<char>, Point2D, Option<Nearest>)>,
    sq_threshold: Option<u64>,
)
    ensures
        snapped_of(queries, sq_threshold).len() + unsnapped_of(queries, sq_threshold).len()
            == queries.len(),
        forall|i: int|
            0 <= i < queries.len() && accepted(#[trigger] queries[i], sq_threshold) ==> snapped_of(
                queries,
                sq_threshold,
            ).contains((queries[i].0, queries[i].2->Some_0.point)),
        forall|i: int|
            0 <= i < queries.len() && !accepted(#[trigger] queries[i], sq_threshold)
                ==> unsnapped_of(queries, sq_threshold).contains(queries[i].0),
        forall|e: (Seq<char>, Point2D)|
            snapped_of(queries, sq_threshold).contains(e) ==> exists|i: int|
                0 <= i < queries.len() && accepted(#[trigger] queries[i], sq_threshold)
                    && queries[i].0 == e.0 && queries[i].2->Some_0.point == e.1,
    decreases queries.len(),
{
    if queries.len() > 0 {
        let before = queries.drop_last();
        let q = queries.last();
        lemma_no_point_is_dropped(before, sq_threshold);
        let s0 = snapped_of(before, sq_threshold);
        let u0 = unsnapped_of(before, sq_threshold);
        let s1 = snapped_of(queries, sq_threshold);
        let u1 = unsnapped_of(queries, sq_threshold);
        assert forall|i: int|
            0 <= i < queries.len() && accepted(
                #[trigger] queries[i],
                sq_threshold,
            ) implies s1.contains((queries[i].0, queries[i].2->Some_0.point)) by {
            if i < before.len() {
                assert(before[i] == queries[i]);
                let e = (queries[i].0, queries[i].2->Some_0.point);
                assert(s0.contains(e));
                let k = choose|k: int| 0 <= k < s0.len() && s0[k] == e;
                assert(s1[k] == e);
            } else {
                assert(s1[s0.len() as int] == (q.0, q.2->Some_0.point));
            }
        }
        assert forall|i: int|
            0 <= i < queries.len() && !accepted(
                #[trigger] queries[i],
                sq_threshold,
            ) implies u1.contains(queries[i].0) by {
            if i < before.len() {
                assert(before[i] == queries[i]);
                let e = queries[i].0;
                assert(u0.contains(e));
                let k = choose|k: int| 0 <= k < u0.len() && u0[k] == e;
                assert(u1[k] == e);
            } else {
                assert(u1[u0.len() as int] == q.0);
            }
        }
        assert forall|e: (Seq<char>, Point2D)| s1.contains(e) implies exists|i: int|
            0 <= i < queries.len() && accepted(#[trigger] queries[i], sq_threshold) && queries[i].0
                == e.0 && queries[i].2->Some_0.point == e.1 by {
            let k = choose|k: int| 0 <= k < s1.len() && s1[k] == e;
            if k < s0.len() {
                assert(s0[k] == e);
                assert(s0.contains(e));
                let i = choose|i: int|
                    0 <= i < before.len() && accepted(#[trigger] before[i], sq_threshold)
                        && before[i].0 == e.0 && before[i].2->Some_0.point == e.1;
                assert(queries[i] == before[i]);
            } else {
                assert(queries[queries.len() - 1] == q);
            }
        }
    }
}

} // verus!
