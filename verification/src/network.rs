//! Connections between points of interest over the edge table: the points
//! are grouped by the node they stand on, and each node is joined to the
//! first node of interest downstream of it.

use vstd::prelude::*;
use std::collections::HashMap;
use crate::types::{Point2D, lemma_key_decides_identity};
use crate::streams::{PointSet, Streams};
use crate::names::{insert_name, insert_sorted, lemma_insert_sorted_keeps_order, ordered, texts};
use crate::outlet::{
    EdgeLog, downstream_outlet, find_outlet, lemma_outlet_is_of_interest, recorded, recorded_all,
    traversed,
};

verus! {

/// Points of interest: each an identifier and the node it stands on.
/// Identifiers are meant to be unique: [`Points::repeated_name`] tells
/// whether they are. Where they are not, two points of one identifier count
/// as two points. Several points may stand on one node.
pub struct Points(pub Vec<(String, Point2D)>);

impl View for Points {
    type V = Seq<(Seq<char>, Point2D)>;

    /// The points in their order, each identifier as its text.
    open spec fn view(&self) -> Seq<(Seq<char>, Point2D)> {
        named_nodes(self.0@)
    }
}

/// Whether the point at `j` bears the identifier of an earlier point, the
/// first of which is at `i`.
pub open spec fn repeats(points: Seq<(Seq<char>, Point2D)>, i: int, j: int) -> bool {
    &&& 0 <= i < j < points.len()
    &&& points[i].0 == points[j].0
    &&& forall|k: int| 0 <= k < i ==> (#[trigger] points[k]).0 != points[j].0
}

/// Whether no two points bear one identifier.
pub open spec fn has_unique_names(points: Seq<(Seq<char>, Point2D)>) -> bool {
    forall|i: int, j: int|
        0 <= i < j < points.len() ==> (#[trigger] points[i]).0 != (#[trigger] points[j]).0
}

impl Points {
    /// Looks for an identifier that two points bear: the first point that
    /// bears the identifier of an earlier one, with the first such earlier
    /// point before it. Nothing is found exactly when the identifiers are
    /// unique.
    pub fn repeated_name(&self) -> (r: Option<(usize, usize)>)
        ensures
            r is None <==> has_unique_names(self@),
            r is Some ==> repeats(self@, r->Some_0.0 as int, r->Some_0.1 as int),
            r is Some ==> has_unique_names(self@.take(r->Some_0.1 as int)),
    {
        let mut j: usize = 0;
        while j < self.0.len()
            invariant
                j <= self.0.len(),
                self@.len() == self.0.len(),
                has_unique_names(self@.take(j as int)),
            decreases self.0.len() - j,
        {
            let mut i: usize = 0;
            while i < j
                invariant
                    i <= j < self.0.len(),
                    self@.len() == self.0.len(),
                    has_unique_names(self@.take(j as int)),
                    forall|k: int| 0 <= k < i ==> (#[trigger] self@[k]).0 != self@[j as int].0,
                decreases j - i,
            {
                if self.0[i].0 == self.0[j].0 {
                    proof {
                        assert(self@[i as int].0 == self.0@[i as int].0@);
                        assert(self@[j as int].0 == self.0@[j as int].0@);
                        assert(self@[i as int].0 == self@[j as int].0);
                        assert(!has_unique_names(self@));
                    }
                    return Some((i, j));
                }
                proof {
                    assert(self@[i as int].0 == self.0@[i as int].0@);
                    assert(self@[j as int].0 == self.0@[j as int].0@);
                }
                i += 1;
            }
            proof {
                assert forall|a: int, b: int| 0 <= a < b < j + 1 implies (#[trigger] self@.take(
                    j + 1,
                )[a]).0 != (#[trigger] self@.take(j + 1)[b]).0 by {
                    if b < j {
                        assert(self@.take(j as int)[a].0 != self@.take(j as int)[b].0);
                    }
                }
            }
            j += 1;
        }
        proof {
            assert(self@.take(self.0.len() as int) =~= self@);
        }
        None
    }
}

/// The identifiers that stand on one node, in order.
pub struct NodeGroup {
    pub node: Point2D,
    pub names: Vec<String>,
}

impl View for NodeGroup {
    type V = (Point2D, Seq<Seq<char>>);

    /// The node and the identifiers on it, each as its text.
    open spec fn view(&self) -> (Point2D, Seq<Seq<char>>) {
        (self.node, texts(self.names@))
    }
}

/// What a list of groups reads as.
pub open spec fn group_views(groups: Seq<NodeGroup>) -> Seq<(Point2D, Seq<Seq<char>>)> {
    groups.map_values(|g: NodeGroup| g@)
}

/// What a list of pairs of strings reads as.
pub open spec fn pairs(edges: Seq<(String, String)>) -> Seq<(Seq<char>, Seq<char>)> {
    edges.map_values(|e: (String, String)| (e.0@, e.1@))
}

/// The nodes that points stand on, each once, in the order in which the
/// list first names them.
pub open spec fn nodes_of(points: Seq<(Seq<char>, Point2D)>) -> Seq<Point2D>
    decreases points.len(),
{
    if points.len() == 0 {
        Seq::empty()
    } else {
        let rest = nodes_of(points.drop_last());
        if rest.contains(points.last().1) {
            rest
        } else {
            rest.push(points.last().1)
        }
    }
}

/// The identifiers of the points that stand on `node`, in order: see
/// [`insert_sorted`].
pub open spec fn names_of(points: Seq<(Seq<char>, Point2D)>, node: Point2D) -> Seq<Seq<char>>
    decreases points.len(),
{
    if points.len() == 0 {
        Seq::empty()
    } else {
        let rest = names_of(points.drop_last(), node);
        if points.last().1 == node {
            insert_sorted(rest, points.last().0)
        } else {
            rest
        }
    }
}

/// The groups of a list of points: one per node of [`nodes_of`], with the
/// identifiers of [`names_of`].
pub open spec fn groups_of(points: Seq<(Seq<char>, Point2D)>) -> Seq<(Point2D, Seq<Seq<char>>)> {
    Seq::new(
        nodes_of(points).len(),
        |k: int| (nodes_of(points)[k], names_of(points, nodes_of(points)[k])),
    )
}

/// A node is among [`nodes_of`] exactly when a point stands on it, and no
/// node is there twice.
pub proof fn lemma_nodes_of(points: Seq<(Seq<char>, Point2D)>)
    ensures
        nodes_of(points).no_duplicates(),
        forall|p: Point2D|
            #[trigger] nodes_of(points).contains(p) <==> exists|i: int|
                0 <= i < points.len() && (#[trigger] points[i]).1 == p,
    decreases points.len(),
{
    if points.len() > 0 {
        let before = points.drop_last();
        lemma_nodes_of(before);
        let rest = nodes_of(before);
        let last = points.last().1;
        assert forall|p: Point2D| #[trigger] nodes_of(points).contains(p) implies exists|i: int|
            0 <= i < points.len() && (#[trigger] points[i]).1 == p by {
            if rest.contains(p) {
                let i = choose|i: int| 0 <= i < before.len() && (#[trigger] before[i]).1 == p;
                assert(points[i].1 == p);
            } else {
                let k = choose|k: int| 0 <= k < nodes_of(points).len() && nodes_of(points)[k] == p;
                if k < rest.len() {
                    assert(rest[k] == p);
                }
                assert(points[points.len() - 1].1 == p);
            }
        }
        assert forall|p: Point2D|
            (exists|i: int|
                0 <= i < points.len() && (#[trigger] points[i]).1 == p) implies #[trigger] nodes_of(
            points,
        ).contains(p) by {
            let i = choose|i: int| 0 <= i < points.len() && (#[trigger] points[i]).1 == p;
            if i < points.len() - 1 {
                assert(before[i].1 == p);
                assert(rest.contains(p));
                let k = choose|k: int| 0 <= k < rest.len() && rest[k] == p;
                assert(nodes_of(points)[k] == p);
            } else {
                if rest.contains(p) {
                    let k = choose|k: int| 0 <= k < rest.len() && rest[k] == p;
                    assert(nodes_of(points)[k] == p);
                } else {
                    assert(nodes_of(points)[rest.len() as int] == p);
                }
            }
        }
    }
}

/// A node that no point stands on has no identifiers, and a node of
/// [`nodes_of`] has one at least.
pub proof fn lemma_names_of(points: Seq<(Seq<char>, Point2D)>, node: Point2D)
    ensures
        nodes_of(points).contains(node) <==> names_of(points, node).len() > 0,
    decreases points.len(),
{
    if points.len() > 0 {
        let before = points.drop_last();
        lemma_names_of(before, node);
        lemma_insert_len(names_of(before, node), points.last().0);
        let rest = nodes_of(before);
        if rest.contains(node) {
            let k = choose|k: int| 0 <= k < rest.len() && rest[k] == node;
            assert(nodes_of(points)[k] == node);
        } else if points.last().1 == node {
            assert(nodes_of(points)[rest.len() as int] == node);
        } else {
            if nodes_of(points).contains(node) {
                let k = choose|k: int| 0 <= k < nodes_of(points).len() && nodes_of(points)[k] == node;
                if k < rest.len() {
                    assert(rest[k] == node);
                }
            }
        }
    }
}

proof fn lemma_insert_len(names: Seq<Seq<char>>, name: Seq<char>)
    ensures
        insert_sorted(names, name).len() == names.len() + 1,
    decreases names.len(),
{
    if names.len() > 0 {
        lemma_insert_len(names.drop_first(), name);
    }
}

/// Whether `index` leads from each node's key to the place of its group.
spec fn indexes(index: Map<u128, usize>, nodes: Seq<Point2D>) -> bool {
    &&& forall|p: Point2D| #[trigger] index.contains_key(p.spec_key()) <==> nodes.contains(p)
    &&& forall|p: Point2D|
        nodes.contains(p) ==> (#[trigger] index[p.spec_key()]) < nodes.len() && nodes[index[p.spec_key()] as int]
            == p
}

fn group_indexed(points: &Points) -> (r: (Vec<NodeGroup>, HashMap<u128, usize>))
    ensures
        group_views(r.0@) == groups_of(points@),
        indexes(r.1@, nodes_of(points@)),
{
    let mut groups: Vec<NodeGroup> = Vec::new();
    let mut index: HashMap<u128, usize> = HashMap::new();
    let mut i: usize = 0;
    assert(points@.take(0) =~= Seq::empty());
    assert(group_views(groups@) =~= groups_of(points@.take(0)));
    assert(forall|p: Point2D| !nodes_of(points@.take(0)).contains(p));
    while i < points.0.len()
        invariant
            i <= points.0.len(),
            points@.len() == points.0.len(),
            group_views(groups@) == groups_of(points@.take(i as int)),
            indexes(index@, nodes_of(points@.take(i as int))),
        decreases points.0.len() - i,
    {
        let ghost before = points@.take(i as int);
        let ghost after = points@.take(i + 1);
        let ghost nodes = nodes_of(before);
        let name: String = points.0[i].0.clone();
        let node: Point2D = points.0[i].1;
        let key: u128 = node.key();
        proof {
            assert(after.drop_last() =~= before);
            assert(after.last() == (name@, node));
            lemma_nodes_of(before);
            lemma_names_of(before, node);
            assert(groups@.len() == nodes.len()) by {
                assert(group_views(groups@).len() == groups@.len());
            }
            assert forall|k: int| 0 <= k < groups@.len() implies (#[trigger] groups@[k])@ == (
                nodes[k],
                names_of(before, nodes[k]),
            ) by {
                assert(group_views(groups@)[k] == groups@[k]@);
            }
            assert forall|p: Point2D| p.spec_key() == node.spec_key() <==> p == node by {
                lemma_key_decides_identity(p, node);
            }
        }
        match index.get(&key) {
            Some(at) => {
                let at: usize = *at;
                assert(nodes.contains(node));
                assert(nodes[at as int] == node);
                insert_name(&mut groups[at].names, name);
                proof {
                    assert(nodes_of(after) == nodes);
                    assert(group_views(groups@) =~= groups_of(after)) by {
                        assert forall|k: int| 0 <= k < groups@.len() implies group_views(
                            groups@,
                        )[k] == groups_of(after)[k] by {
                            if k != at {
                                assert(nodes[k] != node);
                            }
                        }
                    }
                }
            },
            None => {
                assert(!nodes.contains(node));
                let mut names: Vec<String> = Vec::new();
                names.push(name);
                proof {
                    assert(names_of(before, node) =~= Seq::empty());
                    assert(texts(names@) =~= insert_sorted(Seq::empty(), name@));
                }
                groups.push(NodeGroup { node, names });
                index.insert(key, groups.len() - 1);
                proof {
                    assert(nodes_of(after) == nodes.push(node));
                    assert(group_views(groups@) =~= groups_of(after)) by {
                        assert forall|k: int| 0 <= k < groups@.len() implies group_views(
                            groups@,
                        )[k] == groups_of(after)[k] by {
                            if k < nodes.len() {
                                assert(nodes.contains(nodes[k]));
                                assert(nodes[k] != node);
                            }
                        }
                    }
                    assert forall|p: Point2D| #[trigger]
                        index@.contains_key(p.spec_key()) <==> nodes_of(after).contains(p) by {
                        lemma_key_decides_identity(p, node);
                        if nodes.contains(p) {
                            let k = choose|k: int| 0 <= k < nodes.len() && nodes[k] == p;
                            assert(nodes_of(after)[k] == p);
                        }
                        if p == node {
                            assert(nodes_of(after)[nodes.len() as int] == p);
                        }
                        if nodes_of(after).contains(p) && p != node {
                            let k = choose|k: int|
                                0 <= k < nodes_of(after).len() && nodes_of(after)[k] == p;
                            assert(nodes[k] == p);
                        }
                    }
                    assert forall|p: Point2D| nodes_of(after).contains(p) implies (
                    #[trigger] index@[p.spec_key()]) < nodes_of(after).len() && nodes_of(
                        after,
                    )[index@[p.spec_key()] as int] == p by {
                        lemma_key_decides_identity(p, node);
                        if p != node {
                            let k = choose|k: int|
                                0 <= k < nodes_of(after).len() && nodes_of(after)[k] == p;
                            assert(nodes[k] == p);
                            assert(nodes.contains(p));
                        }
                    }
                }
            },
        }
        i += 1;
    }
    assert(points@.take(points.0.len() as int) =~= points@);
    (groups, index)
}

/// Groups the points by the node they stand on: see [`groups_of`]. The
/// groups come in the order in which the list first names their nodes, and
/// the identifiers of a group in lexicographic order.
pub fn group_by_node(points: &Points) -> (groups: Vec<NodeGroup>)
    ensures
        group_views(groups@) == groups_of(points@),
{
    group_indexed(points).0
}

/// The edges that join each identifier of a group to the next.
pub open spec fn chain(names: Seq<Seq<char>>) -> Seq<(Seq<char>, Seq<char>)> {
    if names.len() == 0 {
        Seq::empty()
    } else {
        Seq::new((names.len() - 1) as nat, |i: int| (names[i], names[i + 1]))
    }
}

/// The chains of all groups, group after group.
pub open spec fn chains(groups: Seq<(Point2D, Seq<Seq<char>>)>) -> Seq<(Seq<char>, Seq<char>)>
    decreases groups.len(),
{
    if groups.len() == 0 {
        Seq::empty()
    } else {
        chains(groups.drop_last()) + chain(groups.last().1)
    }
}

/// The nodes of interest: those that a point stands on.
pub open spec fn nodes_of_interest(points: Seq<(Seq<char>, Point2D)>) -> Set<Point2D> {
    nodes_of(points).to_set()
}

/// The first node of interest downstream of `node`, within `hops` hops.
pub open spec fn outlet_of(
    points: Seq<(Seq<char>, Point2D)>,
    table: Map<Point2D, Point2D>,
    hops: nat,
    node: Point2D,
) -> Option<Point2D> {
    downstream_outlet(table, nodes_of_interest(points), node, hops)
}

/// The edges that join nodes: for each of `nodes` that has an outlet, in
/// order, one from the last identifier on the node to the first identifier on
/// its outlet.
pub open spec fn links(
    points: Seq<(Seq<char>, Point2D)>,
    table: Map<Point2D, Point2D>,
    hops: nat,
    nodes: Seq<Point2D>,
) -> Seq<(Seq<char>, Seq<char>)>
    decreases nodes.len(),
{
    if nodes.len() == 0 {
        Seq::empty()
    } else {
        let rest = links(points, table, hops, nodes.drop_last());
        match outlet_of(points, table, hops, nodes.last()) {
            Some(o) => rest.push((names_of(points, nodes.last()).last(), names_of(points, o).first())),
            None => rest,
        }
    }
}

/// Those of `nodes` that have no outlet, in order, each with the last
/// identifier on it.
pub open spec fn dead_ends(
    points: Seq<(Seq<char>, Point2D)>,
    table: Map<Point2D, Point2D>,
    hops: nat,
    nodes: Seq<Point2D>,
) -> Seq<(Seq<char>, Point2D)>
    decreases nodes.len(),
{
    if nodes.len() == 0 {
        Seq::empty()
    } else {
        let rest = dead_ends(points, table, hops, nodes.drop_last());
        match outlet_of(points, table, hops, nodes.last()) {
            Some(o) => rest,
            None => rest.push((names_of(points, nodes.last()).last(), nodes.last())),
        }
    }
}

/// The log of the edges that the searches from `nodes` touch, node after
/// node: with `endpoints`, one edge from each node to its outlet; otherwise
/// every edge that a search runs over.
pub open spec fn touched_by(
    points: Seq<(Seq<char>, Point2D)>,
    table: Map<Point2D, Point2D>,
    hops: nat,
    endpoints: bool,
    nodes: Seq<Point2D>,
) -> Seq<(Point2D, Point2D)>
    decreases nodes.len(),
{
    if nodes.len() == 0 {
        Seq::empty()
    } else {
        let log = touched_by(points, table, hops, endpoints, nodes.drop_last());
        if endpoints {
            match outlet_of(points, table, hops, nodes.last()) {
                Some(o) => recorded(log, (nodes.last(), o)),
                None => log,
            }
        } else {
            recorded_all(log, traversed(table, nodes_of_interest(points), nodes.last(), hops))
        }
    }
}

/// What a list of named nodes reads as.
pub open spec fn named_nodes(list: Seq<(String, Point2D)>) -> Seq<(Seq<char>, Point2D)> {
    list.map_values(|e: (String, Point2D)| (e.0@, e.1))
}

/// The connections between points of interest.
pub struct Network {
    /// From an identifier to the next one downstream of it.
    pub edges: Vec<(String, String)>,
    /// The nodes with nothing of interest downstream, each with the last
    /// identifier on it.
    pub outlets: Vec<(String, Point2D)>,
    /// The edges of the table that the searches touched.
    pub touched: Vec<(Point2D, Point2D)>,
}

/// Connects the points of interest over the edge table.
///
/// The identifiers on one node are chained in their order. Then each node is
/// searched downstream for the first other node of interest, over at most
/// `max_hops` hops: where one is found, the last identifier on the node is
/// joined to the first identifier on the outlet; where none is, the node is
/// an outlet of the network.
pub fn connections(points: &Points, streams: &Streams, max_hops: usize, endpoints: bool) -> (r:
    Network)
    ensures
        pairs(r.edges@) == chains(groups_of(points@)) + links(
            points@,
            streams@,
            max_hops as nat,
            nodes_of(points@),
        ),
        named_nodes(r.outlets@) == dead_ends(
            points@,
            streams@,
            max_hops as nat,
            nodes_of(points@),
        ),
        r.touched@ == touched_by(
            points@,
            streams@,
            max_hops as nat,
            endpoints,
            nodes_of(points@),
        ),
{
    let (groups, index) = group_indexed(points);
    let ghost all = groups_of(points@);
    let ghost nodes = nodes_of(points@);
    proof {
        assert(group_views(groups@).len() == groups@.len());
        assert forall|k: int| 0 <= k < groups@.len() implies (#[trigger] groups@[k])@ == (
            nodes[k],
            names_of(points@, nodes[k]),
        ) by {
            assert(group_views(groups@)[k] == groups@[k]@);
        }
        assert forall|k: int| 0 <= k < groups@.len() implies (#[trigger] groups@[k]).names@.len()
            > 0 by {
            lemma_names_of(points@, nodes[k]);
            assert(nodes.contains(nodes[k]));
            assert(texts(groups@[k].names@).len() == groups@[k].names@.len());
        }
    }
    let mut pois = PointSet::new();
    let mut k: usize = 0;
    assert(nodes.take(0).to_set() =~= Set::<Point2D>::empty());
    while k < groups.len()
        invariant
            k <= groups.len(),
            groups@.len() == nodes.len(),
            forall|j: int| 0 <= j < groups@.len() ==> (#[trigger] groups@[j]).node == nodes[j],
            pois@ == nodes.take(k as int).to_set(),
        decreases groups.len() - k,
    {
        pois.insert(groups[k].node);
        proof {
            assert(nodes.take(k + 1) =~= nodes.take(k as int).push(nodes[k as int]));
            nodes.take(k as int).lemma_push_to_set_commute(nodes[k as int]);
        }
        k += 1;
    }
    assert(nodes.take(groups.len() as int) =~= nodes);

    let mut edges: Vec<(String, String)> = Vec::new();
    k = 0;
    assert(all.take(0) =~= Seq::empty());
    assert(pairs(edges@) =~= chains(all.take(0)));
    while k < groups.len()
        invariant
            k <= groups.len(),
            groups@.len() == all.len(),
            forall|j: int| 0 <= j < groups@.len() ==> (#[trigger] groups@[j])@ == all[j],
            forall|j: int| 0 <= j < groups@.len() ==> (#[trigger] groups@[j]).names@.len() > 0,
            pairs(edges@) == chains(all.take(k as int)),
        decreases groups.len() - k,
    {
        let names = &groups[k].names;
        let ghost read = texts(names@);
        let ghost done = chains(all.take(k as int));
        let mut i: usize = 1;
        assert(chain(read).take(0) =~= Seq::empty());
        assert(pairs(edges@) =~= done + chain(read).take(0));
        while i < names.len()
            invariant
                1 <= i <= names.len(),
                read == texts(names@),
                pairs(edges@) == done + chain(read).take(i - 1),
            decreases names.len() - i,
        {
            let ghost before = edges@;
            edges.push((names[i - 1].clone(), names[i].clone()));
            proof {
                assert(read[i - 1] == names@[i - 1]@);
                assert(read[i as int] == names@[i as int]@);
                assert(pairs(edges@) =~= pairs(before).push((read[i - 1], read[i as int])));
                assert(chain(read).take(i as int) =~= chain(read).take(i - 1).push(
                    (read[i - 1], read[i as int]),
                ));
                assert(pairs(edges@) =~= done + chain(read).take(i as int));
            }
            i += 1;
        }
        proof {
            assert(chain(read).take(names.len() - 1) =~= chain(read));
            assert(all.take(k + 1).drop_last() =~= all.take(k as int));
            assert(all.take(k + 1).last() == groups@[k as int]@);
        }
        k += 1;
    }
    assert(all.take(groups.len() as int) =~= all);

    let ghost chained = pairs(edges@);
    let ghost table = streams@;
    let ghost hops = max_hops as nat;
    let mut outlets: Vec<(String, Point2D)> = Vec::new();
    let mut touched = EdgeLog::new();
    k = 0;
    assert(nodes.take(0) =~= Seq::empty());
    assert(pairs(edges@) =~= chained + links(points@, table, hops, nodes.take(0)));
    assert(named_nodes(outlets@) =~= dead_ends(points@, table, hops, nodes.take(0)));
    while k < groups.len()
        invariant
            k <= groups.len(),
            groups@.len() == nodes.len(),
            nodes == nodes_of(points@),
            table == streams@,
            hops == max_hops as nat,
            pois@ == nodes_of_interest(points@),
            indexes(index@, nodes),
            forall|j: int|
                0 <= j < groups@.len() ==> (#[trigger] groups@[j])@ == (
                    nodes[j],
                    names_of(points@, nodes[j]),
                ),
            forall|j: int| 0 <= j < groups@.len() ==> (#[trigger] groups@[j]).names@.len() > 0,
            pairs(edges@) == chained + links(points@, table, hops, nodes.take(k as int)),
            named_nodes(outlets@) == dead_ends(points@, table, hops, nodes.take(k as int)),
            touched@ == touched_by(points@, table, hops, endpoints, nodes.take(k as int)),
        decreases groups.len() - k,
    {
        let node: Point2D = groups[k].node;
        let names = &groups[k].names;
        let last: String = names[names.len() - 1].clone();
        proof {
            assert(nodes.take(k + 1).drop_last() =~= nodes.take(k as int));
            assert(nodes.take(k + 1).last() == node);
            assert(texts(names@).last() == last@);
        }
        match find_outlet(&node, &pois, streams, max_hops, &mut touched, endpoints) {
            Some(o) => {
                proof {
                    lemma_outlet_is_of_interest(table, pois@, node, hops);
                    assert(nodes.contains(o));
                }
                let key: u128 = o.key();
                let at: usize = match index.get(&key) {
                    Some(at) => *at,
                    None => 0,
                };
                let first: String = groups[at].names[0].clone();
                proof {
                    assert(nodes[at as int] == o);
                    assert(texts(groups@[at as int].names@).first() == first@);
                }
                let ghost before = edges@;
                edges.push((last, first));
                proof {
                    assert(pairs(edges@) =~= pairs(before).push((last@, first@)));
                    assert(texts(groups@[k as int].names@) == names_of(points@, node));
                    assert(texts(groups@[at as int].names@) == names_of(points@, o));
                    assert(outlet_of(points@, table, hops, node) == Some(o));
                    assert(pairs(edges@) =~= chained + links(
                        points@,
                        table,
                        hops,
                        nodes.take(k + 1),
                    ));
                }
            },
            None => {
                let ghost before = outlets@;
                outlets.push((last, node));
                proof {
                    assert(named_nodes(outlets@) =~= named_nodes(before).push((last@, node)));
                    assert(texts(groups@[k as int].names@) == names_of(points@, node));
                    assert(outlet_of(points@, table, hops, node) is None);
                    assert(named_nodes(outlets@) =~= dead_ends(
                        points@,
                        table,
                        hops,
                        nodes.take(k + 1),
                    ));
                }
            },
        }
        k += 1;
    }
    assert(nodes.take(groups.len() as int) =~= nodes);
    Network { edges, outlets, touched: touched.into_edges() }
}

/// The identifiers of the points that stand on `node`, as the list has them.
pub open spec fn names_as_given(points: Seq<(Seq<char>, Point2D)>, node: Point2D) -> Seq<Seq<char>>
    decreases points.len(),
{
    if points.len() == 0 {
        Seq::empty()
    } else {
        let rest = names_as_given(points.drop_last(), node);
        if points.last().1 == node {
            rest.push(points.last().0)
        } else {
            rest
        }
    }
}

/// The identifiers on a node are ordered, whatever the order of the points,
/// and they are the identifiers of the points on that node, each as often as
/// it is given.
pub proof fn lemma_names_are_ordered(points: Seq<(Seq<char>, Point2D)>, node: Point2D)
    ensures
        ordered(names_of(points, node)),
        names_of(points, node).to_multiset() == names_as_given(points, node).to_multiset(),
    decreases points.len(),
{
    broadcast use vstd::seq_lib::group_to_multiset_ensures;

    if points.len() > 0 {
        let before = points.drop_last();
        lemma_names_are_ordered(before, node);
        if points.last().1 == node {
            lemma_insert_sorted_keeps_order(names_of(before, node), points.last().0);
        }
    }
}

/// The edge that joins `node` to its outlet: from the last identifier on the
/// node to the first identifier on the outlet.
pub open spec fn link_of(
    points: Seq<(Seq<char>, Point2D)>,
    table: Map<Point2D, Point2D>,
    hops: nat,
    node: Point2D,
) -> (Seq<char>, Seq<char>) {
    (
        names_of(points, node).last(),
        names_of(points, outlet_of(points, table, hops, node)->Some_0).first(),
    )
}

/// The edges that join nodes are exactly the links of the nodes that have an
/// outlet, one for each such node and none for any other: a node is joined
/// to the first node of interest downstream of it and to nothing beyond.
pub proof fn lemma_links_join_nodes_to_outlets(
    points: Seq<(Seq<char>, Point2D)>,
    table: Map<Point2D, Point2D>,
    hops: nat,
    nodes: Seq<Point2D>,
)
    ensures
        links(points, table, hops, nodes).len() <= nodes.len(),
        forall|k: int|
            0 <= k < nodes.len() && outlet_of(points, table, hops, #[trigger] nodes[k]) is Some
                ==> links(points, table, hops, nodes).contains(
                link_of(points, table, hops, nodes[k]),
            ),
        forall|e: (Seq<char>, Seq<char>)|
            links(points, table, hops, nodes).contains(e) ==> exists|k: int|
                0 <= k < nodes.len() && outlet_of(points, table, hops, #[trigger] nodes[k])
                    is Some && e == link_of(points, table, hops, nodes[k]),
        (forall|k: int|
            0 <= k < nodes.len() ==> outlet_of(points, table, hops, #[trigger] nodes[k]) is None)
            ==> links(points, table, hops, nodes).len() == 0,
    decreases nodes.len(),
{
    if nodes.len() > 0 {
        let before = nodes.drop_last();
        let node = nodes.last();
        lemma_links_join_nodes_to_outlets(points, table, hops, before);
        let l0 = links(points, table, hops, before);
        let l1 = links(points, table, hops, nodes);
        assert(node == nodes[nodes.len() - 1]);
        assert forall|k: int|
            0 <= k < nodes.len() && outlet_of(points, table, hops, #[trigger] nodes[k])
                is Some implies l1.contains(link_of(points, table, hops, nodes[k])) by {
            if k < before.len() {
                assert(before[k] == nodes[k]);
                let e = link_of(points, table, hops, nodes[k]);
                assert(l0.contains(e));
                let i = choose|i: int| 0 <= i < l0.len() && l0[i] == e;
                assert(l1[i] == e);
            } else {
                assert(l1[l0.len() as int] == link_of(points, table, hops, node));
            }
        }
        assert forall|e: (Seq<char>, Seq<char>)| l1.contains(e) implies exists|k: int|
            0 <= k < nodes.len() && outlet_of(points, table, hops, #[trigger] nodes[k]) is Some && e
                == link_of(points, table, hops, nodes[k]) by {
            let i = choose|i: int| 0 <= i < l1.len() && l1[i] == e;
            if i < l0.len() {
                assert(l0[i] == e);
                assert(l0.contains(e));
                let k = choose|k: int|
                    0 <= k < before.len() && outlet_of(points, table, hops, #[trigger] before[k])
                        is Some && e == link_of(points, table, hops, before[k]);
                assert(nodes[k] == before[k]);
            } else {
                assert(e == link_of(points, table, hops, nodes[nodes.len() - 1]));
            }
        }
        if forall|k: int|
            0 <= k < nodes.len() ==> outlet_of(points, table, hops, #[trigger] nodes[k]) is None {
            assert forall|k: int| 0 <= k < before.len() implies outlet_of(
                points,
                table,
                hops,
                #[trigger] before[k],
            ) is None by {
                assert(before[k] == nodes[k]);
            }
        }
    }
}

} // verus!
