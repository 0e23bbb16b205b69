//! The stream network as a table from a node to the one node downstream of
//! it, and sets of nodes.

use vstd::prelude::*;
use std::collections::HashMap;
use std::collections::HashSet;
use crate::types::{Point2D, lemma_key_decides_identity};

verus! {

/// The table that a list of edges gives. The edges are entered from the last
/// to the first, and an entry replaces an earlier one for the same start: of
/// several edges that leave one node, the first in the list is kept.
pub open spec fn table_of(edges: Seq<(Point2D, Point2D)>) -> Map<Point2D, Point2D>
    decreases edges.len(),
{
    if edges.len() == 0 {
        Map::empty()
    } else {
        table_of(edges.drop_first()).insert(edges[0].0, edges[0].1)
    }
}

/// Whether no edge before the `i`-th leaves the node that the `i`-th leaves.
pub open spec fn is_first_leaving(edges: Seq<(Point2D, Point2D)>, i: int) -> bool {
    &&& 0 <= i < edges.len()
    &&& forall|j: int| 0 <= j < i ==> (#[trigger] edges[j]).0 != edges[i].0
}

/// The table has an entry for exactly the nodes that some edge leaves, and
/// it leads where the first such edge leads.
pub proof fn lemma_table_keeps_first_edge(edges: Seq<(Point2D, Point2D)>)
    ensures
        forall|p: Point2D|
            #[trigger] table_of(edges).contains_key(p) <==> exists|i: int|
                0 <= i < edges.len() && (#[trigger] edges[i]).0 == p,
        forall|i: int|
            is_first_leaving(edges, i) ==> table_of(edges)[(#[trigger] edges[i]).0] == edges[i].1,
    decreases edges.len(),
{
    if edges.len() > 0 {
        let rest = edges.drop_first();
        lemma_table_keeps_first_edge(rest);
        assert forall|p: Point2D| #[trigger] table_of(edges).contains_key(p) implies exists|i: int|
            0 <= i < edges.len() && (#[trigger] edges[i]).0 == p by {
            if p != edges[0].0 {
                assert(table_of(rest).contains_key(p));
                let j = choose|j: int| 0 <= j < rest.len() && (#[trigger] rest[j]).0 == p;
                assert(edges[j + 1].0 == p);
            } else {
                assert(edges[0].0 == p);
            }
        }
        assert forall|p: Point2D|
            (exists|i: int|
                0 <= i < edges.len() && (#[trigger] edges[i]).0 == p) implies #[trigger] table_of(
            edges,
        ).contains_key(p) by {
            let i = choose|i: int| 0 <= i < edges.len() && (#[trigger] edges[i]).0 == p;
            if i > 0 {
                assert(rest[i - 1].0 == p);
                assert(table_of(rest).contains_key(p));
            }
        }
        assert forall|i: int| is_first_leaving(edges, i) implies table_of(edges)[(
        #[trigger] edges[i]).0] == edges[i].1 by {
            if i > 0 {
                assert(edges[0].0 != edges[i].0);
                assert forall|j: int| 0 <= j < i - 1 implies (#[trigger] rest[j]).0 != rest[i
                    - 1].0 by {
                    assert(edges[j + 1].0 != edges[i].0);
                }
                assert(is_first_leaving(rest, i - 1));
                assert(rest[i - 1] == edges[i]);
            }
        }
    }
}

/// The network's edge table: for each node that an edge leaves, the one node
/// downstream of it.
pub struct Streams {
    table: HashMap<u128, Point2D>,
}

impl View for Streams {
    type V = Map<Point2D, Point2D>;

    /// The table as a map from a node to the node downstream of it.
    closed spec fn view(&self) -> Map<Point2D, Point2D> {
        Map::new(
            |p: Point2D| self.table@.contains_key(p.spec_key()),
            |p: Point2D| self.table@[p.spec_key()],
        )
    }
}

impl Streams {
    /// The table without entries.
    pub fn new() -> (s: Streams)
        ensures
            s@ == Map::<Point2D, Point2D>::empty(),
    {
        let s = Streams { table: HashMap::new() };
        assert(s@ =~= Map::<Point2D, Point2D>::empty());
        s
    }

    /// Enters the edge `from -> to`, in place of any entry that `from` had.
    pub fn insert(&mut self, from: Point2D, to: Point2D)
        ensures
            final(self)@ == old(self)@.insert(from, to),
    {
        self.table.insert(from.key(), to);
        proof {
            assert forall|p: Point2D| p.spec_key() == from.spec_key() <==> p == from by {
                lemma_key_decides_identity(p, from);
            }
            assert(self@ =~= old(self)@.insert(from, to));
        }
    }

    /// The table of a list of edges: see [`table_of`].
    pub fn from_edges(edges: &Vec<(Point2D, Point2D)>) -> (s: Streams)
        ensures
            s@ == table_of(edges@),
    {
        let mut s = Streams::new();
        let mut i: usize = edges.len();
        assert(edges@.subrange(i as int, edges.len() as int) =~= Seq::empty());
        while i > 0
            invariant
                i <= edges.len(),
                s@ == table_of(edges@.subrange(i as int, edges.len() as int)),
            decreases i,
        {
            i -= 1;
            let e = edges[i];
            s.insert(e.0, e.1);
            proof {
                let tail = edges@.subrange(i as int, edges.len() as int);
                assert(tail.drop_first() =~= edges@.subrange(i + 1, edges.len() as int));
                assert(tail[0] == edges@[i as int]);
            }
        }
        assert(edges@.subrange(0, edges.len() as int) =~= edges@);
        s
    }

    /// The node downstream of `p`, if an edge leaves `p`.
    pub fn get(&self, p: &Point2D) -> (r: Option<Point2D>)
        ensures
            r is Some <==> self@.contains_key(*p),
            r is Some ==> r->Some_0 == self@[*p],
    {
        let k: u128 = p.key();
        match self.table.get(&k) {
            Some(q) => Some(*q),
            None => None,
        }
    }

    /// Whether an edge leaves `p`.
    pub fn contains(&self, p: &Point2D) -> (r: bool)
        ensures
            r == self@.contains_key(*p),
    {
        let k: u128 = p.key();
        self.table.contains_key(&k)
    }
}

/// A set of nodes.
pub struct PointSet {
    keys: HashSet<u128>,
}

impl View for PointSet {
    type V = Set<Point2D>;

    /// The members.
    closed spec fn view(&self) -> Set<Point2D> {
        Set::new(|p: Point2D| self.keys@.contains(p.spec_key()))
    }
}

impl PointSet {
    /// The set without members.
    pub fn new() -> (s: PointSet)
        ensures
            s@ == Set::<Point2D>::empty(),
    {
        let s = PointSet { keys: HashSet::new() };
        assert(s@ =~= Set::<Point2D>::empty());
        s
    }

    /// Adds `p`; tells whether it was new.
    pub fn insert(&mut self, p: Point2D) -> (fresh: bool)
        ensures
            final(self)@ == old(self)@.insert(p),
            fresh == !old(self)@.contains(p),
    {
        let fresh = self.keys.insert(p.key());
        proof {
            assert forall|q: Point2D| q.spec_key() == p.spec_key() <==> q == p by {
                lemma_key_decides_identity(q, p);
            }
            assert(self@ =~= old(self)@.insert(p));
        }
        fresh
    }

    /// Whether `p` is a member.
    pub fn contains(&self, p: &Point2D) -> (r: bool)
        ensures
            r == self@.contains(*p),
    {
        let k: u128 = p.key();
        self.keys.contains(&k)
    }

    /// The set of the points of a list.
    pub fn from_points(points: &Vec<Point2D>) -> (s: PointSet)
        ensures
            s@ == points@.to_set(),
    {
        let mut s = PointSet::new();
        let mut i: usize = 0;
        assert(points@.take(0).to_set() =~= Set::<Point2D>::empty());
        while i < points.len()
            invariant
                i <= points.len(),
                s@ == points@.take(i as int).to_set(),
            decreases points.len() - i,
        {
            s.insert(points[i]);
            proof {
                assert(points@.take(i + 1) =~= points@.take(i as int).push(points@[i as int]));
                points@.take(i as int).lemma_push_to_set_commute(points@[i as int]);
            }
            i += 1;
        }
        assert(points@.take(points.len() as int) =~= points@);
        s
    }
}

/// Entering one more edge at the end of the list changes the table only
/// where no earlier edge leaves the same node.
pub proof fn lemma_table_of_push(edges: Seq<(Point2D, Point2D)>, e: (Point2D, Point2D))
    ensures
        table_of(edges.push(e)) == if table_of(edges).contains_key(e.0) {
            table_of(edges)
        } else {
            table_of(edges).insert(e.0, e.1)
        },
    decreases edges.len(),
{
    if edges.len() == 0 {
        assert(edges.push(e).drop_first() =~= edges);
        assert(edges.push(e)[0] == e);
        assert(table_of(edges.push(e)) == table_of(edges).insert(e.0, e.1));
    } else {
        let rest = edges.drop_first();
        lemma_table_of_push(rest, e);
        assert(edges.push(e).drop_first() =~= rest.push(e));
        assert(edges.push(e)[0] == edges[0]);
        if table_of(rest).contains_key(e.0) {
        } else if edges[0].0 == e.0 {
            assert(table_of(edges.push(e)) =~= table_of(edges));
        } else {
            assert(table_of(edges.push(e)) =~= table_of(edges).insert(e.0, e.1));
        }
    }
}

/// Whether `p` is a node of the table: an edge of it leaves `p` or enters it.
pub open spec fn is_node(table: Map<Point2D, Point2D>, p: Point2D) -> bool {
    table.contains_key(p) || exists|q: Point2D| #[trigger] table.contains_key(q) && table[q] == p
}

/// The nodes of the table that a list of edges gives, each once.
pub fn network_nodes(edges: &Vec<(Point2D, Point2D)>) -> (nodes: Vec<Point2D>)
    ensures
        nodes@.no_duplicates(),
        forall|p: Point2D| #[trigger] nodes@.contains(p) <==> is_node(table_of(edges@), p),
{
    let mut starts = PointSet::new();
    let mut added = PointSet::new();
    let mut nodes: Vec<Point2D> = Vec::new();
    let mut i: usize = 0;
    assert(edges@.take(0) =~= Seq::empty());
    while i < edges.len()
        invariant
            i <= edges.len(),
            nodes@.no_duplicates(),
            forall|p: Point2D|
                #[trigger] starts@.contains(p) <==> table_of(edges@.take(i as int)).contains_key(p),
            forall|p: Point2D| #[trigger] added@.contains(p) <==> nodes@.contains(p),
            forall|p: Point2D|
                #[trigger] nodes@.contains(p) <==> is_node(table_of(edges@.take(i as int)), p),
        decreases edges.len() - i,
    {
        let e = edges[i];
        let ghost before = table_of(edges@.take(i as int));
        let ghost after = table_of(edges@.take(i + 1));
        let ghost listed = nodes@;
        proof {
            assert(edges@.take(i + 1) =~= edges@.take(i as int).push(e));
            lemma_table_of_push(edges@.take(i as int), e);
        }
        if starts.insert(e.0) {
            if added.insert(e.0) {
                nodes.push(e.0);
            }
            let ghost middle = nodes@;
            if added.insert(e.1) {
                nodes.push(e.1);
            }
            proof {
                assert(after == before.insert(e.0, e.1));
                assert forall|p: Point2D| #[trigger] middle.contains(p) <==> listed.contains(p) || p
                    == e.0 by {
                    if listed.contains(p) {
                        let k = choose|k: int| 0 <= k < listed.len() && listed[k] == p;
                        assert(middle[k] == p);
                    }
                    if middle.contains(p) && p != e.0 {
                        let k = choose|k: int| 0 <= k < middle.len() && middle[k] == p;
                        assert(listed[k] == p);
                    }
                    if p == e.0 && !listed.contains(p) {
                        assert(middle[listed.len() as int] == p);
                    }
                }
                assert forall|p: Point2D| #[trigger] nodes@.contains(p) <==> middle.contains(p) || p
                    == e.1 by {
                    if middle.contains(p) {
                        let k = choose|k: int| 0 <= k < middle.len() && middle[k] == p;
                        assert(nodes@[k] == p);
                    }
                    if nodes@.contains(p) && p != e.1 {
                        let k = choose|k: int| 0 <= k < nodes@.len() && nodes@[k] == p;
                        assert(middle[k] == p);
                    }
                    if p == e.1 && !middle.contains(p) {
                        assert(nodes@[middle.len() as int] == p);
                    }
                }
                assert forall|p: Point2D| #[trigger] nodes@.contains(p) <==> is_node(after, p) by {
                    if is_node(before, p) && !before.contains_key(p) {
                        let q = choose|q: Point2D| #[trigger] before.contains_key(q) && before[q] == p;
                        assert(after.contains_key(q) && after[q] == p);
                    }
                    if p == e.1 {
                        assert(after.contains_key(e.0) && after[e.0] == p);
                    }
                    if is_node(after, p) && !after.contains_key(p) {
                        let q = choose|q: Point2D| #[trigger] after.contains_key(q) && after[q] == p;
                        if q != e.0 {
                            assert(before.contains_key(q) && before[q] == p);
                        }
                    }
                }
            }
        }
        i += 1;
    }
    assert(edges@.take(edges.len() as int) =~= edges@);
    nodes
}

/// The list after `p` is added: `p` goes to the end unless the list holds it.
pub open spec fn added(list: Seq<Point2D>, p: Point2D) -> Seq<Point2D> {
    if list.contains(p) {
        list
    } else {
        list.push(p)
    }
}

/// A list of nodes that holds none twice, in the order in which they were
/// added.
pub struct NodeList {
    seen: PointSet,
    items: Vec<Point2D>,
}

impl View for NodeList {
    type V = Seq<Point2D>;

    /// The nodes in the order in which they were added.
    closed spec fn view(&self) -> Seq<Point2D> {
        self.items@
    }
}

impl NodeList {
    #[verifier::type_invariant]
    spec fn seen_is_items(self) -> bool {
        &&& self.items@.no_duplicates()
        &&& forall|p: Point2D| #[trigger] self.seen@.contains(p) <==> self.items@.contains(p)
    }

    /// The list without nodes.
    pub fn new() -> (list: NodeList)
        ensures
            list@ == Seq::<Point2D>::empty(),
    {
        NodeList { seen: PointSet::new(), items: Vec::new() }
    }

    /// Whether the list holds `p`.
    pub fn contains(&self, p: &Point2D) -> (r: bool)
        ensures
            r == self@.contains(*p),
    {
        proof {
            use_type_invariant(self);
        }
        self.seen.contains(p)
    }

    /// Adds `p` unless the list holds it: see [`added`].
    pub fn add(&mut self, p: Point2D)
        ensures
            final(self)@ == added(old(self)@, p),
    {
        proof {
            use_type_invariant(&*self);
        }
        if !self.seen.contains(&p) {
            let ghost before = self.items@;
            let mut taken = NodeList::new();
            core::mem::swap(&mut taken, self);
            let NodeList { mut seen, mut items } = taken;
            seen.insert(p);
            items.push(p);
            proof {
                assert forall|q: Point2D| #[trigger] seen@.contains(q) <==> items@.contains(q) by {
                    if items@.contains(q) {
                        let i = choose|i: int| 0 <= i < items@.len() && items@[i] == q;
                        if i < before.len() {
                            assert(before[i] == q);
                        }
                    }
                    if seen@.contains(q) {
                        if q == p {
                            assert(items@[before.len() as int] == q);
                        } else {
                            let i = choose|i: int| 0 <= i < before.len() && before[i] == q;
                            assert(items@[i] == q);
                        }
                    }
                }
                assert forall|i: int, j: int|
                    0 <= i < items@.len() && 0 <= j < items@.len() && i != j implies items@[i]
                    != items@[j] by {
                    if i < before.len() {
                        assert(before[i] == items@[i]);
                    }
                    if j < before.len() {
                        assert(before[j] == items@[j]);
                    }
                }
            }
            *self = NodeList { seen, items };
        }
    }

    /// The nodes, in the order in which they were added, none twice.
    pub fn into_vec(self) -> (items: Vec<Point2D>)
        ensures
            items@ == self@,
            items@.no_duplicates(),
    {
        proof {
            use_type_invariant(&self);
        }
        self.items
    }
}

/// After a node is added the list holds it and what it held before.
pub proof fn lemma_added(list: Seq<Point2D>, p: Point2D)
    ensures
        forall|q: Point2D| #[trigger] added(list, p).contains(q) <==> list.contains(q) || q == p,
{
    assert forall|q: Point2D| #[trigger] added(list, p).contains(q) <==> list.contains(q) || q
        == p by {
        let now = added(list, p);
        if list.contains(q) {
            let k = choose|k: int| 0 <= k < list.len() && list[k] == q;
            assert(now[k] == q);
        }
        if q == p && !list.contains(p) {
            assert(now[list.len() as int] == q);
        }
        if now.contains(q) && q != p {
            let k = choose|k: int| 0 <= k < now.len() && now[k] == q;
            assert(list[k] == q);
        }
    }
}

} // verus!
