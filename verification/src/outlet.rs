//! Walking the edge table downstream from a node to the first point of
//! interest.

use vstd::prelude::*;
use crate::types::Point2D;
use crate::streams::{PointSet, Streams};

verus! {

/// The node reached from `s` after `i` hops along the table, if the table
/// leads that far.
pub open spec fn node_at(table: Map<Point2D, Point2D>, s: Point2D, i: nat) -> Option<Point2D>
    decreases i,
{
    if i == 0 {
        Some(s)
    } else {
        match node_at(table, s, (i - 1) as nat) {
            Some(p) => if table.contains_key(p) {
                Some(table[p])
            } else {
                None
            },
            None => None,
        }
    }
}

/// The first point of interest that the table leads to from `from` within
/// `hops` hops, `from` itself not counted.
pub open spec fn downstream_outlet(
    table: Map<Point2D, Point2D>,
    pois: Set<Point2D>,
    from: Point2D,
    hops: nat,
) -> Option<Point2D>
    decreases hops,
{
    if hops == 0 || !table.contains_key(from) {
        None
    } else if pois.contains(table[from]) {
        Some(table[from])
    } else {
        downstream_outlet(table, pois, table[from], (hops - 1) as nat)
    }
}

/// The edges that the search for [`downstream_outlet`] runs over, in order:
/// up to the edge that enters the outlet, or to where the table or the hops
/// end.
pub open spec fn traversed(
    table: Map<Point2D, Point2D>,
    pois: Set<Point2D>,
    from: Point2D,
    hops: nat,
) -> Seq<(Point2D, Point2D)>
    decreases hops,
{
    if hops == 0 || !table.contains_key(from) {
        Seq::empty()
    } else if pois.contains(table[from]) {
        seq![(from, table[from])]
    } else {
        seq![(from, table[from])] + traversed(table, pois, table[from], (hops - 1) as nat)
    }
}

/// Whether an edge of the log leaves `from`.
pub open spec fn leaves(log: Seq<(Point2D, Point2D)>, from: Point2D) -> bool {
    exists|i: int| 0 <= i < log.len() && (#[trigger] log[i]).0 == from
}

/// The log after `e` is recorded: `e` is added at the end unless the log
/// already has an edge that leaves the same node.
pub open spec fn recorded(log: Seq<(Point2D, Point2D)>, e: (Point2D, Point2D)) -> Seq<
    (Point2D, Point2D),
> {
    if leaves(log, e.0) {
        log
    } else {
        log.push(e)
    }
}

/// The log after each of `edges` is recorded in turn.
pub open spec fn recorded_all(log: Seq<(Point2D, Point2D)>, edges: Seq<(Point2D, Point2D)>) -> Seq<
    (Point2D, Point2D),
>
    decreases edges.len(),
{
    if edges.len() == 0 {
        log
    } else {
        recorded_all(recorded(log, edges[0]), edges.drop_first())
    }
}

/// The edges that walks have touched, each start node once, in the order in
/// which they were first touched.
pub struct EdgeLog {
    seen: PointSet,
    edges: Vec<(Point2D, Point2D)>,
}

impl View for EdgeLog {
    type V = Seq<(Point2D, Point2D)>;

    /// The edges in the order in which they were recorded.
    closed spec fn view(&self) -> Seq<(Point2D, Point2D)> {
        self.edges@
    }
}

impl EdgeLog {
    #[verifier::type_invariant]
    spec fn seen_is_starts(self) -> bool {
        forall|p: Point2D| #[trigger] self.seen@.contains(p) <==> leaves(self.edges@, p)
    }

    /// The log without edges.
    pub fn new() -> (log: EdgeLog)
        ensures
            log@ == Seq::<(Point2D, Point2D)>::empty(),
    {
        EdgeLog { seen: PointSet::new(), edges: Vec::new() }
    }

    /// Records the edge `from -> to`: see [`recorded`].
    pub fn record(&mut self, from: Point2D, to: Point2D)
        ensures
            final(self)@ == recorded(old(self)@, (from, to)),
    {
        proof {
            use_type_invariant(&*self);
        }
        if !self.seen.contains(&from) {
            let ghost before = self.edges@;
            let mut taken = EdgeLog::new();
            core::mem::swap(&mut taken, self);
            let EdgeLog { mut seen, mut edges } = taken;
            seen.insert(from);
            edges.push((from, to));
            proof {
                assert forall|p: Point2D| #[trigger] seen@.contains(p) <==> leaves(edges@, p) by {
                    if leaves(edges@, p) {
                        let i = choose|i: int| 0 <= i < edges@.len() && (#[trigger] edges@[i]).0 == p;
                        if i < before.len() {
                            assert(before[i].0 == p);
                        }
                    }
                    if seen@.contains(p) {
                        if p == from {
                            assert(edges@[before.len() as int].0 == p);
                        } else {
                            let i = choose|i: int| 0 <= i < before.len() && (#[trigger] before[i]).0 == p;
                            assert(edges@[i].0 == p);
                        }
                    }
                }
            }
            *self = EdgeLog { seen, edges };
        }
    }

    /// The edges, in the order in which they were recorded.
    pub fn into_edges(self) -> (edges: Vec<(Point2D, Point2D)>)
        ensures
            edges@ == self@,
    {
        self.edges
    }

    /// How many edges the log holds.
    pub fn len(&self) -> (n: usize)
        ensures
            n == self@.len(),
    {
        self.edges.len()
    }
}

/// Looks downstream of `inp` for the first point of interest, over at most
/// `threshold` hops, and records what it touched: with `connect_only`, the
/// one edge from `inp` to the outlet it found, if it found one; otherwise
/// every edge it ran over, found or not.
pub fn find_outlet(
    inp: &Point2D,
    points_nodes: &PointSet,
    edges: &Streams,
    threshold: usize,
    touched: &mut EdgeLog,
    connect_only: bool,
) -> (r: Option<Point2D>)
    ensures
        r == downstream_outlet(edges@, points_nodes@, *inp, threshold as nat),
        connect_only ==> final(touched)@ == (match r {
            Some(v) => recorded(old(touched)@, (*inp, v)),
            None => old(touched)@,
        }),
        !connect_only ==> final(touched)@ == recorded_all(
            old(touched)@,
            traversed(edges@, points_nodes@, *inp, threshold as nat),
        ),
{
    let mut outlet: Point2D = *inp;
    let mut ind: usize = 0;
    while ind < threshold
        invariant
            ind <= threshold,
            downstream_outlet(edges@, points_nodes@, *inp, threshold as nat) == downstream_outlet(
                edges@,
                points_nodes@,
                outlet,
                (threshold - ind) as nat,
            ),
            connect_only ==> touched@ == old(touched)@,
            !connect_only ==> recorded_all(
                old(touched)@,
                traversed(edges@, points_nodes@, *inp, threshold as nat),
            ) == recorded_all(
                touched@,
                traversed(edges@, points_nodes@, outlet, (threshold - ind) as nat),
            ),
        decreases threshold - ind,
    {
        ind += 1;
        match edges.get(&outlet) {
            Some(v) => {
                proof {
                    let rest = traversed(edges@, points_nodes@, outlet, (threshold - ind + 1) as nat);
                    let after = if points_nodes@.contains(v) {
                        Seq::empty()
                    } else {
                        traversed(edges@, points_nodes@, v, (threshold - ind) as nat)
                    };
                    assert(rest.drop_first() =~= after);
                    assert(rest[0] == (outlet, v));
                    assert(recorded_all(touched@, rest) == recorded_all(
                        recorded(touched@, (outlet, v)),
                        after,
                    ));
                    assert(recorded_all(
                        recorded(touched@, (outlet, v)),
                        Seq::<(Point2D, Point2D)>::empty(),
                    ) == recorded(touched@, (outlet, v)));
                }
                if points_nodes.contains(&v) {
                    if connect_only {
                        touched.record(*inp, v);
                    } else {
                        touched.record(outlet, v);
                    }
                    return Some(v);
                } else if !connect_only {
                    touched.record(outlet, v);
                }
                outlet = v;
            },
            None => {
                return None;
            },
        }
    }
    None
}

/// An outlet is a node of interest.
pub proof fn lemma_outlet_is_of_interest(
    table: Map<Point2D, Point2D>,
    pois: Set<Point2D>,
    from: Point2D,
    hops: nat,
)
    ensures
        downstream_outlet(table, pois, from, hops) is Some ==> pois.contains(
            downstream_outlet(table, pois, from, hops)->Some_0,
        ),
    decreases hops,
{
    if hops > 0 && table.contains_key(from) && !pois.contains(table[from]) {
        lemma_outlet_is_of_interest(table, pois, table[from], (hops - 1) as nat);
    }
}

/// A walk from `from` is, one hop on, the walk from the node downstream of
/// `from`.
pub proof fn lemma_walk_shifts(table: Map<Point2D, Point2D>, from: Point2D, k: nat)
    ensures
        table.contains_key(from) ==> node_at(table, from, k + 1) == node_at(table, table[from], k),
        !table.contains_key(from) ==> node_at(table, from, k + 1) is None,
    decreases k,
{
    assert(node_at(table, from, 0) == Some(from));
    assert((k + 1 - 1) as nat == k);
    if k > 0 {
        lemma_walk_shifts(table, from, (k - 1) as nat);
        assert((k - 1 + 1) as nat == k);
    } else {
        if table.contains_key(from) {
            assert(node_at(table, table[from], 0) == Some(table[from]));
        }
    }
}

/// The outlet is the first point of interest on the walk: the walk reaches
/// it within the hops, and no node that it reaches before is of interest.
/// Where there is no outlet, no node that the walk reaches within the hops is
/// of interest.
pub proof fn lemma_outlet_is_first_on_walk(
    table: Map<Point2D, Point2D>,
    pois: Set<Point2D>,
    from: Point2D,
    hops: nat,
)
    ensures
        match downstream_outlet(table, pois, from, hops) {
            Some(v) => exists|k: nat|
                {
                    &&& 1 <= k <= hops
                    &&& #[trigger] node_at(table, from, k) == Some(v)
                    &&& pois.contains(v)
                    &&& forall|j: nat|
                        1 <= j < k ==> (#[trigger] node_at(table, from, j)) is Some
                            && !pois.contains(node_at(table, from, j)->Some_0)
                },
            None => forall|j: nat|
                1 <= j <= hops && (#[trigger] node_at(table, from, j)) is Some ==> !pois.contains(
                    node_at(table, from, j)->Some_0,
                ),
        },
    decreases hops,
{
    if hops == 0 {
    } else if !table.contains_key(from) {
        assert forall|j: nat| 1 <= j <= hops implies !((#[trigger] node_at(table, from, j))
            is Some) by {
            lemma_walk_shifts(table, from, (j - 1) as nat);
        }
    } else if pois.contains(table[from]) {
        assert(node_at(table, from, 0) == Some(from));
        assert(node_at(table, from, 1) == Some(table[from]));
    } else {
        let next = table[from];
        let rest = (hops - 1) as nat;
        lemma_outlet_is_first_on_walk(table, pois, next, rest);
        assert(node_at(table, from, 0) == Some(from));
        assert(node_at(table, from, 1) == Some(next));
        match downstream_outlet(table, pois, next, rest) {
            Some(v) => {
                let k0 = choose|k: nat|
                    {
                        &&& 1 <= k <= rest
                        &&& #[trigger] node_at(table, next, k) == Some(v)
                        &&& pois.contains(v)
                        &&& forall|j: nat|
                            1 <= j < k ==> (#[trigger] node_at(table, next, j)) is Some
                                && !pois.contains(node_at(table, next, j)->Some_0)
                    };
                let k = k0 + 1;
                lemma_walk_shifts(table, from, k0);
                assert forall|j: nat| 1 <= j < k implies (#[trigger] node_at(table, from, j))
                    is Some && !pois.contains(node_at(table, from, j)->Some_0) by {
                    if j > 1 {
                        lemma_walk_shifts(table, from, (j - 1) as nat);
                        assert(node_at(table, next, (j - 1) as nat) is Some);
                    }
                }
                assert(node_at(table, from, k) == Some(v));
            },
            None => {
                assert forall|j: nat|
                    1 <= j <= hops && (#[trigger] node_at(table, from, j))
                        is Some implies !pois.contains(node_at(table, from, j)->Some_0) by {
                    if j > 1 {
                        lemma_walk_shifts(table, from, (j - 1) as nat);
                        assert(node_at(table, next, (j - 1) as nat) is Some);
                    }
                }
            },
        }
    }
}

/// The edges that a search runs over are the hops of the walk, one after the
/// other from its start.
pub proof fn lemma_traversed_follows_the_walk(
    table: Map<Point2D, Point2D>,
    pois: Set<Point2D>,
    from: Point2D,
    hops: nat,
)
    ensures
        traversed(table, pois, from, hops).len() <= hops,
        forall|i: int|
            0 <= i < traversed(table, pois, from, hops).len() ==> {
                &&& node_at(table, from, i as nat) == Some(
                    (#[trigger] traversed(table, pois, from, hops)[i]).0,
                )
                &&& node_at(table, from, (i + 1) as nat) == Some(
                    traversed(table, pois, from, hops)[i].1,
                )
            },
    decreases hops,
{
    let edges = traversed(table, pois, from, hops);
    if hops > 0 && table.contains_key(from) {
        assert(node_at(table, from, 0) == Some(from));
        assert(node_at(table, from, 1) == Some(table[from]));
        if !pois.contains(table[from]) {
            let next = table[from];
            let rest = traversed(table, pois, next, (hops - 1) as nat);
            lemma_traversed_follows_the_walk(table, pois, next, (hops - 1) as nat);
            assert forall|i: int| 0 <= i < edges.len() implies {
                &&& node_at(table, from, i as nat) == Some((#[trigger] edges[i]).0)
                &&& node_at(table, from, (i + 1) as nat) == Some(edges[i].1)
            } by {
                if i > 0 {
                    assert(edges[i] == rest[i - 1]);
                    lemma_walk_shifts(table, from, (i - 1) as nat);
                    lemma_walk_shifts(table, from, i as nat);
                    assert(((i - 1) as nat + 1) as nat == i as nat);
                }
            }
        }
    }
}

/// Whether every edge of the list is the table's edge from its start.
pub open spec fn all_from_table(table: Map<Point2D, Point2D>, edges: Seq<(Point2D, Point2D)>) -> bool {
    forall|i: int|
        0 <= i < edges.len() ==> table.contains_key((#[trigger] edges[i]).0) && table[edges[i].0]
            == edges[i].1
}

/// A log of edges of one table holds no edge twice: recording edges of the
/// table adds exactly those that the log does not hold yet.
pub proof fn lemma_log_of_table_edges(
    table: Map<Point2D, Point2D>,
    log: Seq<(Point2D, Point2D)>,
    edges: Seq<(Point2D, Point2D)>,
)
    requires
        all_from_table(table, log),
        all_from_table(table, edges),
        log.no_duplicates(),
    ensures
        all_from_table(table, recorded_all(log, edges)),
        recorded_all(log, edges).no_duplicates(),
        recorded_all(log, edges).to_set() == log.to_set().union(edges.to_set()),
    decreases edges.len(),
{
    if edges.len() == 0 {
        assert(edges.to_set() =~= Set::empty());
        assert(log.to_set().union(edges.to_set()) =~= log.to_set());
    } else {
        let e = edges[0];
        let next = recorded(log, e);
        let rest = edges.drop_first();
        if leaves(log, e.0) {
            let i = choose|i: int| 0 <= i < log.len() && (#[trigger] log[i]).0 == e.0;
            assert(log[i] == e);
            assert(log.to_set().contains(e));
        } else {
            assert forall|i: int, j: int|
                0 <= i < next.len() && 0 <= j < next.len() && i != j implies next[i] != next[j] by {
                if i < log.len() {
                    assert(next[i] == log[i]);
                }
                if j < log.len() {
                    assert(next[j] == log[j]);
                }
            }
            log.lemma_push_to_set_commute(e);
        }
        assert(next.to_set() =~= log.to_set().insert(e));
        assert forall|i: int| 0 <= i < rest.len() implies table.contains_key(
            (#[trigger] rest[i]).0,
        ) && table[rest[i].0] == rest[i].1 by {
            assert(rest[i] == edges[i + 1]);
        }
        lemma_log_of_table_edges(table, next, rest);
        assert(edges =~= seq![e] + rest);
        assert(edges.to_set() =~= rest.to_set().insert(e)) by {
            assert forall|x: (Point2D, Point2D)| edges.to_set().contains(x) <==> rest.to_set().insert(
                e,
            ).contains(x) by {
                if edges.to_set().contains(x) {
                    let k = choose|k: int| 0 <= k < edges.len() && edges[k] == x;
                    if k > 0 {
                        assert(rest[k - 1] == x);
                    }
                }
                if rest.to_set().contains(x) {
                    let k = choose|k: int| 0 <= k < rest.len() && rest[k] == x;
                    assert(edges[k + 1] == x);
                }
                if x == e {
                    assert(edges[0] == x);
                }
            }
        }
        assert(recorded_all(log, edges).to_set() =~= log.to_set().union(edges.to_set()));
    }
}

/// The edges that a search runs over are edges of the table.
pub proof fn lemma_traversed_is_from_table(
    table: Map<Point2D, Point2D>,
    pois: Set<Point2D>,
    from: Point2D,
    hops: nat,
)
    ensures
        all_from_table(table, traversed(table, pois, from, hops)),
    decreases hops,
{
    if hops > 0 && table.contains_key(from) && !pois.contains(table[from]) {
        lemma_traversed_is_from_table(table, pois, table[from], (hops - 1) as nat);
    }
}

} // verus!
