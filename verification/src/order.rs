//! The order of each edge of a stream network: how many walks from the
//! sources of the network run over it.

use vstd::prelude::*;
use std::collections::HashMap;
use crate::outlet::{downstream_outlet, leaves, lemma_outlet_is_first_on_walk, node_at};
use crate::streams::{
    NodeList, PointSet, Streams, is_first_leaving, is_node, lemma_table_keeps_first_edge, table_of,
};
use crate::types::{Point2D, lemma_key_decides_identity};

verus! {

/// Whether an edge of the list enters `p`.
pub open spec fn enters(edges: Seq<(Point2D, Point2D)>, p: Point2D) -> bool {
    exists|i: int| 0 <= i < edges.len() && (#[trigger] edges[i]).1 == p
}

/// A source is a node that an edge leaves and none enters.
pub open spec fn is_source(edges: Seq<(Point2D, Point2D)>, p: Point2D) -> bool {
    leaves(edges, p) && !enters(edges, p)
}

/// The sources that the first `n` edges leave, each once, in the order in
/// which the list first names them.
pub open spec fn sources_upto(edges: Seq<(Point2D, Point2D)>, n: nat) -> Seq<Point2D>
    decreases n,
{
    if n == 0 || n > edges.len() {
        Seq::empty()
    } else {
        let rest = sources_upto(edges, (n - 1) as nat);
        let p = edges[n - 1].0;
        if !enters(edges, p) && !rest.contains(p) {
            rest.push(p)
        } else {
            rest
        }
    }
}

/// The sources of the network, each once.
pub open spec fn sources(edges: Seq<(Point2D, Point2D)>) -> Seq<Point2D> {
    sources_upto(edges, edges.len())
}

/// Whether the walk from `s` takes its hop number `i` (counted from 0) over
/// the edge `e` of the table.
pub open spec fn crosses_at(
    table: Map<Point2D, Point2D>,
    s: Point2D,
    e: (Point2D, Point2D),
    i: nat,
) -> bool {
    node_at(table, s, i) == Some(e.0) && table.contains_key(e.0) && table[e.0] == e.1
}

/// How often the walk from `s` runs over `e` in its first `hops` hops.
pub open spec fn crossings(
    table: Map<Point2D, Point2D>,
    s: Point2D,
    e: (Point2D, Point2D),
    hops: nat,
) -> nat
    decreases hops,
{
    if hops == 0 {
        0
    } else {
        crossings(table, s, e, (hops - 1) as nat) + if crosses_at(table, s, e, (hops - 1) as nat) {
            1nat
        } else {
            0nat
        }
    }
}

/// How often the walks from `srcs` together run over `e`, each over at most
/// `hops` hops.
pub open spec fn order_from(
    table: Map<Point2D, Point2D>,
    srcs: Seq<Point2D>,
    e: (Point2D, Point2D),
    hops: nat,
) -> nat
    decreases srcs.len(),
{
    if srcs.len() == 0 {
        0
    } else {
        order_from(table, srcs.drop_last(), e, hops) + crossings(table, srcs.last(), e, hops)
    }
}

/// The order of the edge `e` in the network of `edges`.
pub open spec fn order_of(edges: Seq<(Point2D, Point2D)>, e: (Point2D, Point2D), hops: nat) -> nat {
    order_from(table_of(edges), sources(edges), e, hops)
}

/// Whether the walk from `s` is cut short: after `hops` hops the table still
/// leads on.
pub open spec fn cut_short(table: Map<Point2D, Point2D>, s: Point2D, hops: nat) -> bool {
    match node_at(table, s, hops) {
        Some(p) => table.contains_key(p),
        None => false,
    }
}

/// Those of `srcs` whose walk is cut short, in order.
pub open spec fn cut_of(table: Map<Point2D, Point2D>, srcs: Seq<Point2D>, hops: nat) -> Seq<Point2D>
    decreases srcs.len(),
{
    if srcs.len() == 0 {
        Seq::empty()
    } else {
        let rest = cut_of(table, srcs.drop_last(), hops);
        if cut_short(table, srcs.last(), hops) {
            rest.push(srcs.last())
        } else {
            rest
        }
    }
}

/// The orders of a network.
pub struct OrderReport {
    /// For each edge of the list, in its place, the order of the edge.
    pub orders: Vec<usize>,
    /// The sources whose walk was cut short by the bound on hops.
    pub cut: Vec<Point2D>,
}

/// Once the table leads nowhere from a node of the walk, the walk has ended.
pub proof fn lemma_walk_ends(table: Map<Point2D, Point2D>, s: Point2D, h: nat, m: nat)
    requires
        h < m,
        match node_at(table, s, h) {
            Some(p) => !table.contains_key(p),
            None => true,
        },
    ensures
        node_at(table, s, m) is None,
    decreases m,
{
    if m > h + 1 {
        lemma_walk_ends(table, s, h, (m - 1) as nat);
    }
}

/// What the walk has crossed when it ends is all it ever crosses.
proof fn lemma_crossings_after_end(
    table: Map<Point2D, Point2D>,
    s: Point2D,
    e: (Point2D, Point2D),
    h: nat,
    m: nat,
)
    requires
        h <= m,
        match node_at(table, s, h) {
            Some(p) => !table.contains_key(p),
            None => true,
        },
    ensures
        crossings(table, s, e, m) == crossings(table, s, e, h),
    decreases m,
{
    if m > h {
        lemma_crossings_after_end(table, s, e, h, (m - 1) as nat);
        if m - 1 > h {
            lemma_walk_ends(table, s, h, (m - 1) as nat);
        }
    }
}

/// An edge that the table does not hold is never crossed.
pub proof fn lemma_only_table_edges_are_crossed(
    table: Map<Point2D, Point2D>,
    srcs: Seq<Point2D>,
    e: (Point2D, Point2D),
    hops: nat,
)
    requires
        !(table.contains_key(e.0) && table[e.0] == e.1),
    ensures
        order_from(table, srcs, e, hops) == 0,
    decreases srcs.len(),
{
    if srcs.len() > 0 {
        lemma_only_table_edges_are_crossed(table, srcs.drop_last(), e, hops);
        lemma_not_crossed(table, srcs.last(), e, hops);
    }
}

proof fn lemma_not_crossed(table: Map<Point2D, Point2D>, s: Point2D, e: (Point2D, Point2D), hops: nat)
    requires
        !(table.contains_key(e.0) && table[e.0] == e.1),
    ensures
        crossings(table, s, e, hops) == 0,
    decreases hops,
{
    if hops > 0 {
        lemma_not_crossed(table, s, e, (hops - 1) as nat);
    }
}

/// The count that the map holds for the node with key `k`.
spec fn count_at(counts: Map<u128, usize>, k: u128) -> nat {
    if counts.contains_key(k) {
        counts[k] as nat
    } else {
        0
    }
}

proof fn lemma_bound(a: nat, h: nat, hops: nat, n: nat)
    requires
        a + 1 <= n,
        h < hops,
        n * hops <= usize::MAX,
    ensures
        a * hops + h + 1 <= usize::MAX,
        a * hops + hops == (a + 1) * hops,
        (a + 1) * hops <= n * hops,
{
    assert(a * hops + hops == (a + 1) * hops) by (nonlinear_arith);
    assert((a + 1) * hops <= n * hops) by (nonlinear_arith)
        requires
            a + 1 <= n,
    ;
}

/// Finds the sources of the network, each once, in the order in which the
/// list of edges first names them.
pub fn find_sources(edges: &Vec<(Point2D, Point2D)>) -> (found: Vec<Point2D>)
    ensures
        found@ == sources(edges@),
        found.len() <= edges.len(),
{
    let mut tos = PointSet::new();
    let mut i: usize = 0;
    while i < edges.len()
        invariant
            i <= edges.len(),
            forall|p: Point2D|
                #[trigger] tos@.contains(p) <==> exists|j: int|
                    0 <= j < i && (#[trigger] edges[j]).1 == p,
        decreases edges.len() - i,
    {
        tos.insert(edges[i].1);
        i += 1;
    }
    assert forall|p: Point2D| #[trigger] tos@.contains(p) <==> enters(edges@, p) by {}
    let mut list = NodeList::new();
    i = 0;
    while i < edges.len()
        invariant
            i <= edges.len(),
            forall|p: Point2D| #[trigger] tos@.contains(p) <==> enters(edges@, p),
            list@ == sources_upto(edges@, i as nat),
            list@.len() <= i,
        decreases edges.len() - i,
    {
        let s: Point2D = edges[i].0;
        if !tos.contains(&s) {
            list.add(s);
        }
        i += 1;
    }
    list.into_vec()
}

/// Computes the order of every edge.
///
/// The edges make the table of [`table_of`]. From each source a walk follows
/// the table until it leads no further, or for `max_hops` hops where it
/// still does; each hop adds one to the order of the edge it runs over. An
/// edge that the table does not hold has order 0.
///
/// The counts need room: the number of edges times `max_hops` has to fit a
/// `usize`.
pub fn stream_order(edges: &Vec<(Point2D, Point2D)>, max_hops: usize) -> (report: OrderReport)
    requires
        edges.len() * max_hops <= usize::MAX,
    ensures
        report.orders.len() == edges.len(),
        forall|i: int|
            0 <= i < edges.len() ==> #[trigger] report.orders[i] == order_of(
                edges@,
                edges[i],
                max_hops as nat,
            ),
        report.cut@ == cut_of(table_of(edges@), sources(edges@), max_hops as nat),
{
    let streams = Streams::from_edges(edges);
    let leaves = find_sources(edges);
    let ghost table = table_of(edges@);
    let ghost hops = max_hops as nat;
    let mut counts: HashMap<u128, usize> = HashMap::new();
    let mut cut: Vec<Point2D> = Vec::new();
    let mut i: usize = 0;
    assert(leaves@.take(0) =~= Seq::empty());
    while i < leaves.len()
        invariant
            i <= leaves.len(),
            leaves.len() <= edges.len(),
            edges.len() * max_hops <= usize::MAX,
            streams@ == table,
            hops == max_hops as nat,
            forall|p: Point2D|
                count_at(counts@, #[trigger] p.spec_key()) == if table.contains_key(p) {
                    order_from(table, leaves@.take(i as int), (p, table[p]), hops)
                } else {
                    0
                },
            forall|p: Point2D| count_at(counts@, #[trigger] p.spec_key()) <= i * hops,
            cut@ == cut_of(table, leaves@.take(i as int), hops),
        decreases leaves.len() - i,
    {
        let s: Point2D = leaves[i];
        let ghost srcs = leaves@.take(i as int);
        let ghost next = leaves@.take(i + 1);
        proof {
            assert(next.drop_last() =~= srcs);
            assert(next.last() == s);
        }
        let mut cur: Point2D = s;
        let mut h: usize = 0;
        let mut ended: bool = false;
        while h < max_hops && !ended
            invariant
                h <= max_hops,
                i < leaves.len(),
                leaves.len() <= edges.len(),
                edges.len() * max_hops <= usize::MAX,
                streams@ == table,
                hops == max_hops as nat,
                node_at(table, s, h as nat) == Some(cur),
                ended ==> !table.contains_key(cur),
                forall|p: Point2D|
                    count_at(counts@, #[trigger] p.spec_key()) == if table.contains_key(p) {
                        order_from(table, srcs, (p, table[p]), hops) + crossings(
                            table,
                            s,
                            (p, table[p]),
                            h as nat,
                        )
                    } else {
                        0
                    },
                forall|p: Point2D| count_at(counts@, #[trigger] p.spec_key()) <= i * hops + h,
            decreases max_hops - h + if ended { 0int } else { 1int },
        {
            match streams.get(&cur) {
                Some(out) => {
                    let key: u128 = cur.key();
                    let ghost before = counts@;
                    let seen: usize = match counts.get(&key) {
                        Some(c) => *c,
                        None => 0,
                    };
                    proof {
                        assert(seen == count_at(before, cur.spec_key()));
                        lemma_bound(i as nat, h as nat, hops, edges.len() as nat);
                    }
                    counts.insert(key, seen + 1);
                    proof {
                        assert forall|p: Point2D|
                            count_at(counts@, #[trigger] p.spec_key()) == if table.contains_key(p) {
                                order_from(table, srcs, (p, table[p]), hops) + crossings(
                                    table,
                                    s,
                                    (p, table[p]),
                                    (h + 1) as nat,
                                )
                            } else {
                                0
                            } by {
                            lemma_key_decides_identity(p, cur);
                            assert(count_at(before, p.spec_key()) == if table.contains_key(p) {
                                order_from(table, srcs, (p, table[p]), hops) + crossings(
                                    table,
                                    s,
                                    (p, table[p]),
                                    h as nat,
                                )
                            } else {
                                0
                            });
                        }
                        assert forall|p: Point2D|
                            count_at(counts@, #[trigger] p.spec_key()) <= i * hops + h + 1 by {
                            lemma_key_decides_identity(p, cur);
                            assert(count_at(before, p.spec_key()) <= i * hops + h);
                        }
                    }
                    cur = out;
                    h += 1;
                },
                None => {
                    ended = true;
                },
            }
        }
        proof {
            assert forall|p: Point2D|
                count_at(counts@, #[trigger] p.spec_key()) == if table.contains_key(p) {
                    order_from(table, next, (p, table[p]), hops)
                } else {
                    0
                } by {
                if ended && table.contains_key(p) {
                    lemma_crossings_after_end(table, s, (p, table[p]), h as nat, hops);
                }
            }
            assert(i * hops + hops == (i + 1) * hops) by (nonlinear_arith);
            if ended && h < max_hops {
                lemma_walk_ends(table, s, h as nat, hops);
            }
        }
        if !ended && streams.contains(&cur) {
            cut.push(s);
        }
        i += 1;
    }
    let ghost srcs = sources(edges@);
    assert(leaves@.take(leaves.len() as int) =~= leaves@);

    let mut orders: Vec<usize> = Vec::new();
    i = 0;
    while i < edges.len()
        invariant
            i <= edges.len(),
            table == table_of(edges@),
            streams@ == table,
            hops == max_hops as nat,
            srcs == sources(edges@),
            orders.len() == i,
            forall|p: Point2D|
                count_at(counts@, #[trigger] p.spec_key()) == if table.contains_key(p) {
                    order_from(table, srcs, (p, table[p]), hops)
                } else {
                    0
                },
            forall|j: int| 0 <= j < i ==> #[trigger] orders[j] == order_of(edges@, edges[j], hops),
        decreases edges.len() - i,
    {
        let e = edges[i];
        let kept: bool = match streams.get(&e.0) {
            Some(to) => to.same(&e.1),
            None => false,
        };
        let order: usize = if kept {
            let key: u128 = e.0.key();
            match counts.get(&key) {
                Some(c) => *c,
                None => 0,
            }
        } else {
            proof {
                lemma_only_table_edges_are_crossed(table, srcs, e, hops);
            }
            0
        };
        proof {
            assert(count_at(counts@, e.0.spec_key()) == if table.contains_key(e.0) {
                order_from(table, srcs, (e.0, table[e.0]), hops)
            } else {
                0
            });
        }
        orders.push(order);
        i += 1;
    }
    OrderReport { orders, cut }
}

/// Whether the walk from `s` runs over `e` within `hops` hops.
pub open spec fn passes(
    table: Map<Point2D, Point2D>,
    s: Point2D,
    e: (Point2D, Point2D),
    hops: nat,
) -> bool {
    exists|i: nat| i < hops && #[trigger] crosses_at(table, s, e, i)
}

/// How many of `srcs` have a walk that runs over `e`.
pub open spec fn leaves_through(
    table: Map<Point2D, Point2D>,
    srcs: Seq<Point2D>,
    e: (Point2D, Point2D),
    hops: nat,
) -> nat
    decreases srcs.len(),
{
    if srcs.len() == 0 {
        0
    } else {
        leaves_through(table, srcs.drop_last(), e, hops) + if passes(table, srcs.last(), e, hops) {
            1nat
        } else {
            0nat
        }
    }
}

/// [`sources`] holds exactly the sources of the network, each once.
pub proof fn lemma_sources(edges: Seq<(Point2D, Point2D)>)
    ensures
        sources(edges).no_duplicates(),
        forall|p: Point2D| #[trigger] sources(edges).contains(p) <==> is_source(edges, p),
{
    lemma_sources_upto(edges, edges.len());
    assert forall|p: Point2D| #[trigger] sources(edges).contains(p) <==> is_source(edges, p) by {
        if is_source(edges, p) {
            let j = choose|j: int| 0 <= j < edges.len() && (#[trigger] edges[j]).0 == p;
            assert(sources(edges).contains(p));
        }
    }
}

proof fn lemma_sources_upto(edges: Seq<(Point2D, Point2D)>, n: nat)
    requires
        n <= edges.len(),
    ensures
        sources_upto(edges, n).no_duplicates(),
        forall|p: Point2D|
            #[trigger] sources_upto(edges, n).contains(p) <==> !enters(edges, p) && exists|j: int|
                0 <= j < n && (#[trigger] edges[j]).0 == p,
    decreases n,
{
    if n > 0 {
        lemma_sources_upto(edges, (n - 1) as nat);
        let rest = sources_upto(edges, (n - 1) as nat);
        let now = sources_upto(edges, n);
        let q = edges[n - 1].0;
        assert forall|p: Point2D| #[trigger] now.contains(p) implies !enters(edges, p) && exists|
            j: int,
        |
            0 <= j < n && (#[trigger] edges[j]).0 == p by {
            let k = choose|k: int| 0 <= k < now.len() && now[k] == p;
            if k < rest.len() {
                assert(rest[k] == p);
                assert(rest.contains(p));
                let j = choose|j: int| 0 <= j < n - 1 && (#[trigger] edges[j]).0 == p;
                assert(edges[j].0 == p);
            } else {
                assert(p == q);
                assert(edges[n - 1].0 == p);
            }
        }
        assert forall|p: Point2D|
            !enters(edges, p) && (exists|j: int|
                0 <= j < n && (#[trigger] edges[j]).0 == p) implies #[trigger] now.contains(p) by {
            let j = choose|j: int| 0 <= j < n && (#[trigger] edges[j]).0 == p;
            if j < n - 1 {
                assert(rest.contains(p));
                let k = choose|k: int| 0 <= k < rest.len() && rest[k] == p;
                assert(now[k] == p);
            } else if rest.contains(p) {
                let k = choose|k: int| 0 <= k < rest.len() && rest[k] == p;
                assert(now[k] == p);
            } else {
                assert(now[rest.len() as int] == p);
            }
        }
    }
}

/// From where two hops of a walk start at one node, the walk repeats itself.
proof fn lemma_walk_repeats(table: Map<Point2D, Point2D>, s: Point2D, i: nat, j: nat, k: nat)
    requires
        node_at(table, s, i) == node_at(table, s, j),
    ensures
        node_at(table, s, i + k) == node_at(table, s, j + k),
    decreases k,
{
    if k > 0 {
        lemma_walk_repeats(table, s, i, j, (k - 1) as nat);
        assert(i + k - 1 == i + (k - 1) as nat);
        assert(j + k - 1 == j + (k - 1) as nat);
    }
}

/// A walk that is not cut short has a last node: one from which the table
/// leads no further, reached within the hops.
proof fn lemma_walk_has_an_end(table: Map<Point2D, Point2D>, s: Point2D, hops: nat) -> (f: nat)
    requires
        !cut_short(table, s, hops),
    ensures
        f <= hops,
        node_at(table, s, f) is Some,
        !table.contains_key(node_at(table, s, f)->Some_0),
    decreases hops,
{
    if node_at(table, s, hops) is Some {
        hops
    } else {
        assert(hops > 0);
        lemma_walk_has_an_end(table, s, (hops - 1) as nat)
    }
}

/// A walk that is not cut short is at no node twice while it goes on.
proof fn lemma_no_node_twice(table: Map<Point2D, Point2D>, s: Point2D, i: nat, j: nat, hops: nat)
    requires
        !cut_short(table, s, hops),
        i < j < hops,
        node_at(table, s, j) is Some,
        table.contains_key(node_at(table, s, j)->Some_0),
    ensures
        node_at(table, s, i) != node_at(table, s, j),
{
    if node_at(table, s, i) == node_at(table, s, j) {
        let f = lemma_walk_has_an_end(table, s, hops);
        if f <= j {
            if f < j {
                lemma_walk_ends(table, s, f, j);
            }
        } else {
            let k = (f - j) as nat;
            lemma_walk_repeats(table, s, i, j, k);
            assert(j + k == f);
            lemma_walk_ends(table, s, i + k, f);
        }
    }
}

/// A walk that is not cut short runs over an edge once or not at all.
pub proof fn lemma_crossed_at_most_once(
    table: Map<Point2D, Point2D>,
    s: Point2D,
    e: (Point2D, Point2D),
    hops: nat,
    n: nat,
)
    requires
        !cut_short(table, s, hops),
        n <= hops,
    ensures
        crossings(table, s, e, n) == if passes(table, s, e, n) {
            1nat
        } else {
            0nat
        },
    decreases n,
{
    if n > 0 {
        let m = (n - 1) as nat;
        lemma_crossed_at_most_once(table, s, e, hops, m);
        if crosses_at(table, s, e, m) {
            if passes(table, s, e, m) {
                let i = choose|i: nat| i < m && #[trigger] crosses_at(table, s, e, i);
                lemma_no_node_twice(table, s, i, m, hops);
            }
            assert(passes(table, s, e, n));
        } else {
            if passes(table, s, e, n) {
                let i = choose|i: nat| i < n && #[trigger] crosses_at(table, s, e, i);
                assert(i < m);
                assert(passes(table, s, e, m));
            }
            if passes(table, s, e, m) {
                let i = choose|i: nat| i < m && #[trigger] crosses_at(table, s, e, i);
                assert(crosses_at(table, s, e, i) && i < n);
            }
        }
    }
}

proof fn lemma_order_from_counts(
    table: Map<Point2D, Point2D>,
    srcs: Seq<Point2D>,
    e: (Point2D, Point2D),
    hops: nat,
)
    requires
        forall|k: int| 0 <= k < srcs.len() ==> !cut_short(table, #[trigger] srcs[k], hops),
    ensures
        order_from(table, srcs, e, hops) == leaves_through(table, srcs, e, hops),
        leaves_through(table, srcs, e, hops) <= srcs.len(),
        (forall|k: int| 0 <= k < srcs.len() ==> passes(table, #[trigger] srcs[k], e, hops))
            ==> leaves_through(table, srcs, e, hops) == srcs.len(),
    decreases srcs.len(),
{
    if srcs.len() > 0 {
        let rest = srcs.drop_last();
        assert forall|k: int| 0 <= k < rest.len() implies !cut_short(
            table,
            #[trigger] rest[k],
            hops,
        ) by {
            assert(rest[k] == srcs[k]);
        }
        lemma_order_from_counts(table, rest, e, hops);
        assert(srcs.last() == srcs[srcs.len() - 1]);
        lemma_crossed_at_most_once(table, srcs.last(), e, hops, hops);
        if forall|k: int| 0 <= k < srcs.len() ==> passes(table, #[trigger] srcs[k], e, hops) {
            assert forall|k: int| 0 <= k < rest.len() implies passes(
                table,
                #[trigger] rest[k],
                e,
                hops,
            ) by {
                assert(rest[k] == srcs[k]);
            }
        }
    }
}

/// Order conservation. In a network where no walk from a source is cut
/// short, the order of an edge is the number of sources whose walk runs over
/// it.
pub proof fn lemma_order_counts_leaves(
    edges: Seq<(Point2D, Point2D)>,
    e: (Point2D, Point2D),
    hops: nat,
)
    requires
        forall|k: int|
            0 <= k < sources(edges).len() ==> !cut_short(
                table_of(edges),
                #[trigger] sources(edges)[k],
                hops,
            ),
    ensures
        order_of(edges, e, hops) == leaves_through(table_of(edges), sources(edges), e, hops),
        order_of(edges, e, hops) <= sources(edges).len(),
{
    lemma_order_from_counts(table_of(edges), sources(edges), e, hops);
}

/// Order at the outlet. In a network where no walk from a source is cut
/// short, and where the table leads on from every node but `outlet`, which
/// only the edge from `last` enters, the order of that edge is the number of
/// sources.
pub proof fn lemma_order_before_single_outlet(
    edges: Seq<(Point2D, Point2D)>,
    last: Point2D,
    outlet: Point2D,
    hops: nat,
)
    requires
        forall|k: int|
            0 <= k < sources(edges).len() ==> !cut_short(
                table_of(edges),
                #[trigger] sources(edges)[k],
                hops,
            ),
        forall|p: Point2D|
            is_node(table_of(edges), p) && !#[trigger] table_of(edges).contains_key(p) ==> p
                == outlet,
        table_of(edges).contains_key(last) && table_of(edges)[last] == outlet,
        forall|q: Point2D|
            #[trigger] table_of(edges).contains_key(q) && table_of(edges)[q] == outlet ==> q
                == last,
    ensures
        order_of(edges, (last, outlet), hops) == sources(edges).len(),
{
    let table = table_of(edges);
    let srcs = sources(edges);
    let e = (last, outlet);
    lemma_sources(edges);
    lemma_table_keeps_first_edge(edges);
    assert forall|k: int| 0 <= k < srcs.len() implies passes(table, #[trigger] srcs[k], e, hops) by {
        let s = srcs[k];
        assert(srcs.contains(s));
        assert(is_source(edges, s));
        assert(table.contains_key(s));
        let f = lemma_walk_has_an_end(table, s, hops);
        let q = node_at(table, s, f)->Some_0;
        assert(f > 0);
        let g = (f - 1) as nat;
        let r = node_at(table, s, g)->Some_0;
        assert(node_at(table, s, g) is Some && table.contains_key(r) && table[r] == q);
        assert(is_node(table, q));
        assert(q == outlet);
        assert(r == last);
        assert(crosses_at(table, s, e, g));
    }
    lemma_order_from_counts(table, srcs, e, hops);
}

/// A table without a cycle: no walk comes back to the node it started from.
pub open spec fn is_acyclic(table: Map<Point2D, Point2D>) -> bool {
    forall|p: Point2D, k: nat| k >= 1 ==> #[trigger] node_at(table, p, k) != Some(p)
}

/// A walk that has reached `p` goes on as the walk from `p`.
pub proof fn lemma_walk_goes_on(table: Map<Point2D, Point2D>, s: Point2D, i: nat, k: nat)
    requires
        node_at(table, s, i) is Some,
    ensures
        node_at(table, s, i + k) == node_at(table, node_at(table, s, i)->Some_0, k),
    decreases k,
{
    let p = node_at(table, s, i)->Some_0;
    if k > 0 {
        lemma_walk_goes_on(table, s, i, (k - 1) as nat);
        assert((i + k - 1) as nat == i + (k - 1) as nat);
    } else {
        assert(node_at(table, p, 0) == Some(p));
    }
}

/// The table of a list of edges has as many entries as the list has edges
/// at most.
pub proof fn lemma_table_size(edges: Seq<(Point2D, Point2D)>)
    ensures
        table_of(edges).dom().finite(),
        table_of(edges).dom().len() <= edges.len(),
    decreases edges.len(),
{
    if edges.len() > 0 {
        lemma_table_size(edges.drop_first());
    }
}

/// Up to where a walk has got, it was at a node at every hop, and the table
/// led on from each node before the last.
proof fn lemma_walk_so_far(table: Map<Point2D, Point2D>, s: Point2D, i: nat, m: nat)
    requires
        i <= m,
        node_at(table, s, m) is Some,
    ensures
        node_at(table, s, i) is Some,
        i < m ==> table.contains_key(node_at(table, s, i)->Some_0),
{
    if i < m {
        if !(node_at(table, s, i) is Some && table.contains_key(node_at(table, s, i)->Some_0)) {
            lemma_walk_ends(table, s, i, m);
        }
    }
}

/// In a network without a cycle no walk is cut short, once it may take as
/// many hops as there are edges: it would have to be at some node twice.
pub proof fn lemma_acyclic_walk_ends(edges: Seq<(Point2D, Point2D)>, s: Point2D, hops: nat)
    requires
        is_acyclic(table_of(edges)),
        hops >= edges.len(),
    ensures
        !cut_short(table_of(edges), s, hops),
{
    let table = table_of(edges);
    if cut_short(table, s, hops) {
        let walk = Seq::new((hops + 1) as nat, |i: int| node_at(table, s, i as nat)->Some_0);
        assert forall|i: int| 0 <= i < walk.len() implies node_at(table, s, i as nat) == Some(
            #[trigger] walk[i],
        ) && table.contains_key(walk[i]) by {
            lemma_walk_so_far(table, s, i as nat, hops);
        }
        lemma_table_size(edges);
        if walk.no_duplicates() {
            walk.unique_seq_to_set();
            assert(walk.to_set().subset_of(table.dom())) by {
                assert forall|p: Point2D| walk.to_set().contains(p) implies table.dom().contains(
                    p,
                ) by {
                    let i = choose|i: int| 0 <= i < walk.len() && walk[i] == p;
                    assert(table.contains_key(walk[i]));
                }
            }
            vstd::set_lib::lemma_len_subset(walk.to_set(), table.dom());
        } else {
            let (i, j) = choose|i: int, j: int|
                0 <= i < walk.len() && 0 <= j < walk.len() && i != j && walk[i] == walk[j];
            let (a, b) = if i < j {
                (i, j)
            } else {
                (j, i)
            };
            assert(node_at(table, s, a as nat) == Some(walk[a]));
            assert(node_at(table, s, b as nat) == Some(walk[b]));
            lemma_walk_goes_on(table, s, a as nat, (b - a) as nat);
            assert(a as nat + (b - a) as nat == b as nat);
            assert(node_at(table, walk[a], (b - a) as nat) == Some(walk[a]));
        }
    }
}

/// Order conservation in a network without a cycle, where a walk may take
/// as many hops as there are edges: the order of an edge is the number of
/// sources whose walk runs over it.
pub proof fn lemma_acyclic_order_counts_leaves(
    edges: Seq<(Point2D, Point2D)>,
    e: (Point2D, Point2D),
    hops: nat,
)
    requires
        is_acyclic(table_of(edges)),
        hops >= edges.len(),
    ensures
        order_of(edges, e, hops) == leaves_through(table_of(edges), sources(edges), e, hops),
        order_of(edges, e, hops) <= sources(edges).len(),
{
    assert forall|k: int| 0 <= k < sources(edges).len() implies !cut_short(
        table_of(edges),
        #[trigger] sources(edges)[k],
        hops,
    ) by {
        lemma_acyclic_walk_ends(edges, sources(edges)[k], hops);
    }
    lemma_order_counts_leaves(edges, e, hops);
}

/// Order at the outlet of a network without a cycle, where a walk may take
/// as many hops as there are edges: where the table leads on from every node
/// but `outlet`, which only the edge from `last` enters, the order of that
/// edge is the number of sources.
pub proof fn lemma_acyclic_order_before_single_outlet(
    edges: Seq<(Point2D, Point2D)>,
    last: Point2D,
    outlet: Point2D,
    hops: nat,
)
    requires
        is_acyclic(table_of(edges)),
        hops >= edges.len(),
        forall|p: Point2D|
            is_node(table_of(edges), p) && !#[trigger] table_of(edges).contains_key(p) ==> p
                == outlet,
        table_of(edges).contains_key(last) && table_of(edges)[last] == outlet,
        forall|q: Point2D|
            #[trigger] table_of(edges).contains_key(q) && table_of(edges)[q] == outlet ==> q
                == last,
    ensures
        order_of(edges, (last, outlet), hops) == sources(edges).len(),
{
    assert forall|k: int| 0 <= k < sources(edges).len() implies !cut_short(
        table_of(edges),
        #[trigger] sources(edges)[k],
        hops,
    ) by {
        lemma_acyclic_walk_ends(edges, sources(edges)[k], hops);
    }
    lemma_order_before_single_outlet(edges, last, outlet, hops);
}

/// How often the walks from `srcs` together run over those of the first `n`
/// edges that enter `o`.
pub open spec fn orders_into(
    table: Map<Point2D, Point2D>,
    srcs: Seq<Point2D>,
    edges: Seq<(Point2D, Point2D)>,
    o: Point2D,
    hops: nat,
    n: nat,
) -> nat
    decreases n,
{
    if n == 0 || n > edges.len() {
        0
    } else {
        orders_into(table, srcs, edges, o, hops, (n - 1) as nat) + if edges[n - 1].1 == o {
            order_from(table, srcs, edges[n - 1], hops)
        } else {
            0nat
        }
    }
}

/// The sum of the orders of the edges of the network that enter `o`.
pub open spec fn order_sum_into(edges: Seq<(Point2D, Point2D)>, o: Point2D, hops: nat) -> nat {
    orders_into(table_of(edges), sources(edges), edges, o, hops, edges.len())
}

/// Whether no two edges of the list leave one node.
pub open spec fn leave_apart(edges: Seq<(Point2D, Point2D)>) -> bool {
    forall|i: int, j: int|
        0 <= i < j < edges.len() ==> (#[trigger] edges[i]).0 != (#[trigger] edges[j]).0
}

proof fn lemma_orders_into_splits(
    table: Map<Point2D, Point2D>,
    srcs: Seq<Point2D>,
    edges: Seq<(Point2D, Point2D)>,
    o: Point2D,
    hops: nat,
    n: nat,
)
    requires
        srcs.len() > 0,
        n <= edges.len(),
    ensures
        orders_into(table, srcs, edges, o, hops, n) == orders_into(
            table,
            srcs.drop_last(),
            edges,
            o,
            hops,
            n,
        ) + orders_into(table, seq![srcs.last()], edges, o, hops, n),
    decreases n,
{
    if n > 0 {
        lemma_orders_into_splits(table, srcs, edges, o, hops, (n - 1) as nat);
        let one = seq![srcs.last()];
        assert(one.drop_last() =~= Seq::<Point2D>::empty());
        assert(one.last() == srcs.last());
        assert(order_from(table, one.drop_last(), edges[n - 1], hops) == 0);
    }
}

proof fn lemma_orders_into_of_none(
    table: Map<Point2D, Point2D>,
    edges: Seq<(Point2D, Point2D)>,
    o: Point2D,
    hops: nat,
    n: nat,
)
    requires
        n <= edges.len(),
    ensures
        orders_into(table, Seq::<Point2D>::empty(), edges, o, hops, n) == 0,
    decreases n,
{
    if n > 0 {
        lemma_orders_into_of_none(table, edges, o, hops, (n - 1) as nat);
    }
}

/// The walk from one source runs over exactly one of the edges that enter
/// the outlet: the one it ends on.
proof fn lemma_one_way_into_outlet(edges: Seq<(Point2D, Point2D)>, s: Point2D, o: Point2D, hops: nat)
    requires
        leave_apart(edges),
        table_of(edges).contains_key(s),
        !cut_short(table_of(edges), s, hops),
        !table_of(edges).contains_key(o),
        forall|p: Point2D|
            is_node(table_of(edges), p) && !#[trigger] table_of(edges).contains_key(p) ==> p == o,
    ensures
        orders_into(table_of(edges), seq![s], edges, o, hops, edges.len()) == 1,
{
    let table = table_of(edges);
    lemma_table_keeps_first_edge(edges);
    let f = lemma_walk_has_an_end(table, s, hops);
    let q = node_at(table, s, f)->Some_0;
    assert(f > 0);
    let g = (f - 1) as nat;
    let r = node_at(table, s, g)->Some_0;
    assert(node_at(table, s, g) is Some && table.contains_key(r) && table[r] == q);
    assert(is_node(table, q));
    assert(q == o);
    let at = choose|i: int| 0 <= i < edges.len() && (#[trigger] edges[i]).0 == r;
    assert(is_first_leaving(edges, at)) by {
        assert forall|j: int| 0 <= j < at implies (#[trigger] edges[j]).0 != edges[at].0 by {}
    }
    assert(edges[at] == (r, o));
    assert(crosses_at(table, s, edges[at], g));
    assert(passes(table, s, edges[at], hops));
    assert forall|i: int|
        0 <= i < edges.len() && i != at && (#[trigger] edges[i]).1 == o implies !passes(
        table,
        s,
        edges[i],
        hops,
    ) by {
        if passes(table, s, edges[i], hops) {
            let h = choose|h: nat| h < hops && #[trigger] crosses_at(table, s, edges[i], h);
            assert(node_at(table, s, h + 1) == Some(o));
            if h + 1 < f {
                lemma_walk_ends(table, s, h + 1, f);
            }
            if f < h + 1 {
                lemma_walk_ends(table, s, f, h + 1);
            }
            assert(edges[i].0 == r);
        }
    }
    lemma_one_way_counts(edges, s, o, hops, at, edges.len());
}

proof fn lemma_one_way_counts(
    edges: Seq<(Point2D, Point2D)>,
    s: Point2D,
    o: Point2D,
    hops: nat,
    at: int,
    n: nat,
)
    requires
        n <= edges.len(),
        0 <= at < edges.len(),
        edges[at].1 == o,
        !cut_short(table_of(edges), s, hops),
        passes(table_of(edges), s, edges[at], hops),
        forall|i: int|
            0 <= i < edges.len() && i != at && (#[trigger] edges[i]).1 == o ==> !passes(
                table_of(edges),
                s,
                edges[i],
                hops,
            ),
    ensures
        orders_into(table_of(edges), seq![s], edges, o, hops, n) == if at < n {
            1nat
        } else {
            0nat
        },
    decreases n,
{
    if n > 0 {
        let table = table_of(edges);
        lemma_one_way_counts(edges, s, o, hops, at, (n - 1) as nat);
        let one = seq![s];
        let e = edges[n - 1];
        assert(one.drop_last() =~= Seq::<Point2D>::empty());
        assert(one.last() == s);
        assert(order_from(table, one.drop_last(), e, hops) == 0);
        assert(order_from(table, one, e, hops) == crossings(table, s, e, hops));
        lemma_crossed_at_most_once(table, s, e, hops, hops);
    }
}

proof fn lemma_orders_into_counts_sources(
    edges: Seq<(Point2D, Point2D)>,
    srcs: Seq<Point2D>,
    o: Point2D,
    hops: nat,
)
    requires
        leave_apart(edges),
        !table_of(edges).contains_key(o),
        forall|p: Point2D|
            is_node(table_of(edges), p) && !#[trigger] table_of(edges).contains_key(p) ==> p == o,
        forall|k: int|
            0 <= k < srcs.len() ==> table_of(edges).contains_key(#[trigger] srcs[k]) && !cut_short(
                table_of(edges),
                srcs[k],
                hops,
            ),
    ensures
        orders_into(table_of(edges), srcs, edges, o, hops, edges.len()) == srcs.len(),
    decreases srcs.len(),
{
    let table = table_of(edges);
    if srcs.len() == 0 {
        assert(srcs =~= Seq::<Point2D>::empty());
        lemma_orders_into_of_none(table, edges, o, hops, edges.len());
    } else {
        let rest = srcs.drop_last();
        assert forall|k: int| 0 <= k < rest.len() implies table.contains_key(#[trigger] rest[k])
            && !cut_short(table, rest[k], hops) by {
            assert(rest[k] == srcs[k]);
        }
        lemma_orders_into_counts_sources(edges, rest, o, hops);
        lemma_orders_into_splits(table, srcs, edges, o, hops, edges.len());
        assert(srcs.last() == srcs[srcs.len() - 1]);
        lemma_one_way_into_outlet(edges, srcs.last(), o, hops);
    }
}

/// Order conservation at the outlet. In a network without a cycle, of which
/// no two edges leave one node and of which `outlet` is the one node that
/// edges enter and none leaves, the orders of the edges that enter the outlet
/// add up to the number of sources, where a walk may take as many hops as
/// there are edges.
pub proof fn lemma_orders_into_outlet_add_up(
    edges: Seq<(Point2D, Point2D)>,
    outlet: Point2D,
    hops: nat,
)
    requires
        is_acyclic(table_of(edges)),
        hops >= edges.len(),
        leave_apart(edges),
        !leaves(edges, outlet),
        forall|p: Point2D| #[trigger] enters(edges, p) && !leaves(edges, p) ==> p == outlet,
    ensures
        order_sum_into(edges, outlet, hops) == sources(edges).len(),
{
    let table = table_of(edges);
    let srcs = sources(edges);
    lemma_sources(edges);
    lemma_table_keeps_first_edge(edges);
    assert forall|p: Point2D| is_node(table, p) && !#[trigger] table.contains_key(p) implies p
        == outlet by {
        let q = choose|q: Point2D| #[trigger] table.contains_key(q) && table[q] == p;
        let i = choose|i: int| 0 <= i < edges.len() && (#[trigger] edges[i]).0 == q;
        assert(is_first_leaving(edges, i)) by {
            assert forall|j: int| 0 <= j < i implies (#[trigger] edges[j]).0 != edges[i].0 by {}
        }
        assert(edges[i].1 == p);
        assert(enters(edges, p));
    }
    assert forall|k: int| 0 <= k < srcs.len() implies table.contains_key(#[trigger] srcs[k])
        && !cut_short(table, srcs[k], hops) by {
        assert(srcs.contains(srcs[k]));
        assert(is_source(edges, srcs[k]));
        lemma_acyclic_walk_ends(edges, srcs[k], hops);
    }
    lemma_orders_into_counts_sources(edges, srcs, outlet, hops);
}

/// In a network without a cycle the bound on hops hides no outlet, once it
/// is as large as the number of edges: where the walk from a node comes to a
/// point of interest at all, the search from that node finds an outlet, which
/// is the first point of interest on the walk.
pub proof fn lemma_acyclic_outlet_is_within_reach(
    edges: Seq<(Point2D, Point2D)>,
    pois: Set<Point2D>,
    from: Point2D,
    hops: nat,
    k: nat,
)
    requires
        is_acyclic(table_of(edges)),
        hops >= edges.len(),
        k >= 1,
        node_at(table_of(edges), from, k) is Some,
        pois.contains(node_at(table_of(edges), from, k)->Some_0),
    ensures
        k <= hops,
        downstream_outlet(table_of(edges), pois, from, hops) is Some,
{
    let table = table_of(edges);
    lemma_acyclic_walk_ends(edges, from, hops);
    if k > hops {
        lemma_walk_so_far(table, from, hops, k);
    }
    lemma_outlet_is_first_on_walk(table, pois, from, hops);
}

proof fn lemma_one_source_passes(
    table: Map<Point2D, Point2D>,
    srcs: Seq<Point2D>,
    e: (Point2D, Point2D),
    hops: nat,
    s: Point2D,
)
    requires
        srcs.no_duplicates(),
        forall|k: int|
            0 <= k < srcs.len() ==> (passes(table, #[trigger] srcs[k], e, hops) <==> srcs[k] == s),
    ensures
        leaves_through(table, srcs, e, hops) == if srcs.contains(s) {
            1nat
        } else {
            0nat
        },
    decreases srcs.len(),
{
    if srcs.len() > 0 {
        let rest = srcs.drop_last();
        assert forall|k: int| 0 <= k < rest.len() implies (passes(
            table,
            #[trigger] rest[k],
            e,
            hops,
        ) <==> rest[k] == s) by {
            assert(rest[k] == srcs[k]);
        }
        lemma_one_source_passes(table, rest, e, hops, s);
        let last = srcs[srcs.len() - 1];
        assert(srcs.last() == last);
        if rest.contains(s) {
            let k = choose|k: int| 0 <= k < rest.len() && rest[k] == s;
            assert(srcs[k] == s);
            assert(srcs.contains(s));
        }
        if last == s {
            assert(srcs.contains(s));
        }
        if srcs.contains(s) && !rest.contains(s) {
            let k = choose|k: int| 0 <= k < srcs.len() && srcs[k] == s;
            if k < rest.len() {
                assert(rest[k] == s);
            }
        }
    }
}

/// The edge that leaves a source has order 1, in a network without a cycle
/// of which no two edges leave one node, where a walk may take as many hops
/// as there are edges: only the walk from the source itself runs over it.
pub proof fn lemma_source_edge_has_order_one(
    edges: Seq<(Point2D, Point2D)>,
    s: Point2D,
    hops: nat,
)
    requires
        is_acyclic(table_of(edges)),
        hops >= edges.len(),
        leave_apart(edges),
        is_source(edges, s),
    ensures
        table_of(edges).contains_key(s),
        order_of(edges, (s, table_of(edges)[s]), hops) == 1,
{
    let table = table_of(edges);
    let srcs = sources(edges);
    lemma_sources(edges);
    lemma_table_keeps_first_edge(edges);
    assert(table.contains_key(s));
    let e = (s, table[s]);
    assert(node_at(table, s, 0) == Some(s));
    assert(crosses_at(table, s, e, 0));
    assert(passes(table, s, e, hops));
    assert forall|k: int| 0 <= k < srcs.len() implies (passes(
        table,
        #[trigger] srcs[k],
        e,
        hops,
    ) <==> srcs[k] == s) by {
        let from = srcs[k];
        if passes(table, from, e, hops) && from != s {
            let g = choose|g: nat| g < hops && #[trigger] crosses_at(table, from, e, g);
            assert(node_at(table, from, 0) == Some(from));
            assert(g >= 1);
            let r = node_at(table, from, (g - 1) as nat)->Some_0;
            assert(node_at(table, from, (g - 1) as nat) is Some && table.contains_key(r)
                && table[r] == s);
            let i = choose|i: int| 0 <= i < edges.len() && (#[trigger] edges[i]).0 == r;
            assert(is_first_leaving(edges, i)) by {
                assert forall|j: int| 0 <= j < i implies (#[trigger] edges[j]).0 != edges[i].0 by {}
            }
            assert(edges[i].1 == s);
            assert(enters(edges, s));
        }
    }
    lemma_one_source_passes(table, srcs, e, hops, s);
    assert(srcs.contains(s));
    lemma_acyclic_order_counts_leaves(edges, e, hops);
}

} // verus!
