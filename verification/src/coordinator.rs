//! Keeping count of the walks: what is still out, what has ended and how,
//! and the walks that branches open.

use vstd::prelude::*;
use crate::resolver::{
    Message, Resolution, Walk, Window, all_told, is_run, is_walk_report, run_walk,
};
use crate::streams::PointSet;
use crate::types::Point2D;

verus! {

/// What the coordinator did with a message.
#[derive(Clone, Copy, Debug, PartialEq, Eq, Structural)]
pub enum Reaction {
    /// A walk ended and its result was recorded.
    Recorded,
    /// A branch opened this walk, which is now out.
    Spawned(Walk),
    /// The message ended a walk though none was out: it was left aside.
    Dropped,
}

/// Whether a branch ends on a point of interest other than the one its walk
/// was submitted for: such a branch is resolved where it ends.
pub open spec fn arrives(pois: Set<Point2D>, message: Message) -> bool {
    pois.contains(message.outlet) && message.outlet != message.input
}

/// The one that gathers the results of all walks.
pub struct Coordinator {
    submitted: usize,
    branched: Vec<u64>,
    pending: usize,
    budget: usize,
    connections: Vec<(u64, Point2D)>,
    outlets: Vec<(u64, Point2D)>,
}

impl Coordinator {
    /// How many points were submitted.
    pub closed spec fn submitted(self) -> nat {
        self.submitted as nat
    }

    /// The identifiers that the reported branches bore, in order.
    pub closed spec fn branch_fids(self) -> Seq<u64> {
        self.branched@
    }

    /// How many branches were reported.
    pub open spec fn branches(self) -> nat {
        self.branch_fids().len()
    }

    /// How many walks are out.
    pub closed spec fn pending(self) -> nat {
        self.pending as nat
    }

    /// The budget that the walks of branches get.
    pub closed spec fn budget(self) -> usize {
        self.budget
    }

    /// The walks that found a point of interest: the identifier and what was
    /// found.
    pub closed spec fn connections(self) -> Seq<(u64, Point2D)> {
        self.connections@
    }

    /// The walks that found none: the identifier and where the walk ended.
    pub closed spec fn outlets(self) -> Seq<(u64, Point2D)> {
        self.outlets@
    }

    /// How many walks have ended.
    pub open spec fn terminals(self) -> nat {
        self.connections().len() + self.outlets().len()
    }

    /// Every walk is accounted for: one was opened for each submitted point
    /// and for each branch, and each has ended or is still out.
    pub closed spec fn wf(self) -> bool {
        &&& self.connections@.len() + self.outlets@.len() + self.pending == self.submitted
            + self.branched@.len()
        &&& self.submitted + self.branched@.len() <= usize::MAX
    }

    /// The coordinator of `submitted` walks that are all out.
    pub fn new(submitted: usize, budget: usize) -> (c: Coordinator)
        ensures
            c.wf(),
            c.submitted() == submitted,
            c.branch_fids() == Seq::<u64>::empty(),
            c.pending() == submitted,
            c.budget() == budget,
            c.connections() == Seq::<(u64, Point2D)>::empty(),
            c.outlets() == Seq::<(u64, Point2D)>::empty(),
    {
        Coordinator {
            submitted,
            branched: Vec::new(),
            pending: submitted,
            budget,
            connections: Vec::new(),
            outlets: Vec::new(),
        }
    }

    /// Whether no walk is out: then all results are in.
    pub fn is_done(&self) -> (r: bool)
        requires
            self.wf(),
        ensures
            r == (self.pending() == 0),
            r ==> self.terminals() == self.submitted() + self.branches(),
    {
        self.pending == 0
    }

    /// How many walks were opened in all: the submitted points and the
    /// branches.
    pub fn expected(&self) -> (n: usize)
        requires
            self.wf(),
        ensures
            n == self.submitted() + self.branches(),
    {
        self.submitted + self.branched.len()
    }

    /// How many walks have ended.
    pub fn processed(&self) -> (n: usize)
        requires
            self.wf(),
        ensures
            n == self.terminals(),
            n <= self.submitted() + self.branches(),
    {
        self.connections.len() + self.outlets.len()
    }

    /// How many branches were reported.
    pub fn branch_count(&self) -> (n: usize)
        ensures
            n == self.branches(),
    {
        self.branched.len()
    }

    /// The identifiers that the reported branches bore, in order.
    pub fn branched(&self) -> (r: &Vec<u64>)
        ensures
            r@ == self.branch_fids(),
    {
        &self.branched
    }

    /// The results: first of the walks that found a point of interest, then
    /// of those that found none, then the identifiers of the branches.
    pub fn into_results(self) -> (r: (Vec<(u64, Point2D)>, Vec<(u64, Point2D)>, Vec<u64>))
        ensures
            r.0@ == self.connections(),
            r.1@ == self.outlets(),
            r.2@ == self.branch_fids(),
    {
        (self.connections, self.outlets, self.branched)
    }

    /// The results of the walks that found a point of interest.
    pub fn found(&self) -> (r: &Vec<(u64, Point2D)>)
        ensures
            r@ == self.connections(),
    {
        &self.connections
    }

    /// The results of the walks that found none.
    pub fn not_found(&self) -> (r: &Vec<(u64, Point2D)>)
        ensures
            r@ == self.outlets(),
    {
        &self.outlets
    }

    /// Takes one message of a walk.
    ///
    /// `Found` and `NotFound` end a walk that is out: the result is recorded.
    /// Where no walk is out, such a message is left aside.
    /// `Branch` counts one more walk. A branch that ends on a point of
    /// interest other than its walk's own is resolved there: that point is
    /// recorded as found. Any other branch opens a walk from where it ends,
    /// which is handed back and is out from then on.
    ///
    /// A branch can only be counted while the count of walks is below the
    /// largest `usize`.
    pub fn on_message(&mut self, message: Message, pois: &PointSet) -> (reaction: Reaction)
        requires
            old(self).wf(),
            message.resolution is Branch ==> old(self).submitted() + old(self).branches()
                < usize::MAX,
        ensures
            final(self).wf(),
            final(self).submitted() == old(self).submitted(),
            final(self).budget() == old(self).budget(),
            message.resolution is Found && old(self).pending() > 0 ==> {
                &&& reaction == Reaction::Recorded
                &&& final(self).connections() == old(self).connections().push(
                    (message.fid, message.outlet),
                )
                &&& final(self).outlets() == old(self).outlets()
                &&& final(self).pending() == old(self).pending() - 1
                &&& final(self).branch_fids() == old(self).branch_fids()
            },
            message.resolution is NotFound && old(self).pending() > 0 ==> {
                &&& reaction == Reaction::Recorded
                &&& final(self).connections() == old(self).connections()
                &&& final(self).outlets() == old(self).outlets().push((message.fid, message.outlet))
                &&& final(self).pending() == old(self).pending() - 1
                &&& final(self).branch_fids() == old(self).branch_fids()
            },
            !(message.resolution is Branch) && old(self).pending() == 0 ==> {
                &&& reaction == Reaction::Dropped
                &&& final(self).connections() == old(self).connections()
                &&& final(self).outlets() == old(self).outlets()
                &&& final(self).pending() == 0
                &&& final(self).branch_fids() == old(self).branch_fids()
            },
            message.resolution is Branch && arrives(pois@, message) ==> {
                &&& reaction == Reaction::Recorded
                &&& final(self).connections() == old(self).connections().push(
                    (message.fid, message.outlet),
                )
                &&& final(self).outlets() == old(self).outlets()
                &&& final(self).pending() == old(self).pending()
                &&& final(self).branch_fids() == old(self).branch_fids().push(message.fid)
            },
            message.resolution is Branch && !arrives(pois@, message) ==> {
                &&& reaction == Reaction::Spawned(
                    Walk {
                        fid: message.fid,
                        input: message.input,
                        at: message.outlet,
                        searching: false,
                        steps: 0,
                        budget: old(self).budget(),
                        done: false,
                    },
                )
                &&& final(self).connections() == old(self).connections()
                &&& final(self).outlets() == old(self).outlets()
                &&& final(self).pending() == old(self).pending() + 1
                &&& final(self).branch_fids() == old(self).branch_fids().push(message.fid)
            },
    {
        match message.resolution {
            Resolution::Found => {
                if self.pending == 0 {
                    return Reaction::Dropped;
                }
                self.connections.push((message.fid, message.outlet));
                self.pending = self.pending - 1;
                Reaction::Recorded
            },
            Resolution::NotFound => {
                if self.pending == 0 {
                    return Reaction::Dropped;
                }
                self.outlets.push((message.fid, message.outlet));
                self.pending = self.pending - 1;
                Reaction::Recorded
            },
            Resolution::Branch => {
                self.branched.push(message.fid);
                if pois.contains(&message.outlet) && !message.outlet.same(&message.input) {
                    self.connections.push((message.fid, message.outlet));
                    Reaction::Recorded
                } else {
                    self.pending = self.pending + 1;
                    Reaction::Spawned(Walk::branch(&message, self.budget))
                }
            },
        }
    }
}

/// Once no walk is out, the results are as many as the submitted points and
/// the branches together; until then the walks that are out make up the
/// difference.
pub proof fn lemma_every_walk_is_accounted_for(c: Coordinator)
    requires
        c.wf(),
    ensures
        c.terminals() + c.pending() == c.submitted() + c.branches(),
        c.pending() == 0 ==> c.terminals() == c.submitted() + c.branches(),
{
}

/// The coordinates of the submitted points: the points of interest.
pub open spec fn points_of_interest(points: Seq<(u64, Point2D)>) -> Set<Point2D> {
    Set::new(|p: Point2D| exists|i: int| 0 <= i < points.len() && (#[trigger] points[i]).1 == p)
}

/// How many of the results bear the identifier `fid`. The submitted points,
/// each with its identifier, are counted in the same way.
pub open spec fn count_results(results: Seq<(u64, Point2D)>, fid: u64) -> nat
    decreases results.len(),
{
    if results.len() == 0 {
        0
    } else {
        count_results(results.drop_last(), fid) + if results.last().0 == fid {
            1nat
        } else {
            0nat
        }
    }
}

/// How many of the identifiers are `fid`.
pub open spec fn count_fids(fids: Seq<u64>, fid: u64) -> nat
    decreases fids.len(),
{
    if fids.len() == 0 {
        0
    } else {
        count_fids(fids.drop_last(), fid) + if fids.last() == fid {
            1nat
        } else {
            0nat
        }
    }
}

/// How many results of both kinds bear the identifier `fid`.
pub open spec fn results_for(
    connections: Seq<(u64, Point2D)>,
    outlets: Seq<(u64, Point2D)>,
    fid: u64,
) -> nat {
    count_results(connections, fid) + count_results(outlets, fid)
}

/// How many of the walks are for the identifier `fid`.
spec fn count_walks(work: Seq<Walk>, fid: u64) -> nat
    decreases work.len(),
{
    if work.len() == 0 {
        0
    } else {
        count_walks(work.drop_last(), fid) + if work.last().fid == fid {
            1nat
        } else {
            0nat
        }
    }
}

proof fn lemma_counts_grow(
    results: Seq<(u64, Point2D)>,
    e: (u64, Point2D),
    fids: Seq<u64>,
    work: Seq<Walk>,
    w: Walk,
    fid: u64,
)
    ensures
        count_results(results.push(e), fid) == count_results(results, fid) + if e.0 == fid {
            1nat
        } else {
            0nat
        },
        count_fids(fids.push(e.0), fid) == count_fids(fids, fid) + if e.0 == fid {
            1nat
        } else {
            0nat
        },
        count_walks(work.push(w), fid) == count_walks(work, fid) + if w.fid == fid {
            1nat
        } else {
            0nat
        },
{
    assert(results.push(e).drop_last() =~= results);
    assert(fids.push(e.0).drop_last() =~= fids);
    assert(work.push(w).drop_last() =~= work);
}

/// Where the work stands: the walks that wait, the last of them first in
/// turn; the results; the identifiers of the branches; and whether the work
/// had to stop because the branches outran the count.
pub struct Tally {
    pub work: Seq<Walk>,
    pub connections: Seq<(u64, Point2D)>,
    pub outlets: Seq<(u64, Point2D)>,
    pub branched: Seq<u64>,
    pub halted: bool,
}

/// The walk that is opened for a submitted point.
pub open spec fn first_walk(point: (u64, Point2D), budget: usize) -> Walk {
    Walk {
        fid: point.0,
        input: point.1,
        at: point.1,
        searching: false,
        steps: 0,
        budget,
        done: false,
    }
}

/// Where the work starts: a walk waits for each point, in the order of the
/// points, and nothing is recorded.
pub open spec fn start_of(points: Seq<(u64, Point2D)>, budget: usize) -> Tally {
    Tally {
        work: Seq::new(points.len(), |i: int| first_walk(points[i], budget)),
        connections: Seq::empty(),
        outlets: Seq::empty(),
        branched: Seq::empty(),
        halted: false,
    }
}

/// Where the work stands after one message is taken, as
/// [`Coordinator::on_message`] takes it while walks are out. A branch that
/// cannot be counted any more, `submitted` points and the branches so far
/// filling the count, stops the work; once stopped, nothing more is taken.
pub open spec fn takes(
    t: Tally,
    m: Message,
    pois: Set<Point2D>,
    budget: usize,
    submitted: nat,
) -> Tally {
    if t.halted {
        t
    } else {
        match m.resolution {
            Resolution::Found => Tally { connections: t.connections.push((m.fid, m.outlet)), ..t },
            Resolution::NotFound => Tally { outlets: t.outlets.push((m.fid, m.outlet)), ..t },
            Resolution::Branch => if submitted + t.branched.len() == usize::MAX {
                Tally { halted: true, ..t }
            } else if arrives(pois, m) {
                Tally {
                    connections: t.connections.push((m.fid, m.outlet)),
                    branched: t.branched.push(m.fid),
                    ..t
                }
            } else {
                Tally {
                    work: t.work.push(
                        Walk {
                            fid: m.fid,
                            input: m.input,
                            at: m.outlet,
                            searching: false,
                            steps: 0,
                            budget,
                            done: false,
                        },
                    ),
                    branched: t.branched.push(m.fid),
                    ..t
                }
            },
        }
    }
}

/// Where the work stands after the messages are taken, one after the other.
pub open spec fn takes_all(
    t: Tally,
    messages: Seq<Message>,
    pois: Set<Point2D>,
    budget: usize,
    submitted: nat,
) -> Tally
    decreases messages.len(),
{
    if messages.len() == 0 {
        t
    } else {
        takes(
            takes_all(t, messages.drop_last(), pois, budget, submitted),
            messages.last(),
            pois,
            budget,
            submitted,
        )
    }
}

/// Where the work stands after each of the runs in turn: for each run the
/// walk that waits last is taken from the work, and the messages of the run
/// are taken.
pub open spec fn replay(
    t: Tally,
    runs: Seq<Seq<Message>>,
    pois: Set<Point2D>,
    budget: usize,
    submitted: nat,
) -> Tally
    decreases runs.len(),
{
    if runs.len() == 0 {
        t
    } else {
        let before = replay(t, runs.drop_last(), pois, budget, submitted);
        takes_all(
            Tally { work: before.work.drop_last(), ..before },
            runs.last(),
            pois,
            budget,
            submitted,
        )
    }
}

/// Whether `messages` is what a whole run of `walk` reports, each step of
/// it taken on something that `search` can hand back.
pub open spec fn is_run_of<F: Fn(Point2D, bool) -> (Vec<Vec<Point2D>>, Window)>(
    search: &F,
    pois: Set<Point2D>,
    walk: Walk,
    messages: Seq<Message>,
) -> bool {
    exists|states: Seq<Walk>, tolds: Seq<Seq<Message>>|
        {
            &&& #[trigger] is_run(search, pois, states, tolds)
            &&& states.first() == walk
            &&& states.last().done
            &&& messages == all_told(tolds)
        }
}

/// Whether the run at `i` is a run of the walk that was next in turn when
/// the runs before it were done: the walk that waited last, the work neither
/// stopped nor at its end.
pub open spec fn run_is_real<F: Fn(Point2D, bool) -> (Vec<Vec<Point2D>>, Window)>(
    search: &F,
    pois: Set<Point2D>,
    budget: usize,
    submitted: nat,
    start: Tally,
    runs: Seq<Seq<Message>>,
    i: int,
) -> bool {
    let t = replay(start, runs.take(i), pois, budget, submitted);
    &&& !t.halted
    &&& t.work.len() > 0
    &&& is_run_of(search, pois, t.work.last(), runs[i])
}

/// Whether each of the runs is real: see [`run_is_real`].
pub open spec fn runs_are_real<F: Fn(Point2D, bool) -> (Vec<Vec<Point2D>>, Window)>(
    search: &F,
    pois: Set<Point2D>,
    budget: usize,
    submitted: nat,
    start: Tally,
    runs: Seq<Seq<Message>>,
) -> bool {
    forall|i: int|
        0 <= i < runs.len() ==> #[trigger] run_is_real(
            search,
            pois,
            budget,
            submitted,
            start,
            runs,
            i,
        )
}

/// Whether the outcome is what the runs give: the runs are real, one for
/// each walk in its turn from the start for `points`; they went on until no
/// walk waited, `max_walks` were made, or the work had to stop; and the
/// results and the branches are those of the work after them, which is
/// complete when no walk waits and it did not stop.
pub open spec fn comes_of<F: Fn(Point2D, bool) -> (Vec<Vec<Point2D>>, Window)>(
    search: &F,
    points: Seq<(u64, Point2D)>,
    budget: usize,
    max_walks: usize,
    runs: Seq<Seq<Message>>,
    connections: Seq<(u64, Point2D)>,
    outlets: Seq<(u64, Point2D)>,
    branched: Seq<u64>,
    complete: bool,
) -> bool {
    let pois = points_of_interest(points);
    let n = points.len();
    let start = start_of(points, budget);
    let t = replay(start, runs, pois, budget, n);
    &&& runs_are_real(search, pois, budget, n, start, runs)
    &&& runs.len() <= max_walks
    &&& runs.len() == max_walks || t.halted || t.work.len() == 0
    &&& connections == t.connections
    &&& outlets == t.outlets
    &&& branched == t.branched
    &&& complete == (!t.halted && t.work.len() == 0)
}

/// Where the work stands, as the list of waiting walks and the coordinator
/// have it.
spec fn tally_of(work: Seq<Walk>, c: Coordinator, halted: bool) -> Tally {
    Tally {
        work,
        connections: c.connections(),
        outlets: c.outlets(),
        branched: c.branch_fids(),
        halted,
    }
}

/// One more real run keeps the runs real, and the work after it is the work
/// before it with the walk that waited last taken away and the messages of
/// the run taken.
proof fn lemma_one_more_run<F: Fn(Point2D, bool) -> (Vec<Vec<Point2D>>, Window)>(
    search: &F,
    pois: Set<Point2D>,
    budget: usize,
    submitted: nat,
    start: Tally,
    done: Seq<Seq<Message>>,
    messages: Seq<Message>,
)
    requires
        runs_are_real(search, pois, budget, submitted, start, done),
        !replay(start, done, pois, budget, submitted).halted,
        replay(start, done, pois, budget, submitted).work.len() > 0,
        is_run_of(
            search,
            pois,
            replay(start, done, pois, budget, submitted).work.last(),
            messages,
        ),
    ensures
        runs_are_real(search, pois, budget, submitted, start, done.push(messages)),
        replay(start, done.push(messages), pois, budget, submitted) == takes_all(
            Tally {
                work: replay(start, done, pois, budget, submitted).work.drop_last(),
                ..replay(start, done, pois, budget, submitted)
            },
            messages,
            pois,
            budget,
            submitted,
        ),
{
    let runs = done.push(messages);
    assert(runs.drop_last() =~= done);
    assert(runs.last() == messages);
    assert forall|i: int| 0 <= i < runs.len() implies #[trigger] run_is_real(
        search,
        pois,
        budget,
        submitted,
        start,
        runs,
        i,
    ) by {
        if i < done.len() {
            assert(run_is_real(search, pois, budget, submitted, start, done, i));
            assert(runs.take(i) =~= done.take(i));
            assert(runs[i] == done[i]);
        } else {
            assert(runs.take(i) =~= done);
        }
    }
}

/// Once the work has stopped, further messages change nothing.
proof fn lemma_halted_takes_no_more(
    t: Tally,
    messages: Seq<Message>,
    j: int,
    pois: Set<Point2D>,
    budget: usize,
    submitted: nat,
)
    requires
        0 <= j <= messages.len(),
        takes_all(t, messages.take(j), pois, budget, submitted).halted,
    ensures
        takes_all(t, messages, pois, budget, submitted) == takes_all(
            t,
            messages.take(j),
            pois,
            budget,
            submitted,
        ),
    decreases messages.len() - j,
{
    if j < messages.len() {
        assert(messages.take(j + 1).drop_last() =~= messages.take(j));
        lemma_halted_takes_no_more(t, messages, j + 1, pois, budget, submitted);
    } else {
        assert(messages.take(j) =~= messages);
    }
}

/// Whether no two of the points bear one identifier.
pub open spec fn has_distinct_fids(points: Seq<(u64, Point2D)>) -> bool {
    forall|i: int, j: int|
        0 <= i < j < points.len() ==> (#[trigger] points[i]).0 != (#[trigger] points[j]).0
}

/// Among points of distinct identifiers each identifier is borne once, so
/// where the work is complete a point has one result of its own and one more
/// for each branch that bears its identifier.
pub proof fn lemma_one_submission_each(points: Seq<(u64, Point2D)>, i: int)
    requires
        has_distinct_fids(points),
        0 <= i < points.len(),
    ensures
        count_results(points, points[i].0) == 1,
    decreases points.len(),
{
    let before = points.drop_last();
    let fid = points[i].0;
    assert forall|a: int, b: int| 0 <= a < b < before.len() implies (#[trigger] before[a]).0 != (
    #[trigger] before[b]).0 by {
        assert(before[a] == points[a]);
        assert(before[b] == points[b]);
    }
    if i < points.len() - 1 {
        assert(before[i] == points[i]);
        lemma_one_submission_each(before, i);
        assert(points.last() == points[points.len() - 1]);
    } else {
        lemma_none_submitted(before, fid);
    }
}

proof fn lemma_none_submitted(points: Seq<(u64, Point2D)>, fid: u64)
    requires
        forall|k: int| 0 <= k < points.len() ==> (#[trigger] points[k]).0 != fid,
    ensures
        count_results(points, fid) == 0,
    decreases points.len(),
{
    if points.len() > 0 {
        let before = points.drop_last();
        assert forall|k: int| 0 <= k < before.len() implies (#[trigger] before[k]).0 != fid by {
            assert(before[k] == points[k]);
        }
        lemma_none_submitted(before, fid);
        assert(points.last() == points[points.len() - 1]);
    }
}

/// What is counted is there: a list that counts an identifier holds an entry
/// that bears it, and a list counts the identifier of each of its entries.
proof fn lemma_counted_is_there(results: Seq<(u64, Point2D)>, fid: u64)
    ensures
        count_results(results, fid) > 0 <==> exists|k: int|
            0 <= k < results.len() && (#[trigger] results[k]).0 == fid,
    decreases results.len(),
{
    if results.len() > 0 {
        let before = results.drop_last();
        lemma_counted_is_there(before, fid);
        if count_results(before, fid) > 0 {
            let k = choose|k: int| 0 <= k < before.len() && (#[trigger] before[k]).0 == fid;
            assert(results[k].0 == fid);
        }
        if results.last().0 == fid {
            assert(results[results.len() - 1].0 == fid);
        }
        if exists|k: int| 0 <= k < results.len() && (#[trigger] results[k]).0 == fid {
            let k = choose|k: int| 0 <= k < results.len() && (#[trigger] results[k]).0 == fid;
            if k < before.len() {
                assert(before[k].0 == fid);
            }
        }
    }
}

/// Whether the results hold one for the identifier `fid`.
pub open spec fn has_result(
    connections: Seq<(u64, Point2D)>,
    outlets: Seq<(u64, Point2D)>,
    fid: u64,
) -> bool {
    ||| exists|k: int| 0 <= k < connections.len() && (#[trigger] connections[k]).0 == fid
    ||| exists|k: int| 0 <= k < outlets.len() && (#[trigger] outlets[k]).0 == fid
}

/// What resolving a set of points gave.
pub struct Resolved {
    /// For each walk that found a point of interest: the identifier of the
    /// walk's point and what it found.
    pub connections: Vec<(u64, Point2D)>,
    /// For each walk that found none: the identifier and where the walk
    /// ended.
    pub outlets: Vec<(u64, Point2D)>,
    /// How many branches were reported.
    pub branches: usize,
    /// The identifiers that the branches bore, in the order of their report.
    pub branched: Vec<u64>,
    /// Whether every walk was run to its end.
    pub complete: bool,
}

/// Takes the messages of one run, one after the other, and opens the walks
/// of its branches; tells whether the work had to stop because a branch
/// could not be counted.
fn take_report<F>(
    c: &mut Coordinator,
    work: &mut Vec<Walk>,
    messages: &Vec<Message>,
    walk: Walk,
    pois: &PointSet,
    points: &Vec<(u64, Point2D)>,
    search: &F,
    budget: usize,
) -> (halted: bool) where F: Fn(Point2D, bool) -> (Vec<Vec<Point2D>>, Window)
    requires
        is_walk_report(messages@, walk.fid, walk.input),
        messages@.last().resolution is Found ==> pois@.contains(messages@.last().outlet),
        old(c).wf(),
        old(c).submitted() == points.len(),
        old(c).budget() == budget,
        old(c).pending() == old(work).len() + 1,
        forall|fid: u64|
            #[trigger] results_for(old(c).connections(), old(c).outlets(), fid) + count_walks(
                old(work)@,
                fid,
            ) + (if fid == walk.fid {
                1int
            } else {
                0int
            }) == count_results(points@, fid) + count_fids(old(c).branch_fids(), fid),
        forall|j: int| 0 <= j < old(work).len() ==> !(#[trigger] old(work)[j]).done,
        forall|j: int|
            0 <= j < old(c).connections().len() ==> pois@.contains(
                (#[trigger] old(c).connections()[j]).1,
            ),
    ensures
        final(c).wf(),
        final(c).submitted() == points.len(),
        final(c).budget() == budget,
        tally_of(final(work)@, *final(c), halted) == takes_all(
            tally_of(old(work)@, *old(c), false),
            messages@,
            pois@,
            budget,
            points.len() as nat,
        ),
        !halted ==> final(c).pending() == final(work).len(),
        !halted ==> final(c).terminals() >= old(c).terminals() + 1,
        halted ==> final(c).submitted() + final(c).branches() == usize::MAX,
        !halted ==> forall|fid: u64|
            #[trigger] results_for(final(c).connections(), final(c).outlets(), fid) + count_walks(
                final(work)@,
                fid,
            ) == count_results(points@, fid) + count_fids(final(c).branch_fids(), fid),
        forall|j: int| 0 <= j < final(work).len() ==> !(#[trigger] final(work)[j]).done,
        forall|j: int|
            0 <= j < final(c).connections().len() ==> pois@.contains(
                (#[trigger] final(c).connections()[j]).1,
            ),
{
    let mut halted: bool = false;
    proof {
        assert(messages@.take(0) =~= Seq::<Message>::empty());
    }
    let mut k: usize = 0;
    while k < messages.len() && !halted
        invariant
            k <= messages.len(),
            is_walk_report(messages@, walk.fid, walk.input),
            messages@.last().resolution is Found ==> pois@.contains(messages@.last().outlet),
            c.wf(),
            c.submitted() == points.len(),
            c.budget() == budget,
            halted ==> k < messages.len(),
            tally_of(work@, *c, halted) == takes_all(
                tally_of(old(work)@, *old(c), false),
                messages@.take(
                    if halted {
                        k + 1
                    } else {
                        k as int
                    },
                ),
                pois@,
                budget,
                (points.len() as nat),
            ),
            !halted ==> forall|fid: u64|
                #[trigger] results_for(c.connections(), c.outlets(), fid) + count_walks(
                    work@,
                    fid,
                ) + (if k < messages.len() && fid == walk.fid {
                    1int
                } else {
                    0int
                }) == count_results(points@, fid) + count_fids(c.branch_fids(), fid),
            !halted ==> c.terminals() >= old(c).terminals() + if k < messages.len() {
                0int
            } else {
                1int
            },
            halted ==> c.submitted() + c.branches() == usize::MAX,
            !halted ==> c.pending() == work.len() + if k < messages.len() {
                1int
            } else {
                0int
            },
            forall|j: int| 0 <= j < work.len() ==> !(#[trigger] work[j]).done,
            forall|j: int|
                0 <= j < c.connections().len() ==> pois@.contains(
                    (#[trigger] c.connections()[j]).1,
                ),
        decreases messages.len() - k + if halted { 0int } else { 1int },
    {
        let m = messages[k];
        let is_branch: bool = match m.resolution {
            Resolution::Branch => true,
            _ => false,
        };
        proof {
            assert(messages@.take(k + 1).drop_last() =~= messages@.take(k as int));
            assert(messages@.take(k + 1).last() == m);
        }
        if is_branch && c.expected() == usize::MAX {
            halted = true;
        } else {
            let ghost before = *c;
            let ghost waiting = work@;
            match c.on_message(m, pois) {
                Reaction::Spawned(w) => {
                    work.push(w);
                },
                _ => {},
            }
            proof {
                assert(k < messages.len() - 1 ==> m.resolution is Branch);
                assert(k == messages.len() - 1 ==> m == messages@.last());
                assert(m.fid == walk.fid);
                assert(tally_of(work@, *c, false) == takes(
                    tally_of(waiting, before, false),
                    m,
                    pois@,
                    budget,
                    (points.len() as nat),
                )) by {
                    if work@.len() > waiting.len() {
                        assert(work@ =~= waiting.push(work@.last()));
                    } else {
                        assert(work@ =~= waiting);
                    }
                }
                assert forall|fid: u64|
                    #[trigger] results_for(c.connections(), c.outlets(), fid) + count_walks(
                        work@,
                        fid,
                    ) + (if k + 1 < messages.len() && fid == walk.fid {
                        1int
                    } else {
                        0int
                    }) == count_results(points@, fid) + count_fids(c.branch_fids(), fid) by {
                    lemma_counts_grow(
                        before.connections(),
                        (m.fid, m.outlet),
                        before.branch_fids(),
                        waiting,
                        Walk {
                            fid: m.fid,
                            input: m.input,
                            at: m.outlet,
                            searching: false,
                            steps: 0,
                            budget: before.budget(),
                            done: false,
                        },
                        fid,
                    );
                    lemma_counts_grow(
                        before.outlets(),
                        (m.fid, m.outlet),
                        before.branch_fids(),
                        waiting,
                        walk,
                        fid,
                    );
                    assert(results_for(before.connections(), before.outlets(), fid)
                        + count_walks(waiting, fid) + (if fid == walk.fid {
                        1int
                    } else {
                        0int
                    }) == count_results(points@, fid) + count_fids(before.branch_fids(), fid));
                }
                assert forall|j: int| 0 <= j < c.connections().len() implies pois@.contains(
                    (#[trigger] c.connections()[j]).1,
                ) by {
                    if j < before.connections().len() {
                        assert(c.connections()[j] == before.connections()[j]);
                    }
                }
            }
            k += 1;
        }
    }
    proof {
        if halted {
            lemma_halted_takes_no_more(
                tally_of(old(work)@, *old(c), false),
                messages@,
                k + 1,
                pois@,
                budget,
                points.len() as nat,
            );
        } else {
            assert(messages@.take(k as int) =~= messages@);
        }
    }
    halted
}

/// Resolves every point, one walk after the other, the walks of branches
/// included, as long as walks are left and fewer than `max_walks` were run.
///
/// Without points, or where no walk is allowed, nothing is searched and
/// nothing recorded. Otherwise, whatever `search` hands back: every walk that
/// is run leaves a result, so there are as many results as walks were
/// allowed, or as points, whichever is fewer, unless the branches outran the
/// count; when the work is complete, every point has a result, each
/// identifier bears as many results as points and branches bear it, and there
/// are as many results as points and branches together. Every result stems
/// from a message of a walk that was run on what `search` handed back, and
/// whatever was found is a point of interest.
///
/// In full: the work starts with a walk for each point, with the budget
/// given; the walk that waits last is run; its messages are taken as
/// [`Coordinator::on_message`] takes them, a branch that ends off the points
/// of interest opening a walk that waits from then on; and so on, until no
/// walk waits, `max_walks` walks were run, or the branches outran the count.
/// What is handed back is where the work then stands: see [`replay`].
pub fn resolve_all<F>(
    points: &Vec<(u64, Point2D)>,
    search: &F,
    budget: usize,
    max_walks: usize,
) -> (r: Resolved) where F: Fn(Point2D, bool) -> (Vec<Vec<Point2D>>, Window)
    requires
        forall|at: Point2D, searching: bool| call_requires(search, (at, searching)),
    ensures
        r.complete ==> r.connections.len() + r.outlets.len() == points.len() + r.branches,
        r.connections.len() + r.outlets.len() <= points.len() + r.branches,
        points.len() == 0 ==> r.complete,
        max_walks == 0 || points.len() == 0 ==> r.connections@.len() == 0 && r.outlets@.len() == 0
            && r.branches == 0 && r.complete == (points.len() == 0),
        !r.complete ==> r.connections.len() + r.outlets.len() >= max_walks || points.len()
            + r.branches == usize::MAX,
        points.len() + r.branches < usize::MAX ==> r.connections.len() + r.outlets.len() >= (
        if points.len() <= max_walks {
            points.len()
        } else {
            max_walks
        }),
        r.complete ==> forall|i: int|
            0 <= i < points.len() ==> has_result(
                r.connections@,
                r.outlets@,
                (#[trigger] points[i]).0,
            ),
        forall|k: int|
            0 <= k < r.connections.len() ==> points_of_interest(points@).contains(
                (#[trigger] r.connections[k]).1,
            ),
        r.branches == r.branched.len(),
        r.complete ==> forall|fid: u64|
            #[trigger] results_for(r.connections@, r.outlets@, fid) == count_results(points@, fid)
                + count_fids(r.branched@, fid),
        exists|runs: Seq<Seq<Message>>|
            #[trigger] comes_of(
                search,
                points@,
                budget,
                max_walks,
                runs,
                r.connections@,
                r.outlets@,
                r.branched@,
                r.complete,
            ),
{
    let mut pois = PointSet::new();
    let mut work: Vec<Walk> = Vec::new();
    let mut i: usize = 0;
    while i < points.len()
        invariant
            i <= points.len(),
            work.len() == i,
            forall|k: int| 0 <= k < work.len() ==> !(#[trigger] work[k]).done,
            forall|k: int| 0 <= k < work.len() ==> (#[trigger] work[k]).fid == points[k].0,
            forall|k: int| 0 <= k < work.len() ==> #[trigger] work[k] == first_walk(points[k], budget),
            forall|fid: u64|
                #[trigger] count_walks(work@, fid) == count_results(points@.take(i as int), fid),
            forall|p: Point2D|
                #[trigger] pois@.contains(p) <==> exists|j: int|
                    0 <= j < i && (#[trigger] points[j]).1 == p,
        decreases points.len() - i,
    {
        let (fid, point) = points[i];
        let ghost waiting = work@;
        pois.insert(point);
        work.push(Walk::with_budget(fid, point, budget));
        proof {
            assert(points@.take(i + 1).drop_last() =~= points@.take(i as int));
            assert(points@.take(i + 1).last() == points@[i as int]);
            assert forall|f: u64|
                #[trigger] count_walks(work@, f) == count_results(points@.take(i + 1), f) by {
                lemma_counts_grow(Seq::empty(), (fid, point), Seq::empty(), waiting, work@.last(), f);
                assert(work@ =~= waiting.push(work@.last()));
            }
        }
        i += 1;
    }
    assert(pois@ =~= points_of_interest(points@));
    assert(points@.take(points.len() as int) =~= points@);
    let mut c = Coordinator::new(points.len(), budget);
    let mut fuel: usize = max_walks;
    let mut halted: bool = false;
    let ghost start = start_of(points@, budget);
    let ghost submitted = points.len() as nat;
    let ghost mut runs: Seq<Seq<Message>> = Seq::empty();
    proof {
        assert(work@ =~= start.work);
        assert(tally_of(work@, c, halted) == start);
    }
    while work.len() > 0 && fuel > 0 && !halted
        invariant
            forall|at: Point2D, searching: bool| call_requires(search, (at, searching)),
            pois@ == points_of_interest(points@),
            start == start_of(points@, budget),
            submitted == points.len(),
            c.budget() == budget,
            runs.len() == max_walks - fuel,
            runs_are_real(search, pois@, budget, submitted, start, runs),
            tally_of(work@, c, halted) == replay(start, runs, pois@, budget, submitted),
            c.wf(),
            c.submitted() == points.len(),
            !halted ==> c.pending() == work.len(),
            points.len() == 0 ==> work.len() == 0 && !halted,
            fuel <= max_walks,
            fuel == max_walks ==> c.connections().len() == 0 && c.outlets().len() == 0
                && c.branches() == 0 && !halted && work.len() == points.len(),
            !halted ==> c.terminals() >= max_walks - fuel,
            halted ==> c.submitted() + c.branches() == usize::MAX,
            points.len() == 0 ==> fuel == max_walks,
            !halted ==> forall|fid: u64|
                #[trigger] results_for(c.connections(), c.outlets(), fid) + count_walks(work@, fid)
                    == count_results(points@, fid) + count_fids(c.branch_fids(), fid),
            forall|k: int| 0 <= k < work.len() ==> !(#[trigger] work[k]).done,
            forall|k: int|
                0 <= k < c.connections().len() ==> pois@.contains((#[trigger] c.connections()[k]).1),
        ensures
            work.len() == 0 || fuel == 0 || halted,
        decreases fuel,
    {
        fuel -= 1;
        let ghost waiting = work@;
        let walk = match work.pop() {
            Some(w) => w,
            None => {
                break ;
            },
        };
        let messages = run_walk(walk, search, &pois);
        let ghost earlier = tally_of(waiting, c, false);
        let ghost popped = Tally { work: waiting.drop_last(), ..earlier };
        proof {
            assert(is_run_of(search, pois@, walk, messages@));
            assert(replay(start, runs, pois@, budget, submitted) == earlier);
            assert(earlier.work.last() == walk);
            assert(tally_of(work@, c, halted) == popped);
            assert(waiting.last() == walk);
            assert(work@ == waiting.drop_last());
            assert forall|fid: u64|
                #[trigger] results_for(c.connections(), c.outlets(), fid) + count_walks(work@, fid)
                    + (if fid == walk.fid {
                    1int
                } else {
                    0int
                }) == count_results(points@, fid) + count_fids(c.branch_fids(), fid) by {
                assert(results_for(c.connections(), c.outlets(), fid) + count_walks(waiting, fid)
                    == count_results(points@, fid) + count_fids(c.branch_fids(), fid));
            }
        }
        halted = take_report(&mut c, &mut work, &messages, walk, &pois, points, search, budget);
        proof {
            lemma_one_more_run(search, pois@, budget, submitted, start, runs, messages@);
            runs = runs.push(messages@);
        }
    }
    let complete: bool = !halted && work.len() == 0;
    let branches: usize = c.branch_count();
    proof {
        lemma_every_walk_is_accounted_for(c);
    }
    proof {
        if complete {
            assert forall|fid: u64|
                #[trigger] results_for(c.connections(), c.outlets(), fid) == count_results(
                    points@,
                    fid,
                ) + count_fids(c.branch_fids(), fid) by {
                assert(results_for(c.connections(), c.outlets(), fid) + count_walks(work@, fid)
                    == count_results(points@, fid) + count_fids(c.branch_fids(), fid));
            }
            assert forall|i: int| 0 <= i < points.len() implies has_result(
                c.connections(),
                c.outlets(),
                (#[trigger] points[i]).0,
            ) by {
                let fid = points[i].0;
                lemma_counted_is_there(points@, fid);
                lemma_counted_is_there(c.connections(), fid);
                lemma_counted_is_there(c.outlets(), fid);
                assert(results_for(c.connections(), c.outlets(), fid) >= 1);
            }
        }
    }
    let ghost last = tally_of(work@, c, halted);
    let (connections, outlets, branched) = c.into_results();
    let r = Resolved { connections, outlets, branches, branched, complete };
    proof {
        assert(last == replay(start, runs, pois@, budget, submitted));
        assert(comes_of(
            search,
            points@,
            budget,
            max_walks,
            runs,
            r.connections@,
            r.outlets@,
            r.branched@,
            r.complete,
        ));
    }
    r
}

} // verus!
