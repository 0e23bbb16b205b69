//! One walk downstream from a point of interest, a step at a time.
//!
//! A walk asks for the geometries near where it stands, and is handed them
//! with the window that was searched. It then either ends, with the point of
//! interest it found or with none, or moves on to the end of the first
//! geometry. Geometries that end elsewhere are reported as branches.
//!
//! A walk looks strictly downstream: of the vertices it is handed, those up
//! to the first occurrence of the coordinate it stands on are passed over,
//! and that coordinate is never what it finds, wherever else it occurs. So a
//! point of interest is not its own outlet.

use vstd::prelude::*;
use itertools::Itertools;
use crate::ieee::{is_less, less};
use crate::streams::PointSet;
use crate::types::{Point2D, shapes};

verus! {

/// How many steps a walk takes at most, unless it is given another budget.
pub const MAX_ITER: usize = 10000;

/// What a message says of its walk.
#[derive(Clone, Copy, Debug, PartialEq, Eq, Structural)]
pub enum Resolution {
    /// The walk reached a point of interest.
    Found,
    /// The walk ended with no point of interest: nothing led on, or its
    /// budget ran out.
    NotFound,
    /// The stream branches: another way leads on from `outlet`.
    Branch,
}

/// What a walk reports.
#[derive(Clone, Copy, Debug, PartialEq, Eq, Structural)]
pub struct Message {
    /// The identifier of the point that the walk was submitted for.
    pub fid: u64,
    /// That point.
    pub input: Point2D,
    /// For `Found`, the point of interest; for `NotFound`, where the walk
    /// stood last; for `Branch`, where the other way ends.
    pub outlet: Point2D,
    /// What the message says.
    pub resolution: Resolution,
}

/// The rectangle that a search covered, by two of its corners.
#[derive(Clone, Copy, Debug, PartialEq, Eq, Structural)]
pub struct Window {
    pub low: Point2D,
    pub high: Point2D,
}

impl Window {
    /// Whether `p` lies strictly inside the rectangle.
    pub open spec fn holds(self, p: Point2D) -> bool {
        &&& less(self.low.bits().0, p.bits().0)
        &&& less(p.bits().0, self.high.bits().0)
        &&& less(self.low.bits().1, p.bits().1)
        &&& less(p.bits().1, self.high.bits().1)
    }

    /// Whether `p` lies strictly inside the rectangle.
    pub fn contains(&self, p: &Point2D) -> (r: bool)
        ensures
            r == self.holds(*p),
    {
        let low = self.low.coord2();
        let high = self.high.coord2();
        let at = p.coord2();
        is_less(low.0, at.0) && is_less(at.0, high.0) && is_less(low.1, at.1) && is_less(
            at.1,
            high.1,
        )
    }
}

/// The state of a walk.
#[derive(Clone, Copy, Debug, PartialEq, Eq, Structural)]
pub struct Walk {
    /// The identifier of the point that the walk was submitted for.
    pub fid: u64,
    /// That point.
    pub input: Point2D,
    /// Where the walk stands: around this coordinate the next search is made.
    pub at: Point2D,
    /// Whether the walk has moved: from then on only geometries that start
    /// inside the window count.
    pub searching: bool,
    /// The steps that moved the walk on.
    pub steps: usize,
    /// The most steps that may move it on.
    pub budget: usize,
    /// Whether the walk has ended.
    pub done: bool,
}

/// Whether a geometry counts for a step: it has a vertex, and once the walk
/// is searching it starts inside the window.
pub open spec fn counts(g: Seq<Point2D>, searching: bool, window: Window) -> bool {
    g.len() > 0 && (searching ==> window.holds(g[0]))
}

/// The geometries that count, in the order given.
pub open spec fn kept(matched: Seq<Seq<Point2D>>, searching: bool, window: Window) -> Seq<
    Seq<Point2D>,
>
    decreases matched.len(),
{
    if matched.len() == 0 {
        Seq::empty()
    } else {
        let rest = kept(matched.drop_last(), searching, window);
        if counts(matched.last(), searching, window) {
            rest.push(matched.last())
        } else {
            rest
        }
    }
}

/// The vertices of all geometries, one geometry after the other.
pub open spec fn flat(geoms: Seq<Seq<Point2D>>) -> Seq<Point2D>
    decreases geoms.len(),
{
    if geoms.len() == 0 {
        Seq::empty()
    } else {
        flat(geoms.drop_last()) + geoms.last()
    }
}

/// Where each geometry ends.
pub open spec fn ends(geoms: Seq<Seq<Point2D>>) -> Seq<Point2D> {
    Seq::new(geoms.len(), |k: int| geoms[k].last())
}

/// The place of the first vertex that is `at`.
pub open spec fn place_of(verts: Seq<Point2D>, at: Point2D) -> Option<int>
    decreases verts.len(),
{
    if verts.len() == 0 {
        None
    } else if verts[0] == at {
        Some(0)
    } else {
        match place_of(verts.drop_first(), at) {
            Some(i) => Some(i + 1),
            None => None,
        }
    }
}

/// The vertices strictly downstream of `at`: those behind its first
/// occurrence, or all of them where it does not occur.
pub open spec fn downstream(verts: Seq<Point2D>, at: Point2D) -> Seq<Point2D> {
    match place_of(verts, at) {
        Some(i) => verts.skip(i + 1),
        None => verts,
    }
}

/// The first vertex that is a point of interest and is not `at`.
pub open spec fn first_of_interest(verts: Seq<Point2D>, pois: Set<Point2D>, at: Point2D) -> Option<
    Point2D,
>
    decreases verts.len(),
{
    if verts.len() == 0 {
        None
    } else if pois.contains(verts[0]) && verts[0] != at {
        Some(verts[0])
    } else {
        first_of_interest(verts.drop_first(), pois, at)
    }
}

/// The ends, behind the first, where other ways lead: those that are neither
/// the first end nor what the walk found.
pub open spec fn diverging(ends: Seq<Point2D>, found: Option<Point2D>) -> Seq<Point2D>
    decreases ends.len(),
{
    if ends.len() <= 1 {
        Seq::empty()
    } else {
        let rest = diverging(ends.drop_last(), found);
        if ends.last() != ends[0] && found != Some(ends.last()) {
            rest.push(ends.last())
        } else {
            rest
        }
    }
}

impl Walk {
    /// The message of this walk with the given outlet and resolution.
    pub open spec fn says(self, outlet: Point2D, resolution: Resolution) -> Message {
        Message { fid: self.fid, input: self.input, outlet, resolution }
    }

    /// The point of interest that a step finds among the geometries that
    /// count, if it finds one: the first one strictly downstream of where the
    /// walk stands.
    pub open spec fn finds(self, geoms: Seq<Seq<Point2D>>, pois: Set<Point2D>) -> Option<Point2D> {
        first_of_interest(downstream(flat(geoms), self.at), pois, self.at)
    }

    /// Whether a step ends the walk with nothing found: no geometry counts,
    /// or the budget is spent.
    pub open spec fn gives_up(self, geoms: Seq<Seq<Point2D>>) -> bool {
        geoms.len() == 0 || self.steps >= self.budget
    }

    /// The one message that ends the walk at this step, if it ends.
    pub open spec fn verdict(self, geoms: Seq<Seq<Point2D>>, pois: Set<Point2D>) -> Option<
        Message,
    > {
        if self.gives_up(geoms) {
            Some(self.says(self.at, Resolution::NotFound))
        } else {
            match self.finds(geoms, pois) {
                Some(v) => Some(self.says(v, Resolution::Found)),
                None => None,
            }
        }
    }

    /// The branches that this step reports: none where it gives up, else one
    /// for each geometry behind the first that ends elsewhere than the first
    /// and elsewhere than on what the step found.
    pub open spec fn branches(self, geoms: Seq<Seq<Point2D>>, pois: Set<Point2D>) -> Seq<Message> {
        if self.gives_up(geoms) {
            Seq::empty()
        } else {
            diverging(ends(geoms), self.finds(geoms, pois)).map_values(
                |e: Point2D| self.says(e, Resolution::Branch),
            )
        }
    }

    /// The messages of a step: its branches, then its verdict if it has one.
    pub open spec fn reports(self, geoms: Seq<Seq<Point2D>>, pois: Set<Point2D>) -> Seq<Message> {
        match self.verdict(geoms, pois) {
            Some(m) => self.branches(geoms, pois).push(m),
            None => self.branches(geoms, pois),
        }
    }

    /// The walk after a step: ended where the step has a verdict, else moved
    /// to the end of the first geometry, searching, one step on.
    pub open spec fn moved(self, geoms: Seq<Seq<Point2D>>, pois: Set<Point2D>) -> Walk {
        if self.verdict(geoms, pois) is Some {
            Walk { done: true, ..self }
        } else {
            Walk { at: geoms[0].last(), searching: true, steps: (self.steps + 1) as usize, ..self }
        }
    }

    /// A walk for the point `input` with identifier `fid`, with the usual
    /// budget.
    pub fn new(fid: u64, input: Point2D) -> (w: Walk)
        ensures
            w == (Walk {
                fid,
                input,
                at: input,
                searching: false,
                steps: 0,
                budget: MAX_ITER,
                done: false,
            }),
    {
        Walk { fid, input, at: input, searching: false, steps: 0, budget: MAX_ITER, done: false }
    }

    /// A walk for the point `input` with identifier `fid`, with a budget of
    /// its own.
    pub fn with_budget(fid: u64, input: Point2D, budget: usize) -> (w: Walk)
        ensures
            w == (Walk { fid, input, at: input, searching: false, steps: 0, budget, done: false }),
    {
        Walk { fid, input, at: input, searching: false, steps: 0, budget, done: false }
    }

    /// The walk that a branch opens: for the same point as the walk that
    /// reported it, from where the branch ends.
    pub fn branch(message: &Message, budget: usize) -> (w: Walk)
        ensures
            w == (Walk {
                fid: message.fid,
                input: message.input,
                at: message.outlet,
                searching: false,
                steps: 0,
                budget,
                done: false,
            }),
    {
        Walk {
            fid: message.fid,
            input: message.input,
            at: message.outlet,
            searching: false,
            steps: 0,
            budget,
            done: false,
        }
    }

    /// How many steps may still move the walk on.
    pub fn remaining(&self) -> (n: usize)
        ensures
            n == if self.steps <= self.budget {
                self.budget - self.steps
            } else {
                0
            },
    {
        if self.steps <= self.budget {
            self.budget - self.steps
        } else {
            0
        }
    }

    /// Takes one step on the geometries that the search around `self.at`
    /// matched, `window` being the rectangle that was searched.
    ///
    /// Every step but the last moves the walk on and uses up one of its
    /// steps; the last one reports exactly one `Found` or `NotFound`, as its
    /// last message.
    pub fn step(&mut self, matched: &Vec<Vec<Point2D>>, window: &Window, pois: &PointSet) -> (out:
        Vec<Message>)
        requires
            !old(self).done,
        ensures
            out@ == old(self).reports(
                kept(shapes(matched@), old(self).searching, *window),
                pois@,
            ),
            *final(self) == old(self).moved(
                kept(shapes(matched@), old(self).searching, *window),
                pois@,
            ),
            !final(self).done ==> final(self).steps == old(self).steps + 1 && final(self).steps
                <= final(self).budget,
    {
        let ghost geoms = kept(shapes(matched@), self.searching, *window);
        let mut verts: Vec<Point2D> = Vec::new();
        let mut lasts: Vec<Point2D> = Vec::new();
        let mut i: usize = 0;
        proof {
            assert(shapes(matched@).take(0) =~= Seq::empty());
            assert(lasts@ =~= ends(kept(shapes(matched@).take(0), self.searching, *window)));
        }
        while i < matched.len()
            invariant
                i <= matched.len(),
                *self == *old(self),
                verts@ == flat(kept(shapes(matched@).take(i as int), self.searching, *window)),
                lasts@ == ends(kept(shapes(matched@).take(i as int), self.searching, *window)),
            decreases matched.len() - i,
        {
            let g = &matched[i];
            proof {
                assert(shapes(matched@).take(i + 1).drop_last() =~= shapes(matched@).take(i as int));
                assert(shapes(matched@).take(i + 1).last() == g@);
            }
            if g.len() > 0 && (!self.searching || window.contains(&g[0])) {
                let ghost before = verts@;
                let ghost sofar = kept(shapes(matched@).take(i as int), self.searching, *window);
                let mut j: usize = 0;
                while j < g.len()
                    invariant
                        j <= g.len(),
                        verts@ == before + g@.take(j as int),
                    decreases g.len() - j,
                {
                    verts.push(g[j]);
                    proof {
                        assert(g@.take(j + 1) =~= g@.take(j as int).push(g@[j as int]));
                        assert(verts@ =~= before + g@.take(j + 1));
                    }
                    j += 1;
                }
                lasts.push(g[g.len() - 1]);
                proof {
                    assert(g@.take(g.len() as int) =~= g@);
                    assert(sofar.push(g@).drop_last() =~= sofar);
                    assert(lasts@ =~= ends(sofar.push(g@)));
                }
            }
            i += 1;
        }
        proof {
            assert(shapes(matched@).take(matched.len() as int) =~= shapes(matched@));
            assert(lasts@.len() == geoms.len());
        }
        let mut out: Vec<Message> = Vec::new();
        if lasts.len() == 0 || self.steps >= self.budget {
            out.push(
                Message {
                    fid: self.fid,
                    input: self.input,
                    outlet: self.at,
                    resolution: Resolution::NotFound,
                },
            );
            self.done = true;
            return out;
        }
        let main_end: Point2D = lasts[0];
        let start: usize = match first_position(&verts, &self.at) {
            Some(p) => p + 1,
            None => 0,
        };
        proof {
            lemma_place_of(verts@, self.at);
            assert(downstream(verts@, self.at) == verts@.skip(start as int));
        }
        let mut found: Option<Point2D> = None;
        let mut n: usize = start;
        while n < verts.len() && found.is_none()
            invariant
                start <= n <= verts.len(),
                *self == *old(self),
                found is None ==> first_of_interest(verts@.skip(start as int), pois@, self.at)
                    == first_of_interest(verts@.skip(n as int), pois@, self.at),
                found is Some ==> found == first_of_interest(
                    verts@.skip(start as int),
                    pois@,
                    self.at,
                ),
            decreases verts.len() - n + if found is None { 1int } else { 0int },
        {
            let v: Point2D = verts[n];
            proof {
                assert(verts@.skip(n as int)[0] == v);
                assert(verts@.skip(n as int).drop_first() =~= verts@.skip(n + 1));
            }
            if pois.contains(&v) && !v.same(&self.at) {
                found = Some(v);
            } else {
                n += 1;
            }
        }
        proof {
            if found is None {
                assert(verts@.skip(verts.len() as int) =~= Seq::empty());
            }
            assert(found == self.finds(geoms, pois@));
        }
        let mut k: usize = 1;
        proof {
            assert(lasts@.take(1).len() == 1);
        }
        while k < lasts.len()
            invariant
                1 <= k <= lasts.len(),
                *self == *old(self),
                main_end == lasts@[0],
                out@ == diverging(lasts@.take(k as int), found).map_values(
                    |e: Point2D| self.says(e, Resolution::Branch),
                ),
            decreases lasts.len() - k,
        {
            let end: Point2D = lasts[k];
            proof {
                assert(lasts@.take(k + 1).drop_last() =~= lasts@.take(k as int));
                assert(lasts@.take(k + 1).last() == end);
                assert(lasts@.take(k + 1)[0] == main_end);
            }
            let is_found: bool = match found {
                Some(v) => v.same(&end),
                None => false,
            };
            if !end.same(&main_end) && !is_found {
                out.push(
                    Message {
                        fid: self.fid,
                        input: self.input,
                        outlet: end,
                        resolution: Resolution::Branch,
                    },
                );
                proof {
                    assert(out@ =~= diverging(lasts@.take(k + 1), found).map_values(
                        |e: Point2D| self.says(e, Resolution::Branch),
                    ));
                }
            }
            k += 1;
        }
        proof {
            assert(lasts@.take(lasts.len() as int) =~= lasts@);
        }
        match found {
            Some(v) => {
                out.push(
                    Message {
                        fid: self.fid,
                        input: self.input,
                        outlet: v,
                        resolution: Resolution::Found,
                    },
                );
                self.done = true;
            },
            None => {
                self.at = main_end;
                self.searching = true;
                self.steps = self.steps + 1;
            },
        }
        out
    }
}

/// A step that ends its walk reports exactly one verdict, `Found` or
/// `NotFound`, as its last message; a step that moves it on reports none.
/// All other messages are branches.
pub proof fn lemma_one_verdict_per_walk(w: Walk, geoms: Seq<Seq<Point2D>>, pois: Set<Point2D>)
    requires
        !w.done,
    ensures
        w.moved(geoms, pois).done <==> w.verdict(geoms, pois) is Some,
        forall|i: int|
            0 <= i < w.branches(geoms, pois).len() ==> (#[trigger] w.reports(
                geoms,
                pois,
            )[i]).resolution is Branch,
        w.moved(geoms, pois).done ==> {
            &&& w.reports(geoms, pois).len() == w.branches(geoms, pois).len() + 1
            &&& !(w.reports(geoms, pois).last().resolution is Branch)
        },
        !w.moved(geoms, pois).done ==> {
            &&& w.reports(geoms, pois) == w.branches(geoms, pois)
            &&& w.moved(geoms, pois).steps == w.steps + 1
            &&& w.moved(geoms, pois).steps <= w.budget
        },
        forall|i: int|
            0 <= i < w.reports(geoms, pois).len() ==> (#[trigger] w.reports(geoms, pois)[i]).fid
                == w.fid && w.reports(geoms, pois)[i].input == w.input,
        forall|i: int|
            0 <= i < w.reports(geoms, pois).len() && (#[trigger] w.reports(
                geoms,
                pois,
            )[i]).resolution is Found ==> pois.contains(w.reports(geoms, pois)[i].outlet),
{
    lemma_first_of_interest(downstream(flat(geoms), w.at), pois, w.at);
}

/// Whether a vertex can be found from `at`: it is a point of interest and is
/// not `at`.
pub open spec fn is_of_interest(v: Point2D, pois: Set<Point2D>, at: Point2D) -> bool {
    pois.contains(v) && v != at
}

/// What [`first_of_interest`] gives is the first vertex that can be found,
/// and nothing exactly when no vertex can.
pub proof fn lemma_first_of_interest(verts: Seq<Point2D>, pois: Set<Point2D>, at: Point2D)
    ensures
        match first_of_interest(verts, pois, at) {
            Some(v) => exists|k: int|
                {
                    &&& 0 <= k < verts.len()
                    &&& #[trigger] verts[k] == v
                    &&& is_of_interest(v, pois, at)
                    &&& forall|j: int| 0 <= j < k ==> !is_of_interest(#[trigger] verts[j], pois, at)
                },
            None => forall|i: int|
                0 <= i < verts.len() ==> !is_of_interest(#[trigger] verts[i], pois, at),
        },
    decreases verts.len(),
{
    if verts.len() > 0 {
        if pois.contains(verts[0]) && verts[0] != at {
            assert(verts[0] == verts[0]);
        } else {
            let rest = verts.drop_first();
            lemma_first_of_interest(rest, pois, at);
            match first_of_interest(rest, pois, at) {
                Some(v) => {
                    let k = choose|k: int|
                        {
                            &&& 0 <= k < rest.len()
                            &&& #[trigger] rest[k] == v
                            &&& is_of_interest(v, pois, at)
                            &&& forall|j: int|
                                0 <= j < k ==> !is_of_interest(#[trigger] rest[j], pois, at)
                        };
                    assert(verts[k + 1] == v);
                    assert forall|j: int| 0 <= j < k + 1 implies !is_of_interest(
                        #[trigger] verts[j],
                        pois,
                        at,
                    ) by {
                        if j > 0 {
                            assert(rest[j - 1] == verts[j]);
                        }
                    }
                },
                None => {
                    assert forall|i: int| 0 <= i < verts.len() implies !is_of_interest(
                        #[trigger] verts[i],
                        pois,
                        at,
                    ) by {
                        if i > 0 {
                            assert(rest[i - 1] == verts[i]);
                        }
                    }
                },
            }
        }
    }
}

/// What a whole walk reports: branches, then one verdict, all for the
/// walk's own point.
pub open spec fn is_walk_report(out: Seq<Message>, fid: u64, input: Point2D) -> bool {
    &&& out.len() >= 1
    &&& !(out.last().resolution is Branch)
    &&& forall|i: int| 0 <= i < out.len() - 1 ==> (#[trigger] out[i]).resolution is Branch
    &&& forall|i: int| 0 <= i < out.len() ==> (#[trigger] out[i]).fid == fid && out[i].input == input
}

/// How many steps a walk takes at most from here.
pub open spec fn steps_left(w: Walk) -> int {
    if w.done {
        0
    } else if w.steps <= w.budget {
        w.budget - w.steps + 1
    } else {
        1
    }
}

/// Whether one step leads from `w` to `next` with the messages `told`, on
/// something that `search` can hand back for where `w` stands.
pub open spec fn steps_on<F: Fn(Point2D, bool) -> (Vec<Vec<Point2D>>, Window)>(
    search: &F,
    pois: Set<Point2D>,
    w: Walk,
    told: Seq<Message>,
    next: Walk,
) -> bool {
    exists|matched: Vec<Vec<Point2D>>, window: Window|
        {
            &&& #[trigger] call_ensures(search, (w.at, w.searching), (matched, window))
            &&& told == w.reports(kept(shapes(matched@), w.searching, window), pois)
            &&& next == w.moved(kept(shapes(matched@), w.searching, window), pois)
        }
}

/// The messages of all steps, one step after the other.
pub open spec fn all_told(tolds: Seq<Seq<Message>>) -> Seq<Message>
    decreases tolds.len(),
{
    if tolds.len() == 0 {
        Seq::empty()
    } else {
        all_told(tolds.drop_last()) + tolds.last()
    }
}

/// Whether the walks `states` follow one from the other, each by a step on
/// something that `search` can hand back for where the walk stands, the
/// steps reporting `tolds`. No walk but the last has ended.
pub open spec fn is_run<F: Fn(Point2D, bool) -> (Vec<Vec<Point2D>>, Window)>(
    search: &F,
    pois: Set<Point2D>,
    states: Seq<Walk>,
    tolds: Seq<Seq<Message>>,
) -> bool {
    &&& states.len() == tolds.len() + 1
    &&& forall|i: int|
        0 <= i < tolds.len() ==> !(#[trigger] states[i]).done && steps_on(
            search,
            pois,
            states[i],
            tolds[i],
            states[i + 1],
        )
}

/// Runs a walk to its end. `search` is asked for the geometries around a
/// coordinate, and for the window it searched; the flag tells it whether the
/// walk has moved, which it may use or not.
///
/// Whatever `search` hands back, the walk ends, within its budget, and
/// reports one verdict, as its last message. What it found is a point of
/// interest. A walk whose budget is spent ends where it stands, with nothing
/// found and no branch. What the walk reports is what its steps report, one
/// after the other, each on something that `search` can hand back for where
/// the walk then stands.
pub fn run_walk<F>(walk: Walk, search: &F, pois: &PointSet) -> (out: Vec<Message>) where
    F: Fn(Point2D, bool) -> (Vec<Vec<Point2D>>, Window),

    requires
        !walk.done,
        forall|at: Point2D, searching: bool| call_requires(search, (at, searching)),
    ensures
        is_walk_report(out@, walk.fid, walk.input),
        out@.last().resolution is Found ==> pois@.contains(out@.last().outlet),
        walk.steps >= walk.budget ==> out@ == seq![walk.says(walk.at, Resolution::NotFound)],
        exists|states: Seq<Walk>, tolds: Seq<Seq<Message>>|
            {
                &&& #[trigger] is_run(search, pois@, states, tolds)
                &&& states.first() == walk
                &&& states.last().done
                &&& out@ == all_told(tolds)
            },
{
    let mut w = walk;
    let mut out: Vec<Message> = Vec::new();
    let ghost mut states: Seq<Walk> = seq![walk];
    let ghost mut tolds: Seq<Seq<Message>> = Seq::empty();
    while !w.done
        invariant
            is_run(search, pois@, states, tolds),
            states.first() == walk,
            states.last() == w,
            out@ == all_told(tolds),
            forall|at: Point2D, searching: bool| call_requires(search, (at, searching)),
            w.fid == walk.fid,
            w.input == walk.input,
            forall|i: int| 0 <= i < out@.len() ==> (#[trigger] out@[i]).fid == walk.fid && out@[i].input
                == walk.input,
            !w.done ==> forall|i: int| 0 <= i < out@.len() ==> (#[trigger] out@[i]).resolution is Branch,
            w.done ==> is_walk_report(out@, walk.fid, walk.input),
            w.done && out@.last().resolution is Found ==> pois@.contains(out@.last().outlet),
            walk.steps >= walk.budget && !w.done ==> w == walk && out@.len() == 0,
            walk.steps >= walk.budget && w.done ==> out@ == seq![
                walk.says(walk.at, Resolution::NotFound),
            ],
        decreases steps_left(w),
    {
        let (matched, window) = search(w.at, w.searching);
        let ghost before = w;
        let ghost geoms = kept(shapes(matched@), w.searching, window);
        let ghost sofar = out@;
        let mut messages = w.step(&matched, &window, pois);
        proof {
            lemma_one_verdict_per_walk(before, geoms, pois@);
        }
        let ghost told = messages@;
        out.append(&mut messages);
        proof {
            assert(out@ == sofar + told);
            assert(call_ensures(search, (before.at, before.searching), (matched, window)));
            assert(steps_on(search, pois@, before, told, w));
            let ghost walked = states;
            let ghost said = tolds;
            states = states.push(w);
            tolds = tolds.push(told);
            assert(tolds.drop_last() =~= said);
            assert forall|i: int| 0 <= i < tolds.len() implies !(#[trigger] states[i]).done
                && steps_on(search, pois@, states[i], tolds[i], states[i + 1]) by {
                if i < said.len() {
                    assert(!walked[i].done);
                    assert(states[i] == walked[i]);
                    assert(states[i + 1] == walked[i + 1]);
                    assert(tolds[i] == said[i]);
                }
            }
            assert forall|i: int| 0 <= i < out@.len() implies (#[trigger] out@[i]).fid == walk.fid
                && out@[i].input == walk.input by {
                if i >= sofar.len() {
                    assert(out@[i] == told[i - sofar.len()]);
                }
            }
            if w.done {
                assert(out@.last() == told.last());
                assert forall|i: int| 0 <= i < out@.len() - 1 implies (
                #[trigger] out@[i]).resolution is Branch by {
                    if i >= sofar.len() {
                        assert(out@[i] == told[i - sofar.len()]);
                    }
                }
            } else {
                assert forall|i: int| 0 <= i < out@.len() implies (
                #[trigger] out@[i]).resolution is Branch by {
                    if i >= sofar.len() {
                        assert(out@[i] == told[i - sofar.len()]);
                    }
                }
            }
        }
    }
    out
}

/// `Itertools::find_position` over the points, with the test "is the node
/// `target`": the place of the first point that is `target`, or nothing where
/// no point is.
#[verifier::external_body]
fn first_position(points: &Vec<Point2D>, target: &Point2D) -> (r: Option<usize>)
    ensures
        match r {
            Some(i) => i < points.len() && points[i as int] == *target && forall|j: int|
                0 <= j < i ==> points[j] != *target,
            None => forall|j: int| 0 <= j < points.len() ==> points[j] != *target,
        },
{
    points.iter().find_position(|p| p.same(target)).map(|found| found.0)
}

/// [`place_of`] gives the first place where `at` stands, and nothing exactly
/// when it stands nowhere.
pub proof fn lemma_place_of(verts: Seq<Point2D>, at: Point2D)
    ensures
        match place_of(verts, at) {
            Some(i) => 0 <= i < verts.len() && verts[i] == at && forall|j: int|
                0 <= j < i ==> verts[j] != at,
            None => forall|j: int| 0 <= j < verts.len() ==> verts[j] != at,
        },
    decreases verts.len(),
{
    if verts.len() > 0 && verts[0] != at {
        let rest = verts.drop_first();
        lemma_place_of(rest, at);
        match place_of(rest, at) {
            Some(i) => {
                assert forall|j: int| 0 <= j < i + 1 implies verts[j] != at by {
                    if j > 0 {
                        assert(rest[j - 1] != at);
                    }
                }
            },
            None => {
                assert forall|j: int| 0 <= j < verts.len() implies verts[j] != at by {
                    if j > 0 {
                        assert(rest[j - 1] != at);
                    }
                }
            },
        }
    }
}

} // verus!
