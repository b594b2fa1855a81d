//! The sweep over the whole grid.
//!
//! The samples are visited in the lexicographic order of `(i, j, k)`: the
//! columns one after the other, each from `k = 0` upwards. A sample is
//! classified by its escape-time test, and the first sample of every run of
//! interior samples within a column is collected.
//!
//! The sweep is a machine that the caller drives. It asks for one of two
//! things: to start on a sample, or to apply the recurrence once more to the
//! iterate of the sample at hand. Either way the caller answers with one
//! observation: whether the iterate now lies outside the escape radius.

use crate::boundary::{
    boundary, lemma_boundary_grows, lemma_boundary_in_sweep_order, lemma_entry_ranks_push,
};
use crate::collector::BoundaryCollector;
use crate::column::ColumnScanner;
use crate::escape::{
    classify_spec, escapes_within, verdict_of, Classification, EscapeIterator,
};
use crate::grid::{
    grid_size, lemma_rank_sample_at, lemma_sample_at_rank, sample_at, GridIndex,
};
use vstd::arithmetic::div_mod::{lemma_div_is_ordered, lemma_fundamental_div_mod_converse};
use vstd::prelude::*;

verus! {

/// What the sweep asks of its caller next.
#[derive(Clone, Copy, Debug, PartialEq, Eq, Structural)]
pub enum Action {
    /// Put the iterate at the origin: the sweep has come to this sample.
    Begin(GridIndex),
    /// Apply the recurrence once to the iterate of the sample at hand.
    Iterate,
    /// Nothing: every sample has been classified.
    Finished,
}

/// The state of a sweep as contracts see it.
pub struct ScanState {
    /// The resolution of the grid.
    pub n: nat,
    /// The iteration cap of every escape-time test.
    pub max_iter: nat,
    /// The classes of the samples classified so far, in the order of the
    /// sweep.
    pub classified: Seq<Classification>,
    /// How often the recurrence has been applied for the sample at hand.
    pub iter_count: nat,
}

impl ScanState {
    /// The state before the first sample.
    pub open spec fn initial(n: nat, max_iter: nat) -> ScanState {
        ScanState { n, max_iter, classified: Seq::empty(), iter_count: 0 }
    }

    /// What holds of every state that a sweep can reach: the numbers fit
    /// their machine types, no more samples are classified than the grid has,
    /// and the escape-time test at hand is within its budget.
    pub open spec fn valid(self) -> bool {
        &&& self.n <= u32::MAX
        &&& self.max_iter <= u32::MAX
        &&& self.classified.len() <= grid_size(self.n)
        &&& self.iter_count <= self.max_iter + 1
    }

    /// Whether every sample of the grid has been classified.
    pub open spec fn finished(self) -> bool {
        self.classified.len() >= grid_size(self.n)
    }

    /// The sample at hand.
    pub open spec fn cursor(self) -> GridIndex {
        sample_at(self.n, self.classified.len())
    }

    /// The boundary points found so far.
    pub open spec fn points(self) -> Seq<GridIndex> {
        boundary(self.n, self.classified)
    }

    /// The state after the sample at hand has been given the class `class`.
    /// A finished sweep stays as it is.
    pub open spec fn record(self, class: Classification) -> ScanState {
        if self.finished() {
            self
        } else {
            ScanState { classified: self.classified.push(class), iter_count: 0, ..self }
        }
    }

    /// The state after one observation: `escaped` says whether the iterate of
    /// the sample at hand lies outside the escape radius. A finished sweep
    /// stays as it is.
    pub open spec fn step(self, escaped: bool) -> ScanState {
        if self.finished() {
            self
        } else {
            match verdict_of(self.max_iter, self.iter_count, escaped) {
                Some(class) => self.record(class),
                None => ScanState { iter_count: self.iter_count + 1, ..self },
            }
        }
    }

    /// The state after the observations of `observations` have been taken in
    /// turn.
    pub open spec fn run(self, observations: Seq<bool>) -> ScanState
        decreases observations.len(),
    {
        if observations.len() == 0 {
            self
        } else {
            self.run(observations.drop_last()).step(observations.last())
        }
    }

    /// The number of planes of the grid, each of them all the samples with
    /// one value of `i`, that the sweep has left behind.
    pub open spec fn planes_done(self) -> nat {
        if self.finished() {
            self.n
        } else {
            self.cursor().i as nat
        }
    }

    /// A bound on the number of observations that the sweep still takes
    /// before it is finished: every sample not yet classified can take
    /// `max_iter + 2` of them, less those that the sample at hand has had.
    pub open spec fn budget(self) -> int {
        if self.finished() {
            0
        } else {
            (grid_size(self.n) - self.classified.len()) * (self.max_iter + 2) - self.iter_count
        }
    }

    /// What the sweep asks of its caller in this state.
    pub open spec fn pending(self) -> Action {
        if self.finished() {
            Action::Finished
        } else if self.iter_count == 0 {
            Action::Begin(self.cursor())
        } else {
            Action::Iterate
        }
    }
}

/// Every observation leads from a state that a sweep can reach to another.
pub proof fn lemma_step_valid(v: ScanState, escaped: bool)
    requires
        v.valid(),
    ensures
        v.step(escaped).valid(),
{
}

/// Every observation that an unfinished sweep takes brings it nearer to its
/// end.
pub proof fn lemma_step_spends(v: ScanState, escaped: bool)
    requires
        v.valid(),
        !v.finished(),
    ensures
        0 <= v.step(escaped).budget() < v.budget(),
{
    let left: int = grid_size(v.n) - v.classified.len();
    let span: int = v.max_iter as int + 2;
    assert((left - 1) * span == left * span - span) by (nonlinear_arith);
    assert((left - 1) * span >= 0) by (nonlinear_arith)
        requires
            left >= 1,
            span >= 0,
    ;
}

/// The sweep comes to an end: it is finished once it has taken
/// `max_iter + 2` observations for every sample of the grid, and sooner if
/// some samples escape.
pub proof fn lemma_sweep_terminates(n: nat, max_iter: nat, observations: Seq<bool>)
    requires
        n <= u32::MAX,
        max_iter <= u32::MAX,
    ensures
        ScanState::initial(n, max_iter).run(observations).valid(),
        ScanState::initial(n, max_iter).run(observations).n == n,
        ScanState::initial(n, max_iter).run(observations).max_iter == max_iter,
        ScanState::initial(n, max_iter).run(observations).finished() || ScanState::initial(
            n,
            max_iter,
        ).run(observations).budget() + observations.len() <= grid_size(n) * (max_iter + 2),
        observations.len() >= grid_size(n) * (max_iter + 2) ==> ScanState::initial(
            n,
            max_iter,
        ).run(observations).finished(),
    decreases observations.len(),
{
    let start = ScanState::initial(n, max_iter);
    if observations.len() > 0 {
        let before = start.run(observations.drop_last());
        lemma_sweep_terminates(n, max_iter, observations.drop_last());
        lemma_step_valid(before, observations.last());
        if !before.finished() {
            lemma_step_spends(before, observations.last());
        }
    }
    let reached = start.run(observations);
    if !reached.finished() {
        let left: int = grid_size(n) - reached.classified.len();
        let span: int = max_iter as int + 2;
        assert(left * span >= span) by (nonlinear_arith)
            requires
                left >= 1,
                span >= 0,
        ;
    }
}

/// The count of planes left behind never falls, and never exceeds the
/// resolution of the grid.
pub proof fn lemma_planes_never_fall(v: ScanState, escaped: bool)
    requires
        v.valid(),
    ensures
        v.planes_done() <= v.step(escaped).planes_done() <= v.n,
{
    let after = v.step(escaped);
    if !v.finished() {
        let m: int = v.classified.len() as int;
        lemma_rank_sample_at(v.n, m as nat);
        if !after.finished() {
            lemma_rank_sample_at(v.n, after.classified.len());
            if after.classified.len() != m {
                let d: int = v.n as int;
                lemma_div_is_ordered(m, m + 1, d);
                lemma_div_is_ordered(m / d, (m + 1) / d, d);
            }
        }
    }
}

/// While the escape-time test of the sample at hand is undecided, the sweep
/// stays on that sample and counts the applications of the recurrence.
pub proof fn lemma_run_undecided(v: ScanState, trace: Seq<bool>)
    requires
        !v.finished(),
        v.iter_count == 0,
        classify_spec(v.max_iter, trace) is None,
    ensures
        v.run(trace) == (ScanState { iter_count: trace.len(), ..v }),
    decreases trace.len(),
{
    if trace.len() > 0 {
        let before = trace.drop_last();
        if escapes_within(before, v.max_iter + 2) {
            let t = choose|t: int| 0 <= t < before.len() && t < v.max_iter + 2 && before[t];
            assert(trace[t]);
        }
        lemma_run_undecided(v, before);
        if trace.last() {
            assert(trace[trace.len() - 1]);
        }
    }
}

/// Feeding a sweep the observations of one escape-time test, up to the one
/// that decides it, amounts to recording the class that the test gives to the
/// sample at hand.
pub proof fn lemma_run_one_sample(v: ScanState, trace: Seq<bool>)
    requires
        !v.finished(),
        v.iter_count == 0,
        trace.len() > 0,
        classify_spec(v.max_iter, trace.drop_last()) is None,
        classify_spec(v.max_iter, trace) is Some,
    ensures
        v.run(trace) == v.record(classify_spec(v.max_iter, trace)->0),
{
    let before = trace.drop_last();
    lemma_run_undecided(v, before);
    if trace.last() {
        assert(trace[trace.len() - 1]);
    } else {
        if escapes_within(trace, v.max_iter + 2) {
            let t = choose|t: int| 0 <= t < trace.len() && t < v.max_iter + 2 && trace[t];
            assert(before[t]);
        }
    }
}

/// Taking a record of observations in two parts is taking it whole.
pub proof fn lemma_run_concat(v: ScanState, first: Seq<bool>, second: Seq<bool>)
    ensures
        v.run(first + second) == v.run(first).run(second),
    decreases second.len(),
{
    if second.len() == 0 {
        assert(first + second =~= first);
    } else {
        assert((first + second).drop_last() =~= first + second.drop_last());
        lemma_run_concat(v, first, second.drop_last());
    }
}

/// Whether `trace` is the record of one complete escape-time test: its last
/// observation is the one that decides the test.
pub open spec fn decisive(max_iter: nat, trace: Seq<bool>) -> bool {
    trace.len() > 0 && classify_spec(max_iter, trace.drop_last()) is None && classify_spec(
        max_iter,
        trace,
    ) is Some
}

/// The classes that the escape-time test gives to samples whose iterates
/// escape as `traces` tell, one trace for each sample.
pub open spec fn classes_of(max_iter: nat, traces: Seq<Seq<bool>>) -> Seq<Classification> {
    Seq::new(traces.len(), |m: int| classify_spec(max_iter, traces[m])->0)
}

/// A sweep that is given, sample after sample, the complete record of the
/// sample's escape-time test classifies every sample as that test does, and
/// holds the boundary points of the grid so classified.
pub proof fn lemma_sweep_classifies(n: nat, max_iter: nat, traces: Seq<Seq<bool>>)
    requires
        traces.len() <= grid_size(n),
        forall|m: int| 0 <= m < traces.len() ==> decisive(max_iter, #[trigger] traces[m]),
    ensures
        ScanState::initial(n, max_iter).run(traces.flatten()) == (ScanState {
            n,
            max_iter,
            classified: classes_of(max_iter, traces),
            iter_count: 0,
        }),
        ScanState::initial(n, max_iter).run(traces.flatten()).points() == boundary(
            n,
            classes_of(max_iter, traces),
        ),
    decreases traces.len(),
{
    let start = ScanState::initial(n, max_iter);
    if traces.len() == 0 {
        assert(classes_of(max_iter, traces) =~= Seq::empty());
    } else {
        let before = traces.drop_last();
        let last = traces.last();
        lemma_sweep_classifies(n, max_iter, before);
        assert(traces =~= before.push(last));
        before.lemma_flatten_push(last);
        lemma_run_concat(start, before.flatten(), last);
        lemma_run_one_sample(start.run(before.flatten()), last);
        assert(classes_of(max_iter, before).push(classify_spec(max_iter, last)->0) =~= classes_of(
            max_iter,
            traces,
        ));
    }
}

/// The boundary points only grow: an observation leaves those found so far
/// in place and adds at most one behind them.
pub proof fn lemma_step_keeps_points(v: ScanState, escaped: bool)
    ensures
        v.points().is_prefix_of(v.step(escaped).points()),
        v.step(escaped).points().len() <= v.points().len() + 1,
{
    let after = v.step(escaped);
    if after.classified != v.classified {
        let class = after.classified.last();
        assert(v.n > 0) by (nonlinear_arith)
            requires
                v.n * v.n * v.n > 0,
        ;
        assert(after.classified == v.classified.push(class));
        assert(after.classified.take(v.classified.len() as int) =~= v.classified);
        lemma_boundary_grows(v.n, after.classified, v.classified.len());
        lemma_entry_ranks_push(v.n, v.classified, class);
    }
}

/// The sweep is deterministic: two sweeps over grids of the same resolution,
/// with the same cap, that are given the same observations one by one reach
/// the same state, hold the same boundary points and ask the same of their
/// callers.
pub proof fn lemma_sweep_deterministic(
    n: nat,
    max_iter: nat,
    first: Seq<bool>,
    second: Seq<bool>,
)
    requires
        first.len() == second.len(),
        forall|t: int| 0 <= t < first.len() ==> first[t] == second[t],
    ensures
        ScanState::initial(n, max_iter).run(first) == ScanState::initial(n, max_iter).run(second),
        ScanState::initial(n, max_iter).run(first).points() == ScanState::initial(
            n,
            max_iter,
        ).run(second).points(),
        ScanState::initial(n, max_iter).run(first).pending() == ScanState::initial(
            n,
            max_iter,
        ).run(second).pending(),
{
    assert(first =~= second);
}

/// A sweep over a cubic grid.
pub struct Scan {
    n: u32,
    cursor: GridIndex,
    finished: bool,
    escape: EscapeIterator,
    column: ColumnScanner,
    collector: BoundaryCollector,
    classified: Ghost<Seq<Classification>>,
}

impl View for Scan {
    type V = ScanState;

    closed spec fn view(&self) -> ScanState {
        ScanState {
            n: self.n as nat,
            max_iter: self.escape@.max_iter,
            classified: self.classified@,
            iter_count: self.escape@.iter_count,
        }
    }
}

impl Scan {
    /// What holds of every sweep that was made by `new` and driven by the
    /// methods below: its state is one that a sweep can reach, and what it
    /// keeps for itself agrees with that state.
    pub open spec fn wf(&self) -> bool {
        self@.valid() && self.consistent()
    }

    /// Whether the test at hand is undecided and the sweep keeps track.
    pub closed spec fn consistent(&self) -> bool {
        self.escape@.verdict is None && self.tracking()
    }

    /// Whether the sample at hand, the state of its column and the points
    /// collected are those that belong to the samples classified so far.
    closed spec fn tracking(&self) -> bool {
        &&& self.collector@ == boundary(self.n as nat, self.classified@)
        &&& if self.finished {
            self.classified@.len() == grid_size(self.n as nat)
        } else {
            &&& self.cursor.in_grid(self.n as nat)
            &&& self.cursor.rank(self.n as nat) == self.classified@.len()
            &&& self.column.inside_run == (self.cursor.k > 0 && self.classified@.last()
                == Classification::Interior)
        }
    }

    /// A sweep over a grid of resolution `n` that has not classified any
    /// sample yet. Each escape-time test is capped at `max_iter`.
    pub fn new(n: u32, max_iter: u32) -> (scan: Scan)
        ensures
            scan.wf(),
            scan@ == ScanState::initial(n as nat, max_iter as nat),
    {
        proof {
            assert(boundary(n as nat, Seq::empty()) =~= Seq::empty());
            assert(grid_size(0) == 0);
        }
        Scan {
            n,
            cursor: GridIndex { i: 0, j: 0, k: 0 },
            finished: n == 0,
            escape: EscapeIterator::new(max_iter),
            column: ColumnScanner::new(),
            collector: BoundaryCollector::new(),
            classified: Ghost(Seq::empty()),
        }
    }

    /// Whether every sample of the grid has been classified.
    pub fn is_finished(&self) -> (finished: bool)
        requires
            self.wf(),
        ensures
            finished == self@.finished(),
    {
        proof {
            if !self.finished {
                lemma_sample_at_rank(self.n as nat, self.cursor);
            }
        }
        self.finished
    }

    /// The number of boundary points found so far.
    pub fn count(&self) -> (count: usize)
        requires
            self.wf(),
        ensures
            count == self@.points().len(),
    {
        self.collector.count()
    }

    /// What the sweep asks of its caller next.
    pub fn action(&self) -> (action: Action)
        requires
            self.wf(),
        ensures
            action == self@.pending(),
    {
        if self.finished {
            Action::Finished
        } else {
            proof {
                lemma_sample_at_rank(self.n as nat, self.cursor);
            }
            if self.escape.iterations() == 0 {
                Action::Begin(self.cursor)
            } else {
                Action::Iterate
            }
        }
    }

    /// Settles the sample at hand, whatever state its escape-time test is in.
    fn settle(&mut self, class: Classification) -> (action: Action)
        requires
            old(self)@.valid(),
            old(self).tracking(),
            !old(self).finished,
        ensures
            final(self).wf(),
            final(self)@ == old(self)@.record(class),
            action == final(self)@.pending(),
    {
        let n = self.n;
        let here = self.cursor;
        let ghost before = self.classified@;
        proof {
            lemma_sample_at_rank(n as nat, here);
            lemma_entry_ranks_push(n as nat, before, class);
            lemma_fundamental_div_mod_converse(
                before.len() as int,
                n as int,
                here.i * n + here.j,
                here.k as int,
            );
        }
        let emit = self.column.observe(class);
        if emit {
            self.collector.append(here);
        }
        self.classified = Ghost(before.push(class));
        self.escape = EscapeIterator::new(self.escape.max_iter());
        proof {
            assert(self.collector@ =~= boundary(n as nat, self.classified@));
        }
        if here.k + 1 < n {
            self.cursor = GridIndex { i: here.i, j: here.j, k: here.k + 1 };
        } else {
            self.column = ColumnScanner::new();
            if here.j + 1 < n {
                self.cursor = GridIndex { i: here.i, j: here.j + 1, k: 0 };
                assert(self.cursor.rank(n as nat) == before.len() + 1) by (nonlinear_arith)
                    requires
                        here.k + 1 == n,
                        before.len() == (here.i * n + here.j) * n + here.k,
                        self.cursor.rank(n as nat) == (here.i * n + (here.j + 1)) * n + 0,
                ;
            } else if here.i + 1 < n {
                self.cursor = GridIndex { i: here.i + 1, j: 0, k: 0 };
                assert(self.cursor.rank(n as nat) == before.len() + 1) by (nonlinear_arith)
                    requires
                        here.k + 1 == n,
                        here.j + 1 == n,
                        before.len() == (here.i * n + here.j) * n + here.k,
                        self.cursor.rank(n as nat) == ((here.i + 1) * n + 0) * n + 0,
                ;
            } else {
                self.finished = true;
                assert(before.len() + 1 == grid_size(n as nat)) by (nonlinear_arith)
                    requires
                        here.k + 1 == n,
                        here.j + 1 == n,
                        here.i + 1 == n,
                        before.len() == (here.i * n + here.j) * n + here.k,
                        grid_size(n as nat) == n * n * n,
                ;
            }
        }
        if self.finished {
            Action::Finished
        } else {
            proof {
                lemma_sample_at_rank(n as nat, self.cursor);
            }
            Action::Begin(self.cursor)
        }
    }

    /// Gives the sample at hand the class `class` and moves on to the next
    /// sample. The sample is collected if it is a boundary point.
    pub fn record(&mut self, class: Classification) -> (action: Action)
        requires
            old(self).wf(),
        ensures
            final(self).wf(),
            final(self)@ == old(self)@.record(class),
            action == final(self)@.pending(),
    {
        if self.finished {
            Action::Finished
        } else {
            self.settle(class)
        }
    }

    /// Takes the report on the iterate of the sample at hand: `escaped` says
    /// whether it lies outside the escape radius. If that settles the class
    /// of the sample, the sample is recorded and the sweep moves on.
    pub fn observe(&mut self, escaped: bool) -> (action: Action)
        requires
            old(self).wf(),
        ensures
            final(self).wf(),
            final(self)@ == old(self)@.step(escaped),
            action == final(self)@.pending(),
    {
        if self.finished {
            return Action::Finished;
        }
        proof {
            lemma_sample_at_rank(self.n as nat, self.cursor);
        }
        match self.escape.observe(escaped) {
            Some(class) => self.settle(class),
            None => Action::Iterate,
        }
    }

    /// Takes the observations of `observations` in turn, as `observe` takes
    /// one.
    pub fn feed(&mut self, observations: &Vec<bool>) -> (action: Action)
        requires
            old(self).wf(),
        ensures
            final(self).wf(),
            final(self)@ == old(self)@.run(observations@),
            action == final(self)@.pending(),
    {
        let ghost start = self@;
        let mut t: usize = 0;
        while t < observations.len()
            invariant
                t <= observations.len(),
                self.wf(),
                self@ == start.run(observations@.take(t as int)),
            decreases observations.len() - t,
        {
            proof {
                assert(observations@.take(t + 1).drop_last() =~= observations@.take(t as int));
            }
            self.observe(observations[t]);
            t = t + 1;
        }
        proof {
            assert(observations@.take(t as int) =~= observations@);
        }
        self.action()
    }

    /// The number of planes of the grid that the sweep has left behind. It
    /// reaches the resolution of the grid when the sweep is finished.
    pub fn planes_done(&self) -> (planes: u32)
        requires
            self.wf(),
        ensures
            planes == self@.planes_done(),
            planes <= self@.n,
    {
        if self.finished {
            self.n
        } else {
            proof {
                lemma_sample_at_rank(self.n as nat, self.cursor);
            }
            self.cursor.i
        }
    }

    /// Hands out the boundary points of the grid, in the order of the sweep,
    /// once every sample has been classified, and `None` before that.
    pub fn into_points(self) -> (points: Option<Vec<GridIndex>>)
        requires
            self.wf(),
        ensures
            points is Some <==> self@.finished(),
            points is Some ==> points->0@ == self@.points(),
            points is Some ==> forall|t: int|
                0 <= t < points->0@.len() ==> (#[trigger] points->0@[t]).in_grid(self@.n),
            points is Some ==> forall|s: int, t: int|
                0 <= s < t < points->0@.len() ==> (#[trigger] points->0@[s]).precedes(
                    #[trigger] points->0@[t],
                ),
    {
        proof {
            if !self.finished {
                lemma_sample_at_rank(self.n as nat, self.cursor);
            }
            lemma_boundary_in_sweep_order(self.n as nat, self.classified@);
        }
        if self.finished {
            Some(self.collector.into_points())
        } else {
            None
        }
    }
}

} // verus!
