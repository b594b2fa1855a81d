//! The escape-time test of one sample.
//!
//! The iterate starts at the origin and is advanced by the recurrence of the
//! fractal. Before every advance its radius is looked at: an iterate outside
//! the escape radius makes the sample exterior, and a sample whose iterates
//! have stayed inside for more than `max_iter` advances is interior. The
//! iterator below keeps the count and takes the decision; the caller holds the
//! iterate and reports, one iterate at a time, whether it has escaped.

use vstd::prelude::*;

verus! {

/// What the escape-time test says of a sample.
#[derive(Clone, Copy, Debug, PartialEq, Eq, Structural)]
pub enum Classification {
    /// No iterate left the escape radius within the budget.
    Interior,
    /// Some iterate left the escape radius.
    Exterior,
}

/// The decision taken on one iterate: `escaped` says whether the iterate lies
/// outside the escape radius, `iter_count` how often the recurrence has been
/// applied so far. `None` stands for one more application.
pub open spec fn verdict_of(max_iter: nat, iter_count: nat, escaped: bool) -> Option<
    Classification,
> {
    if escaped {
        Some(Classification::Exterior)
    } else if iter_count > max_iter {
        Some(Classification::Interior)
    } else {
        None
    }
}

/// The state of an escape-time test as contracts see it.
pub struct EscapeState {
    /// The iteration cap.
    pub max_iter: nat,
    /// How often the recurrence has been applied.
    pub iter_count: nat,
    /// The classification, once it has been reached.
    pub verdict: Option<Classification>,
}

impl EscapeState {
    /// The state before the first iterate has been looked at.
    pub open spec fn initial(max_iter: nat) -> EscapeState {
        EscapeState { max_iter, iter_count: 0, verdict: None }
    }

    /// The state after one more iterate has been looked at. A test that has
    /// reached its verdict stays as it is.
    pub open spec fn step(self, escaped: bool) -> EscapeState {
        if self.verdict is Some {
            self
        } else {
            match verdict_of(self.max_iter, self.iter_count, escaped) {
                Some(c) => EscapeState { verdict: Some(c), ..self },
                None => EscapeState { iter_count: self.iter_count + 1, ..self },
            }
        }
    }

    /// The state after the iterates of `trace` have been looked at in turn.
    pub open spec fn run(self, trace: Seq<bool>) -> EscapeState
        decreases trace.len(),
    {
        if trace.len() == 0 {
            self
        } else {
            self.run(trace.drop_last()).step(trace.last())
        }
    }
}

/// Whether one of the first `limit` iterates of `trace` has escaped.
pub open spec fn escapes_within(trace: Seq<bool>, limit: nat) -> bool {
    exists|t: int| 0 <= t < trace.len() && t < limit && trace[t]
}

/// The classification of a sample whose iterates escape as `trace` tells:
/// `trace[t]` says whether the iterate after `t` applications of the
/// recurrence lies outside the escape radius. The sample is exterior when one
/// of the iterates `0 ..= max_iter + 1` has escaped, interior when all of them
/// are known to have stayed inside, and undecided while the trace is too short
/// to tell.
pub open spec fn classify_spec(max_iter: nat, trace: Seq<bool>) -> Option<Classification> {
    if escapes_within(trace, max_iter + 2) {
        Some(Classification::Exterior)
    } else if trace.len() >= max_iter + 2 {
        Some(Classification::Interior)
    } else {
        None
    }
}

/// One more iterate settles an undecided test as `verdict_of` says, with as
/// many applications of the recurrence behind it as the trace is long.
pub proof fn lemma_classify_push(max_iter: nat, trace: Seq<bool>, escaped: bool)
    requires
        classify_spec(max_iter, trace) is None,
    ensures
        classify_spec(max_iter, trace.push(escaped)) == verdict_of(max_iter, trace.len(), escaped),
{
    let longer = trace.push(escaped);
    if escaped {
        assert(longer[trace.len() as int]);
    } else if escapes_within(longer, max_iter + 2) {
        let t = choose|t: int| 0 <= t < longer.len() && t < max_iter + 2 && longer[t];
        assert(trace[t]);
    }
}

/// A test that is undecided after a trace was undecided all along it.
pub proof fn lemma_undecided_prefix(max_iter: nat, trace: Seq<bool>, x: nat)
    requires
        classify_spec(max_iter, trace) is None,
        x <= trace.len(),
    ensures
        classify_spec(max_iter, trace.take(x as int)) is None,
{
    let part = trace.take(x as int);
    if escapes_within(part, max_iter + 2) {
        let t = choose|t: int| 0 <= t < part.len() && t < max_iter + 2 && part[t];
        assert(trace[t]);
    }
}

/// Running the test over a trace reaches the verdict that `classify_spec`
/// gives, and while there is no verdict every iterate of the trace has cost
/// one application of the recurrence.
pub proof fn lemma_run_classifies(max_iter: nat, trace: Seq<bool>)
    ensures
        EscapeState::initial(max_iter).run(trace).verdict == classify_spec(max_iter, trace),
        EscapeState::initial(max_iter).run(trace).max_iter == max_iter,
        EscapeState::initial(max_iter).run(trace).verdict is None
            ==> EscapeState::initial(max_iter).run(trace).iter_count == trace.len(),
    decreases trace.len(),
{
    if trace.len() > 0 {
        let before = trace.drop_last();
        lemma_run_classifies(max_iter, before);
        let reached = EscapeState::initial(max_iter).run(before);
        if reached.verdict is None {
            if trace.last() {
                assert(trace[trace.len() - 1]);
            } else {
                assert forall|t: int| 0 <= t < trace.len() && t < max_iter + 2 implies !trace[t]
                by {
                    if t < before.len() {
                        assert(before[t] == trace[t]);
                    }
                }
            }
        } else if reached.verdict == Some(Classification::Exterior) {
            let t = choose|t: int| 0 <= t < before.len() && t < max_iter + 2 && before[t];
            assert(trace[t]);
        } else {
            assert forall|t: int| 0 <= t < trace.len() && t < max_iter + 2 implies !trace[t] by {
                assert(before[t] == trace[t]);
            }
        }
    }
}

/// The test never applies the recurrence more than `max_iter + 1` times,
/// whatever the iterates do, and it has its verdict once `max_iter + 2`
/// iterates have been looked at.
pub proof fn lemma_run_bounded(max_iter: nat, trace: Seq<bool>)
    ensures
        EscapeState::initial(max_iter).run(trace).iter_count <= max_iter + 1,
        EscapeState::initial(max_iter).run(trace).iter_count <= trace.len(),
        trace.len() >= max_iter + 2 ==> EscapeState::initial(max_iter).run(trace).verdict is Some,
    decreases trace.len(),
{
    lemma_run_classifies(max_iter, trace);
    if trace.len() > 0 {
        lemma_run_bounded(max_iter, trace.drop_last());
        lemma_run_classifies(max_iter, trace.drop_last());
    }
}

/// The escape-time test of one sample, as a machine that is fed one
/// observation per iterate.
pub struct EscapeIterator {
    max_iter: u32,
    iter_count: u64,
    verdict: Option<Classification>,
}

impl View for EscapeIterator {
    type V = EscapeState;

    closed spec fn view(&self) -> EscapeState {
        EscapeState {
            max_iter: self.max_iter as nat,
            iter_count: self.iter_count as nat,
            verdict: self.verdict,
        }
    }
}

impl EscapeIterator {
    #[verifier::type_invariant]
    spec fn within_budget(self) -> bool {
        self.iter_count <= self.max_iter + 1
    }

    /// A test that has not looked at any iterate yet.
    pub fn new(max_iter: u32) -> (it: EscapeIterator)
        ensures
            it@ == EscapeState::initial(max_iter as nat),
    {
        EscapeIterator { max_iter, iter_count: 0, verdict: None }
    }

    /// Takes the report on the current iterate: `escaped` says whether it
    /// lies outside the escape radius. Returns the classification if this
    /// iterate settles it (or an earlier one has). On `None` the caller
    /// applies the recurrence once and reports on the new iterate.
    pub fn observe(&mut self, escaped: bool) -> (verdict: Option<Classification>)
        ensures
            final(self)@ == old(self)@.step(escaped),
            verdict == final(self)@.verdict,
            final(self)@.iter_count <= final(self)@.max_iter + 1,
    {
        proof {
            use_type_invariant(&*self);
        }
        if self.verdict.is_some() {
            return self.verdict;
        }
        if escaped {
            self.verdict = Some(Classification::Exterior);
        } else if self.iter_count > self.max_iter as u64 {
            self.verdict = Some(Classification::Interior);
        } else {
            self.iter_count = self.iter_count + 1;
        }
        self.verdict
    }

    /// The iteration cap of this test.
    pub fn max_iter(&self) -> (cap: u32)
        ensures
            cap == self@.max_iter,
    {
        self.max_iter
    }

    /// How often the recurrence has been applied: never more than
    /// `max_iter + 1` times.
    pub fn iterations(&self) -> (count: u64)
        ensures
            count == self@.iter_count,
            count <= self@.max_iter + 1,
    {
        proof {
            use_type_invariant(self);
        }
        self.iter_count
    }

    /// The classification, once it has been reached.
    pub fn verdict(&self) -> (verdict: Option<Classification>)
        ensures
            verdict == self@.verdict,
    {
        self.verdict
    }
}

/// Classifies a sample from the record of its iterates: `trace[t]` says
/// whether the iterate after `t` applications of the recurrence lies outside
/// the escape radius. Returns `None` when the record ends before the test
/// does.
pub fn classify(max_iter: u32, trace: &Vec<bool>) -> (verdict: Option<Classification>)
    ensures
        verdict == classify_spec(max_iter as nat, trace@),
{
    let mut it = EscapeIterator::new(max_iter);
    let mut t: usize = 0;
    while t < trace.len()
        invariant
            t <= trace.len(),
            it@ == EscapeState::initial(max_iter as nat).run(trace@.take(t as int)),
        decreases trace.len() - t,
    {
        proof {
            assert(trace@.take(t + 1).drop_last() =~= trace@.take(t as int));
        }
        it.observe(trace[t]);
        t = t + 1;
    }
    proof {
        assert(trace@.take(t as int) =~= trace@);
        lemma_run_classifies(max_iter as nat, trace@);
    }
    it.verdict()
}

} // verus!
