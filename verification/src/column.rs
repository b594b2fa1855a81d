//! The sweep along one column of the grid.
//!
//! A column is swept from its first sample to its last. The scanner records
//! the sample at which the column passes from the exterior, or from the start
//! of the column, into the interior; it is armed again by the next exterior
//! sample. Every maximal run of interior samples so yields one record, its
//! first sample.

use crate::escape::Classification;
use crate::positions::{
    lemma_positions_agree, lemma_positions_complete, lemma_positions_increasing,
    lemma_positions_sound, positions_where,
};
use vstd::prelude::*;

verus! {

/// Whether the scanner records a sample of class `class` when
/// `inside_run` tells whether it is inside a run of interior samples.
pub open spec fn emits(inside_run: bool, class: Classification) -> bool {
    class == Classification::Interior && !inside_run
}

/// The scanner's state after a sample of class `class`.
pub open spec fn inside_after(inside_run: bool, class: Classification) -> bool {
    if class == Classification::Exterior && inside_run {
        false
    } else if class == Classification::Interior && !inside_run {
        true
    } else {
        inside_run
    }
}

/// After any sample the scanner is inside a run exactly if that sample was
/// interior.
pub proof fn lemma_inside_after(inside_run: bool, class: Classification)
    ensures
        inside_after(inside_run, class) == (class == Classification::Interior),
{
}

/// The state that is kept while one column is swept.
pub struct ColumnScanner {
    /// Whether the last sample seen belongs to a run of interior samples.
    pub inside_run: bool,
}

impl ColumnScanner {
    /// The scanner at the start of a column.
    pub fn new() -> (scanner: ColumnScanner)
        ensures
            !scanner.inside_run,
    {
        ColumnScanner { inside_run: false }
    }

    /// Takes the class of the next sample of the column and says whether
    /// that sample is to be recorded.
    pub fn observe(&mut self, class: Classification) -> (emit: bool)
        ensures
            emit == emits(old(self).inside_run, class),
            final(self).inside_run == inside_after(old(self).inside_run, class),
    {
        match class {
            Classification::Exterior => {
                if self.inside_run {
                    self.inside_run = false;
                }
                false
            },
            Classification::Interior => {
                if !self.inside_run {
                    self.inside_run = true;
                    true
                } else {
                    false
                }
            },
        }
    }
}

/// Whether a run of interior samples starts at position `k` of `column`.
pub open spec fn is_run_start(column: Seq<Classification>, k: int) -> bool {
    0 <= k < column.len() && column[k] == Classification::Interior && (k == 0 || column[k - 1]
        == Classification::Exterior)
}

/// `is_run_start` on a fixed column, as a predicate on positions.
pub open spec fn run_start_in(column: Seq<Classification>) -> spec_fn(int) -> bool {
    |k: int| is_run_start(column, k)
}

/// The positions at which the runs of interior samples of `column` start, in
/// increasing order.
pub open spec fn run_starts(column: Seq<Classification>) -> Seq<int> {
    positions_where(column.len(), run_start_in(column))
}

/// Whether the samples `first ..= last` of `column` are a maximal run of
/// interior samples: all of them interior, with no interior sample next to
/// the run on either side.
pub open spec fn is_maximal_run(column: Seq<Classification>, first: int, last: int) -> bool {
    &&& 0 <= first <= last < column.len()
    &&& forall|k: int| first <= k <= last ==> column[k] == Classification::Interior
    &&& (first == 0 || column[first - 1] == Classification::Exterior)
    &&& (last == column.len() - 1 || column[last + 1] == Classification::Exterior)
}

/// The maximal runs of interior samples of `column`, each as the pair of its
/// first and its last position.
pub open spec fn maximal_runs(column: Seq<Classification>) -> Set<(int, int)> {
    Set::new(|run: (int, int)| is_maximal_run(column, run.0, run.1))
}

/// The last position of the stretch of interior samples that holds `k`.
pub open spec fn run_end(column: Seq<Classification>, k: int) -> int
    decreases column.len() - k,
{
    if 0 <= k && k + 1 < column.len() && column[k + 1] == Classification::Interior {
        run_end(column, k + 1)
    } else {
        k
    }
}

proof fn lemma_run_end_reaches(column: Seq<Classification>, k: int)
    requires
        0 <= k < column.len(),
        column[k] == Classification::Interior,
    ensures
        k <= run_end(column, k) < column.len(),
        forall|x: int| k <= x <= run_end(column, k) ==> column[x] == Classification::Interior,
        run_end(column, k) == column.len() - 1 || column[run_end(column, k) + 1]
            == Classification::Exterior,
    decreases column.len() - k,
{
    if k + 1 < column.len() && column[k + 1] == Classification::Interior {
        lemma_run_end_reaches(column, k + 1);
    }
}

proof fn lemma_run_end_unique(column: Seq<Classification>, k: int, last: int)
    requires
        0 <= k <= last < column.len(),
        forall|x: int| k <= x <= last ==> column[x] == Classification::Interior,
        last == column.len() - 1 || column[last + 1] == Classification::Exterior,
    ensures
        run_end(column, k) == last,
    decreases last - k,
{
    if k < last {
        lemma_run_end_unique(column, k + 1, last);
    }
}

/// The scanner's records are the starts of the maximal runs: a position is
/// recorded exactly if a maximal run of interior samples starts there, the
/// records come in increasing order, and there are as many of them as there
/// are maximal runs.
pub proof fn lemma_one_record_per_run(column: Seq<Classification>)
    ensures
        forall|k: int|
            run_starts(column).contains(k) <==> exists|last: int| #[trigger]
                is_maximal_run(column, k, last),
        forall|s: int, t: int|
            0 <= s < t < run_starts(column).len() ==> #[trigger] run_starts(column)[s]
                < #[trigger] run_starts(column)[t],
        maximal_runs(column).finite(),
        run_starts(column).len() == maximal_runs(column).len(),
{
    let starts = run_starts(column);
    let p = run_start_in(column);
    lemma_positions_sound(column.len(), p);
    lemma_positions_complete(column.len(), p);
    lemma_positions_increasing(column.len(), p);
    assert forall|k: int| starts.contains(k) implies exists|last: int| #[trigger]
        is_maximal_run(column, k, last) by {
        let t = choose|t: int| 0 <= t < starts.len() && starts[t] == k;
        assert(p(starts[t]));
        lemma_run_end_reaches(column, k);
        assert(is_maximal_run(column, k, run_end(column, k)));
    }
    assert forall|k: int| (exists|last: int| #[trigger] is_maximal_run(column, k, last)) implies
        starts.contains(k) by {
        assert(p(k));
    }
    let runs = starts.map_values(|k: int| (k, run_end(column, k)));
    assert forall|s: int, t: int| 0 <= s < runs.len() && 0 <= t < runs.len() && s != t implies
        runs[s] != runs[t] by {
        if s < t {
            assert(starts[s] < starts[t]);
        } else {
            assert(starts[t] < starts[s]);
        }
    }
    assert forall|run: (int, int)| runs.to_set().contains(run) <==> maximal_runs(column).contains(
        run,
    ) by {
        if runs.to_set().contains(run) {
            let t = choose|t: int| 0 <= t < runs.len() && runs[t] == run;
            assert(p(starts[t]));
            lemma_run_end_reaches(column, starts[t]);
        }
        if maximal_runs(column).contains(run) {
            lemma_run_end_unique(column, run.0, run.1);
            assert(p(run.0));
            assert(starts.contains(run.0));
            let t = choose|t: int| 0 <= t < starts.len() && starts[t] == run.0;
            assert(runs[t] == run);
        }
    }
    assert(runs.to_set() =~= maximal_runs(column));
    vstd::seq_lib::seq_to_set_is_finite(runs);
    runs.unique_seq_to_set();
}

/// The starts of a column that has grown by one sample: those of the column
/// before, and the new position if a run starts there.
pub proof fn lemma_run_starts_push(column: Seq<Classification>, class: Classification)
    ensures
        run_starts(column.push(class)) == if class == Classification::Interior && (column.len()
            == 0 || column.last() == Classification::Exterior) {
            run_starts(column).push(column.len() as int)
        } else {
            run_starts(column)
        },
{
    let grown = column.push(class);
    assert(grown.drop_last() =~= column);
    assert forall|x: int| 0 <= x < column.len() implies #[trigger] run_start_in(grown)(x)
        == run_start_in(column)(x) by {
        assert(grown[x] == column[x]);
        if x > 0 {
            assert(grown[x - 1] == column[x - 1]);
        }
    }
    lemma_positions_agree(column.len(), run_start_in(grown), run_start_in(column));
}

/// Sweeps a whole column and returns the positions of the samples that are
/// recorded: the first sample of every maximal run of interior samples, in
/// increasing order.
pub fn scan_column(column: &Vec<Classification>) -> (emitted: Vec<usize>)
    ensures
        emitted@.len() == run_starts(column@).len(),
        forall|t: int| 0 <= t < emitted@.len() ==> emitted@[t] == run_starts(column@)[t],
        forall|s: int, t: int| 0 <= s < t < emitted@.len() ==> emitted@[s] < emitted@[t],
        emitted@.len() == maximal_runs(column@).len(),
{
    let mut scanner = ColumnScanner::new();
    let mut emitted: Vec<usize> = Vec::new();
    let mut k: usize = 0;
    while k < column.len()
        invariant
            k <= column.len(),
            scanner.inside_run == (k > 0 && column@[k - 1] == Classification::Interior),
            emitted@.len() == run_starts(column@.take(k as int)).len(),
            forall|t: int|
                0 <= t < emitted@.len() ==> emitted@[t] == run_starts(column@.take(k as int))[t],
        decreases column.len() - k,
    {
        proof {
            lemma_run_starts_push(column@.take(k as int), column@[k as int]);
            assert(column@.take(k as int).push(column@[k as int]) =~= column@.take(k + 1));
        }
        if scanner.observe(column[k]) {
            emitted.push(k);
        }
        k = k + 1;
    }
    proof {
        assert(column@.take(k as int) =~= column@);
        lemma_one_record_per_run(column@);
    }
    emitted
}

} // verus!
