//! The whole sweep in one call, for a caller who hands in the arithmetic on
//! the iterates as three functions.

use crate::boundary::boundary;
use crate::escape::{classify_spec, lemma_classify_push, lemma_undecided_prefix};
use crate::grid::{grid_size, lemma_rank_sample_at, sample_at, GridIndex};
use crate::scan::{classes_of, decisive, Action, Scan, ScanState};
use vstd::pervasive::unreached;
use vstd::prelude::*;

verus! {

/// Whether `iterates` and `trace` are what the caller's functions can give
/// for the sample `idx`: the first iterate comes from `begin`, every other
/// one from `advance` on the one before, and `trace` holds what `escaped`
/// says of each iterate.
#[verifier::opaque]
pub open spec fn follows<Z, B, A, E>(
    begin: B,
    advance: A,
    escaped: E,
    idx: GridIndex,
    iterates: Seq<Z>,
    trace: Seq<bool>,
) -> bool where B: Fn(GridIndex) -> Z, A: Fn(GridIndex, &Z) -> Z, E: Fn(&Z) -> bool {
    &&& iterates.len() == trace.len()
    &&& trace.len() > 0
    &&& call_ensures(begin, (idx,), iterates[0])
    &&& forall|s: int|
        0 < s < iterates.len() ==> call_ensures(
            advance,
            (idx, &iterates[s - 1]),
            #[trigger] iterates[s],
        )
    &&& forall|s: int|
        0 <= s < trace.len() ==> call_ensures(escaped, (&iterates[s],), #[trigger] trace[s])
}

/// Whether `iterates` and `traces` record a whole sweep over a grid of
/// resolution `n`: for every sample, in the order of the sweep, the iterates
/// that the caller's functions gave and what was observed of them, up to the
/// observation that decided the escape-time test of the sample.
pub open spec fn records_sweep<Z, B, A, E>(
    n: nat,
    max_iter: nat,
    begin: B,
    advance: A,
    escaped: E,
    iterates: Seq<Seq<Z>>,
    traces: Seq<Seq<bool>>,
) -> bool where B: Fn(GridIndex) -> Z, A: Fn(GridIndex, &Z) -> Z, E: Fn(&Z) -> bool {
    &&& traces.len() == grid_size(n)
    &&& iterates.len() == grid_size(n)
    &&& forall|m: int|
        0 <= m < traces.len() ==> decisive(max_iter, #[trigger] traces[m]) && follows(
            begin,
            advance,
            escaped,
            sample_at(n, m as nat),
            iterates[m],
            traces[m],
        )
}

/// Whether the caller's functions are functions in the strict sense: what
/// they return is settled by what they are given.
#[verifier::opaque]
pub open spec fn single_valued<Z, B, A, E>(begin: B, advance: A, escaped: E) -> bool where
    B: Fn(GridIndex) -> Z,
    A: Fn(GridIndex, &Z) -> Z,
    E: Fn(&Z) -> bool,
{
    &&& forall|idx: GridIndex, z1: Z, z2: Z|
        #[trigger] call_ensures(begin, (idx,), z1) && #[trigger] call_ensures(begin, (idx,), z2)
            ==> z1 == z2
    &&& forall|idx: GridIndex, z: &Z, z1: Z, z2: Z|
        #[trigger] call_ensures(advance, (idx, z), z1) && #[trigger] call_ensures(
            advance,
            (idx, z),
            z2,
        ) ==> z1 == z2
    &&& forall|z: &Z, e1: bool, e2: bool|
        #[trigger] call_ensures(escaped, (z,), e1) && #[trigger] call_ensures(escaped, (z,), e2)
            ==> e1 == e2
}

proof fn lemma_same_iterate<Z, B, A, E>(
    begin: B,
    advance: A,
    escaped: E,
    idx: GridIndex,
    first: (Seq<Z>, Seq<bool>),
    second: (Seq<Z>, Seq<bool>),
    s: int,
) where B: Fn(GridIndex) -> Z, A: Fn(GridIndex, &Z) -> Z, E: Fn(&Z) -> bool
    requires
        single_valued(begin, advance, escaped),
        follows(begin, advance, escaped, idx, first.0, first.1),
        follows(begin, advance, escaped, idx, second.0, second.1),
        0 <= s < first.1.len(),
        s < second.1.len(),
    ensures
        first.0[s] == second.0[s],
        first.1[s] == second.1[s],
    decreases s,
{
    reveal(single_valued);
    reveal(follows);
    if s > 0 {
        lemma_same_iterate(begin, advance, escaped, idx, first, second, s - 1);
        assert(call_ensures(advance, (idx, &first.0[s - 1]), first.0[s]));
        assert(call_ensures(advance, (idx, &second.0[s - 1]), second.0[s]));
    }
    assert(call_ensures(escaped, (&first.0[s],), first.1[s]));
    assert(call_ensures(escaped, (&second.0[s],), second.1[s]));
}

proof fn lemma_same_length<Z, B, A, E>(
    max_iter: nat,
    begin: B,
    advance: A,
    escaped: E,
    idx: GridIndex,
    first: (Seq<Z>, Seq<bool>),
    second: (Seq<Z>, Seq<bool>),
) where B: Fn(GridIndex) -> Z, A: Fn(GridIndex, &Z) -> Z, E: Fn(&Z) -> bool
    requires
        single_valued(begin, advance, escaped),
        follows(begin, advance, escaped, idx, first.0, first.1),
        follows(begin, advance, escaped, idx, second.0, second.1),
        decisive(max_iter, first.1),
        decisive(max_iter, second.1),
    ensures
        first.1.len() >= second.1.len(),
{
    reveal(follows);
    if first.1.len() < second.1.len() {
        let len = first.1.len();
        let undecided = second.1.drop_last();
        lemma_undecided_prefix(max_iter, undecided, len);
        assert forall|s: int| 0 <= s < len implies first.1[s] == undecided.take(len as int)[s] by {
            lemma_same_iterate(begin, advance, escaped, idx, first, second, s);
        }
        assert(first.1 =~= undecided.take(len as int));
    }
}

proof fn lemma_same_trace<Z, B, A, E>(
    max_iter: nat,
    begin: B,
    advance: A,
    escaped: E,
    idx: GridIndex,
    first: (Seq<Z>, Seq<bool>),
    second: (Seq<Z>, Seq<bool>),
) where B: Fn(GridIndex) -> Z, A: Fn(GridIndex, &Z) -> Z, E: Fn(&Z) -> bool
    requires
        single_valued(begin, advance, escaped),
        follows(begin, advance, escaped, idx, first.0, first.1),
        follows(begin, advance, escaped, idx, second.0, second.1),
        decisive(max_iter, first.1),
        decisive(max_iter, second.1),
    ensures
        first == second,
{
    lemma_same_length(max_iter, begin, advance, escaped, idx, first, second);
    lemma_same_length(max_iter, begin, advance, escaped, idx, second, first);
    assert(first.0.len() == first.1.len() && second.0.len() == second.1.len()) by {
        reveal(follows);
    }
    assert forall|s: int| 0 <= s < first.0.len() implies #[trigger] first.0[s] == second.0[s] by {
        lemma_same_iterate(begin, advance, escaped, idx, first, second, s);
    }
    assert forall|s: int| 0 <= s < first.1.len() implies #[trigger] first.1[s] == second.1[s] by {
        lemma_same_iterate(begin, advance, escaped, idx, first, second, s);
    }
    assert(first.0 =~= second.0);
    assert(first.1 =~= second.1);
}

/// With functions that are single-valued the sweep has one outcome: any two
/// records of it hold the same iterates and the same observations, and give
/// the same boundary points.
pub proof fn lemma_one_outcome<Z, B, A, E>(
    n: nat,
    max_iter: nat,
    begin: B,
    advance: A,
    escaped: E,
    first: (Seq<Seq<Z>>, Seq<Seq<bool>>),
    second: (Seq<Seq<Z>>, Seq<Seq<bool>>),
) where B: Fn(GridIndex) -> Z, A: Fn(GridIndex, &Z) -> Z, E: Fn(&Z) -> bool
    requires
        single_valued(begin, advance, escaped),
        records_sweep(n, max_iter, begin, advance, escaped, first.0, first.1),
        records_sweep(n, max_iter, begin, advance, escaped, second.0, second.1),
    ensures
        first == second,
        boundary(n, classes_of(max_iter, first.1)) == boundary(n, classes_of(max_iter, second.1)),
{
    assert forall|m: int| 0 <= m < first.1.len() implies (#[trigger] first.0[m], first.1[m]) == (
        second.0[m],
        second.1[m],
    ) by {
        assert(decisive(max_iter, first.1[m]));
        assert(decisive(max_iter, second.1[m]));
        lemma_same_trace(
            max_iter,
            begin,
            advance,
            escaped,
            sample_at(n, m as nat),
            (first.0[m], first.1[m]),
            (second.0[m], second.1[m]),
        );
    }
    assert forall|m: int| 0 <= m < first.1.len() implies #[trigger] first.1[m] == second.1[m] by {
        assert((first.0[m], first.1[m]) == (second.0[m], second.1[m]));
    }
    assert(first.0 =~= second.0);
    assert(first.1 =~= second.1);
}

/// Sweeps a grid of resolution `n` and returns its boundary points, in the
/// order of the sweep.
///
/// For every sample the iterate is made by `begin` and moved on by
/// `advance`, once for each application of the recurrence; `escaped` says
/// whether an iterate lies outside the escape radius. A sample is exterior
/// when one of its iterates has escaped, and interior when none has after
/// more than `max_iter` applications.
pub fn create_bulb<Z, B, A, E>(n: u32, max_iter: u32, begin: B, advance: A, escaped: E) -> (points:
    Vec<GridIndex>) where B: Fn(GridIndex) -> Z, A: Fn(GridIndex, &Z) -> Z, E: Fn(&Z) -> bool
    requires
        forall|idx: GridIndex| idx.in_grid(n as nat) ==> call_requires(begin, (idx,)),
        forall|idx: GridIndex, z: &Z| idx.in_grid(n as nat) ==> call_requires(advance, (idx, z)),
        forall|z: &Z| call_requires(escaped, (z,)),
    ensures
        exists|iterates: Seq<Seq<Z>>, traces: Seq<Seq<bool>>|
            records_sweep(n as nat, max_iter as nat, begin, advance, escaped, iterates, traces)
                && points@ == boundary(n as nat, classes_of(max_iter as nat, traces)),
        forall|t: int| 0 <= t < points@.len() ==> (#[trigger] points@[t]).in_grid(n as nat),
        forall|s: int, t: int|
            0 <= s < t < points@.len() ==> (#[trigger] points@[s]).precedes(#[trigger] points@[t]),
{
    let mut scan = Scan::new(n, max_iter);
    let ghost mut iterates: Seq<Seq<Z>> = Seq::empty();
    let ghost mut traces: Seq<Seq<bool>> = Seq::empty();
    proof {
        assert(classes_of(max_iter as nat, traces) =~= Seq::empty());
    }
    while !scan.is_finished()
        invariant
            forall|idx: GridIndex| idx.in_grid(n as nat) ==> call_requires(begin, (idx,)),
            forall|idx: GridIndex, z: &Z|
                idx.in_grid(n as nat) ==> call_requires(advance, (idx, z)),
            forall|z: &Z| call_requires(escaped, (z,)),
            scan.wf(),
            scan@ == (ScanState {
                n: n as nat,
                max_iter: max_iter as nat,
                classified: classes_of(max_iter as nat, traces),
                iter_count: 0,
            }),
            traces.len() == iterates.len(),
            forall|m: int|
                0 <= m < traces.len() ==> decisive(max_iter as nat, #[trigger] traces[m])
                    && follows(
                    begin,
                    advance,
                    escaped,
                    sample_at(n as nat, m as nat),
                    iterates[m],
                    traces[m],
                ),
        decreases grid_size(n as nat) - traces.len(),
    {
        let ghost before = scan@;
        proof {
            lemma_rank_sample_at(n as nat, traces.len());
        }
        let idx = match scan.action() {
            Action::Begin(idx) => idx,
            _ => unreached(),
        };
        let mut zeta = begin(idx);
        let ghost mut its: Seq<Z> = seq![zeta];
        let ghost mut trace: Seq<bool> = Seq::empty();
        let mut settled = false;
        while !settled
            invariant
                forall|idx: GridIndex, z: &Z|
                    idx.in_grid(n as nat) ==> call_requires(advance, (idx, z)),
                forall|z: &Z| call_requires(escaped, (z,)),
                idx == sample_at(n as nat, traces.len()),
                idx.in_grid(n as nat),
                before.valid(),
                !before.finished(),
                before.iter_count == 0,
                before.max_iter == max_iter,
                before.n == n,
                scan.wf(),
                its.len() > 0,
                call_ensures(begin, (idx,), its[0]),
                forall|s: int|
                    0 < s < its.len() ==> call_ensures(
                        advance,
                        (idx, &its[s - 1]),
                        #[trigger] its[s],
                    ),
                forall|s: int|
                    0 <= s < trace.len() ==> call_ensures(escaped, (&its[s],), #[trigger] trace[s]),
                !settled ==> {
                    &&& its.len() == trace.len() + 1
                    &&& zeta == its.last()
                    &&& classify_spec(max_iter as nat, trace) is None
                    &&& scan@ == (ScanState { iter_count: trace.len(), ..before })
                },
                settled ==> {
                    &&& its.len() == trace.len()
                    &&& decisive(max_iter as nat, trace)
                    &&& scan@ == before.record(classify_spec(max_iter as nat, trace)->0)
                },
            decreases max_iter + 3 - trace.len() - (if settled { 1int } else { 0int }),
        {
            let out = escaped(&zeta);
            proof {
                lemma_classify_push(max_iter as nat, trace, out);
                assert(trace.push(out).drop_last() =~= trace);
                trace = trace.push(out);
            }
            match scan.observe(out) {
                Action::Iterate => {
                    zeta = advance(idx, &zeta);
                    proof {
                        its = its.push(zeta);
                    }
                },
                _ => {
                    settled = true;
                },
            }
        }
        proof {
            assert(classes_of(max_iter as nat, traces).push(
                classify_spec(max_iter as nat, trace)->0,
            ) =~= classes_of(max_iter as nat, traces.push(trace)));
            assert(follows(begin, advance, escaped, idx, its, trace)) by {
                reveal(follows);
            }
            iterates = iterates.push(its);
            traces = traces.push(trace);
        }
    }
    proof {
        assert(records_sweep(
            n as nat,
            max_iter as nat,
            begin,
            advance,
            escaped,
            iterates,
            traces,
        ));
    }
    match scan.into_points() {
        Some(points) => points,
        None => unreached(),
    }
}

} // verus!
