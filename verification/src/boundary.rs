//! Which samples of a classified grid are its boundary points.
//!
//! The classes of the samples are held in one sequence, in the order of the
//! sweep: the sample `(i, j, k)` of a grid of resolution `n` stands at
//! position `(i * n + j) * n + k`, so that every stretch of `n` positions is
//! one column.

use crate::column::{
    lemma_one_record_per_run, maximal_runs, run_start_in, run_starts,
};
use crate::escape::Classification;
use crate::grid::{
    grid_size, lemma_rank_order, lemma_rank_sample_at, sample_at, GridIndex,
};
use crate::positions::{
    lemma_positions_agree, lemma_positions_increasing, lemma_positions_sound,
    lemma_positions_split, positions_where, shifted, translate,
};
use vstd::arithmetic::div_mod::lemma_fundamental_div_mod_converse;
use vstd::prelude::*;

verus! {

/// Whether the sample at position `m` of the sweep is a boundary point: it
/// is interior, and it is the first sample of its column or follows an
/// exterior sample.
pub open spec fn is_entry(n: nat, classified: Seq<Classification>, m: int) -> bool {
    0 <= m < classified.len() && classified[m] == Classification::Interior && (m % (n as int) == 0
        || classified[m - 1] == Classification::Exterior)
}

/// `is_entry` on a fixed grid, as a predicate on positions.
pub open spec fn entry_in(n: nat, classified: Seq<Classification>) -> spec_fn(int) -> bool {
    |m: int| is_entry(n, classified, m)
}

/// The positions in the sweep of the boundary points, in increasing order.
pub open spec fn entry_ranks(n: nat, classified: Seq<Classification>) -> Seq<int> {
    positions_where(classified.len(), entry_in(n, classified))
}

/// The boundary points of a grid of resolution `n` whose samples are
/// classified, in the order of the sweep, as `classified` tells.
pub open spec fn boundary(n: nat, classified: Seq<Classification>) -> Seq<GridIndex> {
    entry_ranks(n, classified).map_values(|m: int| sample_at(n, m as nat))
}

/// The positions of the boundary points of a sweep that has classified one
/// more sample: those found before, and the new position if the sample is a
/// boundary point.
pub proof fn lemma_entry_ranks_push(n: nat, classified: Seq<Classification>, class: Classification)
    requires
        n > 0,
    ensures
        entry_ranks(n, classified.push(class)) == if is_entry(
            n,
            classified.push(class),
            classified.len() as int,
        ) {
            entry_ranks(n, classified).push(classified.len() as int)
        } else {
            entry_ranks(n, classified)
        },
{
    let grown = classified.push(class);
    assert(grown.drop_last() =~= classified);
    assert forall|m: int| 0 <= m < classified.len() implies #[trigger] entry_in(n, grown)(m)
        == entry_in(n, classified)(m) by {
        assert(grown[m] == classified[m]);
        if m > 0 {
            assert(grown[m - 1] == classified[m - 1]);
        }
    }
    lemma_positions_agree(classified.len(), entry_in(n, grown), entry_in(n, classified));
}

/// The boundary points come in the order of the sweep: from column to
/// column in the lexicographic order of `(i, j)`, and within a column by
/// increasing `k`. Each of them is a sample of the grid, and no sample comes
/// twice.
pub proof fn lemma_boundary_in_sweep_order(n: nat, classified: Seq<Classification>)
    requires
        n <= u32::MAX,
        classified.len() <= grid_size(n),
    ensures
        forall|t: int|
            0 <= t < boundary(n, classified).len() ==> {
                &&& (#[trigger] boundary(n, classified)[t]).in_grid(n)
                &&& boundary(n, classified)[t].rank(n) == entry_ranks(n, classified)[t]
            },
        forall|s: int, t: int|
            0 <= s < t < boundary(n, classified).len() ==> (#[trigger] boundary(
                n,
                classified,
            )[s]).precedes(#[trigger] boundary(n, classified)[t]),
{
    let ranks = entry_ranks(n, classified);
    let points = boundary(n, classified);
    lemma_positions_sound(classified.len(), entry_in(n, classified));
    lemma_positions_increasing(classified.len(), entry_in(n, classified));
    assert forall|t: int| 0 <= t < points.len() implies (#[trigger] points[t]).in_grid(n)
        && points[t].rank(n) == ranks[t] by {
        lemma_rank_sample_at(n, ranks[t] as nat);
    }
    assert forall|s: int, t: int| 0 <= s < t < points.len() implies (#[trigger] points[s]).precedes(
        #[trigger] points[t],
    ) by {
        assert(ranks[s] < ranks[t]);
        lemma_rank_order(n, points[s], points[t]);
    }
}

/// The boundary points only grow: those of the first `x` samples stay in
/// place, at the front, whatever the classes of the later samples are.
pub proof fn lemma_boundary_grows(n: nat, classified: Seq<Classification>, x: nat)
    requires
        n > 0,
        x <= classified.len(),
    ensures
        entry_ranks(n, classified.take(x as int)).is_prefix_of(entry_ranks(n, classified)),
        boundary(n, classified.take(x as int)).is_prefix_of(boundary(n, classified)),
{
    let part = classified.take(x as int);
    assert forall|m: int| 0 <= m < x implies #[trigger] entry_in(n, part)(m) == entry_in(
        n,
        classified,
    )(m) by {
        assert(part[m] == classified[m]);
        if m > 0 {
            assert(part[m - 1] == classified[m - 1]);
        }
    }
    lemma_positions_agree(x, entry_in(n, part), entry_in(n, classified));
    lemma_positions_split(x, (classified.len() - x) as nat, entry_in(n, classified));
    assert(entry_ranks(n, part).is_prefix_of(entry_ranks(n, classified)));
    assert(boundary(n, part).is_prefix_of(boundary(n, classified)));
}

/// Column `c` of the sweep: the classes of its `n` samples.
pub open spec fn column_of(n: nat, classified: Seq<Classification>, c: nat) -> Seq<Classification> {
    classified.subrange((c * n) as int, (c * n + n) as int)
}

/// Every column adds to the boundary the starts of its own runs of interior
/// samples and nothing else: as many points as it has maximal runs.
pub proof fn lemma_one_point_per_run(n: nat, classified: Seq<Classification>, c: nat)
    requires
        n > 0,
        c * n + n <= classified.len(),
    ensures
        entry_ranks(n, classified.take((c * n + n) as int)) == entry_ranks(
            n,
            classified.take((c * n) as int),
        ) + translate(run_starts(column_of(n, classified, c)), (c * n) as int),
        maximal_runs(column_of(n, classified, c)).finite(),
        boundary(n, classified.take((c * n + n) as int)).len() == boundary(
            n,
            classified.take((c * n) as int),
        ).len() + maximal_runs(column_of(n, classified, c)).len(),
{
    let base: nat = c * n;
    let column = column_of(n, classified, c);
    let upto = classified.take((base + n) as int);
    let before = classified.take(base as int);
    assert(upto.take(base as int) =~= before);
    lemma_boundary_grows(n, upto, base);
    lemma_positions_split(base, n, entry_in(n, upto));
    assert forall|m: int| 0 <= m < base implies #[trigger] entry_in(n, before)(m) == entry_in(
        n,
        upto,
    )(m) by {
        assert(before[m] == upto[m]);
        if m > 0 {
            assert(before[m - 1] == upto[m - 1]);
        }
    }
    lemma_positions_agree(base, entry_in(n, before), entry_in(n, upto));
    assert forall|k: int| 0 <= k < n implies #[trigger] shifted(entry_in(n, upto), base as int)(k)
        == run_start_in(column)(k) by {
        lemma_fundamental_div_mod_converse(base + k, n as int, c as int, k);
        assert(upto[base + k] == column[k]);
        if k > 0 {
            assert(upto[base + k - 1] == column[k - 1]);
        }
    }
    lemma_positions_agree(n, shifted(entry_in(n, upto), base as int), run_start_in(column));
    lemma_one_record_per_run(column);
}

} // verus!
