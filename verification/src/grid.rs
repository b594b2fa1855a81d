//! Grid indices, their order in the sweep, and the exact position of a sample
//! in the sampling domain `[-1, 1]`.

use vstd::prelude::*;
use vstd::arithmetic::div_mod::lemma_fundamental_div_mod_converse;

verus! {

/// A coordinate of the sampling domain, held exactly as the fraction
/// `numer / denom`.
#[derive(Clone, Copy, Debug, PartialEq, Eq, Structural)]
pub struct Coordinate {
    pub numer: i64,
    pub denom: i64,
}

impl Coordinate {
    /// The number that the coordinate stands for.
    pub open spec fn value(self) -> real {
        self.numer as real / self.denom as real
    }
}

/// The fraction that `index` is mapped to when `[0, n]` is stretched affinely
/// over `[-1, 1]`: `-1 + 2 * index / n`, that is `(2 * index - n) / n`.
pub open spec fn map_spec(index: u32, n: u32) -> Coordinate {
    Coordinate { numer: (2 * index - n) as i64, denom: n as i64 }
}

/// Maps a grid index to its coordinate in the sampling domain.
pub fn map(index: u32, n: u32) -> (c: Coordinate)
    ensures
        c == map_spec(index, n),
        c.numer == 2 * index - n,
        c.denom == n,
{
    let twice: i64 = 2 * (index as i64);
    Coordinate { numer: twice - (n as i64), denom: n as i64 }
}

/// The two ends of the index range are mapped to the two ends of the domain:
/// index `0` to `-1` and index `n` to `1`.
pub proof fn lemma_map_endpoints(n: u32)
    requires
        n > 0,
    ensures
        map_spec(0, n).value() == -1 as real,
        map_spec(n, n).value() == 1 as real,
{
    let d = n as real;
    assert((-(n as int)) as real / d == -1 as real) by (nonlinear_arith)
        requires
            d == n as real,
            n > 0,
    ;
    assert(d / d == 1 as real) by (nonlinear_arith)
        requires
            d == n as real,
            n > 0,
    ;
}

/// The mapping never decreases as the index grows.
pub proof fn lemma_map_monotonic(a: u32, b: u32, n: u32)
    requires
        n > 0,
        a <= b,
    ensures
        map_spec(a, n).value() <= map_spec(b, n).value(),
{
    let x = map_spec(a, n).numer as real;
    let y = map_spec(b, n).numer as real;
    let d = n as real;
    assert(x / d <= y / d) by (nonlinear_arith)
        requires
            x <= y,
            d > 0 as real,
    ;
}

/// The mapping is affine: it is `-1 + index * (2 / n)`, so that every step
/// of the index adds `2 / n`.
pub proof fn lemma_map_affine(index: u32, n: u32)
    requires
        n > 0,
    ensures
        map_spec(index, n).value() == -1 as real + index as real * (2 as real / n as real),
{
    let x = index as real;
    let d = n as real;
    assert((2 * index - n) as real == 2 as real * x - d);
    assert((2 as real * x - d) / d == -1 as real + x * (2 as real / d)) by (nonlinear_arith)
        requires
            d > 0 as real,
    ;
}

/// Indices inside `[0, n]` are mapped into `[-1, 1]`.
pub proof fn lemma_map_range(index: u32, n: u32)
    requires
        n > 0,
        index <= n,
    ensures
        -1 as real <= map_spec(index, n).value() <= 1 as real,
{
    lemma_map_endpoints(n);
    lemma_map_monotonic(0, index, n);
    lemma_map_monotonic(index, n, n);
}

/// The position of one sample in the grid.
#[derive(Clone, Copy, Debug, PartialEq, Eq, Structural)]
pub struct GridIndex {
    pub i: u32,
    pub j: u32,
    pub k: u32,
}

/// A point of the sampling domain.
#[derive(Clone, Copy, Debug, PartialEq, Eq, Structural)]
pub struct DomainPoint {
    pub x: Coordinate,
    pub y: Coordinate,
    pub z: Coordinate,
}

impl GridIndex {
    /// Whether the index lies in a grid of resolution `n`.
    pub open spec fn in_grid(self, n: nat) -> bool {
        self.i < n && self.j < n && self.k < n
    }

    /// The number of samples that the sweep visits before this one.
    pub open spec fn rank(self, n: nat) -> nat {
        ((self.i * n + self.j) * n + self.k) as nat
    }

    /// Whether this sample is visited before `other`: the order of the sweep
    /// is the lexicographic order on `(i, j, k)`.
    pub open spec fn precedes(self, other: GridIndex) -> bool {
        self.i < other.i || (self.i == other.i && (self.j < other.j || (self.j == other.j
            && self.k < other.k)))
    }

    /// The point of the sampling domain that this sample stands for, each
    /// axis mapped on its own.
    pub open spec fn domain_point(self, n: u32) -> DomainPoint {
        DomainPoint { x: map_spec(self.i, n), y: map_spec(self.j, n), z: map_spec(self.k, n) }
    }

    /// Maps the sample to its point in the sampling domain.
    pub fn to_domain(&self, n: u32) -> (p: DomainPoint)
        ensures
            p == self.domain_point(n),
    {
        DomainPoint { x: map(self.i, n), y: map(self.j, n), z: map(self.k, n) }
    }
}

/// Maps every sample of `points` to its point in the sampling domain.
pub fn domain_points(points: &Vec<GridIndex>, n: u32) -> (mapped: Vec<DomainPoint>)
    ensures
        mapped@.len() == points@.len(),
        forall|t: int| 0 <= t < points@.len() ==> mapped@[t] == points@[t].domain_point(n),
{
    let mut mapped: Vec<DomainPoint> = Vec::new();
    let mut t: usize = 0;
    while t < points.len()
        invariant
            t <= points.len(),
            mapped@.len() == t,
            forall|s: int| 0 <= s < t ==> mapped@[s] == points@[s].domain_point(n),
        decreases points.len() - t,
    {
        mapped.push(points[t].to_domain(n));
        t = t + 1;
    }
    mapped
}

/// The sample that the sweep visits after `m` others.
pub open spec fn sample_at(n: nat, m: nat) -> GridIndex {
    GridIndex {
        i: ((m / n) / n) as u32,
        j: ((m / n) % n) as u32,
        k: (m % n) as u32,
    }
}

/// The number of samples in a grid of resolution `n`.
pub open spec fn grid_size(n: nat) -> nat {
    n * n * n
}

/// `sample_at` undoes `rank`.
pub proof fn lemma_sample_at_rank(n: nat, idx: GridIndex)
    requires
        idx.in_grid(n),
    ensures
        sample_at(n, idx.rank(n)) == idx,
        idx.rank(n) < grid_size(n),
{
    let column: int = idx.i * n + idx.j;
    let m: int = column * n + idx.k;
    lemma_fundamental_div_mod_converse(m, n as int, column, idx.k as int);
    lemma_fundamental_div_mod_converse(column, n as int, idx.i as int, idx.j as int);
    assert(idx.rank(n) < grid_size(n)) by (nonlinear_arith)
        requires
            idx.i < n,
            idx.j < n,
            idx.k < n,
            idx.rank(n) == (idx.i * n + idx.j) * n + idx.k,
            grid_size(n) == n * n * n,
    {
        assert(idx.i * n + idx.j <= (n - 1) * n + (n - 1));
        assert((idx.i * n + idx.j) * n <= ((n - 1) * n + (n - 1)) * n);
    }
}

/// `rank` undoes `sample_at`, and every position below the size of the grid
/// names a sample of the grid.
pub proof fn lemma_rank_sample_at(n: nat, m: nat)
    requires
        m < grid_size(n),
        n <= u32::MAX,
    ensures
        sample_at(n, m).in_grid(n),
        sample_at(n, m).rank(n) == m,
        sample_at(n, m).i == (m / n) / n,
        sample_at(n, m).j == (m / n) % n,
        sample_at(n, m).k == m % n,
{
    assert(n > 0) by (nonlinear_arith)
        requires
            m < n * n * n,
    ;
    let d: int = n as int;
    let mi: int = m as int;
    let column: int = mi / d;
    vstd::arithmetic::div_mod::lemma_fundamental_div_mod(mi, d);
    vstd::arithmetic::div_mod::lemma_fundamental_div_mod(column, d);
    vstd::arithmetic::div_mod::lemma_mod_pos_bound(mi, d);
    vstd::arithmetic::div_mod::lemma_mod_pos_bound(column, d);
    assert(0 <= column / d < d) by (nonlinear_arith)
        requires
            0 <= mi < d * d * d,
            d > 0,
            mi == d * column + mi % d,
            column == d * (column / d) + column % d,
            0 <= mi % d < d,
            0 <= column % d < d,
    ;
    assert((column / d * d + column % d) * d + mi % d == mi) by (nonlinear_arith)
        requires
            mi == d * column + mi % d,
            column == d * (column / d) + column % d,
    ;
}

/// The order of the sweep is the order of the ranks.
pub proof fn lemma_rank_order(n: nat, a: GridIndex, b: GridIndex)
    requires
        a.in_grid(n),
        b.in_grid(n),
    ensures
        a.precedes(b) <==> a.rank(n) < b.rank(n),
{
    assert(a.precedes(b) <==> a.rank(n) < b.rank(n)) by (nonlinear_arith)
        requires
            a.i < n,
            a.j < n,
            a.k < n,
            b.i < n,
            b.j < n,
            b.k < n,
            a.rank(n) == (a.i * n + a.j) * n + a.k,
            b.rank(n) == (b.i * n + b.j) * n + b.k,
            a.precedes(b) <==> (a.i < b.i || (a.i == b.i && (a.j < b.j || (a.j == b.j && a.k
                < b.k)))),
    ;
}

} // verus!
