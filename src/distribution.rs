use vstd::prelude::*;

verus! {

/// Number of fixed-point steps in `[0, 1)`: a sample `u: u32` stands for `u / UNIT`.
pub const UNIT: u64 = 0x1_0000_0000;

/// Why a distribution could not be built from its weights.
#[derive(Debug, Clone, Copy, PartialEq, Eq, Structural)]
pub enum DistributionError {
    /// No weights were given.
    Empty,
    /// The weights sum to zero.
    ZeroTotal,
    /// The weights sum to more than `u64::MAX`.
    Overflow,
}

/// Sum of the first `k` weights.
pub open spec fn prefix(w: Seq<u64>, k: int) -> int
    decreases k,
{
    if k <= 0 {
        0
    } else {
        prefix(w, k - 1) + w[k - 1]
    }
}

/// Sum of all weights.
pub open spec fn total(w: Seq<u64>) -> int {
    prefix(w, w.len() as int)
}

/// The error that building over `w` reports, if any.
pub open spec fn build_error(w: Seq<u64>) -> Option<DistributionError> {
    if w.len() == 0 {
        Some(DistributionError::Empty)
    } else if total(w) == 0 {
        Some(DistributionError::ZeroTotal)
    } else if total(w) > u64::MAX {
        Some(DistributionError::Overflow)
    } else {
        None
    }
}

/// Bucket `i` holds the sample `u`: the normalized cumulative table brackets `u / UNIT`,
/// `prefix(i) / total <= u / UNIT < prefix(i + 1) / total`.
pub open spec fn in_bucket(w: Seq<u64>, u: u32, i: int) -> bool {
    &&& 0 <= i < w.len()
    &&& prefix(w, i) * UNIT <= u * total(w)
    &&& u * total(w) < prefix(w, i + 1) * UNIT
}

/// The bucket that inversion of the cumulative table selects for `u`.
pub open spec fn inverse_cdf(w: Seq<u64>, u: u32) -> int {
    choose|i: int| in_bucket(w, u, i)
}

/// The fixed-point position within `[0, size)` that continuous inversion gives for `u`,
/// in units of `1 / UNIT` of a bucket: the bucket index plus the fraction of the way
/// through that bucket's share of the cumulative table.
pub open spec fn inverse_position(w: Seq<u64>, u: u32) -> int {
    let i = inverse_cdf(w, u);
    i * UNIT + (u * total(w) - prefix(w, i) * UNIT) / (w[i] as int)
}

/// Weights never make a prefix sum shrink.
pub proof fn lemma_prefix_monotone(w: Seq<u64>, a: int, b: int)
    requires
        0 <= a <= b,
    ensures
        prefix(w, a) <= prefix(w, b),
    decreases b - a,
{
    if a < b {
        lemma_prefix_monotone(w, a, b - 1);
    }
}

/// At most one bucket holds a given sample.
pub proof fn lemma_bucket_unique(w: Seq<u64>, u: u32, i: int, j: int)
    requires
        in_bucket(w, u, i),
        in_bucket(w, u, j),
    ensures
        i == j,
{
    if i < j {
        lemma_prefix_monotone(w, i + 1, j);
        assert(prefix(w, i + 1) * UNIT <= prefix(w, j) * UNIT) by (nonlinear_arith)
            requires prefix(w, i + 1) <= prefix(w, j);
    } else if j < i {
        lemma_prefix_monotone(w, j + 1, i);
        assert(prefix(w, j + 1) * UNIT <= prefix(w, i) * UNIT) by (nonlinear_arith)
            requires prefix(w, j + 1) <= prefix(w, i);
    }
}

/// A bucket that holds `u` is the one that inversion selects.
pub proof fn lemma_in_bucket_is_inverse(w: Seq<u64>, u: u32, i: int)
    requires
        in_bucket(w, u, i),
    ensures
        inverse_cdf(w, u) == i,
{
    lemma_bucket_unique(w, u, i, inverse_cdf(w, u));
}

/// Weights that build have a positive total that fits in `u64`.
pub proof fn lemma_valid_total(w: Seq<u64>)
    requires
        build_error(w) is None,
    ensures
        w.len() > 0,
        0 < total(w) <= u64::MAX,
{
    lemma_prefix_monotone(w, 0, w.len() as int);
}

/// Searching upward from a bucket that starts at or below `u` finds the bucket holding `u`.
proof fn lemma_bucket_from(w: Seq<u64>, u: u32, k: int)
    requires
        build_error(w) is None,
        0 <= k < w.len(),
        prefix(w, k) * UNIT <= u * total(w),
    ensures
        exists|i: int| in_bucket(w, u, i),
    decreases w.len() - k,
{
    lemma_valid_total(w);
    if u * total(w) < prefix(w, k + 1) * UNIT {
        assert(in_bucket(w, u, k));
    } else {
        if k + 1 == w.len() {
            assert(u * total(w) < total(w) * UNIT) by (nonlinear_arith)
                requires
                    0 <= u < UNIT,
                    total(w) > 0,
            ;
        }
        lemma_bucket_from(w, u, k + 1);
    }
}

/// For every sample `u` in `[0, 1)`, inversion selects a bucket in `[0, size)`, and that
/// bucket carries positive weight.
pub proof fn lemma_inverse_in_range(w: Seq<u64>, u: u32)
    requires
        build_error(w) is None,
    ensures
        in_bucket(w, u, inverse_cdf(w, u)),
        0 <= inverse_cdf(w, u) < w.len(),
        w[inverse_cdf(w, u)] > 0,
{
    lemma_valid_total(w);
    assert(prefix(w, 0) * UNIT <= u * total(w)) by (nonlinear_arith)
        requires
            prefix(w, 0) == 0,
            u >= 0,
            total(w) >= 0,
    ;
    lemma_bucket_from(w, u, 0);
    let i = inverse_cdf(w, u);
    assert(prefix(w, i) < prefix(w, i + 1)) by (nonlinear_arith)
        requires
            prefix(w, i) * UNIT <= u * total(w),
            u * total(w) < prefix(w, i + 1) * UNIT,
    ;
}

/// Inversion is monotone: a larger sample never selects an earlier bucket.
pub proof fn lemma_inverse_monotone(w: Seq<u64>, u1: u32, u2: u32)
    requires
        build_error(w) is None,
        u1 < u2,
    ensures
        inverse_cdf(w, u1) <= inverse_cdf(w, u2),
{
    lemma_valid_total(w);
    lemma_inverse_in_range(w, u1);
    lemma_inverse_in_range(w, u2);
    let i1 = inverse_cdf(w, u1);
    let i2 = inverse_cdf(w, u2);
    if i2 < i1 {
        lemma_prefix_monotone(w, i2 + 1, i1);
        assert(false) by (nonlinear_arith)
            requires
                u1 < u2,
                total(w) > 0,
                u2 * total(w) < prefix(w, i2 + 1) * UNIT,
                prefix(w, i2 + 1) <= prefix(w, i1),
                prefix(w, i1) * UNIT <= u1 * total(w),
        ;
    }
}

/// The continuous position lies in the bucket that discrete inversion selects:
/// `floor(coordinate * size)` is the selected bucket.
pub proof fn lemma_position_in_bucket(w: Seq<u64>, u: u32)
    requires
        build_error(w) is None,
    ensures
        0 <= inverse_position(w, u),
        inverse_position(w, u) / (UNIT as int) == inverse_cdf(w, u),
{
    lemma_inverse_in_range(w, u);
    let i = inverse_cdf(w, u);
    let f = (u * total(w) - prefix(w, i) * UNIT) / (w[i] as int);
    assert(0 <= f < UNIT) by (nonlinear_arith)
        requires
            f == (u * total(w) - prefix(w, i) * UNIT) / (w[i] as int),
            prefix(w, i) * UNIT <= u * total(w),
            u * total(w) < (prefix(w, i) + w[i]) * UNIT,
            w[i] > 0,
    ;
    assert(0 <= i * UNIT + f && (i * UNIT + f) / (UNIT as int) == i) by (nonlinear_arith)
        requires
            0 <= f < UNIT,
            0 <= i,
    ;
}

/// A piecewise-constant distribution over `size` buckets of equal width.
pub trait Distribution1D: Sized {
    /// The weights the distribution was built over, one per bucket.
    spec fn weights(&self) -> Seq<u64>;

    /// The internal representation is consistent.
    spec fn well_formed(&self) -> bool;

    /// The bucket that `sample_discrete(u)` selects.
    spec fn spec_index(&self, u: u32) -> int;

    /// The position that `sample_continuous(u)` returns, in units of `1 / UNIT` of a bucket.
    spec fn spec_position(&self, u: u32) -> int;

    /// A well-formed distribution holds weights that build without error.
    proof fn lemma_well_formed(&self)
        requires
            self.well_formed(),
        ensures
            build_error(self.weights()) is None,
    ;

    /// Every sample selects a bucket in `[0, size)` that carries positive weight.
    proof fn lemma_index_in_range(&self, u: u32)
        requires
            self.well_formed(),
        ensures
            0 <= self.spec_index(u) < self.weights().len(),
            self.weights()[self.spec_index(u)] > 0,
    ;

    /// Builds a distribution whose bucket `i` has weight `weights[i]`.
    fn build(weights: &[u64]) -> (r: Result<Self, DistributionError>)
        ensures
            match r {
                Ok(d) => build_error(weights@) is None && d.well_formed() && d.weights() == weights@,
                Err(e) => build_error(weights@) == Some(e),
            },
    ;

    /// Selects a bucket for the uniform sample `u / UNIT` and returns `(density, bucket)`.
    fn sample_discrete(&self, u: u32) -> (r: (u64, usize))
        requires
            self.well_formed(),
        ensures
            r.1 as int == self.spec_index(u),
            r.1 < self.weights().len(),
            self.weights()[r.1 as int] > 0,
            r.0 == self.weights()[r.1 as int],
    ;

    /// As `sample_discrete`, but also places `u` within the selected bucket. Returns
    /// `(density, position)`, where the coordinate in `[0, 1)` is
    /// `position / (size * UNIT)`.
    fn sample_continuous(&self, u: u32) -> (r: (u64, u128))
        requires
            self.well_formed(),
        ensures
            r.1 as int == self.spec_position(u),
            r.1 / (UNIT as u128) == self.spec_index(u),
            r.0 == self.weights()[self.spec_index(u)],
    ;

    /// Density of bucket `i`.
    fn pdf(&self, i: usize) -> (r: u64)
        requires
            self.well_formed(),
            i < self.weights().len(),
        ensures
            r == self.weights()[i as int],
    ;

    /// Sum of the weights the distribution was built over.
    fn integral(&self) -> (r: u64)
        requires
            self.well_formed(),
        ensures
            r == total(self.weights()),
    ;

    /// Number of buckets.
    fn size(&self) -> (r: usize)
        requires
            self.well_formed(),
        ensures
            r == self.weights().len(),
    ;
}

/// The weight grid as rows of weights.
pub open spec fn grid_view(g: Seq<Vec<u64>>) -> Seq<Seq<u64>> {
    Seq::new(g.len(), |r: int| g[r]@)
}

/// The total weight of each row, the weights of the marginal distribution over rows.
pub open spec fn row_totals(g: Seq<Seq<u64>>) -> Seq<u64> {
    Seq::new(g.len(), |r: int| total(g[r]) as u64)
}

/// The error of the first of the first `k` rows that does not build, if any.
pub open spec fn rows_error(g: Seq<Seq<u64>>, k: int) -> Option<DistributionError>
    decreases k,
{
    if k <= 0 {
        None
    } else {
        match rows_error(g, k - 1) {
            Some(e) => Some(e),
            None => build_error(g[k - 1]),
        }
    }
}

/// Once a row fails to build, the first failure stays the same for longer prefixes of rows.
pub proof fn lemma_rows_error_stays(g: Seq<Seq<u64>>, k: int, m: int)
    requires
        0 <= k <= m,
        rows_error(g, k) is Some,
    ensures
        rows_error(g, m) == rows_error(g, k),
    decreases m - k,
{
    if k < m {
        lemma_rows_error_stays(g, k, m - 1);
    }
}

/// The error that building a 2D distribution over `g` reports, if any: that of the
/// first row that does not build, else that of the row totals.
pub open spec fn grid_error(g: Seq<Seq<u64>>) -> Option<DistributionError> {
    match rows_error(g, g.len() as int) {
        Some(e) => Some(e),
        None => build_error(row_totals(g)),
    }
}

/// Coordinate `a` clamped to `[0, hi]`.
pub open spec fn clamp_to(a: int, hi: int) -> int {
    if a < 0 {
        0
    } else if a > hi {
        hi
    } else {
        a
    }
}

/// Pixel `(i, j)` of a `width` by `height` image lies in the 2x2 block north-west of
/// `(x, y)`, clamped to the image.
pub open spec fn marks(x: int, y: int, width: int, height: int, i: int, j: int) -> bool {
    &&& (i == clamp_to(x - 1, width - 1) || i == clamp_to(x, width - 1))
    &&& (j == clamp_to(y - 1, height - 1) || j == clamp_to(y, height - 1))
}

/// The cell that `d` selects for `uv` marks pixel `(i, j)` of a `width` by `height` image.
pub open spec fn hit<D: Distribution2D>(d: &D, uv: [u32; 2], width: int, height: int, i: int, j: int) -> bool {
    let (x, y) = d.spec_sample(uv[0], uv[1]);
    marks(x, y, width, height, i, j)
}

/// Some sample among the first `n` of `samples` marks pixel `(i, j)`.
pub open spec fn hit_by_any<D: Distribution2D>(
    d: &D,
    samples: Seq<[u32; 2]>,
    n: int,
    width: int,
    height: int,
    i: int,
    j: int,
) -> bool {
    exists|k: int| 0 <= k < n && #[trigger] hit(d, samples[k], width, height, i, j)
}

/// The image is a non-empty rectangle of `height` rows of `width` pixels.
pub open spec fn is_image<P>(demo: Seq<Vec<P>>, width: int, height: int) -> bool {
    &&& demo.len() == height > 0
    &&& width > 0
    &&& forall|j: int| 0 <= j < height ==> (#[trigger] demo[j])@.len() == width
}

/// Sets pixel `(i, j)` to `marker`.
fn set_pixel<P: Copy>(demo: &mut Vec<Vec<P>>, i: usize, j: usize, marker: P)
    requires
        j < old(demo)@.len(),
        i < old(demo)@[j as int]@.len(),
    ensures
        final(demo)@.len() == old(demo)@.len(),
        forall|k: int| 0 <= k < old(demo)@.len() && k != j ==> final(demo)@[k] == old(demo)@[k],
        final(demo)@[j as int]@ == old(demo)@[j as int]@.update(i as int, marker),
{
    demo[j][i] = marker;
}

/// `a - 1` clamped to `[0, hi]`, or `a` clamped to `[0, hi]` when `back` is false.
fn clamp_pixel(a: usize, back: bool, hi: usize) -> (r: usize)
    ensures
        r == clamp_to(if back { a - 1 } else { a as int }, hi as int),
{
    if back && a == 0 {
        0
    } else {
        let b = if back { a - 1 } else { a };
        if b > hi {
            hi
        } else {
            b
        }
    }
}

/// A piecewise-constant distribution over a grid of cells, `[x, y]` being column and row.
pub trait Distribution2D: Sized {
    /// The weight grid the distribution was built over.
    spec fn rows(&self) -> Seq<Seq<u64>>;

    /// The internal representation is consistent.
    spec fn well_formed(&self) -> bool;

    /// The cell `(x, y)` that `sample([u, v])` selects.
    spec fn spec_sample(&self, u: u32, v: u32) -> (int, int);

    /// The joint density of cell `(x, y)`.
    spec fn spec_pdf(&self, x: int, y: int) -> int;

    /// Builds a distribution whose cell `(x, y)` has weight `weights[y][x]`.
    fn build(weights: &[Vec<u64>]) -> (r: Result<Self, DistributionError>)
        ensures
            match r {
                Ok(d) => {
                    &&& grid_error(grid_view(weights@)) is None
                    &&& d.well_formed()
                    &&& d.rows() == grid_view(weights@)
                },
                Err(e) => grid_error(grid_view(weights@)) == Some(e),
            },
    ;

    /// Selects a cell for the uniform samples `uv` and returns `(density, [x, y])`.
    fn sample(&self, uv: [u32; 2]) -> (r: (u128, [usize; 2]))
        requires
            self.well_formed(),
        ensures
            (r.1[0] as int, r.1[1] as int) == self.spec_sample(uv[0], uv[1]),
            r.1[1] < self.rows().len(),
            r.1[0] < self.rows()[r.1[1] as int].len(),
            self.rows()[r.1[1] as int][r.1[0] as int] > 0,
            r.0 == self.spec_pdf(r.1[0] as int, r.1[1] as int),
    ;

    /// Joint density of cell `xy = [x, y]`.
    fn pdf(&self, xy: [usize; 2]) -> (r: u128)
        requires
            self.well_formed(),
            xy[1] < self.rows().len(),
            xy[0] < self.rows()[xy[1] as int].len(),
        ensures
            r == self.spec_pdf(xy[0] as int, xy[1] as int),
    ;
}

/// For each pair of uniform samples drawn from `d`, marks with `marker` the 2x2 block of pixels
/// north-west of the selected cell `(x, y)`, clamped to the image; pixels that no
/// sample marks keep their value. A visual check of where samples land.
pub fn fill_demo_image<D: Distribution2D, P: Copy>(
    d: &D,
    demo: &mut Vec<Vec<P>>,
    marker: P,
    samples: &[[u32; 2]],
)
    requires
        d.well_formed(),
        is_image(old(demo)@, old(demo)@[0]@.len() as int, old(demo)@.len() as int),
    ensures
        is_image(final(demo)@, old(demo)@[0]@.len() as int, old(demo)@.len() as int),
        forall|j: int, i: int|
            0 <= j < old(demo)@.len() && 0 <= i < old(demo)@[0]@.len() ==> (#[trigger] final(demo)@[j]@[i])
                == if hit_by_any(
                d,
                samples@,
                samples@.len() as int,
                old(demo)@[0]@.len() as int,
                old(demo)@.len() as int,
                i,
                j,
            ) {
                marker
            } else {
                old(demo)@[j]@[i]
            },
{
    let width = demo[0].len();
    let height = demo.len();
    let ghost orig = demo@;
    let mut s: usize = 0;
    while s < samples.len()
        invariant
            d.well_formed(),
            s <= samples@.len(),
            width == orig[0]@.len(),
            height == orig.len(),
            is_image(orig, width as int, height as int),
            is_image(demo@, width as int, height as int),
            forall|j: int, i: int|
                0 <= j < height && 0 <= i < width ==> (#[trigger] demo@[j]@[i]) == if hit_by_any(
                    d,
                    samples@,
                    s as int,
                    width as int,
                    height as int,
                    i,
                    j,
                ) {
                    marker
                } else {
                    orig[j]@[i]
                },
        decreases samples@.len() - s,
    {
        let (_, cell) = d.sample(samples[s]);
        let x = cell[0];
        let y = cell[1];
        let i0 = clamp_pixel(x, true, width - 1);
        let i1 = clamp_pixel(x, false, width - 1);
        let j0 = clamp_pixel(y, true, height - 1);
        let j1 = clamp_pixel(y, false, height - 1);
        let ghost before = demo@;
        set_pixel(demo, i0, j0, marker);
        set_pixel(demo, i1, j0, marker);
        set_pixel(demo, i0, j1, marker);
        set_pixel(demo, i1, j1, marker);
        proof {
            let w = width as int;
            let h = height as int;
            assert(forall|j: int| 0 <= j < h ==> (#[trigger] demo@[j])@.len() == w);
            assert forall|j: int, i: int| 0 <= j < h && 0 <= i < w implies (#[trigger] demo@[j]@[i])
                == if hit_by_any(d, samples@, s + 1, w, h, i, j) {
                marker
            } else {
                orig[j]@[i]
            } by {
                let now = hit(d, samples@[s as int], w, h, i, j);
                if now {
                    assert(hit_by_any(d, samples@, s + 1, w, h, i, j));
                } else {
                    assert(demo@[j]@[i] == before[j]@[i]);
                    if hit_by_any(d, samples@, s + 1, w, h, i, j) {
                        let k = choose|k: int| 0 <= k < s + 1 && #[trigger] hit(d, samples@[k], w, h, i, j);
                        assert(hit_by_any(d, samples@, s as int, w, h, i, j));
                    }
                    if hit_by_any(d, samples@, s as int, w, h, i, j) {
                        let k = choose|k: int| 0 <= k < s && #[trigger] hit(d, samples@[k], w, h, i, j);
                        assert(hit_by_any(d, samples@, s + 1, w, h, i, j));
                    }
                }
            }
        }
        s += 1;
    }
}

} // verus!
