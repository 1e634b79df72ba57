use vstd::prelude::*;

use crate::distribution::{
    build_error, in_bucket, inverse_cdf, lemma_inverse_in_range, lemma_inverse_monotone,
    lemma_position_in_bucket, inverse_position, lemma_in_bucket_is_inverse,
    lemma_prefix_monotone, prefix, total, Distribution1D, DistributionError, UNIT,
};

verus! {

/// Inversion sampling over a cumulative table of the weights.
///
/// `cdf[k]` is the sum of the first `k` weights; the normalized table is
/// `cdf[k] / weight_sum`, and a sample is found by binary search in it.
pub struct Inversion1D {
    /// Sum of the weights.
    pub weight_sum: u64,
    /// Prefix sums of the weights, starting at zero; one entry more than there are buckets.
    pub cdf: Vec<u64>,
}

impl Inversion1D {
    /// `cdf[k]` is the sum of the first `k` weights.
    pub proof fn lemma_cdf_is_prefix(&self, k: int)
        requires
            self.well_formed(),
            0 <= k < self.cdf@.len(),
        ensures
            self.cdf@[k] == prefix(self.weights(), k),
        decreases k,
    {
        if k > 0 {
            self.lemma_cdf_is_prefix(k - 1);
        }
    }

    /// The table's last entry is the sum of all weights, and the weights build without error.
    pub proof fn lemma_total(&self)
        requires
            self.well_formed(),
        ensures
            total(self.weights()) == self.weight_sum,
            build_error(self.weights()) is None,
    {
        self.lemma_cdf_is_prefix(self.cdf@.len() - 1);
    }

    /// A larger sample never selects an earlier bucket.
    pub proof fn lemma_sample_monotone(&self, u1: u32, u2: u32)
        requires
            self.well_formed(),
            u1 < u2,
        ensures
            self.spec_index(u1) <= self.spec_index(u2),
    {
        self.lemma_total();
        lemma_inverse_monotone(self.weights(), u1, u2);
    }

    /// The continuous position of a sample lies in the bucket that discrete sampling
    /// selects for it: `floor(coordinate * size)` is that bucket.
    pub proof fn lemma_continuous_agrees(&self, u: u32)
        requires
            self.well_formed(),
        ensures
            0 <= self.spec_position(u) < self.weights().len() * UNIT,
            self.spec_position(u) / (UNIT as int) == self.spec_index(u),
    {
        self.lemma_total();
        lemma_position_in_bucket(self.weights(), u);
        lemma_inverse_in_range(self.weights(), u);
        let p = self.spec_position(u);
        let i = self.spec_index(u);
        let n = self.weights().len() as int;
        assert(p < n * UNIT) by (nonlinear_arith)
            requires
                0 <= p,
                p / (UNIT as int) == i,
                i < n,
        ;
    }

    /// Binary search for the bucket holding `u`: the last `k` with
    /// `cdf[k] / weight_sum <= u / UNIT`.
    fn find_bucket(&self, u: u32) -> (r: usize)
        requires
            self.well_formed(),
        ensures
            r + 1 < self.cdf.len(),
            (self.cdf@[r as int] as int) * UNIT <= u * self.weight_sum,
            u * self.weight_sum < (self.cdf@[r + 1] as int) * UNIT,
            self.cdf@[r as int] < self.cdf@[r + 1],
    {
        assert((u as int) * (self.weight_sum as int) <= u32::MAX * u64::MAX) by (nonlinear_arith)
            requires
                u <= u32::MAX,
                self.weight_sum <= u64::MAX,
        ;
        let t: u128 = (u as u128) * (self.weight_sum as u128);
        let scale: u128 = UNIT as u128;
        let mut lo: usize = 0;
        let mut hi: usize = self.cdf.len() - 1;
        assert(u * self.weight_sum < self.weight_sum * UNIT) by (nonlinear_arith)
            requires
                u < UNIT,
                self.weight_sum > 0,
        ;
        while hi - lo > 1
            invariant
                self.well_formed(),
                lo < hi < self.cdf@.len(),
                t == u * self.weight_sum,
                scale == UNIT,
                (self.cdf@[lo as int] as int) * UNIT <= t,
                t < (self.cdf@[hi as int] as int) * UNIT,
            decreases hi - lo,
        {
            let mid = lo + (hi - lo) / 2;
            let c = self.cdf[mid];
            assert((c as int) * UNIT <= u64::MAX * UNIT) by (nonlinear_arith)
                requires c <= u64::MAX;
            if (c as u128) * scale <= t {
                lo = mid;
            } else {
                hi = mid;
            }
        }
        assert(self.cdf@[lo as int] < self.cdf@[lo + 1]) by (nonlinear_arith)
            requires
                (self.cdf@[lo as int] as int) * UNIT <= t,
                t < (self.cdf@[lo + 1] as int) * UNIT,
        ;
        lo
    }
}

impl Distribution1D for Inversion1D {
    open spec fn weights(&self) -> Seq<u64> {
        Seq::new((self.cdf@.len() - 1) as nat, |i: int| (self.cdf@[i + 1] - self.cdf@[i]) as u64)
    }

    open spec fn well_formed(&self) -> bool {
        &&& self.cdf@.len() >= 2
        &&& self.cdf@[0] == 0
        &&& forall|i: int| 0 <= i < self.cdf@.len() - 1 ==> self.cdf@[i] <= #[trigger] self.cdf@[i + 1]
        &&& self.cdf@.last() == self.weight_sum
        &&& self.weight_sum > 0
    }

    open spec fn spec_index(&self, u: u32) -> int {
        inverse_cdf(self.weights(), u)
    }

    open spec fn spec_position(&self, u: u32) -> int {
        inverse_position(self.weights(), u)
    }

    proof fn lemma_well_formed(&self) {
        self.lemma_total();
    }

    proof fn lemma_index_in_range(&self, u: u32) {
        self.lemma_total();
        lemma_inverse_in_range(self.weights(), u);
    }

    fn build(weights: &[u64]) -> (r: Result<Self, DistributionError>) {
        let n = weights.len();
        if n == 0 {
            return Err(DistributionError::Empty);
        }
        let mut cdf: Vec<u64> = Vec::new();
        cdf.push(0);
        let mut i: usize = 0;
        while i < n
            invariant
                i <= n,
                n == weights@.len(),
                cdf@.len() == i + 1,
                forall|k: int| 0 <= k <= i ==> cdf@[k] == prefix(weights@, k),
                forall|k: int| 0 <= k < i ==> cdf@[k] <= #[trigger] cdf@[k + 1],
            decreases n - i,
        {
            let last = cdf[i];
            match last.checked_add(weights[i]) {
                Some(next) => {
                    cdf.push(next);
                },
                None => {
                    proof {
                        lemma_prefix_monotone(weights@, i + 1, n as int);
                    }
                    return Err(DistributionError::Overflow);
                },
            }
            i += 1;
        }
        let weight_sum = cdf[n];
        if weight_sum == 0 {
            return Err(DistributionError::ZeroTotal);
        }
        let d = Inversion1D { weight_sum, cdf };
        assert(d.weights() =~= weights@);
        Ok(d)
    }

    fn sample_discrete(&self, u: u32) -> (r: (u64, usize)) {
        let offset = self.find_bucket(u);
        proof {
            self.lemma_total();
            self.lemma_cdf_is_prefix(offset as int);
            self.lemma_cdf_is_prefix(offset + 1);
            assert(in_bucket(self.weights(), u, offset as int));
            lemma_in_bucket_is_inverse(self.weights(), u, offset as int);
        }
        let pdf = self.cdf[offset + 1] - self.cdf[offset];
        (pdf, offset)
    }

    fn sample_continuous(&self, u: u32) -> (r: (u64, u128)) {
        let offset = self.find_bucket(u);
        let lo = self.cdf[offset];
        let pdf = self.cdf[offset + 1] - lo;
        assert((u as int) * (self.weight_sum as int) <= u32::MAX * u64::MAX) by (nonlinear_arith)
            requires
                u <= u32::MAX,
                self.weight_sum <= u64::MAX,
        ;
        assert((lo as int) * UNIT <= u64::MAX * UNIT) by (nonlinear_arith)
            requires lo <= u64::MAX;
        let t: u128 = (u as u128) * (self.weight_sum as u128);
        let start: u128 = (lo as u128) * (UNIT as u128);
        let fraction = (t - start) / (pdf as u128);
        assert(fraction < UNIT) by (nonlinear_arith)
            requires
                fraction == (t - start) / (pdf as int),
                t < (lo + pdf) * UNIT,
                start == lo * UNIT,
                pdf > 0,
        ;
        assert((offset as int) * UNIT + UNIT <= u64::MAX * UNIT + UNIT) by (nonlinear_arith)
            requires offset <= u64::MAX;
        let position = (offset as u128) * (UNIT as u128) + fraction;
        assert(position / (UNIT as u128) == offset) by (nonlinear_arith)
            requires
                position == offset * UNIT + fraction,
                0 <= fraction < UNIT,
        ;
        proof {
            self.lemma_total();
            self.lemma_cdf_is_prefix(offset as int);
            self.lemma_cdf_is_prefix(offset + 1);
            lemma_in_bucket_is_inverse(self.weights(), u, offset as int);
        }
        (pdf, position)
    }

    fn pdf(&self, i: usize) -> (r: u64) {
        assert(i + 1 < self.cdf.len());
        assert(self.cdf@[i as int] <= self.cdf@[i + 1]);
        self.cdf[i + 1] - self.cdf[i]
    }

    fn integral(&self) -> (r: u64) {
        proof {
            self.lemma_total();
        }
        self.weight_sum
    }

    fn size(&self) -> (r: usize) {
        self.cdf.len() - 1
    }
}

} // verus!
