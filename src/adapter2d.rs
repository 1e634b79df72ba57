use vstd::prelude::*;

use crate::distribution::{
    build_error, grid_error, grid_view, lemma_rows_error_stays, lemma_valid_total, row_totals,
    rows_error, total, Distribution1D,
    Distribution2D, DistributionError,
};

verus! {

/// A 2D distribution composed of 1D ones: a marginal distribution over the rows, whose
/// weights are the rows' totals, and one conditional distribution per row.
///
/// Sampling draws a row from the marginal, then a column from that row's conditional;
/// the joint density is the product of the two densities.
pub struct Adapter2D<D: Distribution1D> {
    pub marginal: D,
    pub conditional: Vec<D>,
}

impl<D: Distribution1D> Adapter2D<D> {
    /// The selected cell lies in the grid and carries positive weight, the density that
    /// `sample` returns is `pdf` at the selected cell, and it is the product of the
    /// marginal density of the row and the conditional density of the column within it,
    /// which is the row's total weight times the cell's weight.
    pub proof fn lemma_sample_density_is_pdf(&self, u: u32, v: u32)
        requires
            self.well_formed(),
        ensures
            ({
                let (x, y) = self.spec_sample(u, v);
                &&& 0 <= y < self.rows().len()
                &&& 0 <= x < self.rows()[y].len()
                &&& self.rows()[y][x] > 0
                &&& y == self.marginal.spec_index(u)
                &&& x == self.conditional@[y].spec_index(v)
                &&& self.spec_pdf(x, y) == self.marginal.weights()[y]
                    * self.conditional@[y].weights()[x]
                &&& self.spec_pdf(x, y) == total(self.rows()[y]) * self.rows()[y][x]
            }),
    {
        self.marginal.lemma_index_in_range(u);
        let y = self.marginal.spec_index(u);
        self.conditional@[y].lemma_index_in_range(v);
        self.conditional@[y].lemma_well_formed();
        lemma_valid_total(self.conditional@[y].weights());
    }
}

impl<D: Distribution1D> Distribution2D for Adapter2D<D> {
    open spec fn rows(&self) -> Seq<Seq<u64>> {
        Seq::new(self.conditional@.len(), |r: int| self.conditional@[r].weights())
    }

    open spec fn well_formed(&self) -> bool {
        &&& self.marginal.well_formed()
        &&& self.marginal.weights() == row_totals(self.rows())
        &&& forall|r: int| 0 <= r < self.conditional@.len() ==> #[trigger] self.conditional@[r].well_formed()
    }

    open spec fn spec_sample(&self, u: u32, v: u32) -> (int, int) {
        let y = self.marginal.spec_index(u);
        (self.conditional@[y].spec_index(v), y)
    }

    open spec fn spec_pdf(&self, x: int, y: int) -> int {
        self.marginal.weights()[y] * self.conditional@[y].weights()[x]
    }

    fn build(weights: &[Vec<u64>]) -> (r: Result<Self, DistributionError>) {
        let ghost g = grid_view(weights@);
        let mut conditional: Vec<D> = Vec::new();
        let mut marginal_weights: Vec<u64> = Vec::new();
        let mut i: usize = 0;
        while i < weights.len()
            invariant
                g == grid_view(weights@),
                i <= weights@.len(),
                conditional@.len() == i,
                marginal_weights@.len() == i,
                rows_error(g, i as int) is None,
                forall|r: int|
                    0 <= r < i ==> {
                        &&& (#[trigger] conditional@[r]).well_formed()
                        &&& conditional@[r].weights() == g[r]
                        &&& marginal_weights@[r] == total(g[r])
                    },
            decreases weights@.len() - i,
        {
            match D::build(weights[i].as_slice()) {
                Ok(table) => {
                    let integral = table.integral();
                    marginal_weights.push(integral);
                    conditional.push(table);
                },
                Err(e) => {
                    proof {
                        assert(weights@[i as int]@ == g[i as int]);
                        lemma_rows_error_stays(g, i + 1, g.len() as int);
                    }
                    return Err(e);
                },
            }
            i += 1;
        }
        let ghost rows = Seq::new(conditional@.len(), |r: int| conditional@[r].weights());
        assert(rows =~= g);
        assert(marginal_weights@ =~= row_totals(g));
        match D::build(marginal_weights.as_slice()) {
            Ok(marginal) => {
                let d = Adapter2D { marginal, conditional };
                assert(d.rows() =~= g);
                Ok(d)
            },
            Err(e) => Err(e),
        }
    }

    fn sample(&self, uv: [u32; 2]) -> (r: (u128, [usize; 2])) {
        let (pdf_y, y) = self.marginal.sample_discrete(uv[0]);
        proof {
            self.lemma_sample_density_is_pdf(uv[0], uv[1]);
        }
        let (pdf_x, x) = self.conditional[y].sample_discrete(uv[1]);
        assert((pdf_x as int) * (pdf_y as int) <= u64::MAX * u64::MAX) by (nonlinear_arith)
            requires
                pdf_x <= u64::MAX,
                pdf_y <= u64::MAX,
        ;
        ((pdf_y as u128) * (pdf_x as u128), [x, y])
    }

    fn pdf(&self, xy: [usize; 2]) -> (r: u128) {
        let pdf_y = self.marginal.pdf(xy[1]);
        let pdf_x = self.conditional[xy[1]].pdf(xy[0]);
        assert((pdf_y as int) * (pdf_x as int) <= u64::MAX * u64::MAX) by (nonlinear_arith)
            requires
                pdf_x <= u64::MAX,
                pdf_y <= u64::MAX,
        ;
        (pdf_y as u128) * (pdf_x as u128)
    }
}

} // verus!
