//! Haplotype Store: the allele matrix, one row per haplotype.
use vstd::prelude::*;

verus! {

/// Allele code for a missing call; the other codes are 0 and 1.
pub const ALLELE_MISSING: u8 = 2;

/// Errors raised while loading the allele matrix.
#[derive(Debug, Clone, Copy, PartialEq, Eq, Structural)]
pub enum StoreError {
    /// The row count differs from the sample list, a row has the wrong number
    /// of sites, or an allele code is unknown.
    FormatError,
}

/// The allele matrix, indexed by (haplotype row, site column).
pub struct HaplotypeStore {
    rows: Vec<Vec<u8>>,
    n_sites: usize,
}

/// Every row holds `n_sites` known allele codes.
pub open spec fn rows_valid(rows: Seq<Seq<u8>>, n_sites: int) -> bool {
    forall|h: int|
        0 <= h < rows.len() ==> (#[trigger] rows[h]).len() == n_sites && forall|s: int|
            0 <= s < n_sites ==> #[trigger] rows[h][s] <= ALLELE_MISSING
}

impl HaplotypeStore {
    /// The rows as sequences of allele codes.
    pub closed spec fn rows_view(&self) -> Seq<Seq<u8>> {
        self.rows@.map_values(|r: Vec<u8>| r@)
    }

    pub closed spec fn spec_n_sites(&self) -> nat {
        self.n_sites as nat
    }

    pub open spec fn wf(&self) -> bool {
        rows_valid(self.rows_view(), self.spec_n_sites() as int)
    }

    /// Loads the matrix: `n_haps` rows of `n_sites` alleles each, every allele
    /// 0, 1 or missing; anything else is a `FormatError`.
    pub fn new(rows: Vec<Vec<u8>>, n_haps: usize, n_sites: usize) -> (r: Result<
        HaplotypeStore,
        StoreError,
    >)
        ensures
            r is Ok <==> rows@.len() == n_haps && rows_valid(
                rows@.map_values(|v: Vec<u8>| v@),
                n_sites as int,
            ),
            r is Ok ==> r->Ok_0.wf() && r->Ok_0.rows_view() == rows@.map_values(|v: Vec<u8>| v@)
                && r->Ok_0.spec_n_sites() == n_sites,
            r is Err ==> r->Err_0 == StoreError::FormatError,
    {
        let ghost view = rows@.map_values(|v: Vec<u8>| v@);
        if rows.len() != n_haps {
            return Err(StoreError::FormatError);
        }
        let mut h: usize = 0;
        while h < rows.len()
            invariant
                h <= rows@.len(),
                view == rows@.map_values(|v: Vec<u8>| v@),
                view.len() == rows@.len(),
                forall|g: int|
                    0 <= g < h ==> (#[trigger] view[g]).len() == n_sites && forall|s: int|
                        0 <= s < n_sites ==> #[trigger] view[g][s] <= ALLELE_MISSING,
            decreases rows.len() - h,
        {
            let row = &rows[h];
            assert(view[h as int] == row@);
            if row.len() != n_sites {
                return Err(StoreError::FormatError);
            }
            let mut s: usize = 0;
            while s < n_sites
                invariant
                    s <= n_sites,
                    h < rows@.len(),
                    view.len() == rows@.len(),
                    view == rows@.map_values(|v: Vec<u8>| v@),
                    view[h as int] == row@,
                    row@.len() == n_sites,
                    forall|t: int| 0 <= t < s ==> #[trigger] row@[t] <= ALLELE_MISSING,
                decreases n_sites - s,
            {
                if row[s] > ALLELE_MISSING {
                    assert(view[h as int][s as int] > ALLELE_MISSING);
                    assert(!rows_valid(view, n_sites as int)) by {
                        if rows_valid(view, n_sites as int) {
                            let hh = h as int;
                            assert((view[hh]).len() == n_sites);
                            assert(view[hh][s as int] <= ALLELE_MISSING);
                        }
                    }
                    return Err(StoreError::FormatError);
                }
                s += 1;
            }
            h += 1;
        }
        Ok(HaplotypeStore { rows, n_sites })
    }

    /// Number of haplotypes.
    pub fn n_haps(&self) -> (r: usize)
        ensures
            r == self.rows_view().len(),
    {
        self.rows.len()
    }

    /// Number of sites.
    pub fn n_sites(&self) -> (r: usize)
        ensures
            r == self.spec_n_sites(),
    {
        self.n_sites
    }

    /// Alleles of haplotype `h` at sites `start..end`.
    pub fn row_slice(&self, h: usize, start: usize, end: usize) -> (r: Vec<u8>)
        requires
            self.wf(),
            h < self.rows_view().len(),
            start <= end <= self.spec_n_sites(),
        ensures
            r@ == self.rows_view()[h as int].subrange(start as int, end as int),
    {
        let row = &self.rows[h];
        assert(row@ == self.rows_view()[h as int]);
        let mut r: Vec<u8> = Vec::new();
        let mut s: usize = start;
        while s < end
            invariant
                start <= s <= end,
                end <= row@.len(),
                r@ == row@.subrange(start as int, s as int),
            decreases end - s,
        {
            r.push(row[s]);
            s += 1;
            assert(r@ =~= row@.subrange(start as int, s as int));
        }
        r
    }

    /// Alleles of every haplotype at site `site`, in row order.
    pub fn column(&self, site: usize) -> (r: Vec<u8>)
        requires
            self.wf(),
            site < self.spec_n_sites(),
        ensures
            r@.len() == self.rows_view().len(),
            forall|h: int| 0 <= h < r@.len() ==> r@[h] == #[trigger] self.rows_view()[h][site as int],
    {
        let mut r: Vec<u8> = Vec::new();
        let mut h: usize = 0;
        while h < self.rows.len()
            invariant
                self.wf(),
                site < self.spec_n_sites(),
                h <= self.rows_view().len(),
                r@.len() == h,
                forall|g: int| 0 <= g < h ==> r@[g] == #[trigger] self.rows_view()[g][site as int],
            decreases self.rows.len() - h,
        {
            assert(self.rows@[h as int]@ == self.rows_view()[h as int]);
            r.push(self.rows[h][site]);
            h += 1;
        }
        r
    }
}

} // verus!
