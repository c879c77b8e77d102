//! Row-major matrices of field elements.

use vstd::arithmetic::div_mod::lemma_fundamental_div_mod;
use vstd::prelude::*;

use crate::babybear::{canonical, BABYBEAR_P};
use crate::rows::TableModel;

verus! {

/// A matrix of `u32` values, row after row.
#[derive(Debug)]
pub struct RowMatrix {
    pub values: Vec<u32>,
    pub width: usize,
}

/// The mathematical reading of a [`RowMatrix`].
#[verifier::ext_equal]
pub struct MatrixView {
    pub values: Seq<u32>,
    pub width: nat,
}

impl View for RowMatrix {
    type V = MatrixView;

    open spec fn view(&self) -> MatrixView {
        MatrixView { values: self.values@, width: self.width as nat }
    }
}

impl MatrixView {
    /// Every value is a canonical field element, as befits a trace.
    pub open spec fn wf(self) -> bool {
        canonical(self.values)
    }

    /// The number of whole rows; a matrix without columns has none.
    pub open spec fn height(self) -> nat {
        if self.width == 0 {
            0
        } else {
            self.values.len() / self.width
        }
    }

    /// Row `i`.
    pub open spec fn row(self, i: int) -> Seq<u32> {
        self.values.subrange(i * self.width as int, (i + 1) * self.width as int)
    }

    /// All rows.
    pub open spec fn rows(self) -> Seq<Seq<u32>> {
        Seq::new(self.height(), |i: int| self.row(i))
    }

    /// What a table with these values holds. The number of rows is counted with 32 bits.
    pub open spec fn table(self) -> TableModel {
        TableModel {
            rows: self.height() as u32,
            cols: self.width as u32,
            data: self.rows().take((self.height() as u32) as int),
            readable: Seq::new((self.height() as u32) as nat, |i: int| true),
        }
    }
}

/// The rows of a well-formed matrix are canonical.
pub proof fn lemma_rows_canonical(m: MatrixView, i: int)
    requires
        m.wf(),
        0 <= i < m.height(),
    ensures
        canonical(m.row(i)),
        m.row(i).len() == m.width,
{
    lemma_rows_within(m, i);
    assert forall|k: int| 0 <= k < m.row(i).len() implies #[trigger] m.row(i)[k] < BABYBEAR_P by {
        assert(m.row(i)[k] == m.values[i * m.width + k]);
    }
}

/// The whole rows of a matrix lie within its values.
pub proof fn lemma_rows_within(m: MatrixView, i: int)
    requires
        0 <= i < m.height(),
    ensures
        m.width > 0,
        0 <= i * m.width,
        i * m.width + m.width == (i + 1) * m.width,
        (i + 1) * m.width <= m.values.len(),
        m.row(i).len() == m.width,
{
    let h = m.height() as int;
    let w = m.width as int;
    lemma_fundamental_div_mod(m.values.len() as int, w);
    assert(0 <= i * w && i * w + w == (i + 1) * w && (i + 1) * w <= h * w && h * w == w * h)
        by (nonlinear_arith)
        requires
            0 <= i < h,
            w > 0,
    ;
}

impl RowMatrix {
    /// The number of whole rows; a matrix without columns has none.
    pub fn height(&self) -> (r: usize)
        ensures
            r == self@.height(),
    {
        if self.width == 0 {
            0
        } else {
            self.values.len() / self.width
        }
    }

    /// Copies out a row.
    pub fn row(&self, i: usize) -> (r: Vec<u32>)
        requires
            i < self@.height(),
        ensures
            r@ == self@.row(i as int),
            r@.len() == self.width,
            self@.wf() ==> canonical(r@),
    {
        proof {
            lemma_rows_within(self@, i as int);
            if self@.wf() {
                lemma_rows_canonical(self@, i as int);
            }
        }
        let len: usize = self.values.len();
        let start: usize = i * self.width;
        let mut r: Vec<u32> = Vec::new();
        let mut k: usize = 0;
        while k < self.width
            invariant
                k <= self.width,
                r@ == self.values@.subrange(start as int, start + k),
                start + self.width <= len,
                len == self.values@.len(),
            decreases self.width - k,
        {
            r.push(self.values[start + k]);
            k += 1;
        }
        r
    }
}

} // verus!
