//! Evaluation matrices: ordered rows of field elements, one column per
//! batched polynomial. The commitment scheme batches matrices of different
//! heights, so heights are kept as plain row counts here and constrained to
//! powers of two only where the tree builder requires it.

use vstd::prelude::*;
use crate::field::Fe;
use crate::hash::rows_view;

verus! {

/// The width and height of one committed matrix; the verifier uses these to
/// know which heights inject at which tree layer.
#[derive(Clone, Copy, PartialEq, Eq, Structural, Debug)]
pub struct Dimensions {
    pub width: usize,
    pub height: usize,
}

/// A dense row-major evaluation matrix.
pub struct Matrix {
    pub rows: Vec<Vec<Fe>>,
    pub width: usize,
}

impl View for Matrix {
    type V = Seq<Seq<Fe>>;

    open spec fn view(&self) -> Seq<Seq<Fe>> {
        rows_view(self.rows@)
    }
}

impl Matrix {
    /// Shape well-formedness: every row has exactly `width` entries.
    pub open spec fn well_formed(self) -> bool {
        forall|i: int| 0 <= i < self.rows@.len() ==> (#[trigger] self.rows@[i])@.len()
            == self.width as nat
    }

    /// Every entry is a reduced field element.
    pub open spec fn elements_wf(self) -> bool {
        forall|i: int, j: int|
            0 <= i < self@.len() && 0 <= j < self@[i].len() ==> (#[trigger] self@[i][j]).wf()
    }

    /// Row count.
    pub open spec fn height_spec(self) -> nat {
        self.rows@.len()
    }

    /// Builds a matrix after checking that every row has the stated width.
    pub fn new(rows: Vec<Vec<Fe>>, width: usize) -> (r: Option<Matrix>)
        ensures
            match r {
                Some(m) => m.rows == rows && m.width == width && m.well_formed(),
                None => !(Matrix { rows, width }).well_formed(),
            },
    {
        let mut i: usize = 0;
        while i < rows.len()
            invariant
                i <= rows@.len(),
                forall|t: int| 0 <= t < i ==> (#[trigger] rows@[t])@.len() == width as nat,
            decreases rows@.len() - i,
        {
            if rows[i].len() != width {
                proof {
                    assert((Matrix { rows, width }).rows@[i as int]@.len() != width as nat);
                }
                return None;
            }
            i = i + 1;
        }
        Some(Matrix { rows, width })
    }

    /// Row count.
    pub fn height(&self) -> (h: usize)
        ensures
            h == self.height_spec(),
            h == self@.len(),
    {
        self.rows.len()
    }

    /// Column count.
    pub fn width(&self) -> (w: usize)
        ensures
            w == self.width,
    {
        self.width
    }

    /// This matrix's dimensions, as the verifier consumes them.
    pub fn dimensions(&self) -> (d: Dimensions)
        ensures
            d.width == self.width,
            d.height == self.height_spec(),
    {
        Dimensions { width: self.width, height: self.rows.len() }
    }
}

/// Copies a whole matrix; the FRI prover flattens its input batches this way.
pub fn copy_matrix(m: &Matrix) -> (r: Matrix)
    ensures
        r@ == m@,
        r.width == m.width,
        m.well_formed() ==> r.well_formed(),
{
    let mut rows: Vec<Vec<Fe>> = Vec::new();
    let mut i: usize = 0;
    while i < m.rows.len()
        invariant
            i <= m.rows@.len(),
            rows@.len() == i as nat,
            forall|t: int| 0 <= t < i ==> (#[trigger] rows@[t])@ == m.rows@[t]@,
        decreases m.rows@.len() - i,
    {
        let row = copy_row(&m.rows[i]);
        rows.push(row);
        i = i + 1;
    }
    let r = Matrix { rows, width: m.width };
    proof {
        assert(r@ =~= m@);
        if m.well_formed() {
            assert forall|t: int| 0 <= t < r.rows@.len() implies (#[trigger] r.rows@[t])@.len()
                == r.width as nat by {
                assert(r.rows@[t]@ == m.rows@[t]@);
            }
        }
    }
    r
}

/// Copies one row; the tree builder hands copies to the hasher.
pub fn copy_row(row: &Vec<Fe>) -> (r: Vec<Fe>)
    ensures
        r@ == row@,
{
    let mut out: Vec<Fe> = Vec::new();
    let mut i: usize = 0;
    while i < row.len()
        invariant
            i <= row@.len(),
            out@ =~= row@.take(i as int),
        decreases row@.len() - i,
    {
        out.push(row[i]);
        i = i + 1;
    }
    proof {
        assert(row@.take(row@.len() as int) =~= row@);
    }
    out
}

} // verus!
