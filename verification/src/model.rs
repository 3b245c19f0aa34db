//! The in-memory domain model: a dense rectangular matrix, a detection, and a
//! uid-tagged list of detections.
//!
//! All 64-bit floating-point quantities of the domain (timestamps, coordinates
//! and matrix entries) are stored as their IEEE-754 bit patterns (`u64`), so
//! that equality and preservation through the wire format can be stated
//! bit-exactly.

use vstd::prelude::*;

verus! {

/// Mathematical value of a [`Matrix`]: a row-major sequence of entries
/// together with its dimensions.
#[verifier::ext_equal]
pub ghost struct MatrixView {
    pub rows: nat,
    pub cols: nat,
    pub data: Seq<u64>,
}

impl MatrixView {
    /// A matrix value is well formed when it stores exactly `rows * cols`
    /// entries.
    pub open spec fn wf(&self) -> bool {
        self.data.len() == self.rows * self.cols
    }

    /// Entry in row `r`, column `c` (row-major layout).
    pub open spec fn entry(&self, r: int, c: int) -> u64 {
        self.data[r * self.cols + c]
    }

    /// The matrix split into its rows, outermost first.
    pub open spec fn row_seqs(&self) -> Seq<Seq<u64>> {
        Seq::new(self.rows, |i: int| self.data.subrange(i * self.cols, i * self.cols + self.cols))
    }
}

/// Dense rectangular matrix of 64-bit bit patterns, stored in row-major
/// order.  The dimensions are runtime values and may be zero.
#[derive(Debug)]
pub struct Matrix {
    pub rows: usize,
    pub cols: usize,
    pub data: Vec<u64>,
}

impl View for Matrix {
    type V = MatrixView;

    open spec fn view(&self) -> MatrixView {
        MatrixView { rows: self.rows as nat, cols: self.cols as nat, data: self.data@ }
    }
}

impl Matrix {
    /// Rectangularity invariant: the flat data holds one entry per cell.
    pub open spec fn wf(&self) -> bool {
        self@.wf()
    }

    /// Builds a matrix from its row-major entries.
    pub fn new(rows: usize, cols: usize, data: Vec<u64>) -> (m: Matrix)
        requires
            data@.len() == rows * cols,
        ensures
            m@ == (MatrixView { rows: rows as nat, cols: cols as nat, data: data@ }),
            m.wf(),
    {
        Matrix { rows, cols, data }
    }

    /// Entry in row `r`, column `c`.
    pub fn get(&self, r: usize, c: usize) -> (v: u64)
        requires
            self.wf(),
            r < self.rows,
            c < self.cols,
        ensures
            v == self@.entry(r as int, c as int),
    {
        let n = self.data.len();
        proof {
            lemma_row_major_index_bounds(self.rows as nat, self.cols as nat, r as nat, c as nat);
            assert(r * self.cols + c < n);
        }
        self.data[r * self.cols + c]
    }
}

/// Mathematical value of a [`Detection`].
#[verifier::ext_equal]
pub ghost struct DetectionView {
    pub timestamp: u64,
    pub number: nat,
    pub x: u64,
    pub y: u64,
    pub mat: MatrixView,
}

impl DetectionView {
    pub open spec fn wf(&self) -> bool {
        &&& self.number <= usize::MAX
        &&& self.mat.wf()
    }
}

/// A single sensor observation: a timestamp, a sequence number, a 2D
/// coordinate and a dense matrix.  `timestamp`, `x` and `y` hold IEEE-754
/// bit patterns of 64-bit floating-point values.
#[derive(Debug)]
pub struct Detection {
    pub timestamp: u64,
    pub number: usize,
    pub x: u64,
    pub y: u64,
    pub mat: Matrix,
}

impl View for Detection {
    type V = DetectionView;

    open spec fn view(&self) -> DetectionView {
        DetectionView {
            timestamp: self.timestamp,
            number: self.number as nat,
            x: self.x,
            y: self.y,
            mat: self.mat@,
        }
    }
}

impl Detection {
    pub open spec fn wf(&self) -> bool {
        self@.wf()
    }
}

/// The views of a sequence of detections, in order.
pub open spec fn dets_view(s: Seq<Detection>) -> Seq<DetectionView> {
    s.map_values(|d: Detection| d@)
}

/// Mathematical value of a [`DetectionList`].
#[verifier::ext_equal]
pub ghost struct DetectionListView {
    pub uid: Seq<char>,
    pub dets: Seq<DetectionView>,
}

impl DetectionListView {
    pub open spec fn wf(&self) -> bool {
        forall|i: int| 0 <= i < self.dets.len() ==> (#[trigger] self.dets[i]).wf()
    }
}

/// An ordered, uid-tagged collection of detections.  Order is meaningful and
/// preserved through every transformation.
#[derive(Debug)]
pub struct DetectionList {
    pub uid: String,
    pub dets: Vec<Detection>,
}

impl View for DetectionList {
    type V = DetectionListView;

    open spec fn view(&self) -> DetectionListView {
        DetectionListView { uid: self.uid@, dets: dets_view(self.dets@) }
    }
}

impl DetectionList {
    pub open spec fn wf(&self) -> bool {
        self@.wf()
    }
}

impl PartialEq for Matrix {
    /// Field-wise equality: same shape and bit-identical entries.
    fn eq(&self, other: &Matrix) -> (r: bool) {
        let same = self.rows == other.rows && self.cols == other.cols && self.data == other.data;
        proof {
            if same {
                assert(self@ =~= other@);
            } else if self@ == other@ {
                assert(self.data@ == other.data@);
                assert(forall|i: int|
                    0 <= i < self.data@.len() ==> self.data@[i] == other.data@[i]);
                assert(false);
            }
        }
        same
    }
}

impl vstd::std_specs::cmp::PartialEqSpecImpl for Matrix {
    open spec fn obeys_eq_spec() -> bool {
        true
    }

    open spec fn eq_spec(&self, other: &Matrix) -> bool {
        self@ == other@
    }
}

impl PartialEq for Detection {
    /// Field-wise equality, bit-exact on the floating-point bit patterns.
    fn eq(&self, other: &Detection) -> (r: bool) {
        let same = self.timestamp == other.timestamp && self.number == other.number
            && self.x == other.x && self.y == other.y && self.mat == other.mat;
        proof {
            if same {
                assert(self@ =~= other@);
            }
        }
        same
    }
}

impl vstd::std_specs::cmp::PartialEqSpecImpl for Detection {
    open spec fn obeys_eq_spec() -> bool {
        true
    }

    open spec fn eq_spec(&self, other: &Detection) -> bool {
        self@ == other@
    }
}

impl PartialEq for DetectionList {
    /// Field-wise equality: same uid and element-wise equal detections.
    fn eq(&self, other: &DetectionList) -> (r: bool) {
        let same = self.uid == other.uid && self.dets == other.dets;
        proof {
            if same {
                assert(forall|i: int|
                    0 <= i < self.dets@.len() ==> #[trigger] self.dets@[i]@ == other.dets@[i]@);
                assert(self@.dets =~= other@.dets);
                assert(self@ =~= other@);
            } else if self@ == other@ {
                assert(dets_view(self.dets@) =~= dets_view(other.dets@));
                assert(self.dets@.len() == other.dets@.len());
                assert(forall|i: int| 0 <= i < self.dets@.len() ==> {
                    &&& (#[trigger] self.dets@[i])@ == dets_view(self.dets@)[i]
                    &&& other.dets@[i]@ == dets_view(other.dets@)[i]
                });
                assert(false);
            }
        }
        same
    }
}

impl vstd::std_specs::cmp::PartialEqSpecImpl for DetectionList {
    open spec fn obeys_eq_spec() -> bool {
        true
    }

    open spec fn eq_spec(&self, other: &DetectionList) -> bool {
        self@ == other@
    }
}

/// For `r < rows` and `c < cols`, the row-major index `r * cols + c` is a
/// valid index into a `rows * cols` buffer.
pub proof fn lemma_row_major_index_bounds(rows: nat, cols: nat, r: nat, c: nat)
    requires
        r < rows,
        c < cols,
    ensures
        r * cols + c < rows * cols,
{
    assert(r * cols + c < rows * cols) by (nonlinear_arith)
        requires
            r < rows,
            c < cols,
    ;
}

/// For `r < rows`, the row-major slice `[r * cols, r * cols + cols)` lies
/// within a `rows * cols` buffer.
pub proof fn lemma_row_slice_bounds(rows: nat, cols: nat, r: nat)
    requires
        r < rows,
    ensures
        r * cols + cols <= rows * cols,
{
    assert(r * cols + cols <= rows * cols) by (nonlinear_arith)
        requires
            r < rows,
    ;
}

} // verus!
