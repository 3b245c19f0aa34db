//! The wire message tree and the adapter between it and the domain model.
//!
//! A matrix has no direct counterpart on the wire: it travels as an ordered
//! sequence of rows, each an ordered sequence of column values.  Flattening a
//! domain detection always succeeds; reconstruction re-infers the dimensions
//! from the row sequence and validates that the flattened value count matches
//! `rows * cols`, failing with [`WireError::DimensionMismatch`] otherwise.

use vstd::prelude::*;

use crate::model::dets_view;
use crate::model::Detection;
use crate::model::DetectionList;
use crate::model::DetectionListView;
use crate::model::DetectionView;
use crate::model::Matrix;
use crate::model::MatrixView;

verus! {

/// Conversion and parsing failures, surfaced to the caller; none of them is
/// recovered from internally.
#[derive(Clone, Copy, Debug, PartialEq, Eq, Structural)]
pub enum WireError {
    /// The dimensions inferred from a wire matrix do not match the number of
    /// transmitted values.
    DimensionMismatch,
    /// A wire numeric field does not fit the domain's numeric type.
    NumericOverflow,
    /// The wire bytes do not parse as a detection list message.
    MalformedMessage,
}

/// Wire counterpart of one matrix row: an ordered sequence of column values
/// (IEEE-754 bit patterns).
pub struct MatrixRowMsg {
    pub values: Vec<u64>,
}

impl View for MatrixRowMsg {
    type V = Seq<u64>;

    open spec fn view(&self) -> Seq<u64> {
        self.values@
    }
}

/// The views of a sequence of row messages, in order.
pub open spec fn row_msgs_view(s: Seq<MatrixRowMsg>) -> Seq<Seq<u64>> {
    s.map_values(|r: MatrixRowMsg| r@)
}

/// Mathematical value of a [`DetectionMsg`].
#[verifier::ext_equal]
pub ghost struct DetectionMsgView {
    pub timestamp: u64,
    pub number: u64,
    pub x: u64,
    pub y: u64,
    pub rows: Seq<Seq<u64>>,
}

/// Wire counterpart of a detection; the matrix is flattened into rows.
pub struct DetectionMsg {
    pub timestamp: u64,
    pub number: u64,
    pub x: u64,
    pub y: u64,
    pub mat_rows: Vec<MatrixRowMsg>,
}

impl View for DetectionMsg {
    type V = DetectionMsgView;

    open spec fn view(&self) -> DetectionMsgView {
        DetectionMsgView {
            timestamp: self.timestamp,
            number: self.number,
            x: self.x,
            y: self.y,
            rows: row_msgs_view(self.mat_rows@),
        }
    }
}

/// The views of a sequence of detection messages, in order.
pub open spec fn det_msgs_view(s: Seq<DetectionMsg>) -> Seq<DetectionMsgView> {
    s.map_values(|d: DetectionMsg| d@)
}

/// Mathematical value of a [`DetectionListMsg`].
#[verifier::ext_equal]
pub ghost struct DetectionListMsgView {
    pub uid: Seq<char>,
    pub dets: Seq<DetectionMsgView>,
}

/// Wire counterpart of a detection list.
pub struct DetectionListMsg {
    pub uid: String,
    pub dets: Vec<DetectionMsg>,
}

impl View for DetectionListMsg {
    type V = DetectionListMsgView;

    open spec fn view(&self) -> DetectionListMsgView {
        DetectionListMsgView {
            uid: self.uid@,
            dets: det_msgs_view(self.dets@),
        }
    }
}

/// What flattening one detection produces: the matrix split into its rows,
/// the sequence number widened to 64 bits, all other fields copied.
pub open spec fn spec_flatten_detection(d: DetectionView) -> DetectionMsgView {
    DetectionMsgView {
        timestamp: d.timestamp,
        number: d.number as u64,
        x: d.x,
        y: d.y,
        rows: d.mat.row_seqs(),
    }
}

/// What flattening a list produces: the uid copied and every detection
/// flattened, in order.
pub open spec fn spec_flatten_list(l: DetectionListView) -> DetectionListMsgView {
    DetectionListMsgView {
        uid: l.uid,
        dets: Seq::new(l.dets.len(), |i: int| spec_flatten_detection(l.dets[i])),
    }
}

/// What reconstructing one detection means.  `rows` is the row count, `cols`
/// the length of the first row (0 when there are no rows); the concatenated
/// values must number exactly `rows * cols`, else `DimensionMismatch`; a
/// sequence number beyond the domain's index type is `NumericOverflow`.
pub open spec fn spec_reconstruct_detection(m: DetectionMsgView) -> Result<DetectionView, WireError> {
    let rows = m.rows.len();
    let cols: nat = if rows > 0 {
        m.rows[0].len()
    } else {
        0
    };
    let flat = m.rows.flatten();
    if flat.len() != rows * cols {
        Err(WireError::DimensionMismatch)
    } else if m.number > usize::MAX {
        Err(WireError::NumericOverflow)
    } else {
        Ok(
            DetectionView {
                timestamp: m.timestamp,
                number: m.number as nat,
                x: m.x,
                y: m.y,
                mat: MatrixView { rows, cols, data: flat },
            },
        )
    }
}

/// Fail-fast reconstruction of a detection sequence: the first failing
/// element's error is returned, otherwise all reconstructed detections in
/// order.
pub open spec fn spec_reconstruct_dets(ms: Seq<DetectionMsgView>) -> Result<
    Seq<DetectionView>,
    WireError,
>
    decreases ms.len(),
{
    if ms.len() == 0 {
        Ok(Seq::<DetectionView>::empty())
    } else {
        match spec_reconstruct_detection(ms[0]) {
            Err(e) => Err(e),
            Ok(d) => match spec_reconstruct_dets(ms.drop_first()) {
                Err(e) => Err(e),
                Ok(ds) => Ok(seq![d] + ds),
            },
        }
    }
}

/// Flattens a detection into its wire message.  Total: any well-formed
/// detection can be flattened.
pub fn flatten_detection(d: &Detection) -> (m: DetectionMsg)
    requires
        d.wf(),
    ensures
        m@ == spec_flatten_detection(d@),
{
    let rows = d.mat.rows;
    let cols = d.mat.cols;
    let mut mat_rows: Vec<MatrixRowMsg> = Vec::new();
    for r in 0..rows
        invariant
            d.wf(),
            rows == d.mat.rows,
            cols == d.mat.cols,
            row_msgs_view(mat_rows@) == d.mat@.row_seqs().take(r as int),
    {
        let mut values: Vec<u64> = Vec::new();
        for c in 0..cols
            invariant
                d.wf(),
                rows == d.mat.rows,
                cols == d.mat.cols,
                r < rows,
                values@.len() == c,
                forall|j: int| 0 <= j < c ==> values@[j] == d.mat@.entry(r as int, j),
        {
            let v = d.mat.get(r, c);
            values.push(v);
        }
        proof {
            crate::model::lemma_row_slice_bounds(rows as nat, cols as nat, r as nat);
            assert(values@ =~= d.mat@.row_seqs()[r as int]);
        }
        let ghost pre = mat_rows@;
        let ghost row_view = values@;
        mat_rows.push(MatrixRowMsg { values });
        proof {
            let rs = d.mat@.row_seqs();
            assert(row_msgs_view(pre).len() == pre.len());
            assert(pre.len() == r as int);
            assert(mat_rows@.len() == r as int + 1);
            assert(mat_rows@[r as int].values@ == row_view);
            assert forall|i: int| 0 <= i < mat_rows@.len() implies row_msgs_view(mat_rows@)[i]
                == rs.take(r as int + 1)[i] by {
                assert(row_msgs_view(mat_rows@)[i] == mat_rows@[i]@);
                if i < r as int {
                    assert(mat_rows@[i] == pre[i]);
                    assert(row_msgs_view(pre)[i] == pre[i]@);
                }
            }
            assert(row_msgs_view(mat_rows@) =~= rs.take(r as int + 1));
        }
    }
    proof {
        assert(d.mat@.row_seqs().take(rows as int) =~= d.mat@.row_seqs());
    }
    let m = DetectionMsg {
        timestamp: d.timestamp,
        number: d.number as u64,
        x: d.x,
        y: d.y,
        mat_rows,
    };
    proof {
        assert(m@ =~= spec_flatten_detection(d@));
    }
    m
}

/// Reconstructs a detection from its wire message, validating the matrix
/// dimensions and the sequence number exactly as
/// [`spec_reconstruct_detection`] states.
pub fn reconstruct_detection(m: &DetectionMsg) -> (r: Result<Detection, WireError>)
    ensures
        match r {
            Ok(d) => spec_reconstruct_detection(m@) == Ok::<DetectionView, WireError>(d@) && d.wf(),
            Err(e) => spec_reconstruct_detection(m@) == Err::<DetectionView, WireError>(e),
        },
{
    let rows = m.mat_rows.len();
    let cols = if rows > 0 {
        m.mat_rows[0].values.len()
    } else {
        0
    };
    let mut data: Vec<u64> = Vec::new();
    for i in 0..rows
        invariant
            rows == m.mat_rows@.len(),
            data@ == m@.rows.take(i as int).flatten(),
    {
        proof {
            assert(m@.rows.take(i as int).push(m@.rows[i as int]) =~= m@.rows.take(i as int + 1));
            m@.rows.take(i as int).lemma_flatten_push(m@.rows[i as int]);
        }
        let row = &m.mat_rows[i];
        proof {
            assert(m@.rows[i as int] == m.mat_rows@[i as int]@);
            assert(row@ == m@.rows[i as int]);
        }
        let mut j: usize = 0;
        while j < row.values.len()
            invariant
                rows == m.mat_rows@.len(),
                i < rows,
                row@ == m@.rows[i as int],
                j <= row.values@.len(),
                data@ == m@.rows.take(i as int).flatten() + m@.rows[i as int].take(j as int),
            decreases row.values@.len() - j,
        {
            data.push(row.values[j]);
            j += 1;
            proof {
                assert(data@ =~= m@.rows.take(i as int).flatten() + m@.rows[i as int].take(
                    j as int,
                ));
            }
        }
        proof {
            assert(m@.rows[i as int].take(row.values@.len() as int) =~= m@.rows[i as int]);
        }
    }
    proof {
        assert(m@.rows.take(rows as int) =~= m@.rows);
    }
    proof {
        assert((rows as int) * (cols as int) <= u128::MAX) by (nonlinear_arith)
            requires
                (rows as int) < 0x10000000000000000,
                (cols as int) < 0x10000000000000000,
        ;
    }
    if (data.len() as u128) != (rows as u128) * (cols as u128) {
        return Err(WireError::DimensionMismatch);
    }
    if m.number > usize::MAX as u64 {
        return Err(WireError::NumericOverflow);
    }
    let mat = Matrix::new(rows, cols, data);
    let d = Detection { timestamp: m.timestamp, number: m.number as usize, x: m.x, y: m.y, mat };
    proof {
        assert(spec_reconstruct_detection(m@) == Ok::<DetectionView, WireError>(d@)) by {
            assert(d@ =~= spec_reconstruct_detection(m@)->Ok_0);
        }
    }
    Ok(d)
}


/// Concatenating a well-formed matrix's rows yields its row-major data back.
pub proof fn lemma_row_seqs_flatten(m: MatrixView)
    requires
        m.wf(),
    ensures
        m.row_seqs().flatten() == m.data,
{
    lemma_row_seqs_flatten_prefix(m, m.rows as int);
    assert(m.row_seqs().take(m.rows as int) =~= m.row_seqs());
    assert(m.data.subrange(0, (m.rows * m.cols) as int) =~= m.data);
}

proof fn lemma_row_seqs_flatten_prefix(m: MatrixView, k: int)
    requires
        m.wf(),
        0 <= k <= m.rows,
    ensures
        m.row_seqs().take(k).flatten() == m.data.subrange(0, k * m.cols),
    decreases k,
{
    if k == 0 {
        assert(m.row_seqs().take(0) =~= Seq::<Seq<u64>>::empty());
        assert(m.data.subrange(0, 0) =~= Seq::<u64>::empty());
    } else {
        lemma_row_seqs_flatten_prefix(m, k - 1);
        crate::model::lemma_row_slice_bounds(m.rows, m.cols, (k - 1) as nat);
        assert((k - 1) * m.cols + m.cols == k * m.cols) by (nonlinear_arith);
        assert(m.row_seqs().take(k - 1).push(m.row_seqs()[k - 1]) =~= m.row_seqs().take(k));
        m.row_seqs().take(k - 1).lemma_flatten_push(m.row_seqs()[k - 1]);
        assert(m.row_seqs()[k - 1] =~= m.data.subrange((k - 1) * m.cols, k * m.cols));
        assert(m.data.subrange(0, (k - 1) * m.cols) + m.data.subrange(
            (k - 1) * m.cols,
            k * m.cols,
        ) =~= m.data.subrange(0, k * m.cols));
    }
}

/// Matrix shape preservation: reconstructing a flattened detection always
/// succeeds and reproduces every entry in place.  The dimensions come back
/// exactly, except that a matrix with no rows comes back as `0 x 0`; in
/// particular a detection whose matrix has at least one row, or no columns,
/// round-trips to itself.
pub proof fn lemma_flatten_then_reconstruct(d: DetectionView)
    requires
        d.wf(),
    ensures
        ({
            let r = spec_reconstruct_detection(spec_flatten_detection(d));
            &&& r is Ok
            &&& r->Ok_0.timestamp == d.timestamp
            &&& r->Ok_0.number == d.number
            &&& r->Ok_0.x == d.x
            &&& r->Ok_0.y == d.y
            &&& r->Ok_0.mat.rows == d.mat.rows
            &&& r->Ok_0.mat.cols == (if d.mat.rows == 0 {
                0nat
            } else {
                d.mat.cols
            })
            &&& r->Ok_0.mat.data == d.mat.data
            &&& (d.mat.rows > 0 || d.mat.cols == 0) ==> r == Ok::<DetectionView, WireError>(d)
        }),
{
    let msg = spec_flatten_detection(d);
    lemma_row_seqs_flatten(d.mat);
    assert(msg.rows.len() == d.mat.rows);
    if d.mat.rows > 0 {
        crate::model::lemma_row_slice_bounds(d.mat.rows, d.mat.cols, 0);
        assert(msg.rows[0] =~= d.mat.data.subrange(0, d.mat.cols as int));
        assert(msg.rows[0].len() == d.mat.cols);
    }
    let r = spec_reconstruct_detection(msg);
    if d.mat.rows == 0 {
        assert(d.mat.data.len() == 0);
        assert(r is Ok);
        if d.mat.cols == 0 {
            assert(r->Ok_0 =~= d);
        }
    } else {
        assert(r is Ok);
        assert(r->Ok_0 =~= d);
    }
}

/// Flattens a detection list into its wire message: the uid copied, every
/// detection flattened, order preserved.  Total: any well-formed list can be
/// flattened.
pub fn flatten_list(l: &DetectionList) -> (m: DetectionListMsg)
    requires
        l.wf(),
    ensures
        m@ == spec_flatten_list(l@),
{
    let mut dets: Vec<DetectionMsg> = Vec::new();
    let n = l.dets.len();
    for i in 0..n
        invariant
            l.wf(),
            n == l.dets@.len(),
            det_msgs_view(dets@) == spec_flatten_list(l@).dets.take(i as int),
    {
        proof {
            assert(l@.dets[i as int] == l.dets@[i as int]@);
            assert(l@.dets[i as int].wf());
        }
        let dm = flatten_detection(&l.dets[i]);
        let ghost pre = dets@;
        let ghost dm_view = dm@;
        dets.push(dm);
        proof {
            assert(det_msgs_view(pre).len() == pre.len());
            assert(dets@[i as int]@ == dm_view);
            assert forall|j: int| 0 <= j < dets@.len() implies det_msgs_view(dets@)[j]
                == spec_flatten_list(l@).dets.take(i as int + 1)[j] by {
                assert(det_msgs_view(dets@)[j] == dets@[j]@);
                if j < i as int {
                    assert(dets@[j] == pre[j]);
                    assert(det_msgs_view(pre)[j] == pre[j]@);
                }
            }
            assert(det_msgs_view(dets@) =~= spec_flatten_list(l@).dets.take(i as int + 1));
        }
    }
    proof {
        assert(spec_flatten_list(l@).dets.take(n as int) =~= spec_flatten_list(l@).dets);
    }
    let m = DetectionListMsg { uid: l.uid.clone(), dets };
    proof {
        assert(m@ =~= spec_flatten_list(l@));
    }
    m
}

/// Reconstructs a detection list from its wire message.  Fail-fast: the
/// first detection that fails to reconstruct aborts the whole list with its
/// error, exactly as [`spec_reconstruct_dets`] states.
pub fn reconstruct_list(m: &DetectionListMsg) -> (r: Result<DetectionList, WireError>)
    ensures
        match r {
            Ok(l) => spec_reconstruct_dets(m@.dets) == Ok::<Seq<DetectionView>, WireError>(l@.dets)
                && l@.uid == m@.uid && l.wf(),
            Err(e) => spec_reconstruct_dets(m@.dets) == Err::<Seq<DetectionView>, WireError>(e),
        },
{
    let n = m.dets.len();
    let mut dets: Vec<Detection> = Vec::new();
    proof {
        assert(m@.dets.skip(0) =~= m@.dets);
        match spec_reconstruct_dets(m@.dets) {
            Ok(t) => {
                assert(dets_view(dets@) + t =~= t);
            },
            Err(_) => {},
        }
    }
    for i in 0..n
        invariant
            n == m.dets@.len(),
            forall|j: int| 0 <= j < dets@.len() ==> (#[trigger] dets@[j])@.wf(),
            spec_reconstruct_dets(m@.dets) == (match spec_reconstruct_dets(
                m@.dets.skip(i as int),
            ) {
                Ok(t) => Ok::<Seq<DetectionView>, WireError>(dets_view(dets@) + t),
                Err(e) => Err::<Seq<DetectionView>, WireError>(e),
            }),
    {
        proof {
            assert(m@.dets[i as int] == m.dets@[i as int]@);
            assert(m@.dets.skip(i as int)[0] == m@.dets[i as int]);
            assert(m@.dets.skip(i as int).drop_first() =~= m@.dets.skip(i as int + 1));
        }
        match reconstruct_detection(&m.dets[i]) {
            Err(e) => {
                return Err(e);
            },
            Ok(d) => {
                let ghost pre = dets@;
                let ghost d_view = d@;
                dets.push(d);
                proof {
                    assert(dets_view(pre).len() == pre.len());
                    assert(dets@[pre.len() as int]@ == d_view);
                    assert forall|j: int| 0 <= j < dets@.len() implies dets_view(dets@)[j]
                        == dets_view(pre).push(d_view)[j] by {
                        assert(dets_view(dets@)[j] == dets@[j]@);
                        if j < pre.len() {
                            assert(dets@[j] == pre[j]);
                            assert(dets_view(pre)[j] == pre[j]@);
                        }
                    }
                    assert(dets_view(dets@) =~= dets_view(pre).push(d_view));
                    match spec_reconstruct_dets(m@.dets.skip(i as int + 1)) {
                        Ok(t) => {
                            assert(dets_view(pre) + (seq![d_view] + t) =~= dets_view(dets@) + t);
                        },
                        Err(_) => {},
                    }
                }
            },
        }
    }
    proof {
        assert(m@.dets.skip(n as int) =~= Seq::<DetectionMsgView>::empty());
        assert(dets_view(dets@) + Seq::<DetectionView>::empty() =~= dets_view(dets@));
    }
    let l = DetectionList { uid: m.uid.clone(), dets };
    proof {
        assert(l@.dets == dets_view(l.dets@));
        assert forall|j: int| 0 <= j < l@.dets.len() implies (#[trigger] l@.dets[j]).wf() by {
            assert(l@.dets[j] == l.dets@[j]@);
        }
    }
    Ok(l)
}

} // verus!
