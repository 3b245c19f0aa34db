//! Validation and error behaviour of the wire adapter and the parser.

use detection_wire::adapter::deserialize_detection_list;
use detection_wire::adapter::serialize_detection_list;
use detection_wire::model::Detection;
use detection_wire::model::DetectionList;
use detection_wire::model::Matrix;
use detection_wire::wire::reconstruct_detection;
use detection_wire::wire::DetectionMsg;
use detection_wire::wire::MatrixRowMsg;
use detection_wire::wire::WireError;

fn row(vals: &[f64]) -> MatrixRowMsg {
    MatrixRowMsg { values: vals.iter().map(|v| v.to_bits()).collect() }
}

fn det_msg(rows: Vec<MatrixRowMsg>) -> DetectionMsg {
    DetectionMsg {
        timestamp: 1.0f64.to_bits(),
        number: 9,
        x: 2.0f64.to_bits(),
        y: 3.0f64.to_bits(),
        mat_rows: rows,
    }
}

#[test]
fn ragged_rows_fail_dimension_check() {
    let msg = det_msg(vec![row(&[1.0, 2.0]), row(&[3.0, 4.0]), row(&[5.0, 6.0, 7.0])]);
    let r = reconstruct_detection(&msg);
    assert_eq!(r.unwrap_err(), WireError::DimensionMismatch);
}

#[test]
fn short_ragged_rows_fail_dimension_check() {
    let msg = det_msg(vec![row(&[1.0, 2.0, 3.0]), row(&[4.0])]);
    let r = reconstruct_detection(&msg);
    assert_eq!(r.unwrap_err(), WireError::DimensionMismatch);
}

#[test]
fn count_compensating_ragged_rows_pass() {
    // The validation checks the total count against rows * cols, exactly as
    // designed: ragged rows whose total still matches are reinterpreted
    // row-major rather than rejected.
    let msg = det_msg(vec![row(&[1.0, 2.0]), row(&[3.0, 4.0, 5.0]), row(&[6.0])]);
    let d = reconstruct_detection(&msg).expect("count matches 3 * 2");
    assert_eq!(d.mat.rows, 3);
    assert_eq!(d.mat.cols, 2);
    assert_eq!(d.mat.get(1, 1), 4.0f64.to_bits());
    assert_eq!(d.mat.get(2, 1), 6.0f64.to_bits());
}

#[test]
fn no_rows_reconstructs_to_empty_matrix() {
    let msg = det_msg(vec![]);
    let d = reconstruct_detection(&msg).expect("zero rows is not an error");
    assert_eq!(d.mat.rows, 0);
    assert_eq!(d.mat.cols, 0);
    assert_eq!(d.mat.data.len(), 0);
    assert_eq!(d.number, 9);
}

#[test]
fn fail_fast_reports_first_bad_detection() {
    let good = det_msg(vec![row(&[1.0])]);
    let bad = det_msg(vec![row(&[1.0, 2.0]), row(&[3.0])]);
    let list = detection_wire::wire::DetectionListMsg {
        uid: "x".to_string(),
        dets: vec![good, bad],
    };
    let r = detection_wire::wire::reconstruct_list(&list);
    assert_eq!(r.unwrap_err(), WireError::DimensionMismatch);
}

#[test]
fn empty_input_is_malformed() {
    let r = deserialize_detection_list(&[]);
    assert_eq!(r.unwrap_err(), WireError::MalformedMessage);
}

#[test]
fn wrong_leading_tag_is_malformed() {
    let r = deserialize_detection_list(&[0xff, 0x00]);
    assert_eq!(r.unwrap_err(), WireError::MalformedMessage);
}

#[test]
fn truncated_message_is_malformed() {
    let list = DetectionList {
        uid: "trunc".to_string(),
        dets: vec![Detection {
            timestamp: 5.0f64.to_bits(),
            number: 1,
            x: 0.0f64.to_bits(),
            y: 0.0f64.to_bits(),
            mat: Matrix::new(1, 1, vec![1.0f64.to_bits()]),
        }],
    };
    let bytes = serialize_detection_list(&list);
    // One proper prefix is itself a complete message: the bytes up to the
    // end of the uid field parse as the same uid with no detections.
    let uid_field_len = 2 + "trunc".len();
    for cut in 1..bytes.len() {
        let r = deserialize_detection_list(&bytes[..cut]);
        if cut == uid_field_len {
            let l = r.expect("uid field alone is a complete message");
            assert_eq!(l.uid, "trunc");
            assert_eq!(l.dets.len(), 0);
        } else {
            assert_eq!(r.unwrap_err(), WireError::MalformedMessage, "prefix of {} bytes", cut);
        }
    }
}

#[test]
fn trailing_garbage_is_malformed() {
    let list = DetectionList { uid: "t".to_string(), dets: vec![] };
    let mut bytes = serialize_detection_list(&list);
    bytes.push(0x00);
    let r = deserialize_detection_list(&bytes);
    assert_eq!(r.unwrap_err(), WireError::MalformedMessage);
}

#[test]
fn invalid_utf8_uid_is_malformed() {
    // A hand-built message whose uid field holds one byte that is not valid
    // UTF-8: tag, length 1, byte 0xff.
    let bytes = [0x0a, 0x01, 0xff];
    let r = deserialize_detection_list(&bytes);
    assert_eq!(r.unwrap_err(), WireError::MalformedMessage);
}

#[test]
fn matrix_get_is_row_major() {
    let m = Matrix::new(2, 3, vec![10, 11, 12, 20, 21, 22]);
    assert_eq!(m.get(0, 0), 10);
    assert_eq!(m.get(0, 2), 12);
    assert_eq!(m.get(1, 0), 20);
    assert_eq!(m.get(1, 2), 22);
}

#[test]
fn equality_is_bit_exact() {
    let a = Matrix::new(1, 1, vec![1.0f64.to_bits()]);
    let b = Matrix::new(1, 1, vec![1.0f64.to_bits()]);
    let c = Matrix::new(1, 1, vec![(-1.0f64).to_bits()]);
    assert!(a == b);
    assert!(a != c);
    let d = Matrix::new(1, 2, vec![0, 0]);
    let e = Matrix::new(2, 1, vec![0, 0]);
    assert!(d != e);
}
