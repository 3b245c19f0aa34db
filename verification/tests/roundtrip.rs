//! Round-trip behaviour of the full pipeline: domain list -> wire message ->
//! bytes -> wire message -> domain list.

use detection_wire::adapter::deserialize_detection_list;
use detection_wire::adapter::round_trip;
use detection_wire::adapter::serialize_detection_list;
use detection_wire::model::Detection;
use detection_wire::model::DetectionList;
use detection_wire::model::Matrix;

fn matrix_from(rows: usize, cols: usize, vals: &[f64]) -> Matrix {
    assert_eq!(vals.len(), rows * cols);
    let data: Vec<u64> = vals.iter().map(|v| v.to_bits()).collect();
    Matrix::new(rows, cols, data)
}

fn identity(n: usize) -> Matrix {
    let mut vals = vec![0.0f64; n * n];
    for i in 0..n {
        vals[i * n + i] = 1.0;
    }
    matrix_from(n, n, &vals)
}

fn scenario_list() -> DetectionList {
    DetectionList {
        uid: "sensor-001".to_string(),
        dets: vec![
            Detection {
                timestamp: 161000.0f64.to_bits(),
                number: 1,
                x: 10.5f64.to_bits(),
                y: 20.5f64.to_bits(),
                mat: matrix_from(2, 2, &[1.0, 2.0, 3.0, 4.0]),
            },
            Detection {
                timestamp: 161001.0f64.to_bits(),
                number: 2,
                x: 15.0f64.to_bits(),
                y: 25.0f64.to_bits(),
                mat: identity(3),
            },
        ],
    }
}

#[test]
fn scenario_two_detections() {
    let original = scenario_list();
    let bytes = serialize_detection_list(&original);
    assert!(bytes.len() > 0);
    let decoded = deserialize_detection_list(&bytes).expect("scenario must deserialize");
    assert_eq!(decoded, scenario_list());
    assert_eq!(decoded.uid, "sensor-001");
    assert_eq!(decoded.dets.len(), 2);
    assert_eq!(decoded.dets[0].number, 1);
    assert_eq!(decoded.dets[0].mat.get(0, 1), 2.0f64.to_bits());
    assert_eq!(decoded.dets[1].mat.get(2, 2), 1.0f64.to_bits());
    assert_eq!(decoded.dets[1].mat.get(2, 1), 0.0f64.to_bits());
}

#[test]
fn round_trip_function_agrees() {
    let original = scenario_list();
    let out = round_trip(&original).expect("round trip must succeed");
    assert_eq!(out, scenario_list());
}

#[test]
fn empty_list_keeps_uid() {
    let original = DetectionList { uid: "lonely-sensor".to_string(), dets: vec![] };
    let bytes = serialize_detection_list(&original);
    let decoded = deserialize_detection_list(&bytes).expect("empty list must deserialize");
    assert_eq!(decoded.uid, "lonely-sensor");
    assert_eq!(decoded.dets.len(), 0);
}

#[test]
fn empty_uid_round_trips() {
    let original = DetectionList { uid: String::new(), dets: vec![] };
    let bytes = serialize_detection_list(&original);
    let decoded = deserialize_detection_list(&bytes).expect("empty uid must deserialize");
    assert_eq!(decoded.uid, "");
}

#[test]
fn unicode_uid_round_trips() {
    let original = DetectionList { uid: "sensor-\u{00e9}\u{4e2d}".to_string(), dets: vec![] };
    let bytes = serialize_detection_list(&original);
    let decoded = deserialize_detection_list(&bytes).expect("unicode uid must deserialize");
    assert_eq!(decoded.uid, "sensor-\u{00e9}\u{4e2d}");
}

#[test]
fn empty_matrix_round_trips_to_zero_by_zero() {
    let original = DetectionList {
        uid: "s".to_string(),
        dets: vec![Detection {
            timestamp: 1.0f64.to_bits(),
            number: 7,
            x: 0.0f64.to_bits(),
            y: 0.0f64.to_bits(),
            mat: matrix_from(0, 0, &[]),
        }],
    };
    let bytes = serialize_detection_list(&original);
    let decoded = deserialize_detection_list(&bytes).expect("empty matrix is not an error");
    assert_eq!(decoded.dets[0].mat.rows, 0);
    assert_eq!(decoded.dets[0].mat.cols, 0);
    assert_eq!(decoded, original);
}

#[test]
fn zero_column_matrix_keeps_row_count() {
    let original = DetectionList {
        uid: "s".to_string(),
        dets: vec![Detection {
            timestamp: 2.0f64.to_bits(),
            number: 3,
            x: 1.0f64.to_bits(),
            y: 1.0f64.to_bits(),
            mat: matrix_from(3, 0, &[]),
        }],
    };
    let bytes = serialize_detection_list(&original);
    let decoded = deserialize_detection_list(&bytes).expect("3 x 0 matrix must deserialize");
    assert_eq!(decoded.dets[0].mat.rows, 3);
    assert_eq!(decoded.dets[0].mat.cols, 0);
    assert_eq!(decoded, original);
}

#[test]
fn shape_and_values_preserved() {
    let original = DetectionList {
        uid: "shape".to_string(),
        dets: vec![Detection {
            timestamp: 0.5f64.to_bits(),
            number: 42,
            x: (-1.25f64).to_bits(),
            y: 3.5f64.to_bits(),
            mat: matrix_from(2, 3, &[1.5, -2.5, 3.25, 4.0, 0.0, -0.0]),
        }],
    };
    let bytes = serialize_detection_list(&original);
    let decoded = deserialize_detection_list(&bytes).expect("2 x 3 matrix must deserialize");
    let m = &decoded.dets[0].mat;
    assert_eq!(m.rows, 2);
    assert_eq!(m.cols, 3);
    assert_eq!(m.get(0, 0), 1.5f64.to_bits());
    assert_eq!(m.get(0, 1), (-2.5f64).to_bits());
    assert_eq!(m.get(1, 2), (-0.0f64).to_bits());
    assert_eq!(decoded, original);
}

#[test]
fn default_valued_fields_round_trip() {
    let original = DetectionList {
        uid: "zeros".to_string(),
        dets: vec![Detection {
            timestamp: 0.0f64.to_bits(),
            number: 0,
            x: 0.0f64.to_bits(),
            y: 0.0f64.to_bits(),
            mat: matrix_from(1, 1, &[0.0]),
        }],
    };
    let bytes = serialize_detection_list(&original);
    let decoded = deserialize_detection_list(&bytes).expect("zero fields must deserialize");
    assert_eq!(decoded, original);
}

#[test]
fn largest_sequence_number_round_trips() {
    let original = DetectionList {
        uid: "big".to_string(),
        dets: vec![Detection {
            timestamp: 1.0f64.to_bits(),
            number: usize::MAX,
            x: 0.0f64.to_bits(),
            y: 0.0f64.to_bits(),
            mat: matrix_from(0, 0, &[]),
        }],
    };
    let bytes = serialize_detection_list(&original);
    let decoded = deserialize_detection_list(&bytes).expect("large number must deserialize");
    assert_eq!(decoded.dets[0].number, usize::MAX);
    assert_eq!(decoded, original);
}
