//! The codec against prost's encoding primitives: the serialized bytes must
//! agree with what prost's own field encoders produce for the same message.

use detection_wire::adapter::serialize_detection_list;
use detection_wire::codec::decode_varint;
use detection_wire::codec::encode_varint;
use detection_wire::model::Detection;
use detection_wire::model::DetectionList;
use detection_wire::model::Matrix;

#[test]
fn varint_matches_prost() {
    let samples: [u64; 10] =
        [0, 1, 127, 128, 300, 16383, 16384, 1 << 32, u64::MAX - 1, u64::MAX];
    for v in samples {
        let mut ours: Vec<u8> = Vec::new();
        encode_varint(v, &mut ours);
        let mut theirs: Vec<u8> = Vec::new();
        prost::encoding::encode_varint(v, &mut theirs);
        assert_eq!(ours, theirs, "varint encoding of {}", v);
        assert_eq!(decode_varint(&ours), Some((v, ours.len())), "varint decoding of {}", v);
    }
}

#[test]
fn varint_decode_rejects_truncation() {
    let mut buf: Vec<u8> = Vec::new();
    encode_varint(300, &mut buf);
    assert_eq!(decode_varint(&buf[..1]), None);
    assert_eq!(decode_varint(&[]), None);
}

#[test]
fn varint_decode_rejects_overflow() {
    // Eleven continuation groups encode a value beyond 64 bits.
    let bytes = [0xff, 0xff, 0xff, 0xff, 0xff, 0xff, 0xff, 0xff, 0xff, 0xff, 0x01];
    assert_eq!(decode_varint(&bytes), None);
}

#[test]
fn message_bytes_match_prost_field_encoders() {
    let dets: [(f64, u64, f64, f64, Vec<Vec<f64>>); 2] = [
        (161000.0, 1, 10.5, 20.5, vec![vec![1.0, 2.0], vec![3.0, 4.0]]),
        (
            161001.0,
            2,
            15.0,
            25.0,
            vec![
                vec![1.0, 0.0, 0.0],
                vec![0.0, 1.0, 0.0],
                vec![0.0, 0.0, 1.0],
            ],
        ),
    ];
    let uid = "sensor-001".to_string();

    // Expected bytes assembled with prost's own field encoders.
    let mut expected: Vec<u8> = Vec::new();
    prost::encoding::string::encode(1, &uid, &mut expected);
    for (ts, num, x, y, rows) in dets.iter() {
        let mut det_buf: Vec<u8> = Vec::new();
        prost::encoding::double::encode(1, ts, &mut det_buf);
        prost::encoding::uint64::encode(2, num, &mut det_buf);
        prost::encoding::double::encode(3, x, &mut det_buf);
        prost::encoding::double::encode(4, y, &mut det_buf);
        for r in rows.iter() {
            let mut row_buf: Vec<u8> = Vec::new();
            prost::encoding::double::encode_packed(1, r, &mut row_buf);
            prost::encoding::encode_key(
                5,
                prost::encoding::WireType::LengthDelimited,
                &mut det_buf,
            );
            prost::encoding::encode_varint(row_buf.len() as u64, &mut det_buf);
            det_buf.extend_from_slice(&row_buf);
        }
        prost::encoding::encode_key(2, prost::encoding::WireType::LengthDelimited, &mut expected);
        prost::encoding::encode_varint(det_buf.len() as u64, &mut expected);
        expected.extend_from_slice(&det_buf);
    }

    // The same message through the library.
    let list = DetectionList {
        uid,
        dets: dets
            .iter()
            .map(|(ts, num, x, y, rows)| Detection {
                timestamp: ts.to_bits(),
                number: *num as usize,
                x: x.to_bits(),
                y: y.to_bits(),
                mat: Matrix::new(
                    rows.len(),
                    rows[0].len(),
                    rows.iter().flatten().map(|v| v.to_bits()).collect(),
                ),
            })
            .collect(),
    };
    let ours = serialize_detection_list(&list);
    assert_eq!(ours, expected);
}

#[test]
fn known_bytes_for_small_message() {
    // uid "A", one detection: timestamp 1.0, number 5, x 0.0, y 0.0, matrix
    // [[1.0]].  Checked byte for byte against the schema contract.
    let list = DetectionList {
        uid: "A".to_string(),
        dets: vec![Detection {
            timestamp: 1.0f64.to_bits(),
            number: 5,
            x: 0.0f64.to_bits(),
            y: 0.0f64.to_bits(),
            mat: Matrix::new(1, 1, vec![1.0f64.to_bits()]),
        }],
    };
    let bytes = serialize_detection_list(&list);
    let one = 1.0f64.to_le_bytes();
    let zero = 0.0f64.to_le_bytes();
    let mut expected: Vec<u8> = vec![0x0a, 0x01, 0x41];
    let mut det: Vec<u8> = Vec::new();
    det.push(0x09);
    det.extend_from_slice(&one);
    det.push(0x10);
    det.push(0x05);
    det.push(0x19);
    det.extend_from_slice(&zero);
    det.push(0x21);
    det.extend_from_slice(&zero);
    // row field: tag 0x2a, length 10, payload: packed tag 0x0a, length 8, 1.0
    det.push(0x2a);
    det.push(0x0a);
    det.push(0x0a);
    det.push(0x08);
    det.extend_from_slice(&one);
    expected.push(0x12);
    expected.push(det.len() as u8);
    expected.extend_from_slice(&det);
    assert_eq!(bytes, expected);
}
