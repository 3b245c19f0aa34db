//! Byte-level serialization of the wire message tree.
//!
//! The encoding follows the schema's field-number contract: every field is
//! written in field order, scalar 64-bit values as little-endian fixed64
//! records, lengths and the sequence number as base-128 varints, strings and
//! nested messages length-delimited.  The parser accepts exactly the bytes
//! that the encoder produces and fails with
//! [`WireError::MalformedMessage`](crate::wire::WireError) on anything else
//! (truncated, corrupt or schema-violating input).

use vstd::bytes::lemma_auto_spec_u64_to_from_le_bytes;
use vstd::bytes::spec_u64_from_le_bytes;
use vstd::bytes::spec_u64_to_le_bytes;
use vstd::bytes::u64_from_le_bytes;
use vstd::bytes::u64_to_le_bytes;
use vstd::prelude::*;
use vstd::slice::slice_subrange;

use crate::wire::det_msgs_view;
use crate::wire::row_msgs_view;
use crate::wire::DetectionListMsg;
use crate::wire::DetectionListMsgView;
use crate::wire::DetectionMsg;
use crate::wire::DetectionMsgView;
use crate::wire::MatrixRowMsg;
use crate::wire::WireError;

verus! {

/// Record tag of the list's uid field: field 1, length-delimited.
pub const TAG_LIST_UID: u8 = 0x0a;

/// Record tag of one detection inside a list: field 2, length-delimited.
pub const TAG_LIST_DET: u8 = 0x12;

/// Record tag of a detection's timestamp: field 1, fixed 64-bit.
pub const TAG_DET_TIMESTAMP: u8 = 0x09;

/// Record tag of a detection's sequence number: field 2, varint.
pub const TAG_DET_NUMBER: u8 = 0x10;

/// Record tag of a detection's x coordinate: field 3, fixed 64-bit.
pub const TAG_DET_X: u8 = 0x19;

/// Record tag of a detection's y coordinate: field 4, fixed 64-bit.
pub const TAG_DET_Y: u8 = 0x21;

/// Record tag of one matrix row inside a detection: field 5,
/// length-delimited.
pub const TAG_DET_ROW: u8 = 0x2a;

/// Record tag of the packed values of a matrix row: field 1,
/// length-delimited.
pub const TAG_ROW_VALUES: u8 = 0x0a;

/// Base-128 varint encoding of `n`, least significant group first, the high
/// bit marking continuation.
pub open spec fn spec_varint(n: nat) -> Seq<u8>
    decreases n,
{
    if n < 128 {
        seq![n as u8]
    } else {
        seq![(128 + n % 128) as u8] + spec_varint(n / 128)
    }
}

/// The little-endian bytes of each value, concatenated.
pub open spec fn spec_doubles(vs: Seq<u64>) -> Seq<u8>
    decreases vs.len(),
{
    if vs.len() == 0 {
        Seq::empty()
    } else {
        spec_u64_to_le_bytes(vs[0]) + spec_doubles(vs.drop_first())
    }
}

/// Payload of one row message: its values as one packed, length-delimited
/// field.
pub open spec fn spec_row_payload(vs: Seq<u64>) -> Seq<u8> {
    seq![TAG_ROW_VALUES] + spec_varint(8 * vs.len()) + spec_doubles(vs)
}

/// One row field inside a detection: tag, payload length, payload.
pub open spec fn spec_row_field(vs: Seq<u64>) -> Seq<u8> {
    seq![TAG_DET_ROW] + spec_varint(spec_row_payload(vs).len()) + spec_row_payload(vs)
}

/// All row fields of a detection, in row order.
pub open spec fn spec_rows_fields(rows: Seq<Seq<u64>>) -> Seq<u8>
    decreases rows.len(),
{
    if rows.len() == 0 {
        Seq::empty()
    } else {
        spec_row_field(rows[0]) + spec_rows_fields(rows.drop_first())
    }
}

/// Payload of one detection message: every field written in field order.
pub open spec fn spec_det_payload(m: DetectionMsgView) -> Seq<u8> {
    seq![TAG_DET_TIMESTAMP] + spec_u64_to_le_bytes(m.timestamp) + seq![TAG_DET_NUMBER]
        + spec_varint(m.number as nat) + seq![TAG_DET_X] + spec_u64_to_le_bytes(m.x)
        + seq![TAG_DET_Y] + spec_u64_to_le_bytes(m.y) + spec_rows_fields(m.rows)
}

/// One detection field inside a list: tag, payload length, payload.
pub open spec fn spec_det_field(m: DetectionMsgView) -> Seq<u8> {
    seq![TAG_LIST_DET] + spec_varint(spec_det_payload(m).len()) + spec_det_payload(m)
}

/// All detection fields of a list, in order.
pub open spec fn spec_dets_fields(ms: Seq<DetectionMsgView>) -> Seq<u8>
    decreases ms.len(),
{
    if ms.len() == 0 {
        Seq::empty()
    } else {
        spec_det_field(ms[0]) + spec_dets_fields(ms.drop_first())
    }
}

/// The full encoding of a list message: the uid as a length-delimited field,
/// then every detection field.
pub open spec fn spec_encode_message(uid_bytes: Seq<u8>, dets: Seq<DetectionMsgView>) -> Seq<u8> {
    seq![TAG_LIST_UID] + spec_varint(uid_bytes.len()) + uid_bytes + spec_dets_fields(dets)
}

/// The serialized bytes of a list message: its uid UTF-8 encoded, its
/// detections in order.
pub open spec fn spec_serialize(m: DetectionListMsgView) -> Seq<u8> {
    spec_encode_message(vstd::utf8::encode_utf8(m.uid), m.dets)
}

/// `spec_doubles` yields eight bytes per value.
pub proof fn lemma_doubles_len(vs: Seq<u64>)
    ensures
        spec_doubles(vs).len() == 8 * vs.len(),
    decreases vs.len(),
{
    lemma_auto_spec_u64_to_from_le_bytes();
    if vs.len() > 0 {
        lemma_doubles_len(vs.drop_first());
    }
}

/// Appends the varint encoding of `n` to `out`.
pub fn encode_varint(n: u64, out: &mut Vec<u8>)
    ensures
        final(out)@ == old(out)@ + spec_varint(n as nat),
    decreases n,
{
    if n < 128 {
        out.push(n as u8);
        proof {
            assert(out@ =~= old(out)@ + spec_varint(n as nat));
        }
    } else {
        out.push((128 + n % 128) as u8);
        encode_varint(n / 128, out);
        proof {
            assert(out@ =~= old(out)@ + spec_varint(n as nat));
        }
    }
}

/// Appends the little-endian bytes of `v` to `out`.
pub fn push_le64(v: u64, out: &mut Vec<u8>)
    ensures
        final(out)@ == old(out)@ + spec_u64_to_le_bytes(v),
{
    let bytes = u64_to_le_bytes(v);
    out.extend_from_slice(bytes.as_slice());
}

/// Appends the little-endian bytes of every value to `out`.
pub fn encode_doubles(vs: &[u64], out: &mut Vec<u8>)
    ensures
        final(out)@ == old(out)@ + spec_doubles(vs@),
    decreases vs@.len(),
{
    if vs.len() > 0 {
        push_le64(vs[0], out);
        let rest = slice_subrange(vs, 1, vs.len());
        encode_doubles(rest, out);
        proof {
            assert(rest@ == vs@.drop_first());
            assert(out@ =~= old(out)@ + spec_doubles(vs@));
        }
    } else {
        proof {
            assert(out@ =~= old(out)@ + spec_doubles(vs@));
        }
    }
}

/// Appends one row field (tag, length, payload) to `out`.
pub fn encode_row_field(row: &MatrixRowMsg, out: &mut Vec<u8>)
    ensures
        final(out)@ == old(out)@ + spec_row_field(row@),
{
    let mut body: Vec<u8> = Vec::new();
    encode_doubles(row.values.as_slice(), &mut body);
    proof {
        lemma_doubles_len(row.values@);
    }
    let mut payload: Vec<u8> = Vec::new();
    payload.push(TAG_ROW_VALUES);
    encode_varint(body.len() as u64, &mut payload);
    payload.extend_from_slice(body.as_slice());
    proof {
        assert(payload@ =~= spec_row_payload(row@));
    }
    out.push(TAG_DET_ROW);
    encode_varint(payload.len() as u64, out);
    out.extend_from_slice(payload.as_slice());
    proof {
        assert(out@ =~= old(out)@ + spec_row_field(row@));
    }
}

/// Appends every row field to `out`, in row order.
pub fn encode_rows_fields(rows: &[MatrixRowMsg], out: &mut Vec<u8>)
    ensures
        final(out)@ == old(out)@ + spec_rows_fields(row_msgs_view(rows@)),
    decreases rows@.len(),
{
    if rows.len() > 0 {
        encode_row_field(&rows[0], out);
        let rest = slice_subrange(rows, 1, rows.len());
        encode_rows_fields(rest, out);
        proof {
            assert(row_msgs_view(rows@)[0] == rows@[0]@);
            assert(row_msgs_view(rest@) =~= row_msgs_view(rows@).drop_first());
            assert(out@ =~= old(out)@ + spec_rows_fields(row_msgs_view(rows@)));
        }
    } else {
        proof {
            assert(row_msgs_view(rows@) =~= Seq::<Seq<u64>>::empty());
            assert(out@ =~= old(out)@ + spec_rows_fields(row_msgs_view(rows@)));
        }
    }
}

/// Appends one detection field (tag, length, payload) to `out`.
pub fn encode_det_field(d: &DetectionMsg, out: &mut Vec<u8>)
    ensures
        final(out)@ == old(out)@ + spec_det_field(d@),
{
    let mut payload: Vec<u8> = Vec::new();
    payload.push(TAG_DET_TIMESTAMP);
    push_le64(d.timestamp, &mut payload);
    payload.push(TAG_DET_NUMBER);
    encode_varint(d.number, &mut payload);
    payload.push(TAG_DET_X);
    push_le64(d.x, &mut payload);
    payload.push(TAG_DET_Y);
    push_le64(d.y, &mut payload);
    encode_rows_fields(d.mat_rows.as_slice(), &mut payload);
    proof {
        assert(payload@ =~= spec_det_payload(d@));
    }
    out.push(TAG_LIST_DET);
    encode_varint(payload.len() as u64, out);
    out.extend_from_slice(payload.as_slice());
    proof {
        assert(out@ =~= old(out)@ + spec_det_field(d@));
    }
}

/// Appends every detection field to `out`, in order.
pub fn encode_dets_fields(ds: &[DetectionMsg], out: &mut Vec<u8>)
    ensures
        final(out)@ == old(out)@ + spec_dets_fields(det_msgs_view(ds@)),
    decreases ds@.len(),
{
    if ds.len() > 0 {
        encode_det_field(&ds[0], out);
        let rest = slice_subrange(ds, 1, ds.len());
        encode_dets_fields(rest, out);
        proof {
            assert(det_msgs_view(ds@)[0] == ds@[0]@);
            assert(det_msgs_view(rest@) =~= det_msgs_view(ds@).drop_first());
            assert(out@ =~= old(out)@ + spec_dets_fields(det_msgs_view(ds@)));
        }
    } else {
        proof {
            assert(det_msgs_view(ds@) =~= Seq::<DetectionMsgView>::empty());
            assert(out@ =~= old(out)@ + spec_dets_fields(det_msgs_view(ds@)));
        }
    }
}

/// Serializes a list message to bytes, deterministically: the byte sequence
/// is exactly [`spec_serialize`] of the message value.
pub fn serialize(m: &DetectionListMsg) -> (out: Vec<u8>)
    ensures
        out@ == spec_serialize(m@),
{
    let uid_bytes = m.uid.as_str().as_bytes();
    let mut out: Vec<u8> = Vec::new();
    out.push(TAG_LIST_UID);
    encode_varint(uid_bytes.len() as u64, &mut out);
    out.extend_from_slice(uid_bytes);
    encode_dets_fields(m.dets.as_slice(), &mut out);
    proof {
        assert(out@ =~= spec_serialize(m@));
    }
    out
}


/// Parses a varint at the head of `s`: the decoded value and the number of
/// bytes consumed.
pub open spec fn parse_varint(s: Seq<u8>) -> Option<(nat, nat)>
    decreases s.len(),
{
    if s.len() == 0 {
        None
    } else if s[0] < 128 {
        Some((s[0] as nat, 1 as nat))
    } else {
        match parse_varint(s.drop_first()) {
            None => None,
            Some((v, c)) => Some(((s[0] - 128 + 128 * v) as nat, (c + 1) as nat)),
        }
    }
}

/// A successful varint parse consumes between 1 byte and the whole input.
pub proof fn lemma_parse_varint_bounds(s: Seq<u8>)
    ensures
        parse_varint(s) matches Some(vc) ==> 1 <= vc.1 <= s.len(),
    decreases s.len(),
{
    if s.len() > 0 && s[0] >= 128 {
        lemma_parse_varint_bounds(s.drop_first());
    }
}

/// Parses a concatenation of 8-byte little-endian values; the input length
/// must be a multiple of eight.
pub open spec fn parse_doubles(s: Seq<u8>) -> Option<Seq<u64>>
    decreases s.len(),
{
    if s.len() == 0 {
        Some(Seq::<u64>::empty())
    } else if s.len() < 8 {
        None
    } else {
        match parse_doubles(s.skip(8)) {
            None => None,
            Some(vs) => Some(seq![spec_u64_from_le_bytes(s.take(8))] + vs),
        }
    }
}

/// Parses the payload of one row message: the packed values field, which
/// must fill the payload exactly.
pub open spec fn parse_row_payload(s: Seq<u8>) -> Option<Seq<u64>> {
    if s.len() == 0 || s[0] != TAG_ROW_VALUES {
        None
    } else {
        match parse_varint(s.drop_first()) {
            None => None,
            Some((m, c)) => if s.len() == 1 + c + m {
                parse_doubles(s.skip(1 + c as int))
            } else {
                None
            },
        }
    }
}

/// Parses consecutive row fields at the head of `s`, stopping at the first
/// byte that is not a row tag: the rows and the number of bytes consumed.
pub open spec fn parse_rows(s: Seq<u8>) -> Option<(Seq<Seq<u64>>, nat)>
    decreases s.len(),
{
    if s.len() == 0 || s[0] != TAG_DET_ROW {
        Some((Seq::<Seq<u64>>::empty(), 0 as nat))
    } else {
        match parse_varint(s.drop_first()) {
            None => None,
            Some((m, c)) => if s.len() >= 1 + c + m {
                match parse_row_payload(s.subrange(1 + c as int, (1 + c + m) as int)) {
                    None => None,
                    Some(row) => match parse_rows(s.skip((1 + c + m) as int)) {
                        None => None,
                        Some((rows, k)) => Some((seq![row] + rows, (1 + c + m + k) as nat)),
                    },
                }
            } else {
                None
            },
        }
    }
}

/// A successful row-sequence parse consumes at most the whole input.
pub proof fn lemma_parse_rows_bounds(s: Seq<u8>)
    ensures
        parse_rows(s) matches Some(rk) ==> rk.1 <= s.len(),
    decreases s.len(),
{
    if s.len() > 0 && s[0] == TAG_DET_ROW {
        lemma_parse_varint_bounds(s.drop_first());
        match parse_varint(s.drop_first()) {
            Some((m, c)) => {
                if s.len() >= 1 + c + m {
                    lemma_parse_rows_bounds(s.skip((1 + c + m) as int));
                }
            },
            None => {},
        }
    }
}

/// Parses the payload of one detection message: all five fields in field
/// order, the row fields filling the rest of the payload exactly.
pub open spec fn parse_det_payload(s: Seq<u8>) -> Option<DetectionMsgView> {
    if s.len() < 9 || s[0] != TAG_DET_TIMESTAMP {
        None
    } else {
        let timestamp = spec_u64_from_le_bytes(s.subrange(1, 9));
        let s1 = s.skip(9);
        if s1.len() < 1 || s1[0] != TAG_DET_NUMBER {
            None
        } else {
            match parse_varint(s1.drop_first()) {
                None => None,
                Some((numv, c)) => if numv > u64::MAX {
                    None
                } else {
                    let s2 = s1.skip(1 + c as int);
                    if s2.len() < 9 || s2[0] != TAG_DET_X {
                        None
                    } else {
                        let x = spec_u64_from_le_bytes(s2.subrange(1, 9));
                        let s3 = s2.skip(9);
                        if s3.len() < 9 || s3[0] != TAG_DET_Y {
                            None
                        } else {
                            let y = spec_u64_from_le_bytes(s3.subrange(1, 9));
                            let s4 = s3.skip(9);
                            match parse_rows(s4) {
                                None => None,
                                Some((rows, k)) => if k == s4.len() {
                                    Some(
                                        DetectionMsgView {
                                            timestamp,
                                            number: numv as u64,
                                            x,
                                            y,
                                            rows,
                                        },
                                    )
                                } else {
                                    None
                                },
                            }
                        }
                    }
                },
            }
        }
    }
}

/// Parses consecutive detection fields at the head of `s`, stopping at the
/// first byte that is not a detection tag.
pub open spec fn parse_dets(s: Seq<u8>) -> Option<(Seq<DetectionMsgView>, nat)>
    decreases s.len(),
{
    if s.len() == 0 || s[0] != TAG_LIST_DET {
        Some((Seq::<DetectionMsgView>::empty(), 0 as nat))
    } else {
        match parse_varint(s.drop_first()) {
            None => None,
            Some((m, c)) => if s.len() >= 1 + c + m {
                match parse_det_payload(s.subrange(1 + c as int, (1 + c + m) as int)) {
                    None => None,
                    Some(d) => match parse_dets(s.skip((1 + c + m) as int)) {
                        None => None,
                        Some((ds, k)) => Some((seq![d] + ds, (1 + c + m + k) as nat)),
                    },
                }
            } else {
                None
            },
        }
    }
}

/// A successful detection-sequence parse consumes at most the whole input.
pub proof fn lemma_parse_dets_bounds(s: Seq<u8>)
    ensures
        parse_dets(s) matches Some(dk) ==> dk.1 <= s.len(),
    decreases s.len(),
{
    if s.len() > 0 && s[0] == TAG_LIST_DET {
        lemma_parse_varint_bounds(s.drop_first());
        match parse_varint(s.drop_first()) {
            Some((m, c)) => {
                if s.len() >= 1 + c + m {
                    lemma_parse_dets_bounds(s.skip((1 + c + m) as int));
                }
            },
            None => {},
        }
    }
}

/// Parses a whole list message: the uid field, then detection fields that
/// must fill the rest of the input exactly.  Yields the raw uid bytes and
/// the detections.
pub open spec fn parse_message(s: Seq<u8>) -> Option<(Seq<u8>, Seq<DetectionMsgView>)> {
    if s.len() == 0 || s[0] != TAG_LIST_UID {
        None
    } else {
        match parse_varint(s.drop_first()) {
            None => None,
            Some((m, c)) => if s.len() >= 1 + c + m {
                let uid = s.subrange(1 + c as int, (1 + c + m) as int);
                match parse_dets(s.skip((1 + c + m) as int)) {
                    None => None,
                    Some((ds, k)) => if 1 + c + m + k == s.len() {
                        Some((uid, ds))
                    } else {
                        None
                    },
                }
            } else {
                None
            },
        }
    }
}

/// What deserializing bytes means: the message parses and its uid bytes are
/// valid UTF-8; every other input is a malformed message.
pub open spec fn spec_deserialize(s: Seq<u8>) -> Result<DetectionListMsgView, WireError> {
    match parse_message(s) {
        None => Err(WireError::MalformedMessage),
        Some((uid, ds)) => if vstd::utf8::valid_utf8(uid) {
            Ok(DetectionListMsgView { uid: vstd::utf8::decode_utf8(uid), dets: ds })
        } else {
            Err(WireError::MalformedMessage)
        },
    }
}


/// Decodes a varint at the head of `s`.  Mirrors [`parse_varint`]; a value
/// that does not fit 64 bits is rejected, as the spec-level parsers demand
/// wherever such a value could be accepted.
pub fn decode_varint(s: &[u8]) -> (r: Option<(u64, usize)>)
    ensures
        match parse_varint(s@) {
            None => r is None,
            Some(vc) => if vc.0 <= u64::MAX {
                r == Some((vc.0 as u64, vc.1 as usize))
            } else {
                r is None
            },
        },
    decreases s@.len(),
{
    proof {
        lemma_parse_varint_bounds(s@);
    }
    if s.len() == 0 {
        return None;
    }
    let b = s[0];
    if b < 128 {
        Some((b as u64, 1))
    } else {
        let rest = slice_subrange(s, 1, s.len());
        proof {
            assert(rest@ =~= s@.drop_first());
            lemma_parse_varint_bounds(rest@);
        }
        match decode_varint(rest) {
            None => None,
            Some((v, c)) => {
                if v < 0x200000000000000u64 {
                    Some(((b - 128) as u64 + 128 * v, c + 1))
                } else {
                    proof {
                        match parse_varint(rest@) {
                            Some(vc) => {
                                assert((s@[0] - 128 + 128 * vc.0) as nat >= vc.0);
                            },
                            None => {},
                        }
                    }
                    None
                }
            },
        }
    }
}

/// Decodes a concatenation of 8-byte little-endian values.  Mirrors
/// [`parse_doubles`].
pub fn decode_doubles(s: &[u8]) -> (r: Option<Vec<u64>>)
    ensures
        match parse_doubles(s@) {
            None => r is None,
            Some(vs) => r matches Some(v) && v@ == vs,
        },
    decreases s@.len(),
{
    if s.len() == 0 {
        let empty: Vec<u64> = Vec::new();
        proof {
            assert(empty@ =~= Seq::<u64>::empty());
        }
        Some(empty)
    } else if s.len() < 8 {
        None
    } else {
        let head = u64_from_le_bytes(slice_subrange(s, 0, 8));
        proof {
            assert(s@.subrange(0, 8) =~= s@.take(8));
        }
        let tail = slice_subrange(s, 8, s.len());
        proof {
            assert(tail@ =~= s@.skip(8));
        }
        match decode_doubles(tail) {
            None => None,
            Some(vs) => {
                let mut vs = vs;
                let ghost pre = vs@;
                vs.insert(0, head);
                proof {
                    assert(vs@ =~= seq![spec_u64_from_le_bytes(s@.take(8))] + pre);
                }
                Some(vs)
            },
        }
    }
}

/// Decodes the payload of one row message.  Mirrors [`parse_row_payload`].
pub fn decode_row_payload(s: &[u8]) -> (r: Option<Vec<u64>>)
    ensures
        match parse_row_payload(s@) {
            None => r is None,
            Some(vs) => r matches Some(v) && v@ == vs,
        },
{
    if s.len() == 0 {
        return None;
    }
    if s[0] != TAG_ROW_VALUES {
        return None;
    }
    let rest = slice_subrange(s, 1, s.len());
    proof {
        assert(rest@ =~= s@.drop_first());
        lemma_parse_varint_bounds(rest@);
    }
    match decode_varint(rest) {
        None => None,
        Some((m, c)) => {
            let rem = s.len() - 1 - c;
            if (rem as u64) == m {
                let sub = slice_subrange(s, 1 + c, s.len());
                proof {
                    assert(sub@ =~= s@.skip(1 + c as int));
                }
                decode_doubles(sub)
            } else {
                None
            }
        },
    }
}

/// Decodes consecutive row fields at the head of `s`.  Mirrors
/// [`parse_rows`].
pub fn decode_rows(s: &[u8]) -> (r: Option<(Vec<MatrixRowMsg>, usize)>)
    ensures
        match parse_rows(s@) {
            None => r is None,
            Some(rk) => r matches Some(vk) && row_msgs_view(vk.0@) == rk.0 && vk.1 == rk.1,
        },
    decreases s@.len(),
{
    proof {
        lemma_parse_rows_bounds(s@);
    }
    if s.len() == 0 || s[0] != TAG_DET_ROW {
        let empty: Vec<MatrixRowMsg> = Vec::new();
        proof {
            assert(row_msgs_view(empty@) =~= Seq::<Seq<u64>>::empty());
        }
        return Some((empty, 0));
    }
    let rest = slice_subrange(s, 1, s.len());
    proof {
        assert(rest@ =~= s@.drop_first());
        lemma_parse_varint_bounds(rest@);
    }
    match decode_varint(rest) {
        None => None,
        Some((m, c)) => {
            let rem = s.len() - 1 - c;
            if m <= rem as u64 {
                let mlen = m as usize;
                let sub = slice_subrange(s, 1 + c, 1 + c + mlen);
                proof {
                    assert(sub@ =~= s@.subrange(1 + c as int, (1 + (c as nat) + (m as nat)) as int));
                }
                match decode_row_payload(sub) {
                    None => None,
                    Some(row_vals) => {
                        let tail = slice_subrange(s, 1 + c + mlen, s.len());
                        proof {
                            assert(tail@ =~= s@.skip((1 + (c as nat) + (m as nat)) as int));
                            lemma_parse_rows_bounds(tail@);
                        }
                        match decode_rows(tail) {
                            None => None,
                            Some((rows_vec, k)) => {
                                let mut rows_vec = rows_vec;
                                let ghost pre = rows_vec@;
                                let ghost row_view = row_vals@;
                                rows_vec.insert(0, MatrixRowMsg { values: row_vals });
                                proof {
                                    assert(rows_vec@[0]@ == row_view);
                                    assert forall|i: int| 0 <= i < rows_vec@.len() implies
                                        row_msgs_view(rows_vec@)[i] == (seq![row_view]
                                        + row_msgs_view(pre))[i] by {
                                        assert(row_msgs_view(rows_vec@)[i] == rows_vec@[i]@);
                                        if i >= 1 {
                                            assert(rows_vec@[i] == pre[i - 1]);
                                            assert(row_msgs_view(pre)[i - 1] == pre[i - 1]@);
                                        }
                                    }
                                    assert(row_msgs_view(rows_vec@) =~= seq![row_view]
                                        + row_msgs_view(pre));
                                }
                                Some((rows_vec, 1 + c + mlen + k))
                            },
                        }
                    },
                }
            } else {
                None
            }
        },
    }
}

/// Decodes the payload of one detection message.  Mirrors
/// [`parse_det_payload`].
pub fn decode_det_payload(s: &[u8]) -> (r: Option<DetectionMsg>)
    ensures
        match parse_det_payload(s@) {
            None => r is None,
            Some(mv) => r matches Some(msg) && msg@ == mv,
        },
{
    if s.len() < 9 || s[0] != TAG_DET_TIMESTAMP {
        return None;
    }
    let timestamp = u64_from_le_bytes(slice_subrange(s, 1, 9));
    let s1 = slice_subrange(s, 9, s.len());
    proof {
        assert(s1@ =~= s@.skip(9));
    }
    if s1.len() < 1 {
        return None;
    }
    if s1[0] != TAG_DET_NUMBER {
        return None;
    }
    let r1 = slice_subrange(s1, 1, s1.len());
    proof {
        assert(r1@ =~= s1@.drop_first());
        lemma_parse_varint_bounds(r1@);
    }
    match decode_varint(r1) {
        None => None,
        Some((number, c)) => {
            let s2 = slice_subrange(s1, 1 + c, s1.len());
            proof {
                assert(s2@ =~= s1@.skip(1 + c as int));
            }
            if s2.len() < 9 || s2[0] != TAG_DET_X {
                return None;
            }
            let x = u64_from_le_bytes(slice_subrange(s2, 1, 9));
            let s3 = slice_subrange(s2, 9, s2.len());
            proof {
                assert(s3@ =~= s2@.skip(9));
            }
            if s3.len() < 9 || s3[0] != TAG_DET_Y {
                return None;
            }
            let y = u64_from_le_bytes(slice_subrange(s3, 1, 9));
            let s4 = slice_subrange(s3, 9, s3.len());
            proof {
                assert(s4@ =~= s3@.skip(9));
            }
            match decode_rows(s4) {
                None => None,
                Some((mat_rows, k)) => {
                    if k == s4.len() {
                        let msg = DetectionMsg { timestamp, number, x, y, mat_rows };
                        proof {
                            match parse_det_payload(s@) {
                                Some(mv) => {
                                    assert(msg@ =~= mv);
                                },
                                None => {},
                            }
                        }
                        Some(msg)
                    } else {
                        None
                    }
                },
            }
        },
    }
}

/// Decodes consecutive detection fields at the head of `s`.  Mirrors
/// [`parse_dets`].
pub fn decode_dets(s: &[u8]) -> (r: Option<(Vec<DetectionMsg>, usize)>)
    ensures
        match parse_dets(s@) {
            None => r is None,
            Some(dk) => r matches Some(vk) && det_msgs_view(vk.0@) == dk.0 && vk.1 == dk.1,
        },
    decreases s@.len(),
{
    proof {
        lemma_parse_dets_bounds(s@);
    }
    if s.len() == 0 || s[0] != TAG_LIST_DET {
        let empty: Vec<DetectionMsg> = Vec::new();
        proof {
            assert(det_msgs_view(empty@) =~= Seq::<DetectionMsgView>::empty());
        }
        return Some((empty, 0));
    }
    let rest = slice_subrange(s, 1, s.len());
    proof {
        assert(rest@ =~= s@.drop_first());
        lemma_parse_varint_bounds(rest@);
    }
    match decode_varint(rest) {
        None => None,
        Some((m, c)) => {
            let rem = s.len() - 1 - c;
            if m <= rem as u64 {
                let mlen = m as usize;
                let sub = slice_subrange(s, 1 + c, 1 + c + mlen);
                proof {
                    assert(sub@ =~= s@.subrange(1 + c as int, (1 + (c as nat) + (m as nat)) as int));
                }
                match decode_det_payload(sub) {
                    None => None,
                    Some(det) => {
                        let tail = slice_subrange(s, 1 + c + mlen, s.len());
                        proof {
                            assert(tail@ =~= s@.skip((1 + (c as nat) + (m as nat)) as int));
                            lemma_parse_dets_bounds(tail@);
                        }
                        match decode_dets(tail) {
                            None => None,
                            Some((dets_vec, k)) => {
                                let mut dets_vec = dets_vec;
                                let ghost pre = dets_vec@;
                                let ghost det_view = det@;
                                dets_vec.insert(0, det);
                                proof {
                                    assert(dets_vec@[0]@ == det_view);
                                    assert forall|i: int| 0 <= i < dets_vec@.len() implies
                                        det_msgs_view(dets_vec@)[i] == (seq![det_view]
                                        + det_msgs_view(pre))[i] by {
                                        assert(det_msgs_view(dets_vec@)[i] == dets_vec@[i]@);
                                        if i >= 1 {
                                            assert(dets_vec@[i] == pre[i - 1]);
                                            assert(det_msgs_view(pre)[i - 1] == pre[i - 1]@);
                                        }
                                    }
                                    assert(det_msgs_view(dets_vec@) =~= seq![det_view]
                                        + det_msgs_view(pre));
                                }
                                Some((dets_vec, 1 + c + mlen + k))
                            },
                        }
                    },
                }
            } else {
                None
            }
        },
    }
}

/// Relies on `String::from_utf8`: it succeeds exactly on valid UTF-8 input,
/// and decodes such input to the character sequence whose UTF-8 encoding is
/// the input bytes.
#[verifier::external_body]
fn string_from_utf8(bytes: Vec<u8>) -> (r: Option<String>)
    ensures
        r matches Some(t) ==> vstd::utf8::encode_utf8(t@) == bytes@,
        vstd::utf8::valid_utf8(bytes@) ==> r is Some,
{
    String::from_utf8(bytes).ok()
}

/// Parses serialized bytes back into a list message, failing with
/// [`WireError::MalformedMessage`] exactly when [`spec_deserialize`] does:
/// on truncated, corrupt or schema-violating input, and on a uid field that
/// is not valid UTF-8.
pub fn deserialize(s: &[u8]) -> (r: Result<DetectionListMsg, WireError>)
    ensures
        match r {
            Ok(m) => spec_deserialize(s@) == Ok::<DetectionListMsgView, WireError>(m@),
            Err(e) => spec_deserialize(s@) == Err::<DetectionListMsgView, WireError>(e),
        },
{
    if s.len() == 0 || s[0] != TAG_LIST_UID {
        return Err(WireError::MalformedMessage);
    }
    let rest = slice_subrange(s, 1, s.len());
    proof {
        assert(rest@ =~= s@.drop_first());
        lemma_parse_varint_bounds(rest@);
    }
    match decode_varint(rest) {
        None => Err(WireError::MalformedMessage),
        Some((m, c)) => {
            let rem = s.len() - 1 - c;
            if m <= rem as u64 {
                let mlen = m as usize;
                let uid_slice = slice_subrange(s, 1 + c, 1 + c + mlen);
                proof {
                    assert(uid_slice@ =~= s@.subrange(
                        1 + c as int,
                        (1 + (c as nat) + (m as nat)) as int,
                    ));
                }
                let tail = slice_subrange(s, 1 + c + mlen, s.len());
                proof {
                    assert(tail@ =~= s@.skip((1 + (c as nat) + (m as nat)) as int));
                    lemma_parse_dets_bounds(tail@);
                }
                match decode_dets(tail) {
                    None => Err(WireError::MalformedMessage),
                    Some((dets, k)) => {
                        if k == tail.len() {
                            let uid_bytes = vstd::slice::slice_to_vec(uid_slice);
                            match string_from_utf8(uid_bytes) {
                                None => Err(WireError::MalformedMessage),
                                Some(uid) => {
                                    let msg = DetectionListMsg { uid, dets };
                                    proof {
                                        vstd::utf8::encode_utf8_valid_utf8(msg.uid@);
                                        vstd::utf8::encode_utf8_decode_utf8(msg.uid@);
                                        match spec_deserialize(s@) {
                                            Ok(mv) => {
                                                assert(msg@ =~= mv);
                                            },
                                            Err(_) => {},
                                        }
                                    }
                                    Ok(msg)
                                },
                            }
                        } else {
                            Err(WireError::MalformedMessage)
                        }
                    },
                }
            } else {
                Err(WireError::MalformedMessage)
            }
        },
    }
}


/// Parsing the varint encoding of `n`, followed by anything, yields `n` and
/// consumes exactly the encoding.
pub proof fn lemma_varint_round_trip(n: nat, rest: Seq<u8>)
    ensures
        parse_varint(spec_varint(n) + rest) == Some((n, spec_varint(n).len())),
    decreases n,
{
    let s = spec_varint(n) + rest;
    if n < 128 {
        assert(s[0] == n as u8);
    } else {
        assert(128 + n % 128 < 256);
        assert(s[0] == (128 + n % 128) as u8);
        assert(s[0] >= 128);
        assert(s.drop_first() =~= spec_varint(n / 128) + rest);
        lemma_varint_round_trip(n / 128, rest);
        assert(n % 128 + 128 * (n / 128) == n) by {
            vstd::arithmetic::div_mod::lemma_fundamental_div_mod(n as int, 128);
        };
        assert((s[0] - 128 + 128 * (n / 128)) as nat == n);
    }
}

/// Parsing the concatenated little-endian bytes of a value sequence yields
/// the sequence back.
pub proof fn lemma_doubles_round_trip(vs: Seq<u64>)
    ensures
        parse_doubles(spec_doubles(vs)) == Some(vs),
    decreases vs.len(),
{
    lemma_auto_spec_u64_to_from_le_bytes();
    lemma_doubles_len(vs);
    if vs.len() == 0 {
        assert(vs =~= Seq::<u64>::empty());
    } else {
        let s = spec_doubles(vs);
        lemma_doubles_len(vs.drop_first());
        assert(s.take(8) =~= spec_u64_to_le_bytes(vs[0]));
        assert(s.skip(8) =~= spec_doubles(vs.drop_first()));
        lemma_doubles_round_trip(vs.drop_first());
        assert(seq![spec_u64_from_le_bytes(s.take(8))] + vs.drop_first() =~= vs);
    }
}

/// Parsing an encoded row payload yields the row's values back.
pub proof fn lemma_row_payload_round_trip(vs: Seq<u64>)
    ensures
        parse_row_payload(spec_row_payload(vs)) == Some(vs),
{
    let s = spec_row_payload(vs);
    let v = spec_varint(8 * vs.len());
    lemma_doubles_len(vs);
    assert(s[0] == TAG_ROW_VALUES);
    assert(s.drop_first() =~= v + spec_doubles(vs));
    lemma_varint_round_trip(8 * vs.len(), spec_doubles(vs));
    assert(s.len() == 1 + v.len() + 8 * vs.len());
    assert(s.skip(1 + v.len() as int) =~= spec_doubles(vs));
    lemma_doubles_round_trip(vs);
}

/// Parsing encoded row fields yields the rows back and consumes everything.
pub proof fn lemma_rows_round_trip(rows: Seq<Seq<u64>>)
    ensures
        parse_rows(spec_rows_fields(rows)) == Some((rows, spec_rows_fields(rows).len() as nat)),
    decreases rows.len(),
{
    if rows.len() == 0 {
        assert(rows =~= Seq::<Seq<u64>>::empty());
    } else {
        let p = spec_row_payload(rows[0]);
        let v = spec_varint(p.len());
        let s = spec_rows_fields(rows);
        let rest_f = spec_rows_fields(rows.drop_first());
        assert(s =~= seq![TAG_DET_ROW] + v + p + rest_f);
        assert(s[0] == TAG_DET_ROW);
        assert(s.drop_first() =~= v + (p + rest_f));
        lemma_varint_round_trip(p.len(), p + rest_f);
        assert(s.len() == 1 + v.len() + p.len() + rest_f.len());
        assert(s.subrange(1 + v.len() as int, (1 + v.len() + p.len()) as int) =~= p);
        lemma_row_payload_round_trip(rows[0]);
        assert(s.skip((1 + v.len() + p.len()) as int) =~= rest_f);
        lemma_rows_round_trip(rows.drop_first());
        assert(seq![rows[0]] + rows.drop_first() =~= rows);
    }
}

/// Parsing an encoded detection payload yields the detection back.
pub proof fn lemma_det_payload_round_trip(m: DetectionMsgView)
    ensures
        parse_det_payload(spec_det_payload(m)) == Some(m),
{
    lemma_auto_spec_u64_to_from_le_bytes();
    let s = spec_det_payload(m);
    let ts = spec_u64_to_le_bytes(m.timestamp);
    let xb = spec_u64_to_le_bytes(m.x);
    let yb = spec_u64_to_le_bytes(m.y);
    let nv = spec_varint(m.number as nat);
    let rf = spec_rows_fields(m.rows);
    assert(s =~= seq![TAG_DET_TIMESTAMP] + ts + (seq![TAG_DET_NUMBER] + nv + (seq![TAG_DET_X]
        + xb + (seq![TAG_DET_Y] + yb + rf))));
    assert(s.len() == 28 + nv.len() + rf.len());
    assert(s[0] == TAG_DET_TIMESTAMP);
    assert(s.subrange(1, 9) =~= ts);
    let s1 = s.skip(9);
    assert(s1 =~= seq![TAG_DET_NUMBER] + nv + (seq![TAG_DET_X] + xb + (seq![TAG_DET_Y] + yb
        + rf)));
    assert(s1[0] == TAG_DET_NUMBER);
    assert(s1.drop_first() =~= nv + (seq![TAG_DET_X] + xb + (seq![TAG_DET_Y] + yb + rf)));
    lemma_varint_round_trip(m.number as nat, seq![TAG_DET_X] + xb + (seq![TAG_DET_Y] + yb + rf));
    let s2 = s1.skip(1 + nv.len() as int);
    assert(s2 =~= seq![TAG_DET_X] + xb + (seq![TAG_DET_Y] + yb + rf));
    assert(s2[0] == TAG_DET_X);
    assert(s2.subrange(1, 9) =~= xb);
    let s3 = s2.skip(9);
    assert(s3 =~= seq![TAG_DET_Y] + yb + rf);
    assert(s3[0] == TAG_DET_Y);
    assert(s3.subrange(1, 9) =~= yb);
    let s4 = s3.skip(9);
    assert(s4 =~= rf);
    lemma_rows_round_trip(m.rows);
    match parse_det_payload(s) {
        Some(mv) => {
            assert(mv =~= m);
        },
        None => {
            assert(false);
        },
    }
}

/// Parsing encoded detection fields yields the detections back and consumes
/// everything.
pub proof fn lemma_dets_round_trip(ms: Seq<DetectionMsgView>)
    ensures
        parse_dets(spec_dets_fields(ms)) == Some((ms, spec_dets_fields(ms).len() as nat)),
    decreases ms.len(),
{
    if ms.len() == 0 {
        assert(ms =~= Seq::<DetectionMsgView>::empty());
    } else {
        let p = spec_det_payload(ms[0]);
        let v = spec_varint(p.len());
        let s = spec_dets_fields(ms);
        let rest_f = spec_dets_fields(ms.drop_first());
        assert(s =~= seq![TAG_LIST_DET] + v + p + rest_f);
        assert(s[0] == TAG_LIST_DET);
        assert(s.drop_first() =~= v + (p + rest_f));
        lemma_varint_round_trip(p.len(), p + rest_f);
        assert(s.len() == 1 + v.len() + p.len() + rest_f.len());
        assert(s.subrange(1 + v.len() as int, (1 + v.len() + p.len()) as int) =~= p);
        lemma_det_payload_round_trip(ms[0]);
        assert(s.skip((1 + v.len() + p.len()) as int) =~= rest_f);
        lemma_dets_round_trip(ms.drop_first());
        assert(seq![ms[0]] + ms.drop_first() =~= ms);
    }
}

/// Parsing an encoded list message yields the uid bytes and detections back.
pub proof fn lemma_parse_message_round_trip(uid_bytes: Seq<u8>, dets: Seq<DetectionMsgView>)
    ensures
        parse_message(spec_encode_message(uid_bytes, dets)) == Some((uid_bytes, dets)),
{
    let s = spec_encode_message(uid_bytes, dets);
    let v = spec_varint(uid_bytes.len());
    let df = spec_dets_fields(dets);
    assert(s[0] == TAG_LIST_UID);
    assert(s.drop_first() =~= v + (uid_bytes + df));
    lemma_varint_round_trip(uid_bytes.len(), uid_bytes + df);
    assert(s.len() == 1 + v.len() + uid_bytes.len() + df.len());
    assert(s.subrange(1 + v.len() as int, (1 + v.len() + uid_bytes.len()) as int) =~= uid_bytes);
    assert(s.skip((1 + v.len() + uid_bytes.len()) as int) =~= df);
    lemma_dets_round_trip(dets);
}

/// Round trip of the byte codec: deserializing the serialized bytes of any
/// list message yields exactly that message.
pub proof fn lemma_serialize_deserialize(m: DetectionListMsgView)
    ensures
        spec_deserialize(spec_serialize(m)) == Ok::<DetectionListMsgView, WireError>(m),
{
    let uid_bytes = vstd::utf8::encode_utf8(m.uid);
    lemma_parse_message_round_trip(uid_bytes, m.dets);
    vstd::utf8::encode_utf8_valid_utf8(m.uid);
    vstd::utf8::encode_utf8_decode_utf8(m.uid);
    match spec_deserialize(spec_serialize(m)) {
        Ok(mv) => {
            assert(mv =~= m);
        },
        Err(_) => {
            assert(false);
        },
    }
}

} // verus!
