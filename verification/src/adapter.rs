//! The two directions of the domain-to-bytes conversion composed, and the
//! round-trip law.

use vstd::prelude::*;

use crate::codec::deserialize;
use crate::codec::serialize;
use crate::codec::spec_deserialize;
use crate::codec::spec_serialize;
use crate::model::DetectionList;
use crate::model::DetectionListView;
use crate::model::DetectionView;
use crate::wire::flatten_list;
use crate::wire::reconstruct_list;
use crate::wire::spec_flatten_detection;
use crate::wire::spec_flatten_list;
use crate::wire::spec_reconstruct_dets;
use crate::wire::DetectionListMsgView;
use crate::wire::WireError;

verus! {

/// Every matrix of the list that has no rows also has no columns.  A `0 x c`
/// matrix with `c > 0` survives every transformation except the final shape
/// inference, which cannot see `c` in an empty row sequence and yields
/// `0 x 0`.
pub open spec fn canonical_shapes(l: DetectionListView) -> bool {
    forall|i: int|
        0 <= i < l.dets.len() ==> ((#[trigger] l.dets[i]).mat.rows == 0 ==> l.dets[i].mat.cols
            == 0)
}

/// Serializes a domain detection list: flatten to the wire message, then
/// encode to bytes.
pub fn serialize_detection_list(l: &DetectionList) -> (out: Vec<u8>)
    requires
        l.wf(),
    ensures
        out@ == spec_serialize(spec_flatten_list(l@)),
{
    let m = flatten_list(l);
    serialize(&m)
}

/// Parses bytes and reconstructs the domain detection list, surfacing the
/// first failure: a malformed message from the parser, or a dimension or
/// numeric failure from reconstruction.
pub fn deserialize_detection_list(bytes: &[u8]) -> (r: Result<DetectionList, WireError>)
    ensures
        match spec_deserialize(bytes@) {
            Err(e) => r == Err::<DetectionList, WireError>(e),
            Ok(mv) => match spec_reconstruct_dets(mv.dets) {
                Ok(ds) => r matches Ok(l) && l@.uid == mv.uid && l@.dets == ds && l.wf(),
                Err(e) => r == Err::<DetectionList, WireError>(e),
            },
        },
{
    match deserialize(bytes) {
        Err(e) => Err(e),
        Ok(m) => reconstruct_list(&m),
    }
}

/// Reconstructing every flattened detection of a well-formed sequence
/// succeeds and yields the sequence back, element for element.
proof fn lemma_reconstruct_flatten_dets(ds: Seq<DetectionView>)
    requires
        forall|i: int| 0 <= i < ds.len() ==> (#[trigger] ds[i]).wf(),
        forall|i: int|
            0 <= i < ds.len() ==> ((#[trigger] ds[i]).mat.rows == 0 ==> ds[i].mat.cols == 0),
    ensures
        spec_reconstruct_dets(Seq::new(ds.len(), |i: int| spec_flatten_detection(ds[i])))
            == Ok::<Seq<DetectionView>, WireError>(ds),
    decreases ds.len(),
{
    let fs = Seq::new(ds.len(), |i: int| spec_flatten_detection(ds[i]));
    if ds.len() == 0 {
        assert(ds =~= Seq::<DetectionView>::empty());
    } else {
        crate::wire::lemma_flatten_then_reconstruct(ds[0]);
        let tail = ds.drop_first();
        lemma_reconstruct_flatten_dets(tail);
        assert(fs.drop_first() =~= Seq::new(tail.len(), |i: int| spec_flatten_detection(tail[i])));
        assert(seq![ds[0]] + tail =~= ds);
    }
}

/// Round-trip identity: for every well-formed detection list whose matrix
/// shapes are canonical, flattening, serializing, deserializing and
/// reconstructing gives back exactly the original value, uid, order, fields
/// and matrix contents included.
pub proof fn lemma_round_trip(lv: DetectionListView)
    requires
        lv.wf(),
        canonical_shapes(lv),
    ensures
        ({
            let msg = spec_flatten_list(lv);
            &&& spec_deserialize(spec_serialize(msg)) == Ok::<DetectionListMsgView, WireError>(msg)
            &&& spec_reconstruct_dets(msg.dets) == Ok::<Seq<DetectionView>, WireError>(lv.dets)
            &&& msg.uid == lv.uid
        }),
{
    let msg = spec_flatten_list(lv);
    crate::codec::lemma_serialize_deserialize(msg);
    lemma_reconstruct_flatten_dets(lv.dets);
}

/// The executable round trip: serialize the list and read it back.  The
/// contract is the round-trip identity itself: the call succeeds and the
/// reconstructed list equals the input in every field.
pub fn round_trip(l: &DetectionList) -> (r: Result<DetectionList, WireError>)
    requires
        l.wf(),
        canonical_shapes(l@),
    ensures
        r matches Ok(out) && out@ == l@,
{
    proof {
        lemma_round_trip(l@);
    }
    let bytes = serialize_detection_list(l);
    let r = deserialize_detection_list(bytes.as_slice());
    match r {
        Ok(out) => {
            proof {
                assert(out@ =~= l@);
            }
            Ok(out)
        },
        Err(_) => {
            proof {
                assert(false);
            }
            Err(WireError::MalformedMessage)
        },
    }
}

} // verus!
