//! Round-trip conversion between an in-memory list of sensor detections and a
//! binary wire format.
//!
//! The domain model ([`model`]) holds detections whose numeric fields are
//! stored as IEEE-754 bit patterns, so that every transformation can be stated
//! and proved exactly.  The wire adapter ([`wire`]) maps each detection to a
//! flat message tree and back, validating matrix dimensions on the way in.
//! The codec ([`codec`]) serializes the message tree to bytes and parses it
//! back.  [`adapter`] composes the two directions and proves the round trip.

pub mod model;
pub mod wire;
pub mod codec;
pub mod adapter;
