//! Wire-format errors and the protocol version window.
use vstd::prelude::*;
use crate::config::{MIN_PROTOCOL_VERSION, PROTOCOL_VERSION};

verus! {

#[verifier::external_type_specification]
#[verifier::external_body]
pub struct ExEncodeError(rmp_serde::encode::Error);

#[verifier::external_type_specification]
#[verifier::external_body]
pub struct ExDecodeError(rmp_serde::decode::Error);

/// Errors of encoding and decoding envelopes.
#[derive(Debug)]
pub enum ParserError {
    /// MessagePack encoding failed
    EncodeFail(rmp_serde::encode::Error),
    /// MessagePack decoding failed
    DecodeFail(rmp_serde::decode::Error),
    /// Empty input or invalid binary format
    InvalidSize,
}

/// The protocol versions a node accepts.
pub open spec fn version_accepted(v: u8) -> bool {
    MIN_PROTOCOL_VERSION <= v <= PROTOCOL_VERSION
}

/// Parser for the wire format (MessagePack framing is done by the caller).
pub struct ProtocolParser;

impl ProtocolParser {
    /// Whether an envelope of protocol version `v` is accepted.
    pub fn version_supported(v: u8) -> (r: bool)
        ensures
            r == version_accepted(v),
    {
        !(v < MIN_PROTOCOL_VERSION || v > PROTOCOL_VERSION)
    }
}

} // verus!
