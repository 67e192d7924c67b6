//! The envelope of the wire protocol and its payloads.
use vstd::prelude::*;
use vstd::string::StrSliceExecFns;
use vstd::utf8::{decode_utf8, encode_utf8, encode_utf8_decode_utf8, valid_utf8};
use std::collections::BTreeMap;
use crate::crdt::merkle_dag::DagNode;

verus! {

/// Node identifier (Ed25519 public key).
pub type NodeId = [u8; 32];

/// 32-byte hash.
pub type Hash32 = [u8; 32];

/// Operation codes of the protocol.
#[derive(Debug, Clone, Copy, PartialEq, Eq, Structural)]
pub enum OpCode {
    Ping,
    SyncReq,
    SyncRes,
    Infer,
}

impl OpCode {
    /// The opcode's byte on the wire.
    pub fn to_byte(self) -> (r: u8)
        ensures
            r == opcode_byte(self),
    {
        match self {
            OpCode::Ping => 0x01,
            OpCode::SyncReq => 0x02,
            OpCode::SyncRes => 0x03,
            OpCode::Infer => 0x04,
        }
    }

    /// The opcode of a byte on the wire, if any.
    pub fn from_byte(b: u8) -> (r: Option<OpCode>)
        ensures
            r matches Some(op) ==> opcode_byte(op) == b,
            r is None ==> forall|op: OpCode| opcode_byte(op) != b,
    {
        match b {
            0x01 => Some(OpCode::Ping),
            0x02 => Some(OpCode::SyncReq),
            0x03 => Some(OpCode::SyncRes),
            0x04 => Some(OpCode::Infer),
            _ => None,
        }
    }
}

pub open spec fn opcode_byte(op: OpCode) -> u8 {
    match op {
        OpCode::Ping => 0x01,
        OpCode::SyncReq => 0x02,
        OpCode::SyncRes => 0x03,
        OpCode::Infer => 0x04,
    }
}

/// The signed part of an envelope.
#[derive(Debug, Clone)]
pub struct AimpData {
    pub v: u8,
    pub op: OpCode,
    pub ttl: u8,
    pub origin_pubkey: NodeId,
    pub vclock: BTreeMap<String, u64>,
    pub payload: Vec<u8>,
}

/// Decoded payload of an envelope.
#[derive(Debug, Clone)]
pub enum Payload {
    PingRoot(Hash32),
    SyncRequest(Vec<Hash32>),
    SyncResponse(Vec<DagNode>),
    InferPrompt(String),
    Raw(Vec<u8>),
}

/// The list of 32-byte hashes that `rmp_serde` decodes from MessagePack
/// bytes, if they hold one.
pub uninterp spec fn msgpack_hashes(bytes: Seq<u8>) -> Option<Seq<Hash32>>;

/// The MessagePack bytes that `rmp_serde` writes for a list of hashes, if
/// it writes them.
pub uninterp spec fn msgpack_of_hashes(hashes: Seq<Hash32>) -> Option<Seq<u8>>;

/// Decodes a list of hashes (`rmp_serde::from_slice`), a function of the
/// bytes alone.
#[verifier::external_body]
fn hashes_from_msgpack(bytes: &[u8]) -> (r: Option<Vec<Hash32>>)
    ensures
        r is Some <==> msgpack_hashes(bytes@) is Some,
        r matches Some(v) ==> msgpack_hashes(bytes@) == Some(v@),
{
    rmp_serde::from_slice::<Vec<Hash32>>(bytes).ok()
}

/// Encodes a list of hashes (`rmp_serde::to_vec`), a function of the
/// hashes alone.
#[verifier::external_body]
fn hashes_to_msgpack(hashes: &Vec<Hash32>) -> (r: Option<Vec<u8>>)
    ensures
        r is Some <==> msgpack_of_hashes(hashes@) is Some,
        r matches Some(v) ==> msgpack_of_hashes(hashes@) == Some(v@),
{
    rmp_serde::to_vec(hashes).ok()
}

/// `String::from_utf8`: succeeds exactly on valid UTF-8, and the string's
/// bytes are the input's.
#[verifier::external_body]
fn string_from_utf8(bytes: Vec<u8>) -> (r: Option<String>)
    ensures
        r is Some <==> valid_utf8(bytes@),
        r matches Some(s) ==> encode_utf8(s@) == bytes@,
{
    String::from_utf8(bytes).ok()
}

/// The bytes as a 32-byte array.
fn to_hash(bytes: &[u8]) -> (r: Hash32)
    requires
        bytes@.len() == 32,
    ensures
        r@ == bytes@,
{
    let mut h: Hash32 = [0u8; 32];
    let mut i: usize = 0;
    while i < 32
        invariant
            bytes@.len() == 32,
            i <= 32,
            forall|j: int| 0 <= j < i ==> h@[j] == bytes@[j],
        decreases 32 - i,
    {
        h.set(i, bytes[i]);
        i = i + 1;
    }
    proof {
        assert(h@ =~= bytes@);
    }
    h
}

impl Payload {
    /// The payload of an envelope with opcode `op` and payload bytes
    /// `bytes`: a Ping carries a 32-byte root, a SyncReq a MessagePack list
    /// of head hashes, a SyncRes a MessagePack list of nodes (`nodes`: their
    /// decoding, where it succeeds), an Infer a UTF-8 prompt; bytes that do
    /// not fit stay raw.
    pub fn decode(op: OpCode, bytes: &[u8], nodes: Option<Vec<DagNode>>) -> (r: Payload)
        ensures
            match op {
                OpCode::Ping => if bytes@.len() == 32 {
                    r matches Payload::PingRoot(h) && h@ == bytes@
                } else {
                    r matches Payload::Raw(b) && b@ == bytes@
                },
                OpCode::SyncReq => match msgpack_hashes(bytes@) {
                    Some(hs) => r matches Payload::SyncRequest(v) && v@ == hs,
                    None => r matches Payload::Raw(b) && b@ == bytes@,
                },
                OpCode::SyncRes => match nodes {
                    Some(ns) => r == Payload::SyncResponse(ns),
                    None => r matches Payload::Raw(b) && b@ == bytes@,
                },
                OpCode::Infer => if valid_utf8(bytes@) {
                    r matches Payload::InferPrompt(s) && s@ == decode_utf8(bytes@)
                } else {
                    r matches Payload::Raw(b) && b@ == bytes@
                },
            },
    {
        match op {
            OpCode::Ping => {
                if bytes.len() == 32 {
                    Payload::PingRoot(to_hash(bytes))
                } else {
                    Payload::Raw(vstd::slice::slice_to_vec(bytes))
                }
            },
            OpCode::SyncReq => match hashes_from_msgpack(bytes) {
                Some(v) => Payload::SyncRequest(v),
                None => Payload::Raw(vstd::slice::slice_to_vec(bytes)),
            },
            OpCode::SyncRes => match nodes {
                Some(ns) => Payload::SyncResponse(ns),
                None => Payload::Raw(vstd::slice::slice_to_vec(bytes)),
            },
            OpCode::Infer => match string_from_utf8(vstd::slice::slice_to_vec(bytes)) {
                Some(s) => {
                    proof {
                        encode_utf8_decode_utf8(s@);
                    }
                    Payload::InferPrompt(s)
                },
                None => Payload::Raw(vstd::slice::slice_to_vec(bytes)),
            },
        }
    }

    /// The payload bytes: a root as is, head hashes as MessagePack (empty
    /// where encoding fails), nodes as `nodes_encoded` (their MessagePack
    /// encoding, empty where it failed), a prompt as UTF-8, raw bytes as
    /// they are.
    pub fn encode(&self, nodes_encoded: Option<Vec<u8>>) -> (r: Vec<u8>)
        ensures
            match self {
                Payload::PingRoot(h) => r@ == h@,
                Payload::SyncRequest(heads) => r@ == match msgpack_of_hashes(heads@) {
                    Some(b) => b,
                    None => Seq::empty(),
                },
                Payload::SyncResponse(_) => r@ == match nodes_encoded {
                    Some(b) => b@,
                    None => Seq::empty(),
                },
                Payload::InferPrompt(s) => r@ == encode_utf8(s@),
                Payload::Raw(b) => r@ == b@,
            },
    {
        match self {
            Payload::PingRoot(h) => vstd::slice::slice_to_vec(h.as_slice()),
            Payload::SyncRequest(heads) => match hashes_to_msgpack(heads) {
                Some(b) => b,
                None => Vec::new(),
            },
            Payload::SyncResponse(_) => match nodes_encoded {
                Some(b) => b,
                None => Vec::new(),
            },
            Payload::InferPrompt(s) => s.as_str().as_bytes_vec(),
            Payload::Raw(b) => b.clone(),
        }
    }
}

/// A signed protocol message.
#[derive(Debug, Clone)]
pub struct AimpEnvelope {
    pub data: AimpData,
    pub signature: [u8; 64],
}

} // verus!
