//! The error type of the node.
use vstd::prelude::*;
use crate::crypto::identity::CryptoError;
use crate::protocol::de_ser::ParserError;

verus! {

#[verifier::external_type_specification]
#[verifier::external_body]
pub struct ExIoError(std::io::Error);

/// Errors of the node.
#[derive(Debug)]
pub enum AimpError {
    Crypto(CryptoError),
    Protocol(ParserError),
    Storage(String),
    Network(std::io::Error),
    Config(String),
    Encryption(String),
    Inference(String),
}

/// Result with the node's error type.
pub type AimpResult<T> = Result<T, AimpError>;

} // verus!
