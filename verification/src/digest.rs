//! The verified head of the transaction-message digest pipeline.
//!
//! A serialized mock transaction arrives as a JSON byte buffer.  It is
//! deserialized into the interchange representation and converted into the
//! in-memory mock transaction model; a malformed buffer is rejected with the
//! parser's message.  The canonical message hashing over the parsed
//! transaction is performed by the caller's hashing backend on the value this
//! module hands out.

use vstd::prelude::*;
use crate::Util;

verus! {

#[verifier::external_type_specification]
#[verifier::external_body]
pub struct ExReprMockTransaction(ckb_mock_tx_types::ReprMockTransaction);

#[verifier::external_type_specification]
#[verifier::external_body]
pub struct ExMockTransaction(ckb_mock_tx_types::MockTransaction);

/// Whether the byte buffer deserializes as a mock transaction.  JSON
/// deserialization of a fixed representation type depends on the bytes alone.
pub uninterp spec fn mock_tx_parses(bytes: Seq<u8>) -> bool;

/// Failure of the digest pipeline.
#[derive(Debug)]
pub enum TxDigestError {
    /// The buffer does not deserialize as a mock transaction; carries the
    /// parser's message.
    Deserialization(String),
    /// The parsed transaction is structurally unfit for canonical message
    /// generation; carries the generator's message.
    MessageGeneration(String),
}

/// Relies on serde_json::from_slice for ReprMockTransaction: it succeeds
/// exactly on the buffers that are well-formed JSON for that representation,
/// a property of the bytes alone, and otherwise reports a parse error.
#[verifier::external_body]
fn parse_repr_mock_tx(bytes: &Vec<u8>) -> (r: Result<
    ckb_mock_tx_types::ReprMockTransaction,
    String,
>)
    ensures
        r is Ok <==> mock_tx_parses(bytes@),
{
    serde_json::from_slice(bytes.as_slice()).map_err(|e| e.to_string())
}

/// Relies on ckb_mock_tx_types' From conversion from the interchange
/// representation to the in-memory mock transaction model.
#[verifier::external_body]
fn repr_into_mock_tx(repr: ckb_mock_tx_types::ReprMockTransaction) -> (r:
    ckb_mock_tx_types::MockTransaction) {
    repr.into()
}

impl Util {
    /// Deserializes a JSON byte buffer into the mock transaction model that
    /// the canonical message hashing runs over.
    ///
    /// Succeeds exactly when the buffer deserializes as a mock transaction;
    /// a malformed buffer yields a deserialization error carrying the
    /// parser's message, and never a panic.
    pub fn parse_mock_transaction(bytes: &Vec<u8>) -> (r: Result<
        ckb_mock_tx_types::MockTransaction,
        TxDigestError,
    >)
        ensures
            r is Ok <==> mock_tx_parses(bytes@),
            r is Err ==> r->Err_0 is Deserialization,
    {
        match parse_repr_mock_tx(bytes) {
            Ok(repr) => Ok(repr_into_mock_tx(repr)),
            Err(msg) => Err(TxDigestError::Deserialization(msg)),
        }
    }
}

} // verus!
