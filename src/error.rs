use vstd::prelude::*;

use crate::vault_transaction::Error;

verus! {

/// What the client helpers can fail with. Transport failures of the RPC
/// client are added where that client is linked in.
#[derive(Clone, Copy, Debug, PartialEq, Eq, Structural)]
pub enum ClientError {
    DeserializationError,
    InvalidAddressLookupTableAccount,
    InvalidTransactionMessage,
}

impl ClientError {
    /// The client error for a failed message compilation.
    pub fn from_compile_error(e: Error) -> (r: ClientError)
        ensures
            e == Error::InvalidAddressLookupTableAccount ==> r == ClientError::InvalidAddressLookupTableAccount,
            e == Error::InvalidTransactionMessage ==> r == ClientError::InvalidTransactionMessage,
    {
        match e {
            Error::InvalidAddressLookupTableAccount => ClientError::InvalidAddressLookupTableAccount,
            Error::InvalidTransactionMessage => ClientError::InvalidTransactionMessage,
        }
    }

    /// The message of the error.
    pub fn message(&self) -> (r: String)
        ensures
            *self == ClientError::DeserializationError ==> r@ == "Failed to deserialize account data"@,
            *self == ClientError::InvalidAddressLookupTableAccount ==> r@ == "Invalid AddressLookupTableAccount"@,
            *self == ClientError::InvalidTransactionMessage ==> r@ == "Invalid TransactionMessage"@,
    {
        match self {
            ClientError::DeserializationError => "Failed to deserialize account data".to_string(),
            ClientError::InvalidAddressLookupTableAccount => "Invalid AddressLookupTableAccount".to_string(),
            ClientError::InvalidTransactionMessage => "Invalid TransactionMessage".to_string(),
        }
    }
}

} // verus!
