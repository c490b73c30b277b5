//! What an adapter over an embedded ordered-map store makes of the store's
//! answers. Such a store holds bytes; the adapter hands strings to its
//! callers.

use vstd::prelude::*;
use vstd::string::*;
use vstd::utf8::{decode_utf8, valid_utf8};
use crate::encoding::string_from_utf8;
use crate::error::KvsError;

verus! {

/// The result of a `get` for which the embedded store found `found`. Bytes
/// that are no UTF-8 cannot have been set through the adapter and give
/// `UnknownError`.
pub fn stored_value(found: Option<Vec<u8>>) -> (r: Result<Option<String>, KvsError>)
    ensures
        match found {
            None => r matches Ok(None),
            Some(bytes) => if valid_utf8(bytes@) {
                r matches Ok(Some(text)) && text@ == decode_utf8(bytes@)
            } else {
                r matches Err(KvsError::UnknownError)
            },
        },
{
    match found {
        None => Ok(None),
        Some(bytes) => match string_from_utf8(bytes) {
            Some(text) => Ok(Some(text)),
            None => Err(KvsError::UnknownError),
        },
    }
}

/// The result of a `remove` for which the embedded store reports `previous`
/// as the value that it took out: a key without value cannot be removed.
pub fn removal_result(previous: Option<Vec<u8>>) -> (r: Result<(), KvsError>)
    ensures
        match previous {
            Some(_) => r is Ok,
            None => r matches Err(KvsError::BadRemovalError),
        },
{
    match previous {
        Some(_) => Ok(()),
        None => Err(KvsError::BadRemovalError),
    }
}

/// The bytes that the embedded store is to hold for `value`.
pub fn value_bytes(value: &str) -> (bytes: Vec<u8>)
    ensures
        bytes@ == value.spec_bytes(),
{
    value.as_bytes_vec()
}

} // verus!
