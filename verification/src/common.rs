//! The marker that records which engine prepared a data directory.

use vstd::prelude::*;
use vstd::string::*;
use vstd::utf8::{decode_utf8, valid_utf8};
use crate::encoding::string_from_utf8;
use crate::error::KvsError;
use crate::net::{KvsRequest, KvsResponse};

verus! {

/// The name of the marker file within the data directory.
pub const ENGINE_IDENTITY_FILE: &'static str = ".engine";

/// The name under which the log-structured engine is selected.
pub const KVS_ENGINE: &'static str = "kvs";

/// The name under which the embedded alternative engine is selected.
pub const SLED_ENGINE: &'static str = "sled";

/// Another name for `KvsRequest`.
pub type KvRequest = KvsRequest;

/// Another name for `KvsResponse`.
pub type KvResponse = KvsResponse;

/// The engines that a server can be started with.
#[derive(Clone, Copy, Debug, PartialEq, Eq, Structural)]
pub enum EngineKind {
    /// The log-structured engine of this crate.
    Kvs,
    /// The embedded alternative engine.
    Sled,
}

/// The engine that `name` selects, if it selects one.
pub fn select_engine(name: &str) -> (r: Option<EngineKind>)
    ensures
        r == if name@ == KVS_ENGINE@ {
            Some(EngineKind::Kvs)
        } else if name@ == SLED_ENGINE@ {
            Some(EngineKind::Sled)
        } else {
            None::<EngineKind>
        },
{
    let given = name.to_owned();
    if given == KVS_ENGINE.to_owned() {
        Some(EngineKind::Kvs)
    } else if given == SLED_ENGINE.to_owned() {
        Some(EngineKind::Sled)
    } else {
        None
    }
}

/// Whether a directory whose marker holds `marker` (or has no marker, for
/// `None`) may be used by the engine `identity`. A directory without marker
/// suits every engine; one with a marker suits the engine that the marker
/// names. A marker that is not UTF-8 is an internal error.
pub fn validate_env(marker: Option<Vec<u8>>, identity: &str) -> (r: Result<bool, KvsError>)
    ensures
        match r {
            Ok(suits) => match marker {
                None => suits,
                Some(bytes) => valid_utf8(bytes@) && suits == (decode_utf8(bytes@) == identity@),
            },
            Err(KvsError::InternalError(detail)) => {
                &&& marker matches Some(bytes) && !valid_utf8(bytes@)
                &&& detail@ == "UTF decode error"@
            },
            Err(_) => false,
        },
{
    match marker {
        None => Ok(true),
        Some(bytes) => match string_from_utf8(bytes) {
            Some(engine) => Ok(engine == identity.to_owned()),
            None => Err(KvsError::InternalError(String::from_str("UTF decode error"))),
        },
    }
}

/// Checks that a directory whose marker holds `marker` may be used by the
/// engine `identity`, and fails with `EngineMismatchError` where it may not.
pub fn check_engine(marker: Option<Vec<u8>>, identity: &str) -> (r: Result<(), KvsError>)
    ensures
        match r {
            Ok(_) => match marker {
                None => true,
                Some(bytes) => valid_utf8(bytes@) && decode_utf8(bytes@) == identity@,
            },
            Err(KvsError::EngineMismatchError) => marker matches Some(bytes) && valid_utf8(bytes@)
                && decode_utf8(bytes@) != identity@,
            Err(KvsError::InternalError(detail)) => {
                &&& marker matches Some(bytes) && !valid_utf8(bytes@)
                &&& detail@ == "UTF decode error"@
            },
            Err(_) => false,
        },
{
    match validate_env(marker, identity) {
        Ok(true) => Ok(()),
        Ok(false) => Err(KvsError::EngineMismatchError),
        Err(e) => Err(e),
    }
}

/// The bytes to write into the marker of a directory that the engine
/// `identity` prepares.
pub fn identify_env(identity: &str) -> (marker: Vec<u8>)
    ensures
        marker@ == identity.spec_bytes(),
{
    identity.as_bytes_vec()
}

} // verus!
