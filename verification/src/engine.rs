//! The interface that every storage engine offers to the serving layer.

use vstd::prelude::*;
use crate::command::CommandView;
use crate::error::KvsError;
use crate::kv::KvStore;

verus! {

/// What an optional string stands for in specifications.
pub open spec fn text_of(found: Option<String>) -> Option<Seq<char>> {
    match found {
        Some(text) => Some(text@),
        None => None,
    }
}

/// The value that `contents` holds for `key`, if it holds one.
pub open spec fn value_of(contents: Map<Seq<char>, Seq<char>>, key: Seq<char>) -> Option<
    Seq<char>,
> {
    if contents.contains_key(key) {
        Some(contents[key])
    } else {
        None
    }
}

/// A storage engine for key-value pairs.
///
/// An engine may state a model: the pairs that it holds. An engine that does
/// so promises that its operations fail for no reason that lies outside of
/// it, such as a disk that cannot be written; the contracts below then say
/// what each operation returns and how it changes the pairs. Of an engine
/// without a model they say nothing.
pub trait KvsEngine {
    /// Whether the engine's own invariant holds.
    open spec fn valid(&self) -> bool {
        true
    }

    /// The key-value pairs that the engine holds, where it states them.
    open spec fn model(&self) -> Option<Map<Seq<char>, Seq<char>>> {
        None
    }

    /// Retrieves the value of `key`. A key that is not present gives
    /// `Ok(None)`, never an error.
    fn get(&mut self, key: String) -> (r: Result<Option<String>, KvsError>)
        requires
            old(self).valid(),
        ensures
            final(self).valid(),
            final(self).model() is Some == old(self).model() is Some,
            old(self).model() matches Some(contents) ==> {
                &&& final(self).model() == Some(contents)
                &&& r matches Ok(found)
                &&& text_of(found) == value_of(contents, key@)
            },
    ;

    /// Sets the value of `key`. A value that the key had before is
    /// overwritten.
    fn set(&mut self, key: String, value: String) -> (r: Result<(), KvsError>)
        requires
            old(self).valid(),
        ensures
            final(self).valid(),
            final(self).model() is Some == old(self).model() is Some,
            old(self).model() matches Some(contents) ==> {
                &&& r is Ok
                &&& final(self).model() == Some(contents.insert(key@, value@))
            },
    ;

    /// Removes `key` and its value. The removal of a key that is not present
    /// fails with `BadRemovalError` and changes nothing.
    fn remove(&mut self, key: String) -> (r: Result<(), KvsError>)
        requires
            old(self).valid(),
        ensures
            final(self).valid(),
            final(self).model() is Some == old(self).model() is Some,
            old(self).model() matches Some(contents) ==> if contents.contains_key(key@) {
                &&& r is Ok
                &&& final(self).model() == Some(contents.remove(key@))
            } else {
                &&& r matches Err(KvsError::BadRemovalError)
                &&& final(self).model() == Some(contents)
            },
    ;
}

impl KvsEngine for KvStore {
    open spec fn valid(&self) -> bool {
        self.wf()
    }

    open spec fn model(&self) -> Option<Map<Seq<char>, Seq<char>>> {
        Some(self@)
    }

    fn get(&mut self, key: String) -> (r: Result<Option<String>, KvsError>)
        ensures
            *final(self) == *old(self),
    {
        KvStore::get(self, key)
    }

    fn set(&mut self, key: String, value: String) -> (r: Result<(), KvsError>)
        ensures
            old(self).wrote(final(self), CommandView::Put { key: key@, value: value@ }),
    {
        KvStore::set(self, key, value)
    }

    fn remove(&mut self, key: String) -> (r: Result<(), KvsError>)
        ensures
            r is Ok ==> old(self).wrote(final(self), CommandView::Remove { key: key@ }),
            r is Err ==> *final(self) == *old(self),
    {
        KvStore::remove(self, key)
    }
}

} // verus!
