//! Core record types.
use crate::clock::now_micros;
use vstd::prelude::*;

verus! {

/// A filesystem path, carried through unchanged.
#[verifier::external_type_specification]
#[verifier::external_body]
pub struct ExPathBuf(std::path::PathBuf);

/// Relies on `PathBuf::clone`, which copies the path; nothing about it is used.
pub assume_specification[ <std::path::PathBuf as Clone>::clone ](p: &std::path::PathBuf) -> std::path::PathBuf;

/// Keys are arbitrary byte strings.
pub type Key = Vec<u8>;

/// Values are arbitrary byte strings.
pub type Value = Vec<u8>;

/// One write: a value, or a tombstone (`value == None`), stamped with the time in microseconds.
#[derive(Debug, Clone)]
pub struct Entry {
    pub key: Key,
    pub value: Option<Value>,
    pub timestamp: u64,
}

impl Entry {
    /// A write of `value` at `key`, stamped now.
    pub fn put(key: Key, value: Value) -> (r: Entry)
        ensures
            r.key == key,
            r.value == Some(value),
    {
        Entry { key, value: Some(value), timestamp: now_micros() }
    }

    /// A tombstone at `key`, stamped now.
    pub fn delete(key: Key) -> (r: Entry)
        ensures
            r.key == key,
            r.value is None,
    {
        Entry { key, value: None, timestamp: now_micros() }
    }

    /// Whether this entry marks a deletion.
    pub fn is_tombstone(&self) -> (r: bool)
        ensures
            r == (self.value is None),
    {
        self.value.is_none()
    }
}

} // verus!
