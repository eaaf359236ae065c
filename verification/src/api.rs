//! Errors and events that clients of the multiplexer receive.

use crate::values::{ChannelKind, Value};
use vstd::prelude::*;

verus! {

/// An inconsistency between a request and the registry.
#[derive(Clone, PartialEq, Eq, Debug)]
pub enum InternalError {
    NoSuchAdapter(String),
    NoSuchService(String),
    NoSuchGetter(String),
    NoSuchSetter(String),
    DuplicateAdapter(String),
    DuplicateService(String),
    DuplicateGetter(String),
    DuplicateSetter(String),
    /// The adapter that the parent service names, then the one that the
    /// channel names.
    ConflictingAdapter(String, String),
    /// A service was submitted with channels already in it.
    InvalidInitialService,
}

/// A value whose kind is not the one that its channel declares.
#[derive(Clone, PartialEq, Eq, Debug)]
pub struct TypeError {
    pub got: ChannelKind,
    pub expected: ChannelKind,
}

/// Why an operation, or one channel of a batch, failed.
#[derive(Clone, PartialEq, Eq, Debug)]
pub enum Error {
    TypeError(TypeError),
    /// A failure reported by an adapter, kept as the adapter worded it.
    AdapterError(String),
    InternalError(InternalError),
}

/// The result of a batch: one entry per channel that answered.
pub type ResultMap<K, T, E> = Vec<(K, Result<T, E>)>;

/// What the client of a watch is told.
#[derive(Clone, PartialEq, Eq, Debug)]
pub enum WatchEvent {
    /// A getter produced a value inside the watched range.
    EnterRange { from: String, value: Value },
    /// A getter produced a value outside the watched range.
    ExitRange { from: String, value: Value },
    /// A getter could not be watched.
    InitializationError { channel: String, error: Error },
}

} // verus!
