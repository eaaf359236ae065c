//! A device channel multiplexer: a registry of adapters, services and
//! channels, with selector-driven batched dispatch and watch subscriptions.

/// The interface between the multiplexer and the adapters plugged into it.
pub mod adapter;

/// Errors and events that clients receive.
pub mod api;

/// The registry and the operations that add and remove what it holds.
pub mod backend;

/// Reading getters and writing setters by selector.
pub mod dispatch;

/// Lists of names read as sets.
pub mod names;

/// Selecting services and channels, and tagging what was selected.
pub mod query;

/// Removing what was just added restores the registry.
pub mod restore;

/// Predicates on services and channels.
pub mod selector;

/// Services and their channels.
pub mod services;

/// Tables of records indexed by a unique key.
pub mod table;

/// Insertions that can be taken back.
pub mod transact;

/// Values, their kinds, and ranges of values.
pub mod values;

/// What a watch asks of the adapters, and what clients are told.
pub mod watch;

/// Registering and unregistering watches.
pub mod watching;

use vstd::prelude::*;
