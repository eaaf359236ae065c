//! The interface between the multiplexer and the adapters plugged into it.

use crate::api::{Error, ResultMap};
use crate::values::{Range, Value};
use vstd::prelude::*;

verus! {

/// A witness that an adapter is watching a getter. The adapter stops
/// watching when the guard is dropped.
pub trait AdapterWatchGuard {

}

/// What an adapter reports about a watched getter.
#[derive(Clone, PartialEq, Eq, Debug)]
pub enum WatchEvent {
    /// The getter entered the watched range or, without a range, produced a
    /// new value.
    Enter { id: String, value: Value },
    /// The getter left the watched range.
    Exit { id: String, value: Value },
}

/// The receiving end of a watch: where the events for one client go.
pub trait WatchSink {
    /// Hands an event to the client.
    fn send(&self, event: crate::api::WatchEvent);
}

/// A device driver plugged into the multiplexer. Every call blocks;
/// adapters answer quickly or serve several requests at once. Nothing is
/// promised of what an adapter answers.
pub trait Adapter {
    /// The handle that keeps one downstream subscription alive.
    type Guard: AdapterWatchGuard;

    /// Where the adapter reports the events of a watch.
    type Sink: WatchSink;

    /// The identifier of the adapter, the same after every restart.
    fn id(&self) -> String;

    /// The name of the adapter.
    fn name(&self) -> String;

    /// The vendor of the adapter.
    fn vendor(&self) -> String;

    /// The version of the adapter.
    fn version(&self) -> [u32; 4];

    /// Reads the latest value of each getter.
    fn fetch_values(&self, set: Vec<String>) -> ResultMap<String, Option<Value>, Error>;

    /// Sends each value to its setter.
    fn send_values(&self, values: Vec<(String, Value)>) -> ResultMap<String, (), Error>;

    /// Starts watching each getter, within its range if it has one, and
    /// reports to `sink`.
    fn register_watch(&self, sources: Vec<(String, Option<Range>)>, sink: &Self::Sink) -> ResultMap<
        String,
        Self::Guard,
        Error,
    >;
}

} // verus!
