//! Services and their channels.

use crate::names::{copy_names, texts};
use crate::values::ChannelKind;
use vstd::prelude::*;

verus! {

/// The mathematical value of a [`Channel`].
pub struct ChannelView {
    pub id: Seq<char>,
    pub service: Seq<char>,
    pub adapter: Seq<char>,
    pub kind: ChannelKind,
    pub tags: Seq<Seq<char>>,
}

/// A typed point of input or output on a service. A getter is read and
/// watched; a setter is written to.
#[derive(Debug, PartialEq, Eq)]
pub struct Channel {
    /// The identifier of the channel, unique among channels of its direction.
    pub id: String,
    /// The service that the channel belongs to.
    pub service: String,
    /// The adapter that drives the channel.
    pub adapter: String,
    /// The type of the values that the channel speaks.
    pub kind: ChannelKind,
    /// The tags attached to the channel.
    pub tags: Vec<String>,
}

/// A getter channel.
pub type Getter = Channel;

/// A setter channel.
pub type Setter = Channel;

impl View for Channel {
    type V = ChannelView;

    open spec fn view(&self) -> ChannelView {
        ChannelView {
            id: self.id@,
            service: self.service@,
            adapter: self.adapter@,
            kind: self.kind,
            tags: texts(self.tags@),
        }
    }
}

impl Clone for Channel {
    fn clone(&self) -> (r: Self)
        ensures
            r@ == self@,
            r.id == self.id,
            r.service == self.service,
            r.adapter == self.adapter,
            r.tags@ == self.tags@,
    {
        Channel {
            id: self.id.clone(),
            service: self.service.clone(),
            adapter: self.adapter.clone(),
            kind: self.kind,
            tags: copy_names(&self.tags),
        }
    }
}

/// The mathematical value of a [`Service`].
pub struct ServiceView {
    pub id: Seq<char>,
    pub adapter: Seq<char>,
    pub tags: Seq<Seq<char>>,
    pub getters: Seq<Seq<char>>,
    pub setters: Seq<Seq<char>>,
}

/// A logical device, owned by one adapter. Its getters and setters are
/// named here and described in the registry's channel tables.
#[derive(Debug, PartialEq, Eq)]
pub struct Service {
    /// The identifier of the service, unique among services.
    pub id: String,
    /// The adapter that owns the service.
    pub adapter: String,
    /// The tags attached to the service.
    pub tags: Vec<String>,
    /// The identifiers of the getters of the service.
    pub getters: Vec<String>,
    /// The identifiers of the setters of the service.
    pub setters: Vec<String>,
}

impl View for Service {
    type V = ServiceView;

    open spec fn view(&self) -> ServiceView {
        ServiceView {
            id: self.id@,
            adapter: self.adapter@,
            tags: texts(self.tags@),
            getters: texts(self.getters@),
            setters: texts(self.setters@),
        }
    }
}

impl Clone for Service {
    fn clone(&self) -> (r: Self)
        ensures
            r@ == self@,
    {
        Service {
            id: self.id.clone(),
            adapter: self.adapter.clone(),
            tags: copy_names(&self.tags),
            getters: copy_names(&self.getters),
            setters: copy_names(&self.setters),
        }
    }
}

impl Service {
    /// A service without tags or channels.
    pub fn empty(id: String, adapter: String) -> (s: Self)
        ensures
            s.id == id,
            s.adapter == adapter,
            s.tags@.len() == 0,
            s.getters@.len() == 0,
            s.setters@.len() == 0,
    {
        Service { id, adapter, tags: Vec::new(), getters: Vec::new(), setters: Vec::new() }
    }
}

impl Channel {
    /// A channel without tags.
    pub fn untagged(id: String, service: String, adapter: String, kind: ChannelKind) -> (c: Self)
        ensures
            c.id == id,
            c.service == service,
            c.adapter == adapter,
            c.kind == kind,
            c.tags@.len() == 0,
    {
        Channel { id, service, adapter, kind, tags: Vec::new() }
    }
}

} // verus!
