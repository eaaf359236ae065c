//! Selectors: conjunctive predicates over services and channels. A list of
//! selectors selects what any one of them selects.

use crate::names::{add_names, all_listed, contains_all, listed};
use crate::services::{Channel, Service};
use crate::values::ChannelKind;
use vstd::prelude::*;

verus! {

/// An optional constraint on a name: absent, it accepts every name.
pub open spec fn accepts(want: Option<String>, have: Seq<char>) -> bool {
    want matches Some(w) ==> w@ == have
}

fn accepts_name(want: &Option<String>, have: &String) -> (b: bool)
    ensures
        b == accepts(*want, have@),
{
    match want {
        Some(w) => *w == *have,
        None => true,
    }
}

/// A predicate on services. Absent fields accept everything; the fields
/// that are present must all agree.
#[derive(Clone, Debug, PartialEq, Eq)]
pub struct ServiceSelector {
    /// If present, the identifier of the service.
    pub id: Option<String>,
    /// If present, the adapter that owns the service.
    pub parent: Option<String>,
    /// Tags that the service must all carry.
    pub tags: Vec<String>,
}

impl ServiceSelector {
    /// Whether the selector selects `s`.
    pub open spec fn selects(&self, s: &Service) -> bool {
        &&& accepts(self.id, s.id@)
        &&& accepts(self.parent, s.adapter@)
        &&& all_listed(self.tags@, s.tags@)
    }

    /// The selector that selects every service.
    pub fn new() -> (r: Self)
        ensures
            r.id is None,
            r.parent is None,
            r.tags@.len() == 0,
            forall|s: &Service| r.selects(s),
    {
        ServiceSelector { id: None, parent: None, tags: Vec::new() }
    }

    /// Restricts the selector to the service with this identifier.
    pub fn with_id(self, id: String) -> (r: Self)
        ensures
            r.id == Some(id),
            r.parent == self.parent,
            r.tags == self.tags,
    {
        ServiceSelector { id: Some(id), parent: self.parent, tags: self.tags }
    }

    /// Restricts the selector to the services of this adapter.
    pub fn with_parent(self, adapter: String) -> (r: Self)
        ensures
            r.id == self.id,
            r.parent == Some(adapter),
            r.tags == self.tags,
    {
        ServiceSelector { id: self.id, parent: Some(adapter), tags: self.tags }
    }

    /// Restricts the selector to the services that carry all of `tags`, on
    /// top of the tags already asked for.
    pub fn with_tags(self, tags: Vec<String>) -> (r: Self)
        ensures
            r.id == self.id,
            r.parent == self.parent,
            forall|x: Seq<char>|
                #![trigger listed(r.tags@, x)]
                #![trigger listed(self.tags@, x)]
                #![trigger listed(tags@, x)]
                listed(r.tags@, x) <==> listed(self.tags@, x) || listed(tags@, x),
    {
        let mut all = self.tags;
        add_names(&mut all, &tags);
        ServiceSelector { id: self.id, parent: self.parent, tags: all }
    }

    /// Whether the selector selects `s`.
    pub fn matches(&self, s: &Service) -> (b: bool)
        ensures
            b == self.selects(s),
    {
        accepts_name(&self.id, &s.id) && accepts_name(&self.parent, &s.adapter) && contains_all(
            &s.tags,
            &self.tags,
        )
    }
}

/// A predicate on channels. Absent fields accept everything; the fields
/// that are present must all agree.
#[derive(Clone, Debug, PartialEq, Eq)]
pub struct ChannelSelector {
    /// If present, the identifier of the channel.
    pub id: Option<String>,
    /// If present, the service that the channel belongs to.
    pub parent: Option<String>,
    /// If present, the kind of value that the channel speaks.
    pub kind: Option<ChannelKind>,
    /// Tags that the channel must all carry.
    pub tags: Vec<String>,
}

/// A selector of getters.
pub type GetterSelector = ChannelSelector;

/// A selector of setters.
pub type SetterSelector = ChannelSelector;

impl ChannelSelector {
    /// Whether the selector selects `c`.
    pub open spec fn selects(&self, c: &Channel) -> bool {
        &&& accepts(self.id, c.id@)
        &&& accepts(self.parent, c.service@)
        &&& (self.kind matches Some(k) ==> k == c.kind)
        &&& all_listed(self.tags@, c.tags@)
    }

    /// The selector that selects every channel.
    pub fn new() -> (r: Self)
        ensures
            r.id is None,
            r.parent is None,
            r.kind is None,
            r.tags@.len() == 0,
            forall|c: &Channel| r.selects(c),
    {
        ChannelSelector { id: None, parent: None, kind: None, tags: Vec::new() }
    }

    /// Restricts the selector to the channel with this identifier.
    pub fn with_id(self, id: String) -> (r: Self)
        ensures
            r.id == Some(id),
            r.parent == self.parent,
            r.kind == self.kind,
            r.tags == self.tags,
    {
        ChannelSelector { id: Some(id), parent: self.parent, kind: self.kind, tags: self.tags }
    }

    /// Restricts the selector to the channels of this service.
    pub fn with_parent(self, service: String) -> (r: Self)
        ensures
            r.id == self.id,
            r.parent == Some(service),
            r.kind == self.kind,
            r.tags == self.tags,
    {
        ChannelSelector { id: self.id, parent: Some(service), kind: self.kind, tags: self.tags }
    }

    /// Restricts the selector to the channels that speak this kind of value.
    pub fn with_kind(self, kind: ChannelKind) -> (r: Self)
        ensures
            r.id == self.id,
            r.parent == self.parent,
            r.kind == Some(kind),
            r.tags == self.tags,
    {
        ChannelSelector { id: self.id, parent: self.parent, kind: Some(kind), tags: self.tags }
    }

    /// Restricts the selector to the channels that carry all of `tags`, on
    /// top of the tags already asked for.
    pub fn with_tags(self, tags: Vec<String>) -> (r: Self)
        ensures
            r.id == self.id,
            r.parent == self.parent,
            r.kind == self.kind,
            forall|x: Seq<char>|
                #![trigger listed(r.tags@, x)]
                #![trigger listed(self.tags@, x)]
                #![trigger listed(tags@, x)]
                listed(r.tags@, x) <==> listed(self.tags@, x) || listed(tags@, x),
    {
        let mut all = self.tags;
        add_names(&mut all, &tags);
        ChannelSelector { id: self.id, parent: self.parent, kind: self.kind, tags: all }
    }

    /// Whether the selector selects `c`.
    pub fn matches(&self, c: &Channel) -> (b: bool)
        ensures
            b == self.selects(c),
    {
        let kind_ok = match self.kind {
            Some(k) => k == c.kind,
            None => true,
        };
        accepts_name(&self.id, &c.id) && accepts_name(&self.parent, &c.service) && kind_ok
            && contains_all(&c.tags, &self.tags)
    }
}

/// Some selector of `selectors` selects the service `s`.
pub open spec fn any_selects_service(selectors: Seq<ServiceSelector>, s: &Service) -> bool {
    exists|i: int| 0 <= i < selectors.len() && (#[trigger] selectors[i]).selects(s)
}

/// Some selector of `selectors` selects the channel `c`.
pub open spec fn any_selects(selectors: Seq<ChannelSelector>, c: &Channel) -> bool {
    exists|i: int| 0 <= i < selectors.len() && (#[trigger] selectors[i]).selects(c)
}

/// Whether some selector of `selectors` selects the service `s`.
pub fn matches_any_service(selectors: &[ServiceSelector], s: &Service) -> (b: bool)
    ensures
        b == any_selects_service(selectors@, s),
{
    let mut i: usize = 0;
    while i < selectors.len()
        invariant
            i <= selectors.len(),
            forall|j: int| 0 <= j < i ==> !(#[trigger] selectors@[j]).selects(s),
        decreases selectors.len() - i,
    {
        if selectors[i].matches(s) {
            return true;
        }
        i += 1;
    }
    false
}

/// Whether some selector of `selectors` selects the channel `c`.
pub fn matches_any(selectors: &[ChannelSelector], c: &Channel) -> (b: bool)
    ensures
        b == any_selects(selectors@, c),
{
    let mut i: usize = 0;
    while i < selectors.len()
        invariant
            i <= selectors.len(),
            forall|j: int| 0 <= j < i ==> !(#[trigger] selectors@[j]).selects(c),
        decreases selectors.len() - i,
    {
        if selectors[i].matches(c) {
            return true;
        }
        i += 1;
    }
    false
}

} // verus!
