//! Removing what was just added restores the registry.
//!
//! The registry is compared table by table. Records that hold lists are
//! compared by what the lists hold, in their order: services by their
//! views, adapters by the services that they list, watchers by the getters
//! that they cover and the subscriptions that they hold.

use crate::adapter::Adapter;
use crate::api::{Error, InternalError};
use crate::backend::{AdapterManagerState, WatcherData};
use crate::names::{lemma_without, lemma_without_appended, listed};
use crate::services::{Channel, Service};
use crate::watch::lemma_guards_without_appended;
use vstd::prelude::*;

verus! {

impl<A: Adapter> WatcherData<A> {
    /// This watcher covers the getters that `other` covers and holds the
    /// subscriptions that `other` holds, in the same order.
    pub open spec fn is_like(&self, other: &Self) -> bool {
        &&& self.key == other.key
        &&& self.watch == other.watch
        &&& self.on_event == other.on_event
        &&& self.getters@ == other.getters@
        &&& self.guards@ == other.guards@
    }
}

impl<A: Adapter> AdapterManagerState<A> {
    /// The same adapters are registered, and each lists the same services
    /// in the same order.
    pub open spec fn same_adapters(&self, other: &Self) -> bool {
        &&& self.adapter_by_id@.dom() == other.adapter_by_id@.dom()
        &&& forall|a: Seq<char>| #[trigger]
            self.adapter_by_id@.dom().contains(a) ==> {
                &&& self.adapter_by_id@[a].id == other.adapter_by_id@[a].id
                &&& self.adapter_by_id@[a].adapter == other.adapter_by_id@[a].adapter
                &&& self.adapter_by_id@[a].services@ == other.adapter_by_id@[a].services@
            }
    }

    /// The same services are registered, each with the same value.
    pub open spec fn same_services(&self, other: &Self) -> bool {
        &&& self.service_by_id@.dom() == other.service_by_id@.dom()
        &&& forall|s: Seq<char>| #[trigger]
            self.service_by_id@.dom().contains(s) ==> self.service_by_id@[s]@
                == other.service_by_id@[s]@
    }

    /// The same watchers are registered, each covering the same getters and
    /// holding the same subscriptions, and the next key is the same.
    pub open spec fn same_watchers(&self, other: &Self) -> bool {
        &&& self.watchers.counter == other.watchers.counter
        &&& self.watchers.watchers@.dom() == other.watchers.watchers@.dom()
        &&& forall|k: usize| #[trigger]
            self.watchers.watchers@.dom().contains(k) ==> self.watchers.watchers@[k].is_like(
                &other.watchers.watchers@[k],
            )
    }

    /// Adding an adapter and removing it again restores the registry.
    pub proof fn lemma_adapter_added_then_removed(
        s0: &Self,
        s1: &Self,
        s2: &Self,
        id: String,
        adapter: A,
    )
        requires
            s0.wf(),
            !s0.adapter_by_id@.dom().contains(id@),
            s1.is_with_adapter(s0, id, adapter),
            s2.is_without_adapter(s1, id@),
        ensures
            s2.adapter_by_id@ == s0.adapter_by_id@,
            s2.service_by_id == s0.service_by_id,
            s2.getter_by_id == s0.getter_by_id,
            s2.setter_by_id == s0.setter_by_id,
            s2.watchers == s0.watchers,
    {
        assert(s2.adapter_by_id@ =~= s0.adapter_by_id@);
    }

    /// Adding a service and removing it again restores the registry.
    pub proof fn lemma_service_added_then_removed(s0: &Self, s1: &Self, s2: &Self, service: Service)
        requires
            s0.wf(),
            s0.add_service_outcome(&service) is Ok,
            s1.is_with_service(s0, service),
            s2.is_without_service(s1, service.id@),
        ensures
            s2.same_adapters(s0),
            s2.service_by_id@ == s0.service_by_id@,
            s2.getter_by_id@ == s0.getter_by_id@,
            s2.setter_by_id@ == s0.setter_by_id@,
            s2.watchers == s0.watchers,
    {
        let aid = service.adapter@;
        assert(s1.service_by_id@[service.id@] == service);
        assert(s2.service_by_id@ =~= s0.service_by_id@);
        assert forall|g: Seq<char>| s0.getter_by_id@.dom().contains(g)
            implies s2.getter_by_id@.dom().contains(
            g,
        ) by {
            assert(s0.service_by_id@.dom().contains(s0.getter_by_id@[g].getter.service@));
        }
        assert forall|c: Seq<char>| s0.setter_by_id@.dom().contains(c)
            implies s2.setter_by_id@.dom().contains(
            c,
        ) by {
            assert(s0.service_by_id@.dom().contains(s0.setter_by_id@[c].setter.service@));
        }
        assert(s2.getter_by_id@ =~= s0.getter_by_id@);
        assert(s2.setter_by_id@ =~= s0.setter_by_id@);
        assert(!listed(s0.adapter_by_id@[aid].services@, service.id@));
        lemma_without_appended(s0.adapter_by_id@[aid].services@, service.id);
        assert forall|a: Seq<char>| #[trigger] s2.adapter_by_id@.dom().contains(a) implies {
            &&& s2.adapter_by_id@[a].id == s0.adapter_by_id@[a].id
            &&& s2.adapter_by_id@[a].adapter == s0.adapter_by_id@[a].adapter
            &&& s2.adapter_by_id@[a].services@ == s0.adapter_by_id@[a].services@
        } by {
            assert(s1.adapter_by_id@.dom().contains(a));
            assert(s0.adapter_by_id@.dom().contains(a));
        }
    }

    /// Adding a setter and removing it again restores the registry.
    pub proof fn lemma_setter_added_then_removed(s0: &Self, s1: &Self, s2: &Self, setter: Channel)
        requires
            s0.wf(),
            s0.add_channel_outcome(
                &setter,
                s0.setter_by_id@.dom().contains(setter.id@),
                Error::InternalError(InternalError::DuplicateSetter(setter.id)),
            ) is Ok,
            s1.is_with_setter(s0, setter),
            s2.is_without_setter(s1, setter.id@),
        ensures
            s2.adapter_by_id == s0.adapter_by_id,
            s2.same_services(s0),
            s2.getter_by_id == s0.getter_by_id,
            s2.setter_by_id@ == s0.setter_by_id@,
            s2.watchers == s0.watchers,
    {
        let parent = setter.service@;
        assert(s1.setter_by_id@[setter.id@].setter == setter);
        assert(s2.setter_by_id@ =~= s0.setter_by_id@);
        assert(!listed(s0.service_by_id@[parent].setters@, setter.id@));
        lemma_without_appended(s0.service_by_id@[parent].setters@, setter.id);
        assert forall|s: Seq<char>| #[trigger]
            s2.service_by_id@.dom().contains(s) implies s2.service_by_id@[s]@
            == s0.service_by_id@[s]@ by {
            assert(s1.service_by_id@.dom().contains(s));
            assert(s0.service_by_id@.dom().contains(s));
        }
    }

    /// Adding a getter and removing it again restores the registry,
    /// whatever the adapters answered when they were asked to watch the
    /// getter.
    pub proof fn lemma_getter_added_then_removed(s0: &Self, s1: &Self, s2: &Self, getter: Channel)
        requires
            s0.wf(),
            s0.add_channel_outcome(
                &getter,
                s0.getter_by_id@.dom().contains(getter.id@),
                Error::InternalError(InternalError::DuplicateGetter(getter.id)),
            ) is Ok,
            s1.is_with_getter(s0, getter),
            s2.is_without_getter(s1, getter.id@),
        ensures
            s2.adapter_by_id == s0.adapter_by_id,
            s2.same_services(s0),
            s2.getter_by_id@ == s0.getter_by_id@,
            s2.setter_by_id == s0.setter_by_id,
            s2.same_watchers(s0),
    {
        let parent = getter.service@;
        let gid = getter.id@;
        assert(s1.getter_by_id@[gid].getter == getter);
        assert(s2.getter_by_id@ =~= s0.getter_by_id@);
        assert(!listed(s0.service_by_id@[parent].getters@, gid));
        lemma_without_appended(s0.service_by_id@[parent].getters@, getter.id);
        assert forall|s: Seq<char>| #[trigger]
            s2.service_by_id@.dom().contains(s) implies s2.service_by_id@[s]@
            == s0.service_by_id@[s]@ by {
            assert(s1.service_by_id@.dom().contains(s));
            assert(s0.service_by_id@.dom().contains(s));
        }
        assert forall|k: usize| #[trigger]
            s2.watchers.watchers@.dom().contains(k) implies s2.watchers.watchers@[k].is_like(
            &s0.watchers.watchers@[k],
        ) by {
            let w0 = s0.watchers.watchers@[k];
            let w1 = s1.watchers.watchers@[k];
            let w2 = s2.watchers.watchers@[k];
            assert(s1.watchers.watchers@.dom().contains(k));
            assert(s0.watchers.watchers@.dom().contains(k));
            assert(w1.is_extended_with(&w0, &getter));
            assert(w2.is_without_getter(&w1, gid));
            // No watcher covered the getter before it was registered.
            assert(!listed(w0.getters@, gid)) by {
                if listed(w0.getters@, gid) {
                    assert(s0.getter_by_id@.dom().contains(gid));
                }
            }
            if w1.getters@ == w0.getters@ {
                lemma_without(w0.getters@, gid);
            } else {
                lemma_without_appended(w0.getters@, getter.id);
            }
            assert forall|j: int| 0 <= j < w0.guards@.len() implies (#[trigger] w0.guards@[j]).0@
                != gid by {
                assert(w0.guards@.contains(w0.guards@[j]));
                assert(listed(w0.getters@, w0.guards@[j].0@));
            }
            lemma_guards_without_appended(w0.guards@, w1.guards@, gid);
        }
    }

    /// What was removed is no longer registered, so that removing it again
    /// fails.
    pub proof fn lemma_removed_is_absent(s1: &Self, s2: &Self, id: Seq<char>)
        ensures
            s2.is_without_adapter(s1, id) ==> !s2.adapter_by_id@.dom().contains(id),
            s2.is_without_service(s1, id) ==> !s2.service_by_id@.dom().contains(id),
            s2.is_without_getter(s1, id) ==> !s2.getter_by_id@.dom().contains(id),
            s2.is_without_setter(s1, id) ==> !s2.setter_by_id@.dom().contains(id),
    {
    }
}

} // verus!
