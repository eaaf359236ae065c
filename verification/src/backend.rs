//! The registry of adapters, services and channels, and the operations that
//! keep its tables consistent with one another.

use crate::adapter::Adapter;
use crate::api::{Error, InternalError};
use crate::names::{add_name, drop_name, listed, without};
use crate::selector::GetterSelector;
use crate::services::{Channel, Service};
use crate::table::{lemma_as_map_keys, lemma_same_keys, same_keys, Keyed, Table};
use crate::values::{Exactly, Range};
use crate::watch::{covers, guards_without};
use crate::watching::drop_guards;
use vstd::prelude::*;

verus! {

/// An adapter and the services that it owns.
pub struct AdapterData<A: Adapter> {
    /// The identifier under which the adapter is registered.
    pub id: String,
    /// The implementation of the adapter.
    pub adapter: A,
    /// The identifiers of the services of this adapter.
    pub services: Vec<String>,
}

impl<A: Adapter> AdapterData<A> {
    /// An adapter that owns no service yet.
    pub fn new(id: String, adapter: A) -> (r: Self)
        ensures
            r.id == id,
            r.adapter == adapter,
            r.services@.len() == 0,
    {
        AdapterData { id, adapter, services: Vec::new() }
    }
}

impl<A: Adapter> Keyed for AdapterData<A> {
    type Id = String;

    type Key = Seq<char>;

    open spec fn key(&self) -> Seq<char> {
        self.id@
    }

    open spec fn key_of(id: &String) -> Seq<char> {
        id@
    }

    fn has_id(&self, id: &String) -> (b: bool) {
        self.id == *id
    }
}

impl Keyed for Service {
    type Id = String;

    type Key = Seq<char>;

    open spec fn key(&self) -> Seq<char> {
        self.id@
    }

    open spec fn key_of(id: &String) -> Seq<char> {
        id@
    }

    fn has_id(&self, id: &String) -> (b: bool) {
        self.id == *id
    }
}

/// A getter and the watchers that cover it.
pub struct GetterData {
    pub getter: Channel,
    /// The keys of the watchers that cover this getter.
    pub watchers: Vec<usize>,
}

impl GetterData {
    /// A getter that no watcher covers yet.
    pub fn new(getter: Channel) -> (r: Self)
        ensures
            r.getter == getter,
            r.watchers@.len() == 0,
    {
        GetterData { getter, watchers: Vec::new() }
    }
}

impl Keyed for GetterData {
    type Id = String;

    type Key = Seq<char>;

    open spec fn key(&self) -> Seq<char> {
        self.getter.id@
    }

    open spec fn key_of(id: &String) -> Seq<char> {
        id@
    }

    fn has_id(&self, id: &String) -> (b: bool) {
        self.getter.id == *id
    }
}

impl GetterData {
    /// This getter is `before`, which also names the watcher `key` if
    /// `covered` holds.
    pub open spec fn is_covered_by(&self, before: &Self, key: usize, covered: bool) -> bool {
        &&& self.getter == before.getter
        &&& forall|k: usize|
            #![trigger self.watchers@.contains(k)]
            #![trigger before.watchers@.contains(k)]
            self.watchers@.contains(k) <==> before.watchers@.contains(k) || (k == key && covered)
    }

    /// This getter is `before`, which no longer names the watcher `key`.
    pub open spec fn is_uncovered_by(&self, before: &Self, key: usize) -> bool {
        &&& self.getter == before.getter
        &&& forall|k: usize|
            #![trigger self.watchers@.contains(k)]
            #![trigger before.watchers@.contains(k)]
            self.watchers@.contains(k) <==> before.watchers@.contains(k) && k != key
    }
}

/// A setter.
pub struct SetterData {
    pub setter: Channel,
}

impl SetterData {
    pub fn new(setter: Channel) -> (r: Self)
        ensures
            r == (SetterData { setter }),
    {
        SetterData { setter }
    }
}

impl Keyed for SetterData {
    type Id = String;

    type Key = Seq<char>;

    open spec fn key(&self) -> Seq<char> {
        self.setter.id@
    }

    open spec fn key_of(id: &String) -> Seq<char> {
        id@
    }

    fn has_id(&self, id: &String) -> (b: bool) {
        self.setter.id == *id
    }
}

/// A live subscription of a client.
pub struct WatcherData<A: Adapter> {
    /// The key of the watcher, never used twice.
    pub key: usize,
    /// What is watched: each clause selects getters and filters their values.
    pub watch: Vec<(Vec<GetterSelector>, Exactly<Range>)>,
    /// Where the events of this watcher go.
    pub on_event: A::Sink,
    /// The downstream subscriptions held for this watcher, each with the
    /// getter that it watches.
    pub guards: Vec<(String, A::Guard)>,
    /// The identifiers of the getters that this watcher covers.
    pub getters: Vec<String>,
}

impl<A: Adapter> WatcherData<A> {
    /// A watcher that covers no getter and holds no subscription yet.
    pub fn new(key: usize, watch: Vec<(Vec<GetterSelector>, Exactly<Range>)>, on_event: A::Sink) -> (r: Self)
        ensures
            r.key == key,
            r.watch == watch,
            r.on_event == on_event,
            r.guards@.len() == 0,
            r.getters@.len() == 0,
    {
        WatcherData { key, watch, on_event, guards: Vec::new(), getters: Vec::new() }
    }
}

impl<A: Adapter> Keyed for WatcherData<A> {
    type Id = usize;

    type Key = usize;

    open spec fn key(&self) -> usize {
        self.key
    }

    open spec fn key_of(id: &usize) -> usize {
        *id
    }

    fn has_id(&self, id: &usize) -> (b: bool) {
        self.key == *id
    }
}

impl<A: Adapter> WatcherData<A> {
    /// This watcher is `before` but for the getter `gid`, which it no longer
    /// covers nor holds subscriptions for.
    pub open spec fn is_without_getter(&self, before: &Self, gid: Seq<char>) -> bool {
        &&& self.key == before.key
        &&& self.watch == before.watch
        &&& self.on_event == before.on_event
        &&& self.getters@ == without(before.getters@, gid)
        &&& forall|x: Seq<char>|
            #![trigger listed(self.getters@, x)]
            #![trigger listed(before.getters@, x)]
            listed(self.getters@, x) <==> listed(before.getters@, x) && x != gid
        &&& self.guards@ == guards_without(before.guards@, gid)
        &&& forall|g: (String, A::Guard)|
            #![trigger self.guards@.contains(g)]
            #![trigger before.guards@.contains(g)]
            self.guards@.contains(g) <==> before.guards@.contains(g) && g.0@ != gid
    }
}

impl<A: Adapter> WatcherData<A> {
    /// This watcher is `before`, reduced to the getters of `live`: it covers
    /// those and holds the subscriptions for those, and no others.
    pub open spec fn is_reduced_to(&self, before: &Self, live: Set<Seq<char>>) -> bool {
        &&& self.key == before.key
        &&& self.watch == before.watch
        &&& self.on_event == before.on_event
        &&& forall|x: Seq<char>|
            #![trigger listed(self.getters@, x)]
            #![trigger listed(before.getters@, x)]
            listed(self.getters@, x) <==> listed(before.getters@, x) && live.contains(x)
        &&& forall|g: (String, A::Guard)|
            #![trigger self.guards@.contains(g)]
            #![trigger before.guards@.contains(g)]
            self.guards@.contains(g) <==> before.guards@.contains(g) && live.contains(g.0@)
    }
}

impl<A: Adapter> WatcherData<A> {
    /// This watcher is `before`, extended to the getter `getter` if its
    /// watch covers it: it then covers `getter` as well, and holds what
    /// `before` holds, followed by the subscriptions granted for `getter`.
    pub open spec fn is_extended_with(&self, before: &Self, getter: &Channel) -> bool {
        &&& self.key == before.key
        &&& self.watch == before.watch
        &&& self.on_event == before.on_event
        &&& forall|x: Seq<char>|
            #![trigger listed(self.getters@, x)]
            #![trigger listed(before.getters@, x)]
            listed(self.getters@, x) <==> listed(before.getters@, x) || (x == getter.id@ && covers(
                before.watch@,
                getter,
            ))
        &&& self.getters@ == if covers(before.watch@, getter) && !listed(
            before.getters@,
            getter.id@,
        ) {
            before.getters@.push(getter.id)
        } else {
            before.getters@
        }
        &&& before.guards@.is_prefix_of(self.guards@)
        &&& forall|j: int|
            before.guards@.len() <= j < self.guards@.len() ==> (#[trigger] self.guards@[j]).0@
                == getter.id@
        &&& !covers(before.watch@, getter) ==> *self == *before
    }
}

/// The watchers of the registry, each under a key of its own.
pub struct WatchMap<A: Adapter> {
    /// The number of watchers made so far, and the key of the next one.
    pub counter: usize,
    pub watchers: Table<WatcherData<A>>,
}

impl<A: Adapter> WatchMap<A> {
    /// No key occurs twice, and every key was minted before the counter.
    pub open spec fn wf(&self) -> bool {
        &&& self.watchers.wf()
        &&& forall|k: usize| #[trigger] self.watchers@.dom().contains(k) ==> k < self.counter
    }

    /// Registers a new watcher under the next key, which was never used
    /// before. The watcher covers no getter yet. Returns its key.
    pub fn create(&mut self, watch: Vec<(Vec<GetterSelector>, Exactly<Range>)>, on_event: A::Sink) -> (key: usize)
        requires
            old(self).wf(),
            old(self).counter < usize::MAX,
        ensures
            final(self).wf(),
            key == old(self).counter,
            final(self).counter == key + 1,
            !old(self).watchers@.dom().contains(key),
            final(self).watchers.seq().len() == old(self).watchers.seq().len() + 1,
            final(self).watchers.seq().drop_last() == old(self).watchers.seq(),
            final(self).watchers@
                == old(self).watchers@.insert(key, final(self).watchers.seq().last()),
            final(self).watchers.seq().last().key == key,
            final(self).watchers.seq().last().watch == watch,
            final(self).watchers.seq().last().on_event == on_event,
            final(self).watchers.seq().last().getters@.len() == 0,
            final(self).watchers.seq().last().guards@.len() == 0,
    {
        let key = self.counter;
        self.counter = key + 1;
        let watcher = WatcherData::new(key, watch, on_event);
        let _ = self.watchers.insert(&key, watcher);
        assert(self.watchers.seq().drop_last() =~= old(self).watchers.seq());
        key
    }

    /// The watcher registered under `key`, if there is one.
    pub fn get(&self, key: usize) -> (r: Option<&WatcherData<A>>)
        requires
            self.wf(),
        ensures
            r is Some <==> self.watchers@.dom().contains(key),
            r is Some ==> *r->0 == self.watchers@[key],
    {
        self.watchers.get(&key)
    }

    /// Takes the watcher registered under `key` out of the registry, if
    /// there is one. Its key is not used again.
    pub fn remove(&mut self, key: usize) -> (r: Option<WatcherData<A>>)
        requires
            old(self).wf(),
        ensures
            final(self).wf(),
            final(self).counter == old(self).counter,
            r is Some <==> old(self).watchers@.dom().contains(key),
            r is Some ==> r->0 == old(self).watchers@[key] && r->0.key == key,
            r is None ==> *final(self) == *old(self),
            final(self).watchers@ == old(self).watchers@.remove(key),
    {
        self.watchers.remove(&key)
    }

    /// Makes every watcher forget the getter `gid`: it leaves their
    /// coverage, and the subscriptions held for it are dropped.
    #[verifier::spinoff_prover]
    pub fn forget_getter(&mut self, gid: &String)
        requires
            old(self).wf(),
        ensures
            final(self).wf(),
            final(self).counter == old(self).counter,
            final(self).watchers@.dom() == old(self).watchers@.dom(),
            forall|k: usize| #[trigger]
                final(self).watchers@.dom().contains(k)
                    ==> final(self).watchers@[k].is_without_getter(
                    &old(self).watchers@[k],
                    gid@,
                ),
    {
        let ghost before = self.watchers.seq();
        let mut i: usize = 0;
        while i < self.watchers.len()
            invariant
                i <= self.watchers.seq().len(),
                old(self).wf(),
                self.watchers.wf(),
                self.counter == old(self).counter,
                before == old(self).watchers.seq(),
                same_keys(before, self.watchers.seq()),
                forall|j: int|
                    0 <= j < i ==> (#[trigger] self.watchers.seq()[j]).is_without_getter(
                        &before[j],
                        gid@,
                    ),
                forall|j: int| i <= j < before.len() ==> #[trigger] self.watchers.seq()[j]
                    == before[j],
            decreases self.watchers.seq().len() - i,
        {
            let ghost prev = self.watchers.seq();
            let mut w = self.watchers.take_at(i);
            drop_name(&mut w.getters, gid);
            drop_guards(&mut w.guards, gid);
            self.watchers.put_at(i, w);
            assert(self.watchers.seq() =~= prev.update(i as int, w));
            i += 1;
        }
        proof {
            lemma_same_keys(before, self.watchers.seq());
            assert forall|k: usize| #[trigger] self.watchers@.dom().contains(k) implies k
                < self.counter by {
                assert(old(self).watchers@.dom().contains(k));
            }
        }
    }

    /// A registry without watchers.
    pub fn new() -> (m: Self)
        ensures
            m.wf(),
            m.counter == 0,
            m.watchers@ == Map::<usize, WatcherData<A>>::empty(),
    {
        WatchMap { counter: 0, watchers: Table::new() }
    }
}

impl<A: Adapter> Default for WatchMap<A> {
    fn default() -> (m: Self)
        ensures
            m.wf(),
            m.counter == 0,
            m.watchers@ == Map::<usize, WatcherData<A>>::empty(),
    {
        Self::new()
    }
}

/// The state of the multiplexer: four tables that refer to one another, and
/// the watchers.
pub struct AdapterManagerState<A: Adapter> {
    /// Adapters, by their identifier.
    pub adapter_by_id: Table<AdapterData<A>>,
    /// Services, by their identifier.
    pub service_by_id: Table<Service>,
    /// Getters, by their identifier.
    pub getter_by_id: Table<GetterData>,
    /// Setters, by their identifier.
    pub setter_by_id: Table<SetterData>,
    /// The watchers that clients have registered.
    pub watchers: WatchMap<A>,
}

impl<A: Adapter> AdapterManagerState<A> {
    /// No table holds a key twice.
    pub open spec fn tables_wf(&self) -> bool {
        &&& self.adapter_by_id.wf()
        &&& self.service_by_id.wf()
        &&& self.getter_by_id.wf()
        &&& self.setter_by_id.wf()
        &&& self.watchers.wf()
    }

    /// Every service names a registered adapter, and that adapter lists it.
    pub open spec fn services_owned(&self) -> bool {
        forall|sid: Seq<char>| #[trigger]
            self.service_by_id@.dom().contains(sid) ==> {
                let a = self.service_by_id@[sid].adapter@;
                self.adapter_by_id@.dom().contains(a) && listed(
                    self.adapter_by_id@[a].services@,
                    sid,
                )
            }
    }

    /// Every service that an adapter lists is registered, and names it.
    pub open spec fn adapters_own(&self) -> bool {
        forall|aid: Seq<char>, sid: Seq<char>|
            self.adapter_by_id@.dom().contains(aid) && #[trigger] listed(
                self.adapter_by_id@[aid].services@,
                sid,
            ) ==> self.service_by_id@.dom().contains(sid) && self.service_by_id@[sid].adapter@
                == aid
    }

    /// Every getter belongs to a registered service of its own adapter, and
    /// that service lists it.
    pub open spec fn getters_placed(&self) -> bool {
        forall|gid: Seq<char>| #[trigger]
            self.getter_by_id@.dom().contains(gid) ==> {
                let g = self.getter_by_id@[gid].getter;
                &&& self.service_by_id@.dom().contains(g.service@)
                &&& self.service_by_id@[g.service@].adapter@ == g.adapter@
                &&& listed(self.service_by_id@[g.service@].getters@, gid)
            }
    }

    /// Every getter that a service lists is registered, and names it.
    pub open spec fn services_list_getters(&self) -> bool {
        forall|sid: Seq<char>, gid: Seq<char>|
            self.service_by_id@.dom().contains(sid) && #[trigger] listed(
                self.service_by_id@[sid].getters@,
                gid,
            ) ==> self.getter_by_id@.dom().contains(gid)
                && self.getter_by_id@[gid].getter.service@ == sid
    }

    /// Every setter belongs to a registered service of its own adapter, and
    /// that service lists it.
    pub open spec fn setters_placed(&self) -> bool {
        forall|cid: Seq<char>| #[trigger]
            self.setter_by_id@.dom().contains(cid) ==> {
                let c = self.setter_by_id@[cid].setter;
                &&& self.service_by_id@.dom().contains(c.service@)
                &&& self.service_by_id@[c.service@].adapter@ == c.adapter@
                &&& listed(self.service_by_id@[c.service@].setters@, cid)
            }
    }

    /// Every setter that a service lists is registered, and names it.
    pub open spec fn services_list_setters(&self) -> bool {
        forall|sid: Seq<char>, cid: Seq<char>|
            self.service_by_id@.dom().contains(sid) && #[trigger] listed(
                self.service_by_id@[sid].setters@,
                cid,
            ) ==> self.setter_by_id@.dom().contains(cid)
                && self.setter_by_id@[cid].setter.service@ == sid
    }

    /// Every getter that a watcher covers is registered, and names the
    /// watcher among its own.
    pub open spec fn watchers_linked(&self) -> bool {
        forall|k: usize, gid: Seq<char>|
            self.watchers.watchers@.dom().contains(k) && #[trigger] listed(
                self.watchers.watchers@[k].getters@,
                gid,
            ) ==> self.getter_by_id@.dom().contains(gid)
                && self.getter_by_id@[gid].watchers@.contains(
                k,
            )
    }

    /// Every watcher that a getter names is registered, and covers the
    /// getter.
    pub open spec fn getters_linked(&self) -> bool {
        forall|gid: Seq<char>, k: usize|
            self.getter_by_id@.dom().contains(gid)
                && #[trigger] self.getter_by_id@[gid].watchers@.contains(
                k,
            ) ==> self.watchers.watchers@.dom().contains(k) && listed(
                self.watchers.watchers@[k].getters@,
                gid,
            )
    }

    /// Every downstream subscription of a watcher is for a getter that the
    /// watcher covers.
    pub open spec fn guards_covered(&self) -> bool {
        forall|k: usize, g: (String, A::Guard)|
            self.watchers.watchers@.dom().contains(k)
                && #[trigger] self.watchers.watchers@[k].guards@.contains(g) ==> listed(
                self.watchers.watchers@[k].getters@,
                g.0@,
            )
    }

    /// The tables are consistent with one another.
    pub open spec fn wf(&self) -> bool {
        &&& self.tables_wf()
        &&& self.services_owned()
        &&& self.adapters_own()
        &&& self.getters_placed()
        &&& self.services_list_getters()
        &&& self.setters_placed()
        &&& self.services_list_setters()
        &&& self.watchers_linked()
        &&& self.getters_linked()
        &&& self.guards_covered()
    }

    /// In every table, each key belongs to the record that it maps to.
    pub proof fn lemma_keys(&self)
        ensures
            forall|k: Seq<char>| #[trigger]
                self.adapter_by_id@.dom().contains(k) ==> self.adapter_by_id@[k].id@ == k,
            forall|k: Seq<char>| #[trigger]
                self.service_by_id@.dom().contains(k) ==> self.service_by_id@[k].id@ == k,
            forall|k: Seq<char>| #[trigger]
                self.getter_by_id@.dom().contains(k) ==> self.getter_by_id@[k].getter.id@ == k,
            forall|k: Seq<char>| #[trigger]
                self.setter_by_id@.dom().contains(k) ==> self.setter_by_id@[k].setter.id@ == k,
            forall|k: usize| #[trigger]
                self.watchers.watchers@.dom().contains(k) ==> self.watchers.watchers@[k].key == k,
    {
        lemma_as_map_keys(self.adapter_by_id.seq());
        lemma_as_map_keys(self.service_by_id.seq());
        lemma_as_map_keys(self.getter_by_id.seq());
        lemma_as_map_keys(self.setter_by_id.seq());
        lemma_as_map_keys(self.watchers.watchers.seq());
    }

    /// Every registered service names a registered adapter, and that
    /// adapter lists the service among its own.
    pub proof fn lemma_service_is_owned(&self, sid: Seq<char>)
        requires
            self.wf(),
            self.service_by_id@.dom().contains(sid),
        ensures
            self.adapter_by_id@.dom().contains(self.service_by_id@[sid].adapter@),
            listed(self.adapter_by_id@[self.service_by_id@[sid].adapter@].services@, sid),
    {
    }

    /// Every registered getter names the adapter of its service, and that
    /// service lists the getter among its own.
    pub proof fn lemma_getter_is_placed(&self, gid: Seq<char>)
        requires
            self.wf(),
            self.getter_by_id@.dom().contains(gid),
        ensures
            self.service_by_id@.dom().contains(self.getter_by_id@[gid].getter.service@),
            self.getter_by_id@[gid].getter.adapter@
                == self.service_by_id@[self.getter_by_id@[gid].getter.service@].adapter@,
            listed(self.service_by_id@[self.getter_by_id@[gid].getter.service@].getters@, gid),
    {
    }

    /// Every registered setter names the adapter of its service, and that
    /// service lists the setter among its own.
    pub proof fn lemma_setter_is_placed(&self, cid: Seq<char>)
        requires
            self.wf(),
            self.setter_by_id@.dom().contains(cid),
        ensures
            self.service_by_id@.dom().contains(self.setter_by_id@[cid].setter.service@),
            self.setter_by_id@[cid].setter.adapter@
                == self.service_by_id@[self.setter_by_id@[cid].setter.service@].adapter@,
            listed(self.service_by_id@[self.setter_by_id@[cid].setter.service@].setters@, cid),
    {
    }

    /// A registered watcher covers a getter exactly when that getter is
    /// registered and names the watcher among its own.
    pub proof fn lemma_coverage_is_symmetric(&self, k: usize, gid: Seq<char>)
        requires
            self.wf(),
        ensures
            self.watchers.watchers@.dom().contains(k) && listed(
                self.watchers.watchers@[k].getters@,
                gid,
            ) <==> self.getter_by_id@.dom().contains(gid)
                && self.getter_by_id@[gid].watchers@.contains(k),
    {
    }

    /// A registry without adapters, services, channels or watchers.
    pub fn new() -> (s: Self)
        ensures
            s.wf(),
            s.adapter_by_id@ == Map::<Seq<char>, AdapterData<A>>::empty(),
            s.service_by_id@ == Map::<Seq<char>, Service>::empty(),
            s.getter_by_id@ == Map::<Seq<char>, GetterData>::empty(),
            s.setter_by_id@ == Map::<Seq<char>, SetterData>::empty(),
            s.watchers.watchers@ == Map::<usize, WatcherData<A>>::empty(),
            s.watchers.counter == 0,
    {
        AdapterManagerState {
            adapter_by_id: Table::new(),
            service_by_id: Table::new(),
            getter_by_id: Table::new(),
            setter_by_id: Table::new(),
            watchers: WatchMap::new(),
        }
    }

    /// This registry is `before` with the adapter `adapter` registered under
    /// `id`, owning no service yet.
    pub open spec fn is_with_adapter(&self, before: &Self, id: String, adapter: A) -> bool {
        &&& self.adapter_by_id@.dom() == before.adapter_by_id@.dom().insert(id@)
        &&& forall|k: Seq<char>|
            k != id@ && #[trigger] before.adapter_by_id@.dom().contains(k)
                ==> self.adapter_by_id@[k] == before.adapter_by_id@[k]
        &&& self.adapter_by_id@[id@].id == id
        &&& self.adapter_by_id@[id@].adapter == adapter
        &&& self.adapter_by_id@[id@].services@.len() == 0
        &&& self.service_by_id == before.service_by_id
        &&& self.getter_by_id == before.getter_by_id
        &&& self.setter_by_id == before.setter_by_id
        &&& self.watchers == before.watchers
    }

    /// Registers `adapter` under `id`, unless an adapter is registered
    /// under `id` already.
    #[verifier::spinoff_prover]
    pub fn insert_adapter(&mut self, id: String, adapter: A) -> (r: Result<(), Error>)
        requires
            old(self).wf(),
        ensures
            final(self).wf(),
            r is Err <==> old(self).adapter_by_id@.dom().contains(id@),
            r is Err ==> *final(self) == *old(self) && r == Err::<(), Error>(
                Error::InternalError(InternalError::DuplicateAdapter(id)),
            ),
            r is Ok ==> final(self).is_with_adapter(old(self), id, adapter),
    {
        if self.adapter_by_id.contains(&id) {
            return Err(Error::InternalError(InternalError::DuplicateAdapter(id)));
        }
        let key = id.clone();
        let data = AdapterData::new(id, adapter);
        let _ = self.adapter_by_id.insert(&key, data);
        Ok(())
    }

    /// Registers `adapter` under the identifier that it gives itself. Fails
    /// with `DuplicateAdapter` if that identifier is taken, and then changes
    /// nothing.
    #[verifier::spinoff_prover]
    pub fn add_adapter(&mut self, adapter: A) -> (r: Result<(), Error>)
        requires
            old(self).wf(),
        ensures
            final(self).wf(),
            r is Err ==> *final(self) == *old(self) && exists|id: String|
                old(self).adapter_by_id@.dom().contains(id@) && r == Err::<(), Error>(
                    Error::InternalError(InternalError::DuplicateAdapter(id)),
                ),
            r is Ok ==> exists|id: Seq<char>|
                {
                    &&& !old(self).adapter_by_id@.dom().contains(id)
                    &&& final(self).adapter_by_id@.dom() == old(self).adapter_by_id@.dom().insert(
                        id,
                    )
                    &&& forall|k: Seq<char>|
                        k != id && #[trigger] old(self).adapter_by_id@.dom().contains(k)
                            ==> final(self).adapter_by_id@[k] == old(self).adapter_by_id@[k]
                    &&& final(self).adapter_by_id@[id].adapter == adapter
                    &&& final(self).adapter_by_id@[id].services@.len() == 0
                },
            r is Ok ==> {
                &&& final(self).service_by_id == old(self).service_by_id
                &&& final(self).getter_by_id == old(self).getter_by_id
                &&& final(self).setter_by_id == old(self).setter_by_id
                &&& final(self).watchers == old(self).watchers
            },
    {
        let id = adapter.id();
        let r = self.insert_adapter(id, adapter);
        proof {
            if r is Ok {
                assert(!old(self).adapter_by_id@.dom().contains(id@));
            }
        }
        r
    }

    /// What `add_service` answers for `service` in this state.
    pub open spec fn add_service_outcome(&self, service: &Service) -> Result<(), Error> {
        if service.getters@.len() > 0 || service.setters@.len() > 0 {
            Err(Error::InternalError(InternalError::InvalidInitialService))
        } else if !self.adapter_by_id@.dom().contains(service.adapter@) {
            Err(Error::InternalError(InternalError::NoSuchAdapter(service.adapter)))
        } else if self.service_by_id@.dom().contains(service.id@) {
            Err(Error::InternalError(InternalError::DuplicateService(service.id)))
        } else {
            Ok(())
        }
    }

    /// This registry is `before` with the service `service` registered, and
    /// listed last by its adapter.
    pub open spec fn is_with_service(&self, before: &Self, service: Service) -> bool {
        let a = self.adapter_by_id@[service.adapter@];
        let a0 = before.adapter_by_id@[service.adapter@];
        &&& self.service_by_id@ == before.service_by_id@.insert(
            service.id@,
            service,
        )
        &&& self.adapter_by_id.differs_only_at(
            &before.adapter_by_id,
            service.adapter@,
        )
        &&& a.id == a0.id
        &&& a.adapter == a0.adapter
        &&& a.services@ == a0.services@.push(service.id)
        &&& self.getter_by_id == before.getter_by_id
        &&& self.setter_by_id == before.setter_by_id
        &&& self.watchers == before.watchers
    }

    /// Registers a service, which must come without channels, with its
    /// adapter. A call that fails changes nothing.
    #[verifier::spinoff_prover]
    pub fn add_service(&mut self, service: Service) -> (r: Result<(), Error>)
        requires
            old(self).wf(),
        ensures
            final(self).wf(),
            r == old(self).add_service_outcome(&service),
            r is Err ==> *final(self) == *old(self),
            r is Ok ==> final(self).is_with_service(old(self), service),
    {
        if service.getters.len() > 0 || service.setters.len() > 0 {
            return Err(Error::InternalError(InternalError::InvalidInitialService));
        }
        let i = match self.adapter_by_id.find(&service.adapter) {
            None => {
                return Err(
                    Error::InternalError(InternalError::NoSuchAdapter(service.adapter.clone())),
                );
            },
            Some(i) => i,
        };
        if self.service_by_id.contains(&service.id) {
            return Err(Error::InternalError(InternalError::DuplicateService(service.id.clone())));
        }
        proof {
            self.lemma_keys();
        }
        let id = service.id.clone();
        let mut data = self.adapter_by_id.take_at(i);
        add_name(&mut data.services, id.clone());
        self.adapter_by_id.put_at(i, data);
        let _ = self.service_by_id.insert(&id, service);
        proof {
            self.lemma_keys();
            assert forall|sid: Seq<char>, cid: Seq<char>|
                self.service_by_id@.dom().contains(sid) && #[trigger] listed(
                    self.service_by_id@[sid].setters@,
                    cid,
                ) implies self.setter_by_id@.dom().contains(cid)
                && self.setter_by_id@[cid].setter.service@ == sid by {
                if old(self).service_by_id@.dom().contains(sid) && listed(
                    old(self).service_by_id@[sid].setters@,
                    cid,
                ) {
                    assert(old(self).setter_by_id@.dom().contains(cid));
                }
            }
            assert forall|sid: Seq<char>, gid: Seq<char>|
                self.service_by_id@.dom().contains(sid) && #[trigger] listed(
                    self.service_by_id@[sid].getters@,
                    gid,
                ) implies self.getter_by_id@.dom().contains(gid)
                && self.getter_by_id@[gid].getter.service@ == sid by {
                if old(self).service_by_id@.dom().contains(sid) && listed(
                    old(self).service_by_id@[sid].getters@,
                    gid,
                ) {
                    assert(old(self).getter_by_id@.dom().contains(gid));
                }
            }
            assert(self.tables_wf());
            assert(self.services_owned());
            assert(self.adapters_own());
            assert(self.getters_placed());
            assert(self.services_list_getters());
            assert(self.setters_placed());
            assert(self.services_list_setters());
            assert(self.watchers_linked());
            assert(self.getters_linked());
            assert(self.guards_covered());
        }
        Ok(())
    }

    /// What `add_setter` and `add_getter` answer for `channel` in this
    /// state, `taken` saying whether its identifier is in use.
    pub open spec fn add_channel_outcome(&self, channel: &Channel, taken: bool, dup: Error) -> Result<
        (),
        Error,
    > {
        if !self.service_by_id@.dom().contains(channel.service@) {
            Err(Error::InternalError(InternalError::NoSuchService(channel.service)))
        } else if self.service_by_id@[channel.service@].adapter@ != channel.adapter@ {
            Err(
                Error::InternalError(
                    InternalError::ConflictingAdapter(
                        self.service_by_id@[channel.service@].adapter,
                        channel.adapter,
                    ),
                ),
            )
        } else if taken {
            Err(dup)
        } else {
            Ok(())
        }
    }

    /// This registry is `before` with the setter `setter` registered, and
    /// listed last by its service.
    pub open spec fn is_with_setter(&self, before: &Self, setter: Channel) -> bool {
        let s = self.service_by_id@[setter.service@];
        let s0 = before.service_by_id@[setter.service@];
        &&& self.setter_by_id@ == before.setter_by_id@.insert(
            setter.id@,
            SetterData { setter },
        )
        &&& self.service_by_id.differs_only_at(
            &before.service_by_id,
            setter.service@,
        )
        &&& s.id == s0.id
        &&& s.adapter == s0.adapter
        &&& s.tags == s0.tags
        &&& s.getters == s0.getters
        &&& s.setters@ == s0.setters@.push(setter.id)
        &&& self.adapter_by_id == before.adapter_by_id
        &&& self.getter_by_id == before.getter_by_id
        &&& self.watchers == before.watchers
    }

    /// Registers a setter with its service. A call that fails changes
    /// nothing.
    #[verifier::spinoff_prover]
    pub fn add_setter(&mut self, setter: Channel) -> (r: Result<(), Error>)
        requires
            old(self).wf(),
        ensures
            final(self).wf(),
            r == old(self).add_channel_outcome(
                &setter,
                old(self).setter_by_id@.dom().contains(setter.id@),
                Error::InternalError(InternalError::DuplicateSetter(setter.id)),
            ),
            r is Err ==> *final(self) == *old(self),
            r is Ok ==> final(self).is_with_setter(old(self), setter),
    {
        let i = match self.service_by_id.find(&setter.service) {
            None => {
                return Err(
                    Error::InternalError(InternalError::NoSuchService(setter.service.clone())),
                );
            },
            Some(i) => i,
        };
        let parent = self.service_by_id.at(i);
        if parent.adapter != setter.adapter {
            return Err(
                Error::InternalError(
                    InternalError::ConflictingAdapter(
                        parent.adapter.clone(),
                        setter.adapter.clone(),
                    ),
                ),
            );
        }
        if self.setter_by_id.contains(&setter.id) {
            return Err(Error::InternalError(InternalError::DuplicateSetter(setter.id.clone())));
        }
        proof {
            self.lemma_keys();
        }
        let id = setter.id.clone();
        let mut service = self.service_by_id.take_at(i);
        add_name(&mut service.setters, id.clone());
        self.service_by_id.put_at(i, service);
        let _ = self.setter_by_id.insert(&id, SetterData::new(setter));
        proof {
            self.lemma_keys();
            assert forall|sid: Seq<char>, cid: Seq<char>|
                self.service_by_id@.dom().contains(sid) && #[trigger] listed(
                    self.service_by_id@[sid].setters@,
                    cid,
                ) implies self.setter_by_id@.dom().contains(cid)
                && self.setter_by_id@[cid].setter.service@ == sid by {
                if old(self).service_by_id@.dom().contains(sid) && listed(
                    old(self).service_by_id@[sid].setters@,
                    cid,
                ) {
                    assert(old(self).setter_by_id@.dom().contains(cid));
                }
            }
            assert forall|sid: Seq<char>, gid: Seq<char>|
                self.service_by_id@.dom().contains(sid) && #[trigger] listed(
                    self.service_by_id@[sid].getters@,
                    gid,
                ) implies self.getter_by_id@.dom().contains(gid)
                && self.getter_by_id@[gid].getter.service@ == sid by {
                if old(self).service_by_id@.dom().contains(sid) && listed(
                    old(self).service_by_id@[sid].getters@,
                    gid,
                ) {
                    assert(old(self).getter_by_id@.dom().contains(gid));
                }
            }
            assert(self.tables_wf());
            assert(self.services_owned());
            assert(self.adapters_own());
            assert(self.getters_placed());
            assert(self.services_list_getters());
            assert(self.setters_placed());
            assert(self.services_list_setters());
            assert(self.watchers_linked());
            assert(self.getters_linked());
            assert(self.guards_covered());
        }
        Ok(())
    }

    /// This registry is `before` without the setter `id`, which its service
    /// no longer lists.
    pub open spec fn is_without_setter(&self, before: &Self, id: Seq<char>) -> bool {
        let parent = before.setter_by_id@[id].setter.service@;
        let s = self.service_by_id@[parent];
        let s0 = before.service_by_id@[parent];
        &&& self.setter_by_id@ == before.setter_by_id@.remove(id)
        &&& self.service_by_id.differs_only_at(&before.service_by_id, parent)
        &&& before.service_by_id@.dom().contains(parent)
        &&& s.setters@.len() < s0.setters@.len()
        &&& s.id == s0.id
        &&& s.adapter == s0.adapter
        &&& s.tags == s0.tags
        &&& s.getters == s0.getters
        &&& s.setters@ == without(s0.setters@, id)
        &&& forall|x: Seq<char>|
            #![trigger listed(s.setters@, x)]
            #![trigger listed(s0.setters@, x)]
            listed(s.setters@, x) <==> listed(s0.setters@, x) && x != id
        &&& self.adapter_by_id == before.adapter_by_id
        &&& self.getter_by_id == before.getter_by_id
        &&& self.watchers == before.watchers
    }

    /// Removes a setter from the registry and from its service. Fails with
    /// `NoSuchSetter` if it is not registered, and then changes nothing.
    #[verifier::spinoff_prover]
    pub fn remove_setter(&mut self, id: &String) -> (r: Result<(), Error>)
        requires
            old(self).wf(),
        ensures
            final(self).wf(),
            r is Err <==> !old(self).setter_by_id@.dom().contains(id@),
            r is Err ==> *final(self) == *old(self) && r == Err::<(), Error>(
                Error::InternalError(InternalError::NoSuchSetter(*id)),
            ),
            r is Ok ==> final(self).is_without_setter(old(self), id@),
    {
        proof {
            self.lemma_keys();
        }
        let setter = match self.setter_by_id.remove(id) {
            None => {
                return Err(Error::InternalError(InternalError::NoSuchSetter(id.clone())));
            },
            Some(setter) => setter,
        };
        match self.service_by_id.find(&setter.setter.service) {
            None => Err(Error::InternalError(InternalError::NoSuchService(setter.setter.service))),
            Some(i) => {
                let mut service = self.service_by_id.take_at(i);
                drop_name(&mut service.setters, id);
                self.service_by_id.put_at(i, service);
                proof {
                    self.lemma_keys();
                    assert forall|sid: Seq<char>, cid: Seq<char>|
                        self.service_by_id@.dom().contains(sid) && #[trigger] listed(
                            self.service_by_id@[sid].setters@,
                            cid,
                        ) implies self.setter_by_id@.dom().contains(cid)
                        && self.setter_by_id@[cid].setter.service@ == sid by {
                        assert(old(self).service_by_id@.dom().contains(sid));
                        assert(listed(old(self).service_by_id@[sid].setters@, cid));
                    }
                    assert forall|sid: Seq<char>, cid: Seq<char>|
                        self.service_by_id@.dom().contains(sid) && #[trigger] listed(
                            self.service_by_id@[sid].setters@,
                            cid,
                        ) implies self.setter_by_id@.dom().contains(cid)
                        && self.setter_by_id@[cid].setter.service@ == sid by {
                        if old(self).service_by_id@.dom().contains(sid) && listed(
                            old(self).service_by_id@[sid].setters@,
                            cid,
                        ) {
                            assert(old(self).setter_by_id@.dom().contains(cid));
                        }
                    }
                    assert forall|sid: Seq<char>, gid: Seq<char>|
                        self.service_by_id@.dom().contains(sid) && #[trigger] listed(
                            self.service_by_id@[sid].getters@,
                            gid,
                        ) implies self.getter_by_id@.dom().contains(gid)
                        && self.getter_by_id@[gid].getter.service@ == sid by {
                        if old(self).service_by_id@.dom().contains(sid) && listed(
                            old(self).service_by_id@[sid].getters@,
                            gid,
                        ) {
                            assert(old(self).getter_by_id@.dom().contains(gid));
                        }
                    }
                    assert(self.tables_wf());
                    assert(self.services_owned());
                    assert(self.adapters_own());
                    assert(self.getters_placed());
                    assert(self.services_list_getters());
                    assert(self.setters_placed());
                    assert(self.services_list_setters());
                    assert(self.watchers_linked());
                    assert(self.getters_linked());
                    assert(self.guards_covered());
                }
                Ok(())
            },
        }
    }

    /// The watchers are those of `before`, each reduced to the getters that
    /// are registered now.
    pub open spec fn watchers_follow(&self, before: &Self) -> bool {
        &&& self.watchers.counter == before.watchers.counter
        &&& self.watchers.watchers@.dom() == before.watchers.watchers@.dom()
        &&& forall|k: usize| #[trigger]
            self.watchers.watchers@.dom().contains(k) ==> self.watchers.watchers@[k].is_reduced_to(
                &before.watchers.watchers@[k],
                self.getter_by_id@.dom(),
            )
    }

    /// Reducing the watchers twice, the second time to fewer getters, is
    /// reducing them once.
    pub proof fn lemma_follow_twice(a: &Self, b: &Self, c: &Self)
        requires
            b.watchers_follow(a),
            c.watchers_follow(b),
            c.getter_by_id@.dom().subset_of(b.getter_by_id@.dom()),
        ensures
            c.watchers_follow(a),
    {
        assert forall|k: usize| #[trigger] c.watchers.watchers@.dom().contains(k)
            implies c.watchers.watchers@[k].is_reduced_to(
            &a.watchers.watchers@[k], c.getter_by_id@.dom()) by {
            let wa = a.watchers.watchers@[k];
            let wb = b.watchers.watchers@[k];
            let wc = c.watchers.watchers@[k];
            assert(b.watchers.watchers@.dom().contains(k));
            assert(wb.is_reduced_to(&wa, b.getter_by_id@.dom()));
            assert(wc.is_reduced_to(&wb, c.getter_by_id@.dom()));
        }
    }

    /// This registry is `before` without the getter `id`, which its service
    /// no longer lists and which no watcher covers any more.
    pub open spec fn is_without_getter(&self, before: &Self, id: Seq<char>) -> bool {
        let parent = before.getter_by_id@[id].getter.service@;
        let s = self.service_by_id@[parent];
        let s0 = before.service_by_id@[parent];
        &&& self.getter_by_id@ == before.getter_by_id@.remove(id)
        &&& self.service_by_id.differs_only_at(&before.service_by_id, parent)
        &&& before.service_by_id@.dom().contains(parent)
        &&& s.id == s0.id
        &&& s.adapter == s0.adapter
        &&& s.tags == s0.tags
        &&& s.setters == s0.setters
        &&& s.getters@ == without(s0.getters@, id)
        &&& forall|x: Seq<char>|
            #![trigger listed(s.getters@, x)]
            #![trigger listed(s0.getters@, x)]
            listed(s.getters@, x) <==> listed(s0.getters@, x) && x != id
        &&& s.getters@.len() < s0.getters@.len()
        &&& forall|k: usize| #[trigger]
            self.watchers.watchers@.dom().contains(k)
                ==> self.watchers.watchers@[k].is_without_getter(
                &before.watchers.watchers@[k],
                id,
            )
        &&& self.watchers_follow(before)
        &&& self.adapter_by_id == before.adapter_by_id
        &&& self.setter_by_id == before.setter_by_id
    }

    /// Removes a getter from the registry, from its service and from the
    /// watchers that cover it, whose subscriptions for it are dropped. Fails
    /// with `NoSuchGetter` if it is not registered, and then changes nothing.
    #[verifier::spinoff_prover]
    pub fn remove_getter(&mut self, id: &String) -> (r: Result<(), Error>)
        requires
            old(self).wf(),
        ensures
            final(self).wf(),
            r is Err <==> !old(self).getter_by_id@.dom().contains(id@),
            r is Err ==> *final(self) == *old(self) && r == Err::<(), Error>(
                Error::InternalError(InternalError::NoSuchGetter(*id)),
            ),
            r is Ok ==> final(self).is_without_getter(old(self), id@),
    {
        proof {
            self.lemma_keys();
        }
        let getter = match self.getter_by_id.remove(id) {
            None => {
                return Err(Error::InternalError(InternalError::NoSuchGetter(id.clone())));
            },
            Some(getter) => getter,
        };
        match self.service_by_id.find(&getter.getter.service) {
            None => Err(Error::InternalError(InternalError::NoSuchService(getter.getter.service))),
            Some(i) => {
                let mut service = self.service_by_id.take_at(i);
                drop_name(&mut service.getters, id);
                self.service_by_id.put_at(i, service);
                self.watchers.forget_getter(id);
                proof {
                    self.lemma_keys();
                    assert forall|k: usize| #[trigger]
                        self.watchers.watchers@.dom().contains(k)
                            implies self.watchers.watchers@[k].is_reduced_to(
                        &old(self).watchers.watchers@[k], self.getter_by_id@.dom()) by {
                        let w = self.watchers.watchers@[k];
                        let w0 = old(self).watchers.watchers@[k];
                        assert(w.is_without_getter(&w0, id@));
                        assert(old(self).watchers.watchers@.dom().contains(k));
                        assert forall|x: Seq<char>| listed(w0.getters@, x)
                            implies old(self).getter_by_id@.dom().contains(x) by {}
                        assert forall|g: (String, A::Guard)| w0.guards@.contains(g)
                            implies old(self).getter_by_id@.dom().contains(g.0@) by {
                            assert(listed(w0.getters@, g.0@));
                        }
                    }
                    assert forall|sid: Seq<char>, gid: Seq<char>|
                        self.service_by_id@.dom().contains(sid) && #[trigger] listed(
                            self.service_by_id@[sid].getters@,
                            gid,
                        ) implies self.getter_by_id@.dom().contains(gid)
                        && self.getter_by_id@[gid].getter.service@ == sid by {
                        assert(old(self).service_by_id@.dom().contains(sid));
                        assert(listed(old(self).service_by_id@[sid].getters@, gid));
                    }
                    assert forall|sid: Seq<char>, cid: Seq<char>|
                        self.service_by_id@.dom().contains(sid) && #[trigger] listed(
                            self.service_by_id@[sid].setters@,
                            cid,
                        ) implies self.setter_by_id@.dom().contains(cid)
                        && self.setter_by_id@[cid].setter.service@ == sid by {
                        if old(self).service_by_id@.dom().contains(sid) && listed(
                            old(self).service_by_id@[sid].setters@,
                            cid,
                        ) {
                            assert(old(self).setter_by_id@.dom().contains(cid));
                        }
                    }
                    assert forall|sid: Seq<char>, gid: Seq<char>|
                        self.service_by_id@.dom().contains(sid) && #[trigger] listed(
                            self.service_by_id@[sid].getters@,
                            gid,
                        ) implies self.getter_by_id@.dom().contains(gid)
                        && self.getter_by_id@[gid].getter.service@ == sid by {
                        if old(self).service_by_id@.dom().contains(sid) && listed(
                            old(self).service_by_id@[sid].getters@,
                            gid,
                        ) {
                            assert(old(self).getter_by_id@.dom().contains(gid));
                        }
                    }
                    assert(self.tables_wf());
                    assert(self.services_owned());
                    assert(self.adapters_own());
                    assert(self.getters_placed());
                    assert(self.services_list_getters());
                    assert(self.setters_placed());
                    assert(self.services_list_setters());
                    assert(self.watchers_linked());
                    assert(self.getters_linked());
                    assert(self.guards_covered());
                }
                Ok(())
            },
        }
    }

    fn first_getter_of(&self, id: &String) -> (r: Option<String>)
        requires
            self.wf(),
        ensures
            self.service_by_id@.dom().contains(id@) ==> (r is None
                <==> self.service_by_id@[id@].getters@.len() == 0),
            r is Some ==> self.service_by_id@.dom().contains(id@) && listed(
                self.service_by_id@[id@].getters@,
                r->0@,
            ),
    {
        match self.service_by_id.get(id) {
            Some(s) => if s.getters.len() > 0 {
                Some(s.getters[0].clone())
            } else {
                None
            },
            None => None,
        }
    }

    fn first_setter_of(&self, id: &String) -> (r: Option<String>)
        requires
            self.wf(),
        ensures
            self.service_by_id@.dom().contains(id@) ==> (r is None
                <==> self.service_by_id@[id@].setters@.len() == 0),
            r is Some ==> self.service_by_id@.dom().contains(id@) && listed(
                self.service_by_id@[id@].setters@,
                r->0@,
            ),
    {
        match self.service_by_id.get(id) {
            Some(s) => if s.setters.len() > 0 {
                Some(s.setters[0].clone())
            } else {
                None
            },
            None => None,
        }
    }

    fn first_service_of(&self, id: &String) -> (r: Option<String>)
        requires
            self.wf(),
        ensures
            self.adapter_by_id@.dom().contains(id@) ==> (r is None
                <==> self.adapter_by_id@[id@].services@.len() == 0),
            r is Some ==> self.adapter_by_id@.dom().contains(id@) && listed(
                self.adapter_by_id@[id@].services@,
                r->0@,
            ),
    {
        match self.adapter_by_id.get(id) {
            Some(a) => if a.services.len() > 0 {
                Some(a.services[0].clone())
            } else {
                None
            },
            None => None,
        }
    }

    /// Removes every getter of the service `id`.
    #[verifier::spinoff_prover]
    fn remove_getters_of(&mut self, id: &String)
        requires
            old(self).wf(),
            old(self).service_by_id@.dom().contains(id@),
        ensures
            final(self).wf(),
            final(self).service_by_id.differs_only_at(&old(self).service_by_id, id@),
            final(self).service_by_id@[id@].id == old(self).service_by_id@[id@].id,
            final(self).service_by_id@[id@].adapter == old(self).service_by_id@[id@].adapter,
            final(self).service_by_id@[id@].tags == old(self).service_by_id@[id@].tags,
            final(self).service_by_id@[id@].setters == old(self).service_by_id@[id@].setters,
            final(self).service_by_id@[id@].getters@.len() == 0,
            final(self).getter_by_id@.submap_of(old(self).getter_by_id@),
            forall|g: Seq<char>| #[trigger]
                old(self).getter_by_id@.dom().contains(g)
                    ==> (final(self).getter_by_id@.dom().contains(g)
                        <==> old(self).getter_by_id@[g].getter.service@
                    != id@),
            old(self).service_by_id@[id@].getters@.len() == 0 ==> *final(self) == *old(self),
            final(self).watchers_follow(old(self)),
            final(self).adapter_by_id == old(self).adapter_by_id,
            final(self).setter_by_id == old(self).setter_by_id,
    {
        let mut next = self.first_getter_of(id);
        while next.is_some()
            invariant
                old(self).wf(),
                self.wf(),
                self.service_by_id@.dom().contains(id@),
                next is None <==> self.service_by_id@[id@].getters@.len() == 0,
                next is Some ==> listed(self.service_by_id@[id@].getters@, next->0@),
                self.service_by_id.differs_only_at(&old(self).service_by_id, id@),
                self.service_by_id@[id@].id == old(self).service_by_id@[id@].id,
                self.service_by_id@[id@].adapter == old(self).service_by_id@[id@].adapter,
                self.service_by_id@[id@].tags == old(self).service_by_id@[id@].tags,
                self.service_by_id@[id@].setters == old(self).service_by_id@[id@].setters,
                self.getter_by_id@.submap_of(old(self).getter_by_id@),
                forall|g: Seq<char>| #[trigger]
                    old(self).getter_by_id@.dom().contains(g)
                        && old(self).getter_by_id@[g].getter.service@ != id@
                            ==> self.getter_by_id@.dom().contains(
                        g,
                    ),
                old(self).service_by_id@[id@].getters@.len() == 0 ==> *self == *old(self),
                self.watchers_follow(old(self)),
                self.adapter_by_id == old(self).adapter_by_id,
                self.setter_by_id == old(self).setter_by_id,
            decreases self.service_by_id@[id@].getters@.len(),
        {
            let gid = next.unwrap();
            let ghost cur = *self;
            let _ = self.remove_getter(&gid);
            proof {
                Self::lemma_follow_twice(old(self), &cur, self);
            }
            next = self.first_getter_of(id);
        }
    }

    /// Removes every setter of the service `id`.
    #[verifier::spinoff_prover]
    fn remove_setters_of(&mut self, id: &String)
        requires
            old(self).wf(),
            old(self).service_by_id@.dom().contains(id@),
        ensures
            final(self).wf(),
            final(self).service_by_id.differs_only_at(&old(self).service_by_id, id@),
            final(self).service_by_id@[id@].id == old(self).service_by_id@[id@].id,
            final(self).service_by_id@[id@].adapter == old(self).service_by_id@[id@].adapter,
            final(self).service_by_id@[id@].tags == old(self).service_by_id@[id@].tags,
            final(self).service_by_id@[id@].getters == old(self).service_by_id@[id@].getters,
            final(self).service_by_id@[id@].setters@.len() == 0,
            final(self).setter_by_id@.submap_of(old(self).setter_by_id@),
            forall|c: Seq<char>| #[trigger]
                old(self).setter_by_id@.dom().contains(c)
                    ==> (final(self).setter_by_id@.dom().contains(c)
                        <==> old(self).setter_by_id@[c].setter.service@
                    != id@),
            final(self).watchers == old(self).watchers,
            final(self).adapter_by_id == old(self).adapter_by_id,
            final(self).getter_by_id == old(self).getter_by_id,
    {
        let mut next = self.first_setter_of(id);
        while next.is_some()
            invariant
                old(self).wf(),
                self.wf(),
                self.service_by_id@.dom().contains(id@),
                next is None <==> self.service_by_id@[id@].setters@.len() == 0,
                next is Some ==> listed(self.service_by_id@[id@].setters@, next->0@),
                self.service_by_id.differs_only_at(&old(self).service_by_id, id@),
                self.service_by_id@[id@].id == old(self).service_by_id@[id@].id,
                self.service_by_id@[id@].adapter == old(self).service_by_id@[id@].adapter,
                self.service_by_id@[id@].tags == old(self).service_by_id@[id@].tags,
                self.service_by_id@[id@].getters == old(self).service_by_id@[id@].getters,
                self.setter_by_id@.submap_of(old(self).setter_by_id@),
                forall|c: Seq<char>| #[trigger]
                    old(self).setter_by_id@.dom().contains(c)
                        && old(self).setter_by_id@[c].setter.service@ != id@
                            ==> self.setter_by_id@.dom().contains(
                        c,
                    ),
                self.watchers == old(self).watchers,
                self.adapter_by_id == old(self).adapter_by_id,
                self.getter_by_id == old(self).getter_by_id,
            decreases self.service_by_id@[id@].setters@.len(),
        {
            let cid = next.unwrap();
            let _ = self.remove_setter(&cid);
            next = self.first_setter_of(id);
        }
    }

    /// This registry is `before` without the service `id` and its channels.
    /// Its adapter no longer lists it, and no watcher covers its getters any
    /// more.
    pub open spec fn is_without_service(&self, before: &Self, id: Seq<char>) -> bool {
        let aid = before.service_by_id@[id].adapter@;
        let a = self.adapter_by_id@[aid];
        let a0 = before.adapter_by_id@[aid];
        &&& self.service_by_id@ == before.service_by_id@.remove(id)
        &&& self.getter_by_id@.submap_of(before.getter_by_id@)
        &&& forall|g: Seq<char>| #[trigger]
            before.getter_by_id@.dom().contains(g) ==> (self.getter_by_id@.dom().contains(g)
                <==> before.getter_by_id@[g].getter.service@ != id)
        &&& self.setter_by_id@.submap_of(before.setter_by_id@)
        &&& forall|c: Seq<char>| #[trigger]
            before.setter_by_id@.dom().contains(c) ==> (self.setter_by_id@.dom().contains(c)
                <==> before.setter_by_id@[c].setter.service@ != id)
        &&& self.adapter_by_id.differs_only_at(&before.adapter_by_id, aid)
        &&& before.adapter_by_id@.dom().contains(aid)
        &&& a.id == a0.id
        &&& a.adapter == a0.adapter
        &&& a.services@ == without(a0.services@, id)
        &&& forall|x: Seq<char>|
            #![trigger listed(a.services@, x)]
            #![trigger listed(a0.services@, x)]
            listed(a.services@, x) <==> listed(a0.services@, x) && x != id
        &&& a.services@.len() < a0.services@.len()
        &&& before.service_by_id@[id].getters@.len() == 0 ==> self.watchers == before.watchers
        &&& self.watchers_follow(before)
    }

    /// Removes a service and every channel that it contains, and strikes
    /// it from the list of its adapter. Fails with `NoSuchService` if it is
    /// not registered, and then changes nothing.
    #[verifier::spinoff_prover]
    pub fn remove_service(&mut self, id: &String) -> (r: Result<(), Error>)
        requires
            old(self).wf(),
        ensures
            final(self).wf(),
            r is Err <==> !old(self).service_by_id@.dom().contains(id@),
            r is Err ==> *final(self) == *old(self) && r == Err::<(), Error>(
                Error::InternalError(InternalError::NoSuchService(*id)),
            ),
            r is Ok ==> final(self).is_without_service(old(self), id@),
    {
        if !self.service_by_id.contains(id) {
            return Err(Error::InternalError(InternalError::NoSuchService(id.clone())));
        }
        self.remove_getters_of(id);
        self.remove_setters_of(id);
        proof {
            self.lemma_keys();
        }
        let ghost mid = *self;
        match self.service_by_id.remove(id) {
            None => {},
            Some(service) => {
                match self.adapter_by_id.find(&service.adapter) {
                    None => {},
                    Some(i) => {
                        let mut data = self.adapter_by_id.take_at(i);
                        drop_name(&mut data.services, id);
                        self.adapter_by_id.put_at(i, data);
                    },
                }
            },
        }
        proof {
            self.lemma_keys();
            assert forall|g: Seq<char>| #[trigger]
                self.getter_by_id@.dom().contains(g) implies self.getter_by_id@[g].getter.service@
                != id@ by {
                assert(mid.getter_by_id@.dom().contains(g));
            }
            assert forall|c: Seq<char>| #[trigger]
                self.setter_by_id@.dom().contains(c) implies self.setter_by_id@[c].setter.service@
                != id@ by {
                assert(mid.setter_by_id@.dom().contains(c));
            }
            assert(mid.wf());
            assert(mid.service_by_id@.dom().contains(id@));
            assert(self.service_by_id@ == mid.service_by_id@.remove(id@));
            assert(self.service_by_id@ =~= old(self).service_by_id@.remove(id@));
            assert(self.getter_by_id == mid.getter_by_id);
            assert(self.setter_by_id == mid.setter_by_id);
            assert(self.watchers == mid.watchers);
            let aid = mid.service_by_id@[id@].adapter@;
            assert(mid.adapter_by_id@.dom().contains(aid));
            assert(self.adapter_by_id.differs_only_at(&mid.adapter_by_id, aid));
            assert forall|x: Seq<char>| #[trigger]
                self.service_by_id@.dom().contains(x) implies self.adapter_by_id@.dom().contains(
                self.service_by_id@[x].adapter@,
            ) && listed(self.adapter_by_id@[self.service_by_id@[x].adapter@].services@, x) by {
                assert(mid.service_by_id@.dom().contains(x));
                let a = mid.service_by_id@[x].adapter@;
                assert(listed(mid.adapter_by_id@[a].services@, x));
            }
            assert forall|a: Seq<char>, x: Seq<char>|
                self.adapter_by_id@.dom().contains(a) && #[trigger] listed(
                    self.adapter_by_id@[a].services@,
                    x,
                ) implies self.service_by_id@.dom().contains(x) && self.service_by_id@[x].adapter@
                == a by {
                assert(mid.adapter_by_id@.dom().contains(a));
                assert(listed(mid.adapter_by_id@[a].services@, x));
            }
            assert forall|g: Seq<char>| #[trigger] self.getter_by_id@.dom().contains(g) implies {
                let c = self.getter_by_id@[g].getter;
                &&& self.service_by_id@.dom().contains(c.service@)
                &&& self.service_by_id@[c.service@].adapter@ == c.adapter@
                &&& listed(self.service_by_id@[c.service@].getters@, g)
            } by {
                assert(mid.getter_by_id@.dom().contains(g));
            }
            assert forall|g: Seq<char>| #[trigger] self.setter_by_id@.dom().contains(g) implies {
                let c = self.setter_by_id@[g].setter;
                &&& self.service_by_id@.dom().contains(c.service@)
                &&& self.service_by_id@[c.service@].adapter@ == c.adapter@
                &&& listed(self.service_by_id@[c.service@].setters@, g)
            } by {
                assert(mid.setter_by_id@.dom().contains(g));
            }
            assert forall|sid: Seq<char>, cid: Seq<char>|
                self.service_by_id@.dom().contains(sid) && #[trigger] listed(
                    self.service_by_id@[sid].setters@,
                    cid,
                ) implies self.setter_by_id@.dom().contains(cid)
                && self.setter_by_id@[cid].setter.service@ == sid by {
                assert(mid.service_by_id@.dom().contains(sid));
            }
            assert forall|sid: Seq<char>, gid: Seq<char>|
                self.service_by_id@.dom().contains(sid) && #[trigger] listed(
                    self.service_by_id@[sid].getters@,
                    gid,
                ) implies self.getter_by_id@.dom().contains(gid)
                && self.getter_by_id@[gid].getter.service@ == sid by {
                assert(mid.service_by_id@.dom().contains(sid));
            }
            assert(self.tables_wf());
            assert(self.services_owned());
            assert(self.adapters_own());
            assert(self.getters_placed());
            assert(self.services_list_getters());
            assert(self.setters_placed());
            assert(self.services_list_setters());
            assert(self.watchers_linked());
            assert(self.getters_linked());
            assert(self.guards_covered());
        }
        Ok(())
    }

    /// Removes every service of the adapter `id`, with its channels.
    #[verifier::spinoff_prover]
    fn remove_services_of(&mut self, id: &String)
        requires
            old(self).wf(),
            old(self).adapter_by_id@.dom().contains(id@),
        ensures
            final(self).wf(),
            final(self).adapter_by_id.differs_only_at(&old(self).adapter_by_id, id@),
            final(self).adapter_by_id@[id@].id == old(self).adapter_by_id@[id@].id,
            final(self).adapter_by_id@[id@].adapter == old(self).adapter_by_id@[id@].adapter,
            final(self).adapter_by_id@[id@].services@.len() == 0,
            final(self).service_by_id@.submap_of(old(self).service_by_id@),
            final(self).getter_by_id@.submap_of(old(self).getter_by_id@),
            final(self).setter_by_id@.submap_of(old(self).setter_by_id@),
            forall|x: Seq<char>| #[trigger]
                old(self).service_by_id@.dom().contains(x)
                    ==> (final(self).service_by_id@.dom().contains(x)
                    <==> old(self).service_by_id@[x].adapter@ != id@),
            forall|g: Seq<char>| #[trigger]
                old(self).getter_by_id@.dom().contains(g)
                    ==> (final(self).getter_by_id@.dom().contains(g)
                    <==> old(self).getter_by_id@[g].getter.adapter@ != id@),
            forall|c: Seq<char>| #[trigger]
                old(self).setter_by_id@.dom().contains(c)
                    ==> (final(self).setter_by_id@.dom().contains(c)
                    <==> old(self).setter_by_id@[c].setter.adapter@ != id@),
            old(self).adapter_by_id@[id@].services@.len() == 0 ==> *final(self) == *old(self),
            final(self).watchers_follow(old(self)),
    {
        let mut next = self.first_service_of(id);
        while next.is_some()
            invariant
                old(self).wf(),
                self.wf(),
                self.adapter_by_id@.dom().contains(id@),
                next is None <==> self.adapter_by_id@[id@].services@.len() == 0,
                next is Some ==> listed(self.adapter_by_id@[id@].services@, next->0@),
                self.adapter_by_id.differs_only_at(&old(self).adapter_by_id, id@),
                self.adapter_by_id@[id@].id == old(self).adapter_by_id@[id@].id,
                self.adapter_by_id@[id@].adapter == old(self).adapter_by_id@[id@].adapter,
                self.service_by_id@.submap_of(old(self).service_by_id@),
                self.getter_by_id@.submap_of(old(self).getter_by_id@),
                self.setter_by_id@.submap_of(old(self).setter_by_id@),
                forall|x: Seq<char>| #[trigger]
                    old(self).service_by_id@.dom().contains(x)
                        && old(self).service_by_id@[x].adapter@
                        != id@ ==> self.service_by_id@.dom().contains(x),
                forall|g: Seq<char>| #[trigger]
                    old(self).getter_by_id@.dom().contains(g)
                        && old(self).getter_by_id@[g].getter.adapter@
                        != id@ ==> self.getter_by_id@.dom().contains(g),
                forall|c: Seq<char>| #[trigger]
                    old(self).setter_by_id@.dom().contains(c)
                        && old(self).setter_by_id@[c].setter.adapter@
                        != id@ ==> self.setter_by_id@.dom().contains(c),
                old(self).adapter_by_id@[id@].services@.len() == 0 ==> *self == *old(self),
                self.watchers_follow(old(self)),
            decreases self.adapter_by_id@[id@].services@.len(),
        {
            let sid = next.unwrap();
            let ghost cur = *self;
            let _ = self.remove_service(&sid);
            proof {
                Self::lemma_follow_twice(old(self), &cur, self);
                assert(self.service_by_id@.submap_of(cur.service_by_id@));
                assert(self.getter_by_id@.submap_of(cur.getter_by_id@));
                assert(self.setter_by_id@.submap_of(cur.setter_by_id@));
                assert forall|g: Seq<char>| #[trigger]
                    old(self).getter_by_id@.dom().contains(g)
                        && old(self).getter_by_id@[g].getter.adapter@
                        != id@ implies self.getter_by_id@.dom().contains(g) by {
                    assert(cur.getter_by_id@.dom().contains(g));
                }
                assert forall|c: Seq<char>| #[trigger]
                    old(self).setter_by_id@.dom().contains(c)
                        && old(self).setter_by_id@[c].setter.adapter@
                        != id@ implies self.setter_by_id@.dom().contains(c) by {
                    assert(cur.setter_by_id@.dom().contains(c));
                }
            }
            next = self.first_service_of(id);
        }
        proof {
            assert forall|x: Seq<char>| #[trigger]
                self.service_by_id@.dom().contains(x) implies self.service_by_id@[x].adapter@
                != id@ by {}
            assert forall|g: Seq<char>| #[trigger]
                self.getter_by_id@.dom().contains(g) implies self.getter_by_id@[g].getter.adapter@
                != id@ by {
                assert(self.service_by_id@.dom().contains(self.getter_by_id@[g].getter.service@));
            }
            assert forall|c: Seq<char>| #[trigger]
                self.setter_by_id@.dom().contains(c) implies self.setter_by_id@[c].setter.adapter@
                != id@ by {
                assert(self.service_by_id@.dom().contains(self.setter_by_id@[c].setter.service@));
            }
        }
    }

    /// This registry is `before` without the adapter `id`, its services and
    /// their channels. No watcher covers its getters any more.
    pub open spec fn is_without_adapter(&self, before: &Self, id: Seq<char>) -> bool {
        &&& self.adapter_by_id@ == before.adapter_by_id@.remove(id)
        &&& self.service_by_id@.submap_of(before.service_by_id@)
        &&& self.getter_by_id@.submap_of(before.getter_by_id@)
        &&& self.setter_by_id@.submap_of(before.setter_by_id@)
        &&& forall|x: Seq<char>| #[trigger]
            before.service_by_id@.dom().contains(x) ==> (self.service_by_id@.dom().contains(x)
                <==> before.service_by_id@[x].adapter@ != id)
        &&& forall|g: Seq<char>| #[trigger]
            before.getter_by_id@.dom().contains(g) ==> (self.getter_by_id@.dom().contains(g)
                <==> before.getter_by_id@[g].getter.adapter@ != id)
        &&& forall|c: Seq<char>| #[trigger]
            before.setter_by_id@.dom().contains(c) ==> (self.setter_by_id@.dom().contains(c)
                <==> before.setter_by_id@[c].setter.adapter@ != id)
        &&& before.adapter_by_id@[id].services@.len() == 0 ==> {
            &&& self.service_by_id == before.service_by_id
            &&& self.getter_by_id == before.getter_by_id
            &&& self.setter_by_id == before.setter_by_id
            &&& self.watchers == before.watchers
        }
        &&& self.watchers_follow(before)
    }

    /// Removes an adapter with all its services and their channels. Fails
    /// with `NoSuchAdapter` if it is not registered, and then changes
    /// nothing.
    #[verifier::spinoff_prover]
    pub fn remove_adapter(&mut self, id: &String) -> (r: Result<(), Error>)
        requires
            old(self).wf(),
        ensures
            final(self).wf(),
            r is Err <==> !old(self).adapter_by_id@.dom().contains(id@),
            r is Err ==> *final(self) == *old(self) && r == Err::<(), Error>(
                Error::InternalError(InternalError::NoSuchAdapter(*id)),
            ),
            r is Ok ==> final(self).is_without_adapter(old(self), id@),
    {
        if !self.adapter_by_id.contains(id) {
            return Err(Error::InternalError(InternalError::NoSuchAdapter(id.clone())));
        }
        self.remove_services_of(id);
        proof {
            self.lemma_keys();
        }
        let ghost mid = *self;
        let _ = self.adapter_by_id.remove(id);
        proof {
            self.lemma_keys();
            assert(self.adapter_by_id@ =~= old(self).adapter_by_id@.remove(id@));
            assert forall|x: Seq<char>| #[trigger]
                self.service_by_id@.dom().contains(x) implies self.service_by_id@[x].adapter@
                != id@ by {
                assert(old(self).service_by_id@.dom().contains(x));
            }
        }
        Ok(())
    }

    /// This registry is `before` with the getter `getter` registered, listed
    /// last by its service, and covered by every watcher whose watch selects
    /// it.
    pub open spec fn is_with_getter(&self, before: &Self, getter: Channel) -> bool {
        let s = self.service_by_id@[getter.service@];
        let s0 = before.service_by_id@[getter.service@];
        let g = self.getter_by_id@[getter.id@];
        &&& self.getter_by_id@.dom() == before.getter_by_id@.dom().insert(
            getter.id@,
        )
        &&& before.getter_by_id@.submap_of(self.getter_by_id@)
        &&& g.getter == getter
        &&& forall|k: usize| #[trigger]
            g.watchers@.contains(k) <==> before.watchers.watchers@.dom().contains(k)
                && covers(before.watchers.watchers@[k].watch@, &getter)
        &&& self.service_by_id.differs_only_at(
            &before.service_by_id,
            getter.service@,
        )
        &&& s.id == s0.id
        &&& s.adapter == s0.adapter
        &&& s.tags == s0.tags
        &&& s.setters == s0.setters
        &&& s.getters@ == s0.getters@.push(getter.id)
        &&& self.watchers.counter == before.watchers.counter
        &&& self.watchers.watchers@.dom() == before.watchers.watchers@.dom()
        &&& forall|k: usize| #[trigger]
            self.watchers.watchers@.dom().contains(k)
                ==> self.watchers.watchers@[k].is_extended_with(
                &before.watchers.watchers@[k],
                &getter,
            )
        &&& self.adapter_by_id == before.adapter_by_id
        &&& self.setter_by_id == before.setter_by_id
    }

    /// Registers a getter with its service, and extends to it every
    /// watcher whose watch covers it. A call that fails changes nothing.
    #[verifier::spinoff_prover]
    pub fn add_getter(&mut self, getter: Channel) -> (r: Result<(), Error>)
        requires
            old(self).wf(),
        ensures
            final(self).wf(),
            r == old(self).add_channel_outcome(
                &getter,
                old(self).getter_by_id@.dom().contains(getter.id@),
                Error::InternalError(InternalError::DuplicateGetter(getter.id)),
            ),
            r is Err ==> *final(self) == *old(self),
            r is Ok ==> final(self).is_with_getter(old(self), getter),
    {
        let i = match self.service_by_id.find(&getter.service) {
            None => {
                return Err(
                    Error::InternalError(InternalError::NoSuchService(getter.service.clone())),
                );
            },
            Some(i) => i,
        };
        let parent = self.service_by_id.at(i);
        if parent.adapter != getter.adapter {
            return Err(
                Error::InternalError(
                    InternalError::ConflictingAdapter(
                        parent.adapter.clone(),
                        getter.adapter.clone(),
                    ),
                ),
            );
        }
        if self.getter_by_id.contains(&getter.id) {
            return Err(Error::InternalError(InternalError::DuplicateGetter(getter.id.clone())));
        }
        proof {
            self.lemma_keys();
        }
        let id = getter.id.clone();
        let mut service = self.service_by_id.take_at(i);
        add_name(&mut service.getters, id.clone());
        self.service_by_id.put_at(i, service);
        let watchers = self.link_watchers(&getter);
        let mut data = GetterData::new(getter);
        data.watchers = watchers;
        let _ = self.getter_by_id.insert(&id, data);
        proof {
            self.lemma_keys();
            assert forall|sid: Seq<char>, cid: Seq<char>|
                self.service_by_id@.dom().contains(sid) && #[trigger] listed(
                    self.service_by_id@[sid].setters@,
                    cid,
                ) implies self.setter_by_id@.dom().contains(cid)
                && self.setter_by_id@[cid].setter.service@ == sid by {
                if old(self).service_by_id@.dom().contains(sid) && listed(
                    old(self).service_by_id@[sid].setters@,
                    cid,
                ) {
                    assert(old(self).setter_by_id@.dom().contains(cid));
                }
            }
            assert forall|sid: Seq<char>, gid: Seq<char>|
                self.service_by_id@.dom().contains(sid) && #[trigger] listed(
                    self.service_by_id@[sid].getters@,
                    gid,
                ) implies self.getter_by_id@.dom().contains(gid)
                && self.getter_by_id@[gid].getter.service@ == sid by {
                if old(self).service_by_id@.dom().contains(sid) && listed(
                    old(self).service_by_id@[sid].getters@,
                    gid,
                ) {
                    assert(old(self).getter_by_id@.dom().contains(gid));
                }
            }
            assert forall|k: usize, g: (String, A::Guard)|
                self.watchers.watchers@.dom().contains(k)
                    && #[trigger] self.watchers.watchers@[k].guards@.contains(g) implies listed(
                self.watchers.watchers@[k].getters@,
                g.0@,
            ) by {
                let w = self.watchers.watchers@[k];
                let w0 = old(self).watchers.watchers@[k];
                assert(old(self).watchers.watchers@.dom().contains(k));
                assert(w.is_extended_with(&w0, &getter));
                let j = choose|j: int| 0 <= j < w.guards@.len() && w.guards@[j] == g;
                if j < w0.guards@.len() {
                    assert(w0.guards@[j] == g);
                    assert(w0.guards@.contains(g));
                    assert(listed(w0.getters@, g.0@));
                } else {
                    assert(g.0@ == getter.id@);
                }
            }
            assert(self.tables_wf());
            assert(self.services_owned());
            assert(self.adapters_own());
            assert(self.getters_placed());
            assert(self.services_list_getters());
            assert(self.setters_placed());
            assert(self.services_list_setters());
            assert(self.watchers_linked());
            assert(self.getters_linked());
            assert(self.guards_covered());
        }
        Ok(())
    }
}

} // verus!
