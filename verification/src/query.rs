//! Selecting services and channels, and tagging what was selected.

use crate::adapter::Adapter;
use crate::backend::{AdapterManagerState, GetterData, SetterData};
use crate::names::{add_names, drop_names, listed};
use crate::selector::{
    any_selects, any_selects_service, matches_any, matches_any_service, ChannelSelector,
    GetterSelector, ServiceSelector, SetterSelector,
};
use crate::services::{Channel, ChannelView, Service, ServiceView};
use crate::table::{lemma_same_keys, same_keys, Keyed, Table};
use vstd::prelude::*;

verus! {

/// A record of a channel table.
pub trait Tagged: Keyed {
    /// The channel that the record describes.
    spec fn channel(&self) -> Channel;

    /// This record is `before` but for the tags of its channel.
    spec fn same_but_tags(&self, before: &Self) -> bool;

    /// The channel that the record describes.
    fn channel_ref(&self) -> (c: &Channel)
        ensures
            *c == self.channel(),
    ;

    /// Adds each tag of `tags` that the channel does not carry yet.
    fn insert_tags(&mut self, tags: &Vec<String>)
        ensures
            final(self).same_but_tags(old(self)),
            final(self).key() == old(self).key(),
            forall|x: Seq<char>|
                #![trigger listed(final(self).channel().tags@, x)]
                #![trigger listed(old(self).channel().tags@, x)]
                #![trigger listed(tags@, x)]
                listed(final(self).channel().tags@, x) <==> listed(old(self).channel().tags@, x)
                    || listed(tags@, x),
    ;

    /// Removes each tag of `tags` from the channel.
    fn remove_tags(&mut self, tags: &Vec<String>)
        ensures
            final(self).same_but_tags(old(self)),
            final(self).key() == old(self).key(),
            forall|x: Seq<char>|
                #![trigger listed(final(self).channel().tags@, x)]
                #![trigger listed(old(self).channel().tags@, x)]
                listed(final(self).channel().tags@, x) <==> listed(old(self).channel().tags@, x)
                    && !listed(tags@, x),
    ;
}

impl Tagged for GetterData {
    open spec fn channel(&self) -> Channel {
        self.getter
    }

    open spec fn same_but_tags(&self, before: &Self) -> bool {
        &&& self.getter.id == before.getter.id
        &&& self.getter.service == before.getter.service
        &&& self.getter.adapter == before.getter.adapter
        &&& self.getter.kind == before.getter.kind
        &&& self.watchers == before.watchers
    }

    fn channel_ref(&self) -> (c: &Channel) {
        &self.getter
    }

    fn insert_tags(&mut self, tags: &Vec<String>) {
        add_names(&mut self.getter.tags, tags);
    }

    fn remove_tags(&mut self, tags: &Vec<String>) {
        drop_names(&mut self.getter.tags, tags);
    }
}

impl Tagged for SetterData {
    open spec fn channel(&self) -> Channel {
        self.setter
    }

    open spec fn same_but_tags(&self, before: &Self) -> bool {
        &&& self.setter.id == before.setter.id
        &&& self.setter.service == before.setter.service
        &&& self.setter.adapter == before.setter.adapter
        &&& self.setter.kind == before.setter.kind
    }

    fn channel_ref(&self) -> (c: &Channel) {
        &self.setter
    }

    fn insert_tags(&mut self, tags: &Vec<String>) {
        add_names(&mut self.setter.tags, tags);
    }

    fn remove_tags(&mut self, tags: &Vec<String>) {
        drop_names(&mut self.setter.tags, tags);
    }
}

/// The channels of `records` that some selector of `selectors` selects, in
/// the order of the records.
pub open spec fn matching<V: Tagged>(selectors: Seq<ChannelSelector>, records: Seq<V>) -> Seq<
    Channel,
>
    decreases records.len(),
{
    if records.len() == 0 {
        Seq::empty()
    } else {
        let rest = matching(selectors, records.drop_last());
        if any_selects(selectors, &records.last().channel()) {
            rest.push(records.last().channel())
        } else {
            rest
        }
    }
}

/// The services of `services` that some selector of `selectors` selects,
/// in their order.
pub open spec fn matching_services(selectors: Seq<ServiceSelector>, services: Seq<Service>) -> Seq<
    Service,
>
    decreases services.len(),
{
    if services.len() == 0 {
        Seq::empty()
    } else {
        let rest = matching_services(selectors, services.drop_last());
        if any_selects_service(selectors, &services.last()) {
            rest.push(services.last())
        } else {
            rest
        }
    }
}

/// The mathematical values of a list of channels.
pub open spec fn channel_views(channels: Seq<Channel>) -> Seq<ChannelView> {
    channels.map_values(|c: Channel| c@)
}

/// The mathematical values of a list of services.
pub open spec fn service_views(services: Seq<Service>) -> Seq<ServiceView> {
    services.map_values(|s: Service| s@)
}

/// A snapshot of the channels that some selector selects holds as many
/// channels as a tag operation with the same selectors counts: one for each
/// channel selected, whatever the tags.
pub proof fn lemma_snapshot_counts_matches<V: Tagged>(
    selectors: Seq<ChannelSelector>,
    records: Seq<V>,
    snapshot: Seq<Channel>,
)
    requires
        channel_views(snapshot) == channel_views(matching(selectors, records)),
    ensures
        snapshot.len() == matching(selectors, records).len(),
{
    assert(channel_views(snapshot).len() == snapshot.len());
    assert(channel_views(matching(selectors, records)).len() == matching(
        selectors,
        records,
    ).len());
}

/// A snapshot of the channels of `table` that some selector selects.
pub fn aux_get_channels<V: Tagged>(selectors: &[ChannelSelector], table: &Table<V>) -> (r: Vec<
    Channel,
>)
    ensures
        channel_views(r@) == channel_views(matching(selectors@, table.seq())),
{
    let mut r: Vec<Channel> = Vec::new();
    let mut i: usize = 0;
    assert(table.seq().subrange(0, 0).len() == 0);
    assert(channel_views(r@) =~= channel_views(matching(selectors@, table.seq().subrange(0, 0))));
    while i < table.entries.len()
        invariant
            i <= table.seq().len(),
            channel_views(r@) == channel_views(
                matching(selectors@, table.seq().subrange(0, i as int)),
            ),
        decreases table.seq().len() - i,
    {
        let ghost head = table.seq().subrange(0, i as int);
        let ghost next = table.seq().subrange(0, i + 1);
        assert(next.drop_last() =~= head);
        assert(next.last() == table.seq()[i as int]);
        let ghost before = r@;
        let c = table.entries[i].channel_ref();
        if matches_any(selectors, c) {
            r.push(c.clone());
            assert(channel_views(r@) =~= channel_views(before).push(c@));
            assert(channel_views(matching(selectors@, next)) =~= channel_views(
                matching(selectors@, head),
            ).push(c@));
        }
        i += 1;
    }
    assert(table.seq().subrange(0, table.seq().len() as int) =~= table.seq());
    r
}

/// The record `after` is `before`, with the tags `tags` more if some
/// selector selects `before`.
pub open spec fn tagged_if_selected<V: Tagged>(
    after: &V,
    before: &V,
    selectors: Seq<ChannelSelector>,
    tags: Seq<String>,
) -> bool {
    if any_selects(selectors, &before.channel()) {
        &&& after.same_but_tags(before)
        &&& forall|x: Seq<char>|
            #![trigger listed(after.channel().tags@, x)]
            #![trigger listed(before.channel().tags@, x)]
            #![trigger listed(tags, x)]
            listed(after.channel().tags@, x) <==> listed(before.channel().tags@, x) || listed(
                tags,
                x,
            )
    } else {
        *after == *before
    }
}

/// The record `after` is `before`, without the tags `tags` if some selector
/// selects `before`.
pub open spec fn untagged_if_selected<V: Tagged>(
    after: &V,
    before: &V,
    selectors: Seq<ChannelSelector>,
    tags: Seq<String>,
) -> bool {
    if any_selects(selectors, &before.channel()) {
        &&& after.same_but_tags(before)
        &&& forall|x: Seq<char>|
            #![trigger listed(after.channel().tags@, x)]
            #![trigger listed(before.channel().tags@, x)]
            listed(after.channel().tags@, x) <==> listed(before.channel().tags@, x) && !listed(
                tags,
                x,
            )
    } else {
        *after == *before
    }
}

/// Adds `tags` to every channel of `table` that some selector selects, and
/// returns the number of those channels, whether or not their tags changed.
pub fn aux_add_channel_tags<V: Tagged>(
    selectors: &[ChannelSelector],
    tags: &Vec<String>,
    table: &mut Table<V>,
) -> (n: usize)
    requires
        old(table).wf(),
    ensures
        final(table).wf(),
        n == matching(selectors@, old(table).seq()).len(),
        same_keys(old(table).seq(), final(table).seq()),
        final(table)@.dom() == old(table)@.dom(),
        forall|i: int|
            0 <= i < old(table).seq().len() ==> tagged_if_selected(
                &(#[trigger] final(table).seq()[i]),
                &old(table).seq()[i],
                selectors@,
                tags@,
            ),
        forall|k: V::Key| #[trigger]
            final(table)@.dom().contains(k) ==> tagged_if_selected(
                &final(table)@[k],
                &old(table)@[k],
                selectors@,
                tags@,
            ),
{
    let ghost before = table.seq();
    let mut n: usize = 0;
    let mut i: usize = 0;
    assert(before.subrange(0, 0).len() == 0);
    while i < table.len()
        invariant
            i <= table.seq().len(),
            table.wf(),
            before == old(table).seq(),
            same_keys(before, table.seq()),
            n == matching(selectors@, before.subrange(0, i as int)).len(),
            n <= i,
            forall|j: int|
                0 <= j < i ==> tagged_if_selected(
                    &(#[trigger] table.seq()[j]),
                    &before[j],
                    selectors@,
                    tags@,
                ),
            forall|j: int| i <= j < before.len() ==> #[trigger] table.seq()[j] == before[j],
        decreases table.seq().len() - i,
    {
        let ghost head = before.subrange(0, i as int);
        let ghost next = before.subrange(0, i + 1);
        assert(next.drop_last() =~= head);
        assert(next.last() == before[i as int]);
        let ghost prev = table.seq();
        let mut v = table.take_at(i);
        if matches_any(selectors, v.channel_ref()) {
            v.insert_tags(tags);
            n += 1;
        }
        table.put_at(i, v);
        assert(table.seq() =~= prev.update(i as int, v));
        i += 1;
    }
    proof {
        assert(before.subrange(0, before.len() as int) =~= before);
        lemma_same_keys(before, table.seq());
    }
    n
}

/// Removes `tags` from every channel of `table` that some selector selects,
/// and returns the number of those channels, whether or not their tags
/// changed.
pub fn aux_remove_channel_tags<V: Tagged>(
    selectors: &[ChannelSelector],
    tags: &Vec<String>,
    table: &mut Table<V>,
) -> (n: usize)
    requires
        old(table).wf(),
    ensures
        final(table).wf(),
        n == matching(selectors@, old(table).seq()).len(),
        same_keys(old(table).seq(), final(table).seq()),
        final(table)@.dom() == old(table)@.dom(),
        forall|i: int|
            0 <= i < old(table).seq().len() ==> untagged_if_selected(
                &(#[trigger] final(table).seq()[i]),
                &old(table).seq()[i],
                selectors@,
                tags@,
            ),
        forall|k: V::Key| #[trigger]
            final(table)@.dom().contains(k) ==> untagged_if_selected(
                &final(table)@[k],
                &old(table)@[k],
                selectors@,
                tags@,
            ),
{
    let ghost before = table.seq();
    let mut n: usize = 0;
    let mut i: usize = 0;
    assert(before.subrange(0, 0).len() == 0);
    while i < table.len()
        invariant
            i <= table.seq().len(),
            table.wf(),
            before == old(table).seq(),
            same_keys(before, table.seq()),
            n == matching(selectors@, before.subrange(0, i as int)).len(),
            n <= i,
            forall|j: int|
                0 <= j < i ==> untagged_if_selected(
                    &(#[trigger] table.seq()[j]),
                    &before[j],
                    selectors@,
                    tags@,
                ),
            forall|j: int| i <= j < before.len() ==> #[trigger] table.seq()[j] == before[j],
        decreases table.seq().len() - i,
    {
        let ghost head = before.subrange(0, i as int);
        let ghost next = before.subrange(0, i + 1);
        assert(next.drop_last() =~= head);
        assert(next.last() == before[i as int]);
        let ghost prev = table.seq();
        let mut v = table.take_at(i);
        if matches_any(selectors, v.channel_ref()) {
            v.remove_tags(tags);
            n += 1;
        }
        table.put_at(i, v);
        assert(table.seq() =~= prev.update(i as int, v));
        i += 1;
    }
    proof {
        assert(before.subrange(0, before.len() as int) =~= before);
        lemma_same_keys(before, table.seq());
    }
    n
}

/// The service `after` is `before` but for its tags.
pub open spec fn service_same_but_tags(after: &Service, before: &Service) -> bool {
    &&& after.id == before.id
    &&& after.adapter == before.adapter
    &&& after.getters == before.getters
    &&& after.setters == before.setters
}

/// The service `after` is `before`, with the tags `tags` more if some
/// selector selects `before`.
pub open spec fn service_tagged_if_selected(
    after: &Service,
    before: &Service,
    selectors: Seq<ServiceSelector>,
    tags: Seq<String>,
) -> bool {
    if any_selects_service(selectors, before) {
        &&& service_same_but_tags(after, before)
        &&& forall|x: Seq<char>|
            #![trigger listed(after.tags@, x)]
            #![trigger listed(before.tags@, x)]
            #![trigger listed(tags, x)]
            listed(after.tags@, x) <==> listed(before.tags@, x) || listed(tags, x)
    } else {
        *after == *before
    }
}

/// The service `after` is `before`, without the tags `tags` if some
/// selector selects `before`.
pub open spec fn service_untagged_if_selected(
    after: &Service,
    before: &Service,
    selectors: Seq<ServiceSelector>,
    tags: Seq<String>,
) -> bool {
    if any_selects_service(selectors, before) {
        &&& service_same_but_tags(after, before)
        &&& forall|x: Seq<char>|
            #![trigger listed(after.tags@, x)]
            #![trigger listed(before.tags@, x)]
            listed(after.tags@, x) <==> listed(before.tags@, x) && !listed(tags, x)
    } else {
        *after == *before
    }
}

impl<A: Adapter> AdapterManagerState<A> {
    /// Changing the tags of getters keeps the registry consistent.
    pub proof fn lemma_wf_retagged_getters(before: &Self, after: &Self)
        requires
            before.wf(),
            after.adapter_by_id == before.adapter_by_id,
            after.service_by_id == before.service_by_id,
            after.setter_by_id == before.setter_by_id,
            after.watchers == before.watchers,
            after.getter_by_id.wf(),
            after.getter_by_id@.dom() == before.getter_by_id@.dom(),
            forall|k: Seq<char>| #[trigger]
                after.getter_by_id@.dom().contains(k) ==> after.getter_by_id@[k].same_but_tags(
                    &before.getter_by_id@[k],
                ),
        ensures
            after.wf(),
    {
        assert forall|gid: Seq<char>| #[trigger] after.getter_by_id@.dom().contains(gid) implies {
            let g = after.getter_by_id@[gid].getter;
            &&& after.service_by_id@.dom().contains(g.service@)
            &&& after.service_by_id@[g.service@].adapter@ == g.adapter@
            &&& listed(after.service_by_id@[g.service@].getters@, gid)
        } by {
            assert(before.getter_by_id@.dom().contains(gid));
        }
        assert forall|sid: Seq<char>, gid: Seq<char>|
            after.service_by_id@.dom().contains(sid) && #[trigger] listed(
                after.service_by_id@[sid].getters@,
                gid,
            ) implies after.getter_by_id@.dom().contains(gid)
            && after.getter_by_id@[gid].getter.service@ == sid by {
            assert(before.getter_by_id@.dom().contains(gid));
        }
        assert forall|k: usize, gid: Seq<char>|
            after.watchers.watchers@.dom().contains(k) && #[trigger] listed(
                after.watchers.watchers@[k].getters@,
                gid,
            ) implies after.getter_by_id@.dom().contains(gid)
            && after.getter_by_id@[gid].watchers@.contains(k) by {
            assert(before.getter_by_id@.dom().contains(gid));
        }
        assert forall|gid: Seq<char>, k: usize|
            after.getter_by_id@.dom().contains(gid)
                && #[trigger] after.getter_by_id@[gid].watchers@.contains(k)
                    implies after.watchers.watchers@.dom().contains(
            k,
        ) && listed(after.watchers.watchers@[k].getters@, gid) by {
            assert(before.getter_by_id@.dom().contains(gid));
            assert(before.getter_by_id@[gid].watchers@.contains(k));
        }
        assert(after.tables_wf());
        assert(after.services_owned());
        assert(after.adapters_own());
        assert(after.getters_placed());
        assert(after.services_list_getters());
        assert(after.setters_placed());
        assert(after.services_list_setters());
        assert(after.watchers_linked());
        assert(after.getters_linked());
        assert(after.guards_covered());
    }

    /// Changing the tags of setters keeps the registry consistent.
    pub proof fn lemma_wf_retagged_setters(before: &Self, after: &Self)
        requires
            before.wf(),
            after.adapter_by_id == before.adapter_by_id,
            after.service_by_id == before.service_by_id,
            after.getter_by_id == before.getter_by_id,
            after.watchers == before.watchers,
            after.setter_by_id.wf(),
            after.setter_by_id@.dom() == before.setter_by_id@.dom(),
            forall|k: Seq<char>| #[trigger]
                after.setter_by_id@.dom().contains(k) ==> after.setter_by_id@[k].same_but_tags(
                    &before.setter_by_id@[k],
                ),
        ensures
            after.wf(),
    {
        assert forall|cid: Seq<char>| #[trigger] after.setter_by_id@.dom().contains(cid) implies {
            let c = after.setter_by_id@[cid].setter;
            &&& after.service_by_id@.dom().contains(c.service@)
            &&& after.service_by_id@[c.service@].adapter@ == c.adapter@
            &&& listed(after.service_by_id@[c.service@].setters@, cid)
        } by {
            assert(before.setter_by_id@.dom().contains(cid));
        }
        assert forall|sid: Seq<char>, cid: Seq<char>|
            after.service_by_id@.dom().contains(sid) && #[trigger] listed(
                after.service_by_id@[sid].setters@,
                cid,
            ) implies after.setter_by_id@.dom().contains(cid)
            && after.setter_by_id@[cid].setter.service@ == sid by {
            assert(before.setter_by_id@.dom().contains(cid));
        }
        assert(after.tables_wf());
        assert(after.services_owned());
        assert(after.adapters_own());
        assert(after.getters_placed());
        assert(after.services_list_getters());
        assert(after.setters_placed());
        assert(after.services_list_setters());
        assert(after.watchers_linked());
        assert(after.getters_linked());
        assert(after.guards_covered());
    }

    /// Changing the tags of services keeps the registry consistent.
    pub proof fn lemma_wf_retagged_services(before: &Self, after: &Self)
        requires
            before.wf(),
            after.adapter_by_id == before.adapter_by_id,
            after.getter_by_id == before.getter_by_id,
            after.setter_by_id == before.setter_by_id,
            after.watchers == before.watchers,
            after.service_by_id.wf(),
            after.service_by_id@.dom() == before.service_by_id@.dom(),
            forall|k: Seq<char>| #[trigger]
                after.service_by_id@.dom().contains(k) ==> service_same_but_tags(
                    &after.service_by_id@[k],
                    &before.service_by_id@[k],
                ),
        ensures
            after.wf(),
    {
        assert forall|sid: Seq<char>| #[trigger] after.service_by_id@.dom().contains(sid) implies {
            let a = after.service_by_id@[sid].adapter@;
            after.adapter_by_id@.dom().contains(a) && listed(after.adapter_by_id@[a].services@, sid)
        } by {
            assert(before.service_by_id@.dom().contains(sid));
        }
        assert forall|aid: Seq<char>, sid: Seq<char>|
            after.adapter_by_id@.dom().contains(aid) && #[trigger] listed(
                after.adapter_by_id@[aid].services@,
                sid,
            ) implies after.service_by_id@.dom().contains(sid) && after.service_by_id@[sid].adapter@
            == aid by {
            assert(before.service_by_id@.dom().contains(sid));
        }
        assert forall|gid: Seq<char>| #[trigger] after.getter_by_id@.dom().contains(gid) implies {
            let g = after.getter_by_id@[gid].getter;
            &&& after.service_by_id@.dom().contains(g.service@)
            &&& after.service_by_id@[g.service@].adapter@ == g.adapter@
            &&& listed(after.service_by_id@[g.service@].getters@, gid)
        } by {
            assert(before.service_by_id@.dom().contains(before.getter_by_id@[gid].getter.service@));
        }
        assert forall|cid: Seq<char>| #[trigger] after.setter_by_id@.dom().contains(cid) implies {
            let c = after.setter_by_id@[cid].setter;
            &&& after.service_by_id@.dom().contains(c.service@)
            &&& after.service_by_id@[c.service@].adapter@ == c.adapter@
            &&& listed(after.service_by_id@[c.service@].setters@, cid)
        } by {
            assert(before.service_by_id@.dom().contains(before.setter_by_id@[cid].setter.service@));
        }
        assert forall|sid: Seq<char>, gid: Seq<char>|
            after.service_by_id@.dom().contains(sid) && #[trigger] listed(
                after.service_by_id@[sid].getters@,
                gid,
            ) implies after.getter_by_id@.dom().contains(gid)
            && after.getter_by_id@[gid].getter.service@ == sid by {
            assert(before.service_by_id@.dom().contains(sid));
            assert(listed(before.service_by_id@[sid].getters@, gid));
        }
        assert forall|sid: Seq<char>, cid: Seq<char>|
            after.service_by_id@.dom().contains(sid) && #[trigger] listed(
                after.service_by_id@[sid].setters@,
                cid,
            ) implies after.setter_by_id@.dom().contains(cid)
            && after.setter_by_id@[cid].setter.service@ == sid by {
            assert(before.service_by_id@.dom().contains(sid));
            assert(listed(before.service_by_id@[sid].setters@, cid));
        }
        assert(after.tables_wf());
        assert(after.services_owned());
        assert(after.adapters_own());
        assert(after.getters_placed());
        assert(after.services_list_getters());
        assert(after.setters_placed());
        assert(after.services_list_setters());
        assert(after.watchers_linked());
        assert(after.getters_linked());
        assert(after.guards_covered());
    }

    /// A snapshot of the services that some selector selects.
    pub fn get_services(&self, selectors: &[ServiceSelector]) -> (r: Vec<Service>)
        ensures
            service_views(r@) == service_views(
                matching_services(selectors@, self.service_by_id.seq()),
            ),
    {
        let table = &self.service_by_id;
        let mut r: Vec<Service> = Vec::new();
        let mut i: usize = 0;
        assert(table.seq().subrange(0, 0).len() == 0);
        assert(service_views(r@) =~= service_views(
            matching_services(selectors@, table.seq().subrange(0, 0)),
        ));
        while i < table.entries.len()
            invariant
                i <= table.seq().len(),
                service_views(r@) == service_views(
                    matching_services(selectors@, table.seq().subrange(0, i as int)),
                ),
            decreases table.seq().len() - i,
        {
            let ghost head = table.seq().subrange(0, i as int);
            let ghost next = table.seq().subrange(0, i + 1);
            assert(next.drop_last() =~= head);
            assert(next.last() == table.seq()[i as int]);
            let ghost before = r@;
            let s = &table.entries[i];
            if matches_any_service(selectors, s) {
                r.push(s.clone());
                assert(service_views(r@) =~= service_views(before).push(s@));
                assert(service_views(matching_services(selectors@, next)) =~= service_views(
                    matching_services(selectors@, head),
                ).push(s@));
            }
            i += 1;
        }
        assert(table.seq().subrange(0, table.seq().len() as int) =~= table.seq());
        r
    }

    /// Adds `tags` to every service that some selector selects, and returns
    /// the number of those services, whether or not their tags changed.
    #[verifier::spinoff_prover]
    pub fn add_service_tags(&mut self, selectors: &[ServiceSelector], tags: &Vec<String>) -> (n: usize)
        requires
            old(self).wf(),
        ensures
            final(self).wf(),
            n == matching_services(selectors@, old(self).service_by_id.seq()).len(),
            final(self).service_by_id@.dom() == old(self).service_by_id@.dom(),
            forall|k: Seq<char>| #[trigger]
                final(self).service_by_id@.dom().contains(k) ==> service_tagged_if_selected(
                    &final(self).service_by_id@[k],
                    &old(self).service_by_id@[k],
                    selectors@,
                    tags@,
                ),
            final(self).adapter_by_id == old(self).adapter_by_id,
            final(self).getter_by_id == old(self).getter_by_id,
            final(self).setter_by_id == old(self).setter_by_id,
            final(self).watchers == old(self).watchers,
    {
        let ghost before = self.service_by_id.seq();
        let mut n: usize = 0;
        let mut i: usize = 0;
        assert(before.subrange(0, 0).len() == 0);
        while i < self.service_by_id.len()
            invariant
                i <= self.service_by_id.seq().len(),
                self.service_by_id.wf(),
                old(self).wf(),
                before == old(self).service_by_id.seq(),
                same_keys(before, self.service_by_id.seq()),
                n == matching_services(selectors@, before.subrange(0, i as int)).len(),
                n <= i,
                forall|j: int|
                    0 <= j < i ==> service_tagged_if_selected(
                        &(#[trigger] self.service_by_id.seq()[j]),
                        &before[j],
                        selectors@,
                        tags@,
                    ),
                forall|j: int|
                    i <= j < before.len() ==> #[trigger] self.service_by_id.seq()[j] == before[j],
                self.adapter_by_id == old(self).adapter_by_id,
                self.getter_by_id == old(self).getter_by_id,
                self.setter_by_id == old(self).setter_by_id,
                self.watchers == old(self).watchers,
            decreases self.service_by_id.seq().len() - i,
        {
            let ghost head = before.subrange(0, i as int);
            let ghost next = before.subrange(0, i + 1);
            assert(next.drop_last() =~= head);
            assert(next.last() == before[i as int]);
            let ghost prev = self.service_by_id.seq();
            let mut s = self.service_by_id.take_at(i);
            if matches_any_service(selectors, &s) {
                add_names(&mut s.tags, tags);
                n += 1;
            }
            self.service_by_id.put_at(i, s);
            assert(self.service_by_id.seq() =~= prev.update(i as int, s));
            i += 1;
        }
        proof {
            assert(before.subrange(0, before.len() as int) =~= before);
            lemma_same_keys(before, self.service_by_id.seq());
            Self::lemma_wf_retagged_services(old(self), self);
        }
        n
    }

    /// Removes `tags` from every service that some selector selects, and
    /// returns the number of those services, whether or not their tags
    /// changed.
    #[verifier::spinoff_prover]
    pub fn remove_service_tags(&mut self, selectors: &[ServiceSelector], tags: &Vec<String>) -> (n: usize)
        requires
            old(self).wf(),
        ensures
            final(self).wf(),
            n == matching_services(selectors@, old(self).service_by_id.seq()).len(),
            final(self).service_by_id@.dom() == old(self).service_by_id@.dom(),
            forall|k: Seq<char>| #[trigger]
                final(self).service_by_id@.dom().contains(k) ==> service_untagged_if_selected(
                    &final(self).service_by_id@[k],
                    &old(self).service_by_id@[k],
                    selectors@,
                    tags@,
                ),
            final(self).adapter_by_id == old(self).adapter_by_id,
            final(self).getter_by_id == old(self).getter_by_id,
            final(self).setter_by_id == old(self).setter_by_id,
            final(self).watchers == old(self).watchers,
    {
        let ghost before = self.service_by_id.seq();
        let mut n: usize = 0;
        let mut i: usize = 0;
        assert(before.subrange(0, 0).len() == 0);
        while i < self.service_by_id.len()
            invariant
                i <= self.service_by_id.seq().len(),
                self.service_by_id.wf(),
                old(self).wf(),
                before == old(self).service_by_id.seq(),
                same_keys(before, self.service_by_id.seq()),
                n == matching_services(selectors@, before.subrange(0, i as int)).len(),
                n <= i,
                forall|j: int|
                    0 <= j < i ==> service_untagged_if_selected(
                        &(#[trigger] self.service_by_id.seq()[j]),
                        &before[j],
                        selectors@,
                        tags@,
                    ),
                forall|j: int|
                    i <= j < before.len() ==> #[trigger] self.service_by_id.seq()[j] == before[j],
                self.adapter_by_id == old(self).adapter_by_id,
                self.getter_by_id == old(self).getter_by_id,
                self.setter_by_id == old(self).setter_by_id,
                self.watchers == old(self).watchers,
            decreases self.service_by_id.seq().len() - i,
        {
            let ghost head = before.subrange(0, i as int);
            let ghost next = before.subrange(0, i + 1);
            assert(next.drop_last() =~= head);
            assert(next.last() == before[i as int]);
            let ghost prev = self.service_by_id.seq();
            let mut s = self.service_by_id.take_at(i);
            if matches_any_service(selectors, &s) {
                drop_names(&mut s.tags, tags);
                n += 1;
            }
            self.service_by_id.put_at(i, s);
            assert(self.service_by_id.seq() =~= prev.update(i as int, s));
            i += 1;
        }
        proof {
            assert(before.subrange(0, before.len() as int) =~= before);
            lemma_same_keys(before, self.service_by_id.seq());
            Self::lemma_wf_retagged_services(old(self), self);
        }
        n
    }

    /// A snapshot of the getters that some selector selects.
    pub fn get_getter_channels(&self, selectors: &[GetterSelector]) -> (r: Vec<Channel>)
        ensures
            channel_views(r@) == channel_views(matching(selectors@, self.getter_by_id.seq())),
    {
        aux_get_channels(selectors, &self.getter_by_id)
    }

    /// A snapshot of the setters that some selector selects.
    pub fn get_setter_channels(&self, selectors: &[SetterSelector]) -> (r: Vec<Channel>)
        ensures
            channel_views(r@) == channel_views(matching(selectors@, self.setter_by_id.seq())),
    {
        aux_get_channels(selectors, &self.setter_by_id)
    }

    /// Adds `tags` to every getter that some selector selects, and returns
    /// the number of those getters, whether or not their tags changed.
    #[verifier::spinoff_prover]
    pub fn add_getter_tags(&mut self, selectors: &[GetterSelector], tags: &Vec<String>) -> (n: usize)
        requires
            old(self).wf(),
        ensures
            final(self).wf(),
            n == matching(selectors@, old(self).getter_by_id.seq()).len(),
            final(self).getter_by_id@.dom() == old(self).getter_by_id@.dom(),
            forall|k: Seq<char>| #[trigger]
                final(self).getter_by_id@.dom().contains(k) ==> tagged_if_selected(
                    &final(self).getter_by_id@[k],
                    &old(self).getter_by_id@[k],
                    selectors@,
                    tags@,
                ),
            final(self).adapter_by_id == old(self).adapter_by_id,
            final(self).service_by_id == old(self).service_by_id,
            final(self).setter_by_id == old(self).setter_by_id,
            final(self).watchers == old(self).watchers,
    {
        let n = aux_add_channel_tags(selectors, tags, &mut self.getter_by_id);
        proof {
            Self::lemma_wf_retagged_getters(old(self), self);
        }
        n
    }

    /// Adds `tags` to every setter that some selector selects, and returns
    /// the number of those setters, whether or not their tags changed.
    #[verifier::spinoff_prover]
    pub fn add_setter_tags(&mut self, selectors: &[SetterSelector], tags: &Vec<String>) -> (n: usize)
        requires
            old(self).wf(),
        ensures
            final(self).wf(),
            n == matching(selectors@, old(self).setter_by_id.seq()).len(),
            final(self).setter_by_id@.dom() == old(self).setter_by_id@.dom(),
            forall|k: Seq<char>| #[trigger]
                final(self).setter_by_id@.dom().contains(k) ==> tagged_if_selected(
                    &final(self).setter_by_id@[k],
                    &old(self).setter_by_id@[k],
                    selectors@,
                    tags@,
                ),
            final(self).adapter_by_id == old(self).adapter_by_id,
            final(self).service_by_id == old(self).service_by_id,
            final(self).getter_by_id == old(self).getter_by_id,
            final(self).watchers == old(self).watchers,
    {
        let n = aux_add_channel_tags(selectors, tags, &mut self.setter_by_id);
        proof {
            Self::lemma_wf_retagged_setters(old(self), self);
        }
        n
    }

    /// Removes `tags` from every getter that some selector selects, and
    /// returns the number of those getters, whether or not their tags
    /// changed.
    #[verifier::spinoff_prover]
    pub fn remove_getter_tags(&mut self, selectors: &[GetterSelector], tags: &Vec<String>) -> (n: usize)
        requires
            old(self).wf(),
        ensures
            final(self).wf(),
            n == matching(selectors@, old(self).getter_by_id.seq()).len(),
            final(self).getter_by_id@.dom() == old(self).getter_by_id@.dom(),
            forall|k: Seq<char>| #[trigger]
                final(self).getter_by_id@.dom().contains(k) ==> untagged_if_selected(
                    &final(self).getter_by_id@[k],
                    &old(self).getter_by_id@[k],
                    selectors@,
                    tags@,
                ),
            final(self).adapter_by_id == old(self).adapter_by_id,
            final(self).service_by_id == old(self).service_by_id,
            final(self).setter_by_id == old(self).setter_by_id,
            final(self).watchers == old(self).watchers,
    {
        let n = aux_remove_channel_tags(selectors, tags, &mut self.getter_by_id);
        proof {
            Self::lemma_wf_retagged_getters(old(self), self);
        }
        n
    }

    /// Removes `tags` from every setter that some selector selects, and
    /// returns the number of those setters, whether or not their tags
    /// changed.
    #[verifier::spinoff_prover]
    pub fn remove_setter_tags(&mut self, selectors: &[SetterSelector], tags: &Vec<String>) -> (n: usize)
        requires
            old(self).wf(),
        ensures
            final(self).wf(),
            n == matching(selectors@, old(self).setter_by_id.seq()).len(),
            final(self).setter_by_id@.dom() == old(self).setter_by_id@.dom(),
            forall|k: Seq<char>| #[trigger]
                final(self).setter_by_id@.dom().contains(k) ==> untagged_if_selected(
                    &final(self).setter_by_id@[k],
                    &old(self).setter_by_id@[k],
                    selectors@,
                    tags@,
                ),
            final(self).adapter_by_id == old(self).adapter_by_id,
            final(self).service_by_id == old(self).service_by_id,
            final(self).getter_by_id == old(self).getter_by_id,
            final(self).watchers == old(self).watchers,
    {
        let n = aux_remove_channel_tags(selectors, tags, &mut self.setter_by_id);
        proof {
            Self::lemma_wf_retagged_setters(old(self), self);
        }
        n
    }
}

} // verus!
