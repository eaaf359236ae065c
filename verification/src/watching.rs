//! Watchers at work: linking them to the getters that they cover, asking
//! the adapters for subscriptions, and letting go of both.

use crate::adapter::{Adapter, WatchSink};
use crate::api::WatchEvent;
use crate::backend::{AdapterData, AdapterManagerState, GetterData, WatcherData};
use crate::names::{add_name, listed};
use crate::selector::GetterSelector;
use crate::services::Channel;
use crate::table::{lemma_as_map_index, lemma_same_keys, position, same_keys, Table};
use crate::values::{Exactly, Range};
use crate::watch::{
    covers, guards_without, ids_of, is_covered, lemma_guards_without, lemma_kept_guards,
    lemma_requests_for, push_requests_for, request_ids, requests_for, sort_watch_results,
};
use vstd::prelude::*;

verus! {

/// What a watch asks of the adapter `aid`: what it asks for each getter of
/// that adapter, getter by getter in the order of the table.
pub open spec fn watch_requests(
    watch: Seq<(Vec<GetterSelector>, Exactly<Range>)>,
    getters: Seq<GetterData>,
    aid: Seq<char>,
) -> Seq<(String, Option<Range>)>
    decreases getters.len(),
{
    if getters.len() == 0 {
        Seq::empty()
    } else {
        let rest = watch_requests(watch, getters.drop_last(), aid);
        if getters.last().getter.adapter@ == aid {
            rest + requests_for(watch, &getters.last().getter)
        } else {
            rest
        }
    }
}

/// Some getter of `getters` that `watch` covers has the identifier `id`.
pub open spec fn names_covered(
    watch: Seq<(Vec<GetterSelector>, Exactly<Range>)>,
    getters: Seq<GetterData>,
    id: String,
) -> bool {
    exists|i: int|
        0 <= i < getters.len() && (#[trigger] getters[i]).getter.id == id && covers(
            watch,
            &getters[i].getter,
        )
}

/// Every request of a watch to an adapter names a getter that the watch
/// covers.
pub proof fn lemma_watch_requests(
    watch: Seq<(Vec<GetterSelector>, Exactly<Range>)>,
    getters: Seq<GetterData>,
    aid: Seq<char>,
)
    ensures
        forall|j: int|
            0 <= j < watch_requests(watch, getters, aid).len() ==> names_covered(
                watch,
                getters,
                (#[trigger] watch_requests(watch, getters, aid)[j]).0,
            ),
    decreases getters.len(),
{
    if getters.len() > 0 {
        let head = getters.drop_last();
        let last = getters.last();
        lemma_watch_requests(watch, head, aid);
        lemma_requests_for(watch, &last.getter);
        let rest = watch_requests(watch, head, aid);
        let all = watch_requests(watch, getters, aid);
        assert forall|j: int| 0 <= j < all.len() implies names_covered(
            watch,
            getters,
            (#[trigger] all[j]).0,
        ) by {
            if j < rest.len() {
                assert(all[j] == rest[j]);
                assert(names_covered(watch, head, rest[j].0));
                let i = choose|i: int|
                    0 <= i < head.len() && (#[trigger] head[i]).getter.id == rest[j].0 && covers(
                        watch,
                        &head[i].getter,
                    );
                assert(getters[i] == head[i]);
            } else {
                let more = requests_for(watch, &last.getter);
                assert(all[j] == more[j - rest.len()]);
                assert(more.len() > 0);
                assert(getters[getters.len() - 1] == last);
            }
        }
    }
}

/// Adds the key `k` unless it is there already.
pub fn add_key(keys: &mut Vec<usize>, k: usize)
    ensures
        forall|x: usize|
            #![trigger final(keys)@.contains(x)]
            #![trigger old(keys)@.contains(x)]
            final(keys)@.contains(x) <==> old(keys)@.contains(x) || x == k,
        final(keys)@.contains(k),
{
    let ghost before = keys@;
    let mut i: usize = 0;
    while i < keys.len()
        invariant
            i <= keys.len(),
            keys@ == before,
            forall|j: int| 0 <= j < i ==> #[trigger] keys@[j] != k,
        decreases keys.len() - i,
    {
        if keys[i] == k {
            assert(keys@.contains(k));
            return ;
        }
        i += 1;
    }
    keys.push(k);
    assert(keys@[before.len() as int] == k);
    assert forall|x: usize| keys@.contains(x) <==> before.contains(x) || x == k by {
        if before.contains(x) {
            let j = choose|j: int| 0 <= j < before.len() && before[j] == x;
            assert(keys@[j] == x);
        }
        if x == k {
            assert(keys@[before.len() as int] == x);
        }
        if keys@.contains(x) {
            let j = choose|j: int| 0 <= j < keys@.len() && keys@[j] == x;
            if j < before.len() {
                assert(before[j] == x);
            }
        }
    }
}

/// Removes every occurrence of the key `k`.
pub fn drop_key(keys: &mut Vec<usize>, k: usize)
    ensures
        forall|x: usize|
            #![trigger final(keys)@.contains(x)]
            #![trigger old(keys)@.contains(x)]
            final(keys)@.contains(x) <==> old(keys)@.contains(x) && x != k,
{
    let ghost before = keys@;
    let mut i: usize = 0;
    while i < keys.len()
        invariant
            i <= keys.len(),
            forall|j: int| 0 <= j < i ==> #[trigger] keys@[j] != k,
            forall|x: usize| keys@.contains(x) ==> before.contains(x),
            forall|x: usize| before.contains(x) && x != k ==> keys@.contains(x),
        decreases keys.len() - i,
    {
        if keys[i] == k {
            let ghost prev = keys@;
            let _ = keys.remove(i);
            assert forall|x: usize| keys@.contains(x) implies before.contains(x) by {
                let j = choose|j: int| 0 <= j < keys@.len() && keys@[j] == x;
                let j0 = if j < i { j } else { j + 1 };
                assert(prev[j0] == x);
                assert(prev.contains(x));
            }
            assert forall|x: usize| before.contains(x) && x != k implies keys@.contains(x) by {
                assert(prev.contains(x));
                let j = choose|j: int| 0 <= j < prev.len() && prev[j] == x;
                let j2 = if j < i { j } else { j - 1 };
                assert(keys@[j2] == x);
            }
        } else {
            i += 1;
        }
    }
    assert forall|x: usize| keys@.contains(x) implies x != k by {
        let j = choose|j: int| 0 <= j < keys@.len() && keys@[j] == x;
        assert(keys@[j] != k);
    }
}

/// Hands each event to the client, in order.
fn send_all<S: WatchSink>(sink: &S, events: Vec<WatchEvent>) {
    let mut events = events;
    while events.len() > 0
        decreases events.len(),
    {
        let event = events.remove(0);
        sink.send(event);
    }
}

/// Asks the adapter `adapter` for the subscriptions `requests` on behalf of
/// the watcher `w`. The subscriptions granted for getters that were asked
/// for are added to those that `w` holds; the client is told of each
/// failure. Nothing is asked when there is nothing to request or the
/// adapter is not registered.
pub fn subscribe<A: Adapter>(
    adapters: &Table<AdapterData<A>>,
    w: &mut WatcherData<A>,
    adapter: &String,
    requests: Vec<(String, Option<Range>)>,
)
    requires
        adapters.wf(),
    ensures
        final(w).key == old(w).key,
        final(w).watch == old(w).watch,
        final(w).on_event == old(w).on_event,
        final(w).getters == old(w).getters,
        old(w).guards@.is_prefix_of(final(w).guards@),
        forall|j: int|
            old(w).guards@.len() <= j < final(w).guards@.len() ==> listed(
                request_ids(requests@),
                (#[trigger] final(w).guards@[j]).0@,
            ),
        requests@.len() == 0 || !adapters@.dom().contains(adapter@) ==> *final(w) == *old(w),
{
    if requests.len() == 0 {
        return ;
    }
    match adapters.get(adapter) {
        None => {},
        Some(data) => {
            let asked = ids_of(&requests);
            let got = data.adapter.register_watch(requests, &w.on_event);
            let ghost answers = got@;
            let (mut guards, events) = sort_watch_results(got, &asked);
            let ghost before = w.guards@;
            let ghost more = guards@;
            w.guards.append(&mut guards);
            proof {
                lemma_kept_guards(answers, asked@);
                assert forall|j: int| before.len() <= j < w.guards@.len() implies listed(
                    asked@,
                    (#[trigger] w.guards@[j]).0@,
                ) by {
                    assert(more[j - before.len()] == w.guards@[j]);
                    assert(more.contains(w.guards@[j]));
                }
            }
            send_all(&w.on_event, events);
        },
    }
}

/// Drops every subscription held for the getter `gid`.
pub fn drop_guards<G>(guards: &mut Vec<(String, G)>, gid: &String)
    ensures
        final(guards)@ == guards_without(old(guards)@, gid@),
        forall|g: (String, G)|
            #![trigger final(guards)@.contains(g)]
            #![trigger old(guards)@.contains(g)]
            final(guards)@.contains(g) <==> old(guards)@.contains(g) && g.0@ != gid@,
{
    let ghost before = guards@;
    let ghost mut seen: int = 0;
    let mut i: usize = 0;
    assert(before.subrange(0, 0).len() == 0);
    assert(guards@ =~= guards_without(before.subrange(0, 0), gid@) + before.subrange(
        0,
        before.len() as int,
    ));
    while i < guards.len()
        invariant
            0 <= i <= seen <= before.len(),
            i == guards_without(before.subrange(0, seen), gid@).len(),
            guards@ == guards_without(before.subrange(0, seen), gid@) + before.subrange(
                seen,
                before.len() as int,
            ),
        decreases guards.len() - i,
    {
        let ghost head = before.subrange(0, seen);
        let ghost next = before.subrange(0, seen + 1);
        assert(next.drop_last() =~= head);
        assert(next.last() == before[seen]);
        assert(guards@[i as int] == before[seen]);
        if guards[i].0 == *gid {
            let _ = guards.remove(i);
            assert(guards@ =~= guards_without(next, gid@) + before.subrange(
                seen + 1,
                before.len() as int,
            ));
        } else {
            assert(guards@ =~= guards_without(next, gid@) + before.subrange(
                seen + 1,
                before.len() as int,
            ));
            i += 1;
        }
        proof {
            seen = seen + 1;
        }
    }
    proof {
        assert(before.subrange(0, before.len() as int) =~= before);
        assert(seen == before.len()) by {
            if seen < before.len() {
                assert(guards@.len() == i + (before.len() - seen));
            }
        }
        assert(guards@ =~= guards_without(before, gid@));
        lemma_guards_without(before, gid@);
    }
}

impl<A: Adapter> AdapterManagerState<A> {
    /// Extends to `getter` every watcher whose watch covers it, asking the
    /// adapter of the getter for the subscriptions that the watch calls for.
    /// Returns the keys of those watchers.
    #[verifier::spinoff_prover]
    pub(crate) fn link_watchers(&mut self, getter: &Channel) -> (keys: Vec<usize>)
        requires
            old(self).watchers.wf(),
            old(self).adapter_by_id.wf(),
        ensures
            final(self).adapter_by_id == old(self).adapter_by_id,
            final(self).service_by_id == old(self).service_by_id,
            final(self).getter_by_id == old(self).getter_by_id,
            final(self).setter_by_id == old(self).setter_by_id,
            final(self).watchers.wf(),
            final(self).watchers.counter == old(self).watchers.counter,
            final(self).watchers.watchers@.dom() == old(self).watchers.watchers@.dom(),
            forall|k: usize| #[trigger]
                final(self).watchers.watchers@.dom().contains(k)
                    ==> final(self).watchers.watchers@[k].is_extended_with(
                    &old(self).watchers.watchers@[k],
                    getter,
                ),
            forall|k: usize| #[trigger]
                keys@.contains(k) <==> old(self).watchers.watchers@.dom().contains(k) && covers(
                    old(self).watchers.watchers@[k].watch@,
                    getter,
                ),
    {
        let ghost before = self.watchers.watchers.seq();
        let mut keys: Vec<usize> = Vec::new();
        let mut i: usize = 0;
        while i < self.watchers.watchers.len()
            invariant
                i <= self.watchers.watchers.seq().len(),
                old(self).watchers.wf(),
                self.adapter_by_id.wf(),
                self.adapter_by_id == old(self).adapter_by_id,
                self.service_by_id == old(self).service_by_id,
                self.getter_by_id == old(self).getter_by_id,
                self.setter_by_id == old(self).setter_by_id,
                self.watchers.watchers.wf(),
                self.watchers.counter == old(self).watchers.counter,
                before == old(self).watchers.watchers.seq(),
                same_keys(before, self.watchers.watchers.seq()),
                forall|j: int|
                    0 <= j < i ==> (#[trigger] self.watchers.watchers.seq()[j]).is_extended_with(
                        &before[j],
                        getter,
                    ),
                forall|j: int|
                    i <= j < before.len() ==> #[trigger] self.watchers.watchers.seq()[j]
                        == before[j],
                forall|k: usize| #[trigger]
                    keys@.contains(k) <==> exists|j: int|
                        0 <= j < i && (#[trigger] before[j]).key == k && covers(
                            before[j].watch@,
                            getter,
                        ),
            decreases self.watchers.watchers.seq().len() - i,
        {
            let ghost prev = self.watchers.watchers.seq();
            let ghost prev_keys = keys@;
            let mut w = self.watchers.watchers.take_at(i);
            let ghost w0 = w;
            assert(w0 == before[i as int]);
            if is_covered(&w.watch, getter) {
                add_name(&mut w.getters, getter.id.clone());
                add_key(&mut keys, w.key);
                let mut requests: Vec<(String, Option<Range>)> = Vec::new();
                push_requests_for(&mut requests, &w.watch, getter);
                let ghost asked = requests@;
                subscribe(&self.adapter_by_id, &mut w, &getter.adapter, requests);
                proof {
                    lemma_requests_for(w0.watch@, getter);
                    assert forall|j: int| w0.guards@.len() <= j < w.guards@.len() implies (
                    #[trigger] w.guards@[j]).0@ == getter.id@ by {
                        let x = w.guards@[j].0@;
                        assert(listed(request_ids(asked), x));
                        let i = choose|i: int|
                            0 <= i < request_ids(asked).len() && (#[trigger] request_ids(
                                asked,
                            )[i])@ == x;
                        assert(request_ids(asked)[i] == asked[i].0);
                    }
                }
            }
            assert(w.is_extended_with(&w0, getter));
            self.watchers.watchers.put_at(i, w);
            assert(self.watchers.watchers.seq() =~= prev.update(i as int, w));
            proof {
                assert forall|k: usize| #[trigger]
                    keys@.contains(k) <==> exists|j: int|
                        0 <= j < i + 1 && (#[trigger] before[j]).key == k && covers(
                            before[j].watch@,
                            getter,
                        ) by {
                    if keys@.contains(k) {
                        if prev_keys.contains(k) {
                            let j = choose|j: int|
                                0 <= j < i && (#[trigger] before[j]).key == k && covers(
                                    before[j].watch@,
                                    getter,
                                );
                            assert(0 <= j < i + 1 && before[j].key == k);
                        } else {
                            assert(before[i as int].key == k);
                        }
                    }
                    if exists|j: int|
                        0 <= j < i + 1 && (#[trigger] before[j]).key == k && covers(
                            before[j].watch@,
                            getter,
                        ) {
                        let j = choose|j: int|
                            0 <= j < i + 1 && (#[trigger] before[j]).key == k && covers(
                                before[j].watch@,
                                getter,
                            );
                        if j < i {
                            assert(prev_keys.contains(k));
                        }
                    }
                }
            }
            i += 1;
        }
        proof {
            lemma_same_keys(before, self.watchers.watchers.seq());
            assert forall|k: usize| #[trigger]
                self.watchers.watchers@.dom().contains(k) implies k < self.watchers.counter by {
                assert(old(self).watchers.watchers@.dom().contains(k));
            }
            assert forall|k: usize| #[trigger]
                keys@.contains(k) <==> old(self).watchers.watchers@.dom().contains(k) && covers(
                    old(self).watchers.watchers@[k].watch@,
                    getter,
                ) by {
                if keys@.contains(k) {
                    let j = choose|j: int|
                        0 <= j < before.len() && (#[trigger] before[j]).key == k && covers(
                            before[j].watch@,
                            getter,
                        );
                    lemma_as_map_index(before, j);
                }
                if old(self).watchers.watchers@.dom().contains(k) && covers(
                    old(self).watchers.watchers@[k].watch@,
                    getter,
                ) {
                    let p = position(before, k);
                    assert(before[p].key == k);
                }
            }
        }
        keys
    }

    /// What `watch` asks of the adapter `adapter`, given the getters that
    /// are registered.
    pub fn collect_watch_requests(
        &self,
        watch: &Vec<(Vec<GetterSelector>, Exactly<Range>)>,
        adapter: &String,
    ) -> (r: Vec<(String, Option<Range>)>)
        ensures
            r@ == watch_requests(watch@, self.getter_by_id.seq(), adapter@),
    {
        let mut r: Vec<(String, Option<Range>)> = Vec::new();
        let mut i: usize = 0;
        assert(self.getter_by_id.seq().subrange(0, 0).len() == 0);
        while i < self.getter_by_id.entries.len()
            invariant
                i <= self.getter_by_id.seq().len(),
                r@ == watch_requests(watch@, self.getter_by_id.seq().subrange(0, i as int), adapter@),
            decreases self.getter_by_id.seq().len() - i,
        {
            let ghost head = self.getter_by_id.seq().subrange(0, i as int);
            let ghost next = self.getter_by_id.seq().subrange(0, i + 1);
            assert(next.drop_last() =~= head);
            assert(next.last() == self.getter_by_id.seq()[i as int]);
            let g = &self.getter_by_id.entries[i];
            if g.getter.adapter == *adapter {
                push_requests_for(&mut r, watch, &g.getter);
            }
            i += 1;
        }
        assert(self.getter_by_id.seq().subrange(0, self.getter_by_id.seq().len() as int)
            =~= self.getter_by_id.seq());
        r
    }

    /// Names the watcher `key` on every getter that `watch` covers, and
    /// returns the identifiers of those getters.
    #[verifier::spinoff_prover]
    fn cover_getters(&mut self, watch: &Vec<(Vec<GetterSelector>, Exactly<Range>)>, key: usize) -> (covered: Vec<String>)
        requires
            old(self).getter_by_id.wf(),
        ensures
            final(self).adapter_by_id == old(self).adapter_by_id,
            final(self).service_by_id == old(self).service_by_id,
            final(self).setter_by_id == old(self).setter_by_id,
            final(self).watchers == old(self).watchers,
            final(self).getter_by_id.wf(),
            final(self).getter_by_id@.dom() == old(self).getter_by_id@.dom(),
            forall|gid: Seq<char>| #[trigger]
                final(self).getter_by_id@.dom().contains(gid)
                    ==> final(self).getter_by_id@[gid].is_covered_by(
                    &old(self).getter_by_id@[gid],
                    key,
                    covers(watch@, &old(self).getter_by_id@[gid].getter),
                ),
            forall|x: Seq<char>| #[trigger]
                listed(covered@, x) <==> old(self).getter_by_id@.dom().contains(x) && covers(
                    watch@,
                    &old(self).getter_by_id@[x].getter,
                ),
    {
        let ghost before = self.getter_by_id.seq();
        let mut covered: Vec<String> = Vec::new();
        let mut i: usize = 0;
        while i < self.getter_by_id.len()
            invariant
                i <= self.getter_by_id.seq().len(),
                old(self).getter_by_id.wf(),
                self.adapter_by_id == old(self).adapter_by_id,
                self.service_by_id == old(self).service_by_id,
                self.setter_by_id == old(self).setter_by_id,
                self.watchers == old(self).watchers,
                self.getter_by_id.wf(),
                before == old(self).getter_by_id.seq(),
                same_keys(before, self.getter_by_id.seq()),
                forall|j: int|
                    0 <= j < i ==> (#[trigger] self.getter_by_id.seq()[j]).is_covered_by(
                        &before[j],
                        key,
                        covers(watch@, &before[j].getter),
                    ),
                forall|j: int|
                    i <= j < before.len() ==> #[trigger] self.getter_by_id.seq()[j] == before[j],
                forall|x: Seq<char>| #[trigger]
                    listed(covered@, x) <==> exists|j: int|
                        0 <= j < i && (#[trigger] before[j]).getter.id@ == x && covers(
                            watch@,
                            &before[j].getter,
                        ),
            decreases self.getter_by_id.seq().len() - i,
        {
            let ghost prev = self.getter_by_id.seq();
            let ghost prev_covered = covered@;
            let mut g = self.getter_by_id.take_at(i);
            assert(g == before[i as int]);
            if is_covered(watch, &g.getter) {
                add_key(&mut g.watchers, key);
                add_name(&mut covered, g.getter.id.clone());
            }
            self.getter_by_id.put_at(i, g);
            assert(self.getter_by_id.seq() =~= prev.update(i as int, g));
            proof {
                assert forall|x: Seq<char>| #[trigger]
                    listed(covered@, x) <==> exists|j: int|
                        0 <= j < i + 1 && (#[trigger] before[j]).getter.id@ == x && covers(
                            watch@,
                            &before[j].getter,
                        ) by {
                    if listed(covered@, x) {
                        if listed(prev_covered, x) {
                            let j = choose|j: int|
                                0 <= j < i && (#[trigger] before[j]).getter.id@ == x && covers(
                                    watch@,
                                    &before[j].getter,
                                );
                            assert(0 <= j < i + 1 && before[j].getter.id@ == x);
                        } else {
                            assert(before[i as int].getter.id@ == x);
                        }
                    }
                    if exists|j: int|
                        0 <= j < i + 1 && (#[trigger] before[j]).getter.id@ == x && covers(
                            watch@,
                            &before[j].getter,
                        ) {
                        let j = choose|j: int|
                            0 <= j < i + 1 && (#[trigger] before[j]).getter.id@ == x && covers(
                                watch@,
                                &before[j].getter,
                            );
                        if j < i {
                            assert(listed(prev_covered, x));
                        }
                    }
                }
            }
            i += 1;
        }
        proof {
            lemma_same_keys(before, self.getter_by_id.seq());
            assert forall|x: Seq<char>| #[trigger]
                listed(covered@, x) <==> old(self).getter_by_id@.dom().contains(x) && covers(
                    watch@,
                    &old(self).getter_by_id@[x].getter,
                ) by {
                if listed(covered@, x) {
                    let j = choose|j: int|
                        0 <= j < before.len() && (#[trigger] before[j]).getter.id@ == x && covers(
                            watch@,
                            &before[j].getter,
                        );
                    lemma_as_map_index(before, j);
                }
                if old(self).getter_by_id@.dom().contains(x) && covers(
                    watch@,
                    &old(self).getter_by_id@[x].getter,
                ) {
                    let p = position(before, x);
                    assert(before[p].getter.id@ == x);
                }
            }
        }
        covered
    }

    /// Strikes the watcher `key` from every getter.
    #[verifier::spinoff_prover]
    fn uncover_getters(&mut self, key: usize)
        requires
            old(self).getter_by_id.wf(),
        ensures
            final(self).adapter_by_id == old(self).adapter_by_id,
            final(self).service_by_id == old(self).service_by_id,
            final(self).setter_by_id == old(self).setter_by_id,
            final(self).watchers == old(self).watchers,
            final(self).getter_by_id.wf(),
            final(self).getter_by_id@.dom() == old(self).getter_by_id@.dom(),
            forall|gid: Seq<char>| #[trigger]
                final(self).getter_by_id@.dom().contains(gid)
                    ==> final(self).getter_by_id@[gid].is_uncovered_by(
                    &old(self).getter_by_id@[gid],
                    key,
                ),
    {
        let ghost before = self.getter_by_id.seq();
        let mut i: usize = 0;
        while i < self.getter_by_id.len()
            invariant
                i <= self.getter_by_id.seq().len(),
                old(self).getter_by_id.wf(),
                self.adapter_by_id == old(self).adapter_by_id,
                self.service_by_id == old(self).service_by_id,
                self.setter_by_id == old(self).setter_by_id,
                self.watchers == old(self).watchers,
                self.getter_by_id.wf(),
                before == old(self).getter_by_id.seq(),
                same_keys(before, self.getter_by_id.seq()),
                forall|j: int|
                    0 <= j < i ==> (#[trigger] self.getter_by_id.seq()[j]).is_uncovered_by(
                        &before[j],
                        key,
                    ),
                forall|j: int|
                    i <= j < before.len() ==> #[trigger] self.getter_by_id.seq()[j] == before[j],
            decreases self.getter_by_id.seq().len() - i,
        {
            let ghost prev = self.getter_by_id.seq();
            let mut g = self.getter_by_id.take_at(i);
            drop_key(&mut g.watchers, key);
            self.getter_by_id.put_at(i, g);
            assert(self.getter_by_id.seq() =~= prev.update(i as int, g));
            i += 1;
        }
        proof {
            lemma_same_keys(before, self.getter_by_id.seq());
        }
    }

    /// Registers a watch. The new watcher gets the next key, covers every
    /// registered getter that a clause of `watch` selects, and is named on
    /// each of them. Each adapter is asked once for the subscriptions that
    /// the watch calls for on its getters; the client is told through
    /// `on_event` of each getter that could not be watched. Returns the key
    /// of the watcher.
    #[verifier::spinoff_prover]
    pub fn register_channel_watch(
        &mut self,
        watch: Vec<(Vec<GetterSelector>, Exactly<Range>)>,
        on_event: A::Sink,
    ) -> (key: usize)
        requires
            old(self).wf(),
            old(self).watchers.counter < usize::MAX,
        ensures
            final(self).wf(),
            key == old(self).watchers.counter,
            final(self).watchers.counter == key + 1,
            final(self).watchers.watchers@.dom() == old(self).watchers.watchers@.dom().insert(key),
            !old(self).watchers.watchers@.dom().contains(key),
            old(self).watchers.watchers@.submap_of(final(self).watchers.watchers@),
            final(self).watchers.watchers@[key].key == key,
            final(self).watchers.watchers@[key].watch == watch,
            final(self).watchers.watchers@[key].on_event == on_event,
            forall|x: Seq<char>| #[trigger]
                listed(final(self).watchers.watchers@[key].getters@, x)
                    <==> old(self).getter_by_id@.dom().contains(x)
                    && covers(watch@, &old(self).getter_by_id@[x].getter),
            final(self).getter_by_id@.dom() == old(self).getter_by_id@.dom(),
            forall|gid: Seq<char>| #[trigger]
                final(self).getter_by_id@.dom().contains(gid)
                    ==> final(self).getter_by_id@[gid].is_covered_by(
                    &old(self).getter_by_id@[gid],
                    key,
                    covers(watch@, &old(self).getter_by_id@[gid].getter),
                ),
            final(self).adapter_by_id == old(self).adapter_by_id,
            final(self).service_by_id == old(self).service_by_id,
            final(self).setter_by_id == old(self).setter_by_id,
    {
        proof {
            self.lemma_keys();
        }
        let key = self.watchers.create(watch, on_event);
        let at = self.watchers.watchers.len() - 1;
        let mut w = self.watchers.watchers.take_at(at);
        assert(self.watchers.watchers.seq() =~= old(self).watchers.watchers.seq());
        assert(self.watchers.watchers@ == old(self).watchers.watchers@);
        w.getters = self.cover_getters(&w.watch, key);
        let ghost fresh = w;
        let mut i: usize = 0;
        while i < self.adapter_by_id.len()
            invariant
                i <= self.adapter_by_id.seq().len(),
                self.adapter_by_id.wf(),
                w.key == fresh.key,
                w.watch == fresh.watch,
                w.on_event == fresh.on_event,
                w.getters == fresh.getters,
                self.getter_by_id.wf(),
                forall|x: Seq<char>|
                    self.getter_by_id@.dom().contains(x) && covers(
                        w.watch@,
                        &self.getter_by_id@[x].getter,
                    ) ==> #[trigger] listed(w.getters@, x),
                forall|g: (String, A::Guard)| #[trigger]
                    w.guards@.contains(g) ==> listed(w.getters@, g.0@),
            decreases self.adapter_by_id.seq().len() - i,
        {
            let a = self.adapter_by_id.at(i);
            let requests = self.collect_watch_requests(&w.watch, &a.id);
            let ghost w1 = w;
            let ghost asked = requests@;
            subscribe(&self.adapter_by_id, &mut w, &a.id, requests);
            assert forall|g: (String, A::Guard)| #[trigger] w.guards@.contains(g) implies listed(
                w.getters@,
                g.0@,
            ) by {
                let j = choose|j: int| 0 <= j < w.guards@.len() && w.guards@[j] == g;
                if j < w1.guards@.len() {
                    assert(w1.guards@[j] == g);
                    assert(w1.guards@.contains(g));
                } else {
                    let getters = self.getter_by_id.seq();
                    lemma_watch_requests(w.watch@, getters, a.id@);
                    assert(listed(request_ids(asked), g.0@));
                    let q = choose|q: int|
                        0 <= q < request_ids(asked).len() && (#[trigger] request_ids(asked)[q])@
                            == g.0@;
                    assert(request_ids(asked)[q] == asked[q].0);
                    assert(names_covered(w.watch@, getters, asked[q].0));
                    let n = choose|n: int|
                        0 <= n < getters.len() && (#[trigger] getters[n]).getter.id == asked[q].0
                            && covers(w.watch@, &getters[n].getter);
                    lemma_as_map_index(getters, n);
                    assert(self.getter_by_id@.dom().contains(g.0@));
                }
            }
            i += 1;
        }
        self.watchers.watchers.put_at(at, w);
        proof {
            self.lemma_keys();
        }
        key
    }

    /// Unregisters the watcher `key`: it leaves the registry and every
    /// getter that named it, and only then are its subscriptions released.
    /// Does nothing if no such watcher is registered.
    #[verifier::spinoff_prover]
    pub fn unregister_channel_watch(&mut self, key: usize)
        requires
            old(self).wf(),
        ensures
            final(self).wf(),
            !old(self).watchers.watchers@.dom().contains(key) ==> *final(self) == *old(self),
            final(self).watchers.watchers@ == old(self).watchers.watchers@.remove(key),
            final(self).watchers.counter == old(self).watchers.counter,
            final(self).getter_by_id@.dom() == old(self).getter_by_id@.dom(),
            forall|gid: Seq<char>| #[trigger]
                final(self).getter_by_id@.dom().contains(gid)
                    ==> final(self).getter_by_id@[gid].is_uncovered_by(
                    &old(self).getter_by_id@[gid],
                    key,
                ),
            final(self).adapter_by_id == old(self).adapter_by_id,
            final(self).service_by_id == old(self).service_by_id,
            final(self).setter_by_id == old(self).setter_by_id,
    {
        proof {
            self.lemma_keys();
        }
        match self.watchers.remove(key) {
            None => {
                assert forall|gid: Seq<char>| #[trigger]
                    self.getter_by_id@.dom().contains(gid)
                        implies self.getter_by_id@[gid].is_uncovered_by(
                    &old(self).getter_by_id@[gid], key) by {
                    assert(!self.getter_by_id@[gid].watchers@.contains(key));
                }
            },
            Some(released) => {
                self.uncover_getters(key);
                proof {
                    self.lemma_keys();
                }
            },
        }
    }
}

} // verus!
