//! What a watch asks of the adapters, and what becomes of their answers.
//!
//! A watch is a list of clauses. Each clause selects getters and says which
//! of their values are of interest: all of them, those of a range, or none,
//! in which case the clause only follows the getters that come and go.

use crate::adapter::WatchEvent as AdapterWatchEvent;
use crate::api::{Error, WatchEvent};
use crate::names::{contains_name, listed};
use crate::selector::{any_selects, matches_any, GetterSelector};
use crate::services::Channel;
use crate::values::{Exactly, Range};
use vstd::prelude::*;

verus! {

/// Some clause of `watch` selects the getter `g`.
pub open spec fn covers(watch: Seq<(Vec<GetterSelector>, Exactly<Range>)>, g: &Channel) -> bool {
    exists|i: int| 0 <= i < watch.len() && any_selects((#[trigger] watch[i]).0@, g)
}

/// Whether some clause of `watch` selects the getter `g`.
pub fn is_covered(watch: &Vec<(Vec<GetterSelector>, Exactly<Range>)>, g: &Channel) -> (b: bool)
    ensures
        b == covers(watch@, g),
{
    let mut i: usize = 0;
    while i < watch.len()
        invariant
            i <= watch.len(),
            forall|j: int| 0 <= j < i ==> !any_selects((#[trigger] watch@[j]).0@, g),
        decreases watch.len() - i,
    {
        if matches_any(watch[i].0.as_slice(), g) {
            return true;
        }
        i += 1;
    }
    false
}

/// What one clause asks of the adapter of the getter `g`: nothing if the
/// clause does not select `g` or watches no value, else a subscription to
/// `g`, within the range of the clause if it has one.
pub open spec fn clause_request(clause: (Vec<GetterSelector>, Exactly<Range>), g: &Channel) -> Option<
    (String, Option<Range>),
> {
    if any_selects(clause.0@, g) {
        match clause.1 {
            Exactly::Always => Some((g.id, None)),
            Exactly::Exactly(range) => Some((g.id, Some(range))),
            Exactly::Never => None,
        }
    } else {
        None
    }
}

/// What the clauses of `watch` ask of the adapter of the getter `g`, clause
/// by clause.
pub open spec fn requests_for(watch: Seq<(Vec<GetterSelector>, Exactly<Range>)>, g: &Channel) -> Seq<
    (String, Option<Range>),
>
    decreases watch.len(),
{
    if watch.len() == 0 {
        Seq::empty()
    } else {
        let rest = requests_for(watch.drop_last(), g);
        match clause_request(watch.last(), g) {
            Some(r) => rest.push(r),
            None => rest,
        }
    }
}

/// Every request for a getter names that getter, and there is none unless
/// the watch covers it.
pub proof fn lemma_requests_for(watch: Seq<(Vec<GetterSelector>, Exactly<Range>)>, g: &Channel)
    ensures
        forall|j: int|
            0 <= j < requests_for(watch, g).len() ==> (#[trigger] requests_for(watch, g)[j]).0
                == g.id,
        requests_for(watch, g).len() > 0 ==> covers(watch, g),
    decreases watch.len(),
{
    if watch.len() > 0 {
        lemma_requests_for(watch.drop_last(), g);
        if covers(watch.drop_last(), g) {
            let i = choose|i: int|
                0 <= i < watch.drop_last().len() && any_selects(
                    (#[trigger] watch.drop_last()[i]).0@,
                    g,
                );
            assert(any_selects(watch[i].0@, g));
        }
        if clause_request(watch.last(), g) is Some {
            assert(any_selects(watch[watch.len() - 1].0@, g));
        }
        let rest = requests_for(watch.drop_last(), g);
        let all = requests_for(watch, g);
        assert forall|j: int| 0 <= j < all.len() implies (#[trigger] all[j]).0 == g.id by {
            if j < rest.len() {
                assert(all[j] == rest[j]);
            }
        }
    }
}

/// Appends to `out` what the clauses of `watch` ask of the adapter of `g`.
pub fn push_requests_for(
    out: &mut Vec<(String, Option<Range>)>,
    watch: &Vec<(Vec<GetterSelector>, Exactly<Range>)>,
    g: &Channel,
)
    ensures
        final(out)@ == old(out)@ + requests_for(watch@, g),
{
    let ghost before = out@;
    let mut i: usize = 0;
    assert(watch@.subrange(0, 0).len() == 0);
    assert(out@ =~= before + requests_for(watch@.subrange(0, 0), g));
    while i < watch.len()
        invariant
            i <= watch.len(),
            out@ == before + requests_for(watch@.subrange(0, i as int), g),
        decreases watch.len() - i,
    {
        let ghost head = watch@.subrange(0, i as int);
        let ghost next = watch@.subrange(0, i + 1);
        assert(next.drop_last() =~= head);
        assert(next.last() == watch@[i as int]);
        if matches_any(watch[i].0.as_slice(), g) {
            match watch[i].1 {
                Exactly::Always => {
                    out.push((g.id.clone(), None));
                },
                Exactly::Exactly(range) => {
                    out.push((g.id.clone(), Some(range)));
                },
                Exactly::Never => {},
            }
        }
        assert(out@ =~= before + requests_for(next, g));
        i += 1;
    }
    assert(watch@.subrange(0, watch@.len() as int) =~= watch@);
}

/// The getters that a list of requests names, request by request.
pub open spec fn request_ids(requests: Seq<(String, Option<Range>)>) -> Seq<String> {
    requests.map_values(|q: (String, Option<Range>)| q.0)
}

/// The getters that a list of requests names, request by request.
pub fn ids_of(requests: &Vec<(String, Option<Range>)>) -> (r: Vec<String>)
    ensures
        r@ == request_ids(requests@),
{
    let mut r: Vec<String> = Vec::new();
    let mut i: usize = 0;
    while i < requests.len()
        invariant
            i <= requests.len(),
            r@ == request_ids(requests@.subrange(0, i as int)),
        decreases requests.len() - i,
    {
        r.push(requests[i].0.clone());
        assert(r@ =~= request_ids(requests@.subrange(0, i + 1)));
        i += 1;
    }
    assert(requests@.subrange(0, requests@.len() as int) =~= requests@);
    r
}

/// The subscriptions of `guards` that are not for the getter `gid`, in
/// their order.
pub open spec fn guards_without<G>(guards: Seq<(String, G)>, gid: Seq<char>) -> Seq<(String, G)>
    decreases guards.len(),
{
    if guards.len() == 0 {
        Seq::empty()
    } else if guards.last().0@ == gid {
        guards_without(guards.drop_last(), gid)
    } else {
        guards_without(guards.drop_last(), gid).push(guards.last())
    }
}

/// What is left without the getter `gid` is what was held for the other
/// getters.
pub proof fn lemma_guards_without<G>(guards: Seq<(String, G)>, gid: Seq<char>)
    ensures
        forall|g: (String, G)|
            #![trigger guards_without(guards, gid).contains(g)]
            #![trigger guards.contains(g)]
            guards_without(guards, gid).contains(g) <==> guards.contains(g) && g.0@ != gid,
    decreases guards.len(),
{
    if guards.len() > 0 {
        let head = guards.drop_last();
        lemma_guards_without(head, gid);
        let rest = guards_without(head, gid);
        let all = guards_without(guards, gid);
        assert forall|g: (String, G)| all.contains(g) <==> guards.contains(g) && g.0@ != gid by {
            if all.contains(g) {
                let i = choose|i: int| 0 <= i < all.len() && all[i] == g;
                if i < rest.len() {
                    assert(rest[i] == g);
                    assert(rest.contains(g));
                    let j = choose|j: int| 0 <= j < head.len() && head[j] == g;
                    assert(guards[j] == g);
                } else {
                    assert(guards[guards.len() - 1] == g);
                }
            }
            if guards.contains(g) && g.0@ != gid {
                let j = choose|j: int| 0 <= j < guards.len() && guards[j] == g;
                if j < head.len() {
                    assert(head[j] == g);
                    assert(rest.contains(g));
                    let i = choose|i: int| 0 <= i < rest.len() && rest[i] == g;
                    assert(all[i] == g);
                } else {
                    assert(all[all.len() - 1] == g);
                }
            }
        }
    }
}

/// Subscriptions for the getter `gid` that were appended to subscriptions
/// for other getters leave again alone.
pub proof fn lemma_guards_without_appended<G>(
    held: Seq<(String, G)>,
    all: Seq<(String, G)>,
    gid: Seq<char>,
)
    requires
        held.is_prefix_of(all),
        forall|j: int| 0 <= j < held.len() ==> (#[trigger] held[j]).0@ != gid,
        forall|j: int| held.len() <= j < all.len() ==> (#[trigger] all[j]).0@ == gid,
    ensures
        guards_without(all, gid) == held,
    decreases all.len(),
{
    if all.len() > held.len() {
        assert(held.is_prefix_of(all.drop_last()));
        assert(all.last() == all[all.len() - 1]);
        lemma_guards_without_appended(held, all.drop_last(), gid);
    } else if all.len() > 0 {
        assert(all =~= held);
        let front = held.drop_last();
        assert forall|j: int| 0 <= j < front.len() implies (#[trigger] front[j]).0@ != gid by {
            assert(front[j] == held[j]);
        }
        lemma_guards_without_appended(front, front, gid);
        assert(held.last() == held[held.len() - 1]);
        assert(front.push(held.last()) =~= held);
    } else {
        assert(held =~= all);
    }
}

/// The events that tell a client which getters could not be watched: one
/// for each failure among the answers of an adapter, in their order.
pub open spec fn init_errors<G>(got: Seq<(String, Result<G, Error>)>) -> Seq<WatchEvent>
    decreases got.len(),
{
    if got.len() == 0 {
        Seq::empty()
    } else {
        let rest = init_errors(got.drop_last());
        match got.last().1 {
            Err(e) => rest.push(WatchEvent::InitializationError { channel: got.last().0, error: e }),
            Ok(_) => rest,
        }
    }
}

/// The subscriptions to keep among the answers of an adapter: those for
/// getters of `asked`, in their order.
pub open spec fn kept_guards<G>(got: Seq<(String, Result<G, Error>)>, asked: Seq<String>) -> Seq<
    (String, G),
>
    decreases got.len(),
{
    if got.len() == 0 {
        Seq::empty()
    } else {
        let rest = kept_guards(got.drop_last(), asked);
        match got.last().1 {
            Ok(g) => if listed(asked, got.last().0@) {
                rest.push((got.last().0, g))
            } else {
                rest
            },
            Err(_) => rest,
        }
    }
}

/// Every subscription that is kept is for a getter of `asked`.
pub proof fn lemma_kept_guards<G>(got: Seq<(String, Result<G, Error>)>, asked: Seq<String>)
    ensures
        forall|g: (String, G)| #[trigger]
            kept_guards(got, asked).contains(g) ==> listed(asked, g.0@),
    decreases got.len(),
{
    if got.len() > 0 {
        lemma_kept_guards(got.drop_last(), asked);
        let rest = kept_guards(got.drop_last(), asked);
        assert forall|g: (String, G)| #[trigger]
            kept_guards(got, asked).contains(g) implies listed(asked, g.0@) by {
            let all = kept_guards(got, asked);
            let j = choose|j: int| 0 <= j < all.len() && all[j] == g;
            if j < rest.len() {
                assert(rest[j] == g);
                assert(rest.contains(g));
            }
        }
    }
}

/// Sorts the answers of an adapter to a request for subscriptions: the
/// subscriptions granted for getters of `asked` are kept, those for other
/// getters are dropped at once, and each failure becomes an
/// `InitializationError` event for the client.
pub fn sort_watch_results<G>(got: Vec<(String, Result<G, Error>)>, asked: &Vec<String>) -> (r: (
    Vec<(String, G)>,
    Vec<WatchEvent>,
))
    ensures
        r.0@ == kept_guards(got@, asked@),
        r.1@ == init_errors(got@),
{
    let mut got = got;
    let ghost all = got@;
    let mut guards: Vec<(String, G)> = Vec::new();
    let mut events: Vec<WatchEvent> = Vec::new();
    let ghost mut done: int = 0;
    assert(all.subrange(0, 0).len() == 0);
    while got.len() > 0
        invariant
            0 <= done <= all.len(),
            got@ == all.subrange(done, all.len() as int),
            guards@ == kept_guards(all.subrange(0, done), asked@),
            events@ == init_errors(all.subrange(0, done)),
        decreases got.len(),
    {
        let ghost head = all.subrange(0, done);
        let ghost next = all.subrange(0, done + 1);
        assert(next.drop_last() =~= head);
        assert(next.last() == all[done]);
        assert(got@[0] == all[done]);
        let ghost rest = got@;
        let (id, answer) = got.remove(0);
        assert(got@ =~= all.subrange(done + 1, all.len() as int));
        match answer {
            Ok(guard) => {
                if contains_name(asked, &id) {
                    guards.push((id, guard));
                }
            },
            Err(error) => {
                events.push(WatchEvent::InitializationError { channel: id, error });
            },
        }
        proof {
            done = done + 1;
        }
    }
    assert(all.subrange(0, all.len() as int) =~= all);
    (guards, events)
}

/// What a client is told of an event that an adapter reports, if anything:
/// nothing once the watch is dropped, nothing if the value is of no
/// interest to the clause, else the event as the client knows it. A value
/// inside the range of the clause is of interest when the getter enters the
/// range, a value outside when it leaves; without a range, every value is.
pub open spec fn delivery(dropped: bool, filter: Exactly<Range>, event: AdapterWatchEvent) -> Option<
    WatchEvent,
> {
    if dropped {
        None
    } else {
        match event {
            AdapterWatchEvent::Enter { id, value } => {
                let wanted = match filter {
                    Exactly::Always => true,
                    Exactly::Exactly(range) => range.holds(&value),
                    Exactly::Never => false,
                };
                if wanted {
                    Some(WatchEvent::EnterRange { from: id, value })
                } else {
                    None
                }
            },
            AdapterWatchEvent::Exit { id, value } => {
                let wanted = match filter {
                    Exactly::Always => true,
                    Exactly::Exactly(range) => !range.holds(&value),
                    Exactly::Never => false,
                };
                if wanted {
                    Some(WatchEvent::ExitRange { from: id, value })
                } else {
                    None
                }
            },
        }
    }
}

/// Decides what a client is told of an event that an adapter reports.
/// `dropped` says whether the client has released its watch.
pub fn deliver(dropped: bool, filter: &Exactly<Range>, event: AdapterWatchEvent) -> (r: Option<
    WatchEvent,
>)
    ensures
        r == delivery(dropped, *filter, event),
        dropped ==> r is None,
{
    if dropped {
        return None;
    }
    match event {
        AdapterWatchEvent::Enter { id, value } => {
            let wanted = match filter {
                Exactly::Always => true,
                Exactly::Exactly(range) => range.contains(&value),
                Exactly::Never => false,
            };
            if wanted {
                Some(WatchEvent::EnterRange { from: id, value })
            } else {
                None
            }
        },
        AdapterWatchEvent::Exit { id, value } => {
            let wanted = match filter {
                Exactly::Always => true,
                Exactly::Exactly(range) => !range.contains(&value),
                Exactly::Never => false,
            };
            if wanted {
                Some(WatchEvent::ExitRange { from: id, value })
            } else {
                None
            }
        },
    }
}

} // verus!
