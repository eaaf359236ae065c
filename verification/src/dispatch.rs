//! Batched requests: reading getters and writing setters by selector, one
//! call per adapter, with the kinds of values checked on the way.

use crate::adapter::Adapter;
use crate::api::{Error, ResultMap, TypeError};
use crate::backend::{AdapterManagerState, GetterData, SetterData};
use crate::selector::{any_selects, matches_any, GetterSelector, SetterSelector};
use crate::table::lemma_as_map_index;
use crate::values::Value;
use vstd::prelude::*;

verus! {

/// The getters that a fetch asks of the adapter `aid`: those of that
/// adapter that some selector selects, in the order of the table.
pub open spec fn fetch_request(
    selectors: Seq<GetterSelector>,
    getters: Seq<GetterData>,
    aid: Seq<char>,
) -> Seq<String>
    decreases getters.len(),
{
    if getters.len() == 0 {
        Seq::empty()
    } else {
        let rest = fetch_request(selectors, getters.drop_last(), aid);
        let g = getters.last().getter;
        if g.adapter@ == aid && any_selects(selectors, &g) {
            rest.push(g.id)
        } else {
            rest
        }
    }
}

/// What becomes of one answer of an adapter to a fetch: a value whose kind
/// is not the one that its getter declares is replaced by a type error;
/// anything else is kept.
pub open spec fn fetched_entry(
    getters: Map<Seq<char>, GetterData>,
    e: (String, Result<Option<Value>, Error>),
) -> (String, Result<Option<Value>, Error>) {
    match e.1 {
        Ok(Some(v)) => if getters.dom().contains(e.0@) && getters[e.0@].getter.kind != v.kind() {
            (
                e.0,
                Err(
                    Error::TypeError(
                        TypeError { got: v.kind(), expected: getters[e.0@].getter.kind },
                    ),
                ),
            )
        } else {
            e
        },
        _ => e,
    }
}

/// The answer hands no value of the wrong kind to the client.
pub open spec fn well_typed(
    getters: Map<Seq<char>, GetterData>,
    e: (String, Result<Option<Value>, Error>),
) -> bool {
    e.1 matches Ok(Some(v)) ==> (getters.dom().contains(e.0@) ==> getters[e.0@].getter.kind
        == v.kind())
}

/// The values that one pair of a send hands to the adapter `aid`: the
/// value, for each setter of that adapter that some selector selects and
/// that speaks its kind, in the order of the table.
pub open spec fn payload_of(
    selectors: Seq<SetterSelector>,
    value: Value,
    setters: Seq<SetterData>,
    aid: Seq<char>,
) -> Seq<(String, Value)>
    decreases setters.len(),
{
    if setters.len() == 0 {
        Seq::empty()
    } else {
        let rest = payload_of(selectors, value, setters.drop_last(), aid);
        let c = setters.last().setter;
        if c.adapter@ == aid && any_selects(selectors, &c) && c.kind == value.kind() {
            rest.push((c.id, value))
        } else {
            rest
        }
    }
}

/// The values that a send hands to the adapter `aid`: those of each pair,
/// pair by pair.
pub open spec fn send_payload(
    keyvalues: Seq<(Vec<SetterSelector>, Value)>,
    setters: Seq<SetterData>,
    aid: Seq<char>,
) -> Seq<(String, Value)>
    decreases keyvalues.len(),
{
    if keyvalues.len() == 0 {
        Seq::empty()
    } else {
        send_payload(keyvalues.drop_last(), setters, aid) + payload_of(
            keyvalues.last().0@,
            keyvalues.last().1,
            setters,
            aid,
        )
    }
}

/// The type errors of one pair of a send: one for each setter that some
/// selector selects and that does not speak the kind of the value, in the
/// order of the table.
pub open spec fn type_errors_of(
    selectors: Seq<SetterSelector>,
    value: Value,
    setters: Seq<SetterData>,
) -> Seq<(String, Result<(), Error>)>
    decreases setters.len(),
{
    if setters.len() == 0 {
        Seq::empty()
    } else {
        let rest = type_errors_of(selectors, value, setters.drop_last());
        let c = setters.last().setter;
        if any_selects(selectors, &c) && c.kind != value.kind() {
            rest.push(
                (c.id, Err(Error::TypeError(TypeError { got: value.kind(), expected: c.kind }))),
            )
        } else {
            rest
        }
    }
}

/// The type errors of a send: those of each pair, pair by pair.
pub open spec fn send_type_errors(
    keyvalues: Seq<(Vec<SetterSelector>, Value)>,
    setters: Seq<SetterData>,
) -> Seq<(String, Result<(), Error>)>
    decreases keyvalues.len(),
{
    if keyvalues.len() == 0 {
        Seq::empty()
    } else {
        send_type_errors(keyvalues.drop_last(), setters) + type_errors_of(
            keyvalues.last().0@,
            keyvalues.last().1,
            setters,
        )
    }
}

impl<A: Adapter> AdapterManagerState<A> {
    /// The getters that a fetch by `selectors` asks of the adapter
    /// `adapter`.
    pub fn collect_fetch_request(&self, selectors: &[GetterSelector], adapter: &String) -> (r: Vec<
        String,
    >)
        ensures
            r@ == fetch_request(selectors@, self.getter_by_id.seq(), adapter@),
    {
        let mut r: Vec<String> = Vec::new();
        let mut i: usize = 0;
        assert(self.getter_by_id.seq().subrange(0, 0).len() == 0);
        while i < self.getter_by_id.entries.len()
            invariant
                i <= self.getter_by_id.seq().len(),
                r@ == fetch_request(
                    selectors@,
                    self.getter_by_id.seq().subrange(0, i as int),
                    adapter@,
                ),
            decreases self.getter_by_id.seq().len() - i,
        {
            let ghost head = self.getter_by_id.seq().subrange(0, i as int);
            let ghost next = self.getter_by_id.seq().subrange(0, i + 1);
            assert(next.drop_last() =~= head);
            assert(next.last() == self.getter_by_id.seq()[i as int]);
            let g = &self.getter_by_id.entries[i].getter;
            if g.adapter == *adapter && matches_any(selectors, g) {
                r.push(g.id.clone());
            }
            i += 1;
        }
        assert(self.getter_by_id.seq().subrange(0, self.getter_by_id.seq().len() as int)
            =~= self.getter_by_id.seq());
        r
    }

    /// Checks what an adapter answered to a fetch: each value whose kind is
    /// not the one that its getter declares becomes a type error for that
    /// getter; every other answer is kept as it is, in its place.
    pub fn check_fetched(&self, got: ResultMap<String, Option<Value>, Error>) -> (r: ResultMap<
        String,
        Option<Value>,
        Error,
    >)
        requires
            self.getter_by_id.wf(),
        ensures
            r@ == got@.map_values(
                |e: (String, Result<Option<Value>, Error>)| fetched_entry(self.getter_by_id@, e),
            ),
            forall|i: int| 0 <= i < r@.len() ==> well_typed(self.getter_by_id@, #[trigger] r@[i]),
    {
        let mut got = got;
        let ghost all = got@;
        let ghost check = |e: (String, Result<Option<Value>, Error>)|
            fetched_entry(self.getter_by_id@, e);
        let mut r: Vec<(String, Result<Option<Value>, Error>)> = Vec::new();
        let ghost mut done: int = 0;
        while got.len() > 0
            invariant
                self.getter_by_id.wf(),
                0 <= done <= all.len(),
                got@ == all.subrange(done, all.len() as int),
                r@ == all.subrange(0, done).map_values(check),
                check == |e: (String, Result<Option<Value>, Error>)|
                    fetched_entry(self.getter_by_id@, e),
            decreases got.len(),
        {
            assert(got@[0] == all[done]);
            let (id, answer) = got.remove(0);
            assert(got@ =~= all.subrange(done + 1, all.len() as int));
            let checked = match answer {
                Ok(Some(value)) => match self.getter_by_id.get(&id) {
                    Some(g) => {
                        let got_kind = value.get_type();
                        if g.getter.kind != got_kind {
                            Err(
                                Error::TypeError(
                                    TypeError { got: got_kind, expected: g.getter.kind },
                                ),
                            )
                        } else {
                            Ok(Some(value))
                        }
                    },
                    None => Ok(Some(value)),
                },
                other => other,
            };
            r.push((id, checked));
            proof {
                assert(r@[done] == check(all[done]));
                assert(r@ =~= all.subrange(0, done + 1).map_values(check));
                done = done + 1;
            }
        }
        assert(all.subrange(0, all.len() as int) =~= all);
        r
    }

    /// Reads the getters that some selector selects. Each adapter is asked
    /// once for its getters among them, and the answers are put together
    /// adapter by adapter. A value whose kind is not the one that its
    /// getter declares is never handed out: the getter gets a type error
    /// instead.
    pub fn fetch_values(&self, selectors: &[GetterSelector]) -> (r: ResultMap<
        String,
        Option<Value>,
        Error,
    >)
        requires
            self.wf(),
        ensures
            forall|i: int| 0 <= i < r@.len() ==> well_typed(self.getter_by_id@, #[trigger] r@[i]),
            (forall|a: Seq<char>|
                self.adapter_by_id@.dom().contains(a) ==> (#[trigger] fetch_request(
                    selectors@,
                    self.getter_by_id.seq(),
                    a,
                )).len() == 0) ==> r@.len() == 0,
    {
        let mut results: Vec<(String, Result<Option<Value>, Error>)> = Vec::new();
        let mut i: usize = 0;
        while i < self.adapter_by_id.len()
            invariant
                self.wf(),
                i <= self.adapter_by_id.seq().len(),
                forall|j: int|
                    0 <= j < results@.len() ==> well_typed(
                        self.getter_by_id@,
                        #[trigger] results@[j],
                    ),
                (forall|j: int|
                    0 <= j < i ==> (#[trigger] fetch_request(
                        selectors@,
                        self.getter_by_id.seq(),
                        self.adapter_by_id.seq()[j].id@,
                    )).len() == 0) ==> results@.len() == 0,
            decreases self.adapter_by_id.seq().len() - i,
        {
            let data = self.adapter_by_id.at(i);
            let request = self.collect_fetch_request(selectors, &data.id);
            if request.len() > 0 {
                let got = data.adapter.fetch_values(request);
                let mut checked = self.check_fetched(got);
                let ghost before = results@;
                let ghost more = checked@;
                results.append(&mut checked);
                assert forall|j: int| 0 <= j < results@.len() implies well_typed(
                    self.getter_by_id@,
                    #[trigger] results@[j],
                ) by {
                    if j < before.len() {
                        assert(results@[j] == before[j]);
                    } else {
                        assert(results@[j] == more[j - before.len()]);
                    }
                }
            }
            i += 1;
        }
        proof {
            if forall|a: Seq<char>|
                self.adapter_by_id@.dom().contains(a) ==> (#[trigger] fetch_request(
                    selectors@,
                    self.getter_by_id.seq(),
                    a,
                )).len() == 0 {
                assert forall|j: int| 0 <= j < self.adapter_by_id.seq().len() implies (
                #[trigger] fetch_request(
                    selectors@,
                    self.getter_by_id.seq(),
                    self.adapter_by_id.seq()[j].id@,
                )).len() == 0 by {
                    lemma_as_map_index(self.adapter_by_id.seq(), j);
                }
            }
        }
        results
    }

    /// The values that a send of `keyvalues` hands to the adapter
    /// `adapter`.
    pub fn collect_send_payload(
        &self,
        keyvalues: &Vec<(Vec<SetterSelector>, Value)>,
        adapter: &String,
    ) -> (r: Vec<(String, Value)>)
        ensures
            r@ == send_payload(keyvalues@, self.setter_by_id.seq(), adapter@),
    {
        let setters = &self.setter_by_id.entries;
        let mut r: Vec<(String, Value)> = Vec::new();
        let mut k: usize = 0;
        assert(keyvalues@.subrange(0, 0).len() == 0);
        while k < keyvalues.len()
            invariant
                k <= keyvalues.len(),
                setters@ == self.setter_by_id.seq(),
                r@ == send_payload(keyvalues@.subrange(0, k as int), setters@, adapter@),
            decreases keyvalues.len() - k,
        {
            let ghost kv_head = keyvalues@.subrange(0, k as int);
            let ghost kv_next = keyvalues@.subrange(0, k + 1);
            assert(kv_next.drop_last() =~= kv_head);
            assert(kv_next.last() == keyvalues@[k as int]);
            let ghost before = r@;
            let selectors = keyvalues[k].0.as_slice();
            let value = keyvalues[k].1;
            let mut i: usize = 0;
            assert(setters@.subrange(0, 0).len() == 0);
            assert(r@ =~= before + payload_of(
                selectors@,
                value,
                setters@.subrange(0, 0),
                adapter@,
            ));
            while i < setters.len()
                invariant
                    i <= setters.len(),
                    r@ == before + payload_of(
                        selectors@,
                        value,
                        setters@.subrange(0, i as int),
                        adapter@,
                    ),
                decreases setters.len() - i,
            {
                let ghost head = setters@.subrange(0, i as int);
                let ghost next = setters@.subrange(0, i + 1);
                assert(next.drop_last() =~= head);
                assert(next.last() == setters@[i as int]);
                let c = &setters[i].setter;
                if c.adapter == *adapter && matches_any(selectors, c) && c.kind
                    == value.get_type() {
                    r.push((c.id.clone(), value));
                }
                assert(r@ =~= before + payload_of(selectors@, value, next, adapter@));
                i += 1;
            }
            assert(setters@.subrange(0, setters@.len() as int) =~= setters@);
            k += 1;
        }
        assert(keyvalues@.subrange(0, keyvalues@.len() as int) =~= keyvalues@);
        r
    }

    /// The type errors of a send of `keyvalues`.
    pub fn collect_type_errors(&self, keyvalues: &Vec<(Vec<SetterSelector>, Value)>) -> (r: ResultMap<
        String,
        (),
        Error,
    >)
        ensures
            r@ == send_type_errors(keyvalues@, self.setter_by_id.seq()),
    {
        let setters = &self.setter_by_id.entries;
        let mut r: Vec<(String, Result<(), Error>)> = Vec::new();
        let mut k: usize = 0;
        assert(keyvalues@.subrange(0, 0).len() == 0);
        while k < keyvalues.len()
            invariant
                k <= keyvalues.len(),
                setters@ == self.setter_by_id.seq(),
                r@ == send_type_errors(keyvalues@.subrange(0, k as int), setters@),
            decreases keyvalues.len() - k,
        {
            let ghost kv_head = keyvalues@.subrange(0, k as int);
            let ghost kv_next = keyvalues@.subrange(0, k + 1);
            assert(kv_next.drop_last() =~= kv_head);
            assert(kv_next.last() == keyvalues@[k as int]);
            let ghost before = r@;
            let selectors = keyvalues[k].0.as_slice();
            let value = keyvalues[k].1;
            let mut i: usize = 0;
            assert(setters@.subrange(0, 0).len() == 0);
            assert(r@ =~= before + type_errors_of(selectors@, value, setters@.subrange(0, 0)));
            while i < setters.len()
                invariant
                    i <= setters.len(),
                    r@ == before + type_errors_of(
                        selectors@,
                        value,
                        setters@.subrange(0, i as int),
                    ),
                decreases setters.len() - i,
            {
                let ghost head = setters@.subrange(0, i as int);
                let ghost next = setters@.subrange(0, i + 1);
                assert(next.drop_last() =~= head);
                assert(next.last() == setters@[i as int]);
                let c = &setters[i].setter;
                let got = value.get_type();
                if matches_any(selectors, c) && c.kind != got {
                    r.push(
                        (c.id.clone(), Err(Error::TypeError(TypeError { got, expected: c.kind }))),
                    );
                }
                assert(r@ =~= before + type_errors_of(selectors@, value, next));
                i += 1;
            }
            assert(setters@.subrange(0, setters@.len() as int) =~= setters@);
            k += 1;
        }
        assert(keyvalues@.subrange(0, keyvalues@.len() as int) =~= keyvalues@);
        r
    }

    /// Sends each value to the setters that its selectors select. A setter
    /// that does not speak the kind of a value gets a type error and not
    /// the value; the type errors come first in the result. Each adapter is
    /// then asked once, with the values for its setters, and its answers
    /// follow as it gave them, adapter by adapter.
    pub fn send_values(&self, keyvalues: Vec<(Vec<SetterSelector>, Value)>) -> (r: ResultMap<
        String,
        (),
        Error,
    >)
        requires
            self.wf(),
        ensures
            send_type_errors(keyvalues@, self.setter_by_id.seq()).is_prefix_of(r@),
            (forall|a: Seq<char>|
                self.adapter_by_id@.dom().contains(a) ==> (#[trigger] send_payload(
                    keyvalues@,
                    self.setter_by_id.seq(),
                    a,
                )).len() == 0) ==> r@ == send_type_errors(keyvalues@, self.setter_by_id.seq()),
    {
        let mut results = self.collect_type_errors(&keyvalues);
        let ghost errors = results@;
        let mut i: usize = 0;
        while i < self.adapter_by_id.len()
            invariant
                self.wf(),
                i <= self.adapter_by_id.seq().len(),
                errors.is_prefix_of(results@),
                (forall|j: int|
                    0 <= j < i ==> (#[trigger] send_payload(
                        keyvalues@,
                        self.setter_by_id.seq(),
                        self.adapter_by_id.seq()[j].id@,
                    )).len() == 0) ==> results@ == errors,
            decreases self.adapter_by_id.seq().len() - i,
        {
            let data = self.adapter_by_id.at(i);
            let payload = self.collect_send_payload(&keyvalues, &data.id);
            if payload.len() > 0 {
                let mut got = data.adapter.send_values(payload);
                results.append(&mut got);
            }
            i += 1;
        }
        proof {
            if forall|a: Seq<char>|
                self.adapter_by_id@.dom().contains(a) ==> (#[trigger] send_payload(
                    keyvalues@,
                    self.setter_by_id.seq(),
                    a,
                )).len() == 0 {
                assert forall|j: int| 0 <= j < self.adapter_by_id.seq().len() implies (
                #[trigger] send_payload(
                    keyvalues@,
                    self.setter_by_id.seq(),
                    self.adapter_by_id.seq()[j].id@,
                )).len() == 0 by {
                    lemma_as_map_index(self.adapter_by_id.seq(), j);
                }
            }
        }
        results
    }
}

} // verus!
