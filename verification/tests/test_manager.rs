use std::cell::RefCell;
use std::collections::HashMap;
use std::rc::Rc;

use foxbox_adapters::adapter::{Adapter, AdapterWatchGuard, WatchEvent as AdapterWatchEvent, WatchSink};
use foxbox_adapters::api::{Error, InternalError, ResultMap, TypeError, WatchEvent};
use foxbox_adapters::backend::AdapterManagerState;
use foxbox_adapters::selector::{GetterSelector, ServiceSelector, SetterSelector};
use foxbox_adapters::services::{Channel, Service};
use foxbox_adapters::values::{ChannelKind, Exactly, OnOff, OpenClosed, Range, Value};
use foxbox_adapters::watch::deliver;

/// Where a test client receives the events of its watch.
#[derive(Clone)]
struct TestSink {
    events: Rc<RefCell<Vec<WatchEvent>>>,
}

impl TestSink {
    fn new() -> Self {
        TestSink { events: Rc::new(RefCell::new(Vec::new())) }
    }
}

impl WatchSink for TestSink {
    fn send(&self, event: WatchEvent) {
        self.events.borrow_mut().push(event);
    }
}

/// A downstream subscription that records its release.
struct TestGuard {
    id: String,
    released: Rc<RefCell<Vec<String>>>,
}

impl AdapterWatchGuard for TestGuard {}

impl Drop for TestGuard {
    fn drop(&mut self) {
        self.released.borrow_mut().push(self.id.clone());
    }
}

/// What a test can inject into an adapter and observe of it.
#[derive(Clone)]
struct Controls {
    values: Rc<RefCell<HashMap<String, Result<Value, Error>>>>,
    senders: Rc<RefCell<HashMap<String, Error>>>,
    effects: Rc<RefCell<Vec<(String, Value)>>>,
    fetches: Rc<RefCell<Vec<Vec<String>>>>,
    sends: Rc<RefCell<Vec<Vec<(String, Value)>>>>,
    watches: Rc<RefCell<Vec<Vec<(String, Option<Range>)>>>>,
    subscriptions: Rc<RefCell<Vec<(String, Option<Range>, TestSink)>>>,
    refused: Rc<RefCell<Vec<String>>>,
    released: Rc<RefCell<Vec<String>>>,
}

impl Controls {
    fn new() -> Self {
        Controls {
            values: Rc::new(RefCell::new(HashMap::new())),
            senders: Rc::new(RefCell::new(HashMap::new())),
            effects: Rc::new(RefCell::new(Vec::new())),
            fetches: Rc::new(RefCell::new(Vec::new())),
            sends: Rc::new(RefCell::new(Vec::new())),
            watches: Rc::new(RefCell::new(Vec::new())),
            subscriptions: Rc::new(RefCell::new(Vec::new())),
            refused: Rc::new(RefCell::new(Vec::new())),
            released: Rc::new(RefCell::new(Vec::new())),
        }
    }

    fn inject_getter_value(&self, id: &str, value: Result<Option<Value>, Error>) {
        match value {
            Ok(Some(v)) => {
                self.values.borrow_mut().insert(id.to_string(), Ok(v));
            }
            Err(e) => {
                self.values.borrow_mut().insert(id.to_string(), Err(e));
            }
            Ok(None) => {
                self.values.borrow_mut().remove(id);
            }
        }
    }

    fn inject_setter_error(&self, id: &str, error: Option<Error>) {
        match error {
            None => {
                self.senders.borrow_mut().remove(id);
            }
            Some(e) => {
                self.senders.borrow_mut().insert(id.to_string(), e);
            }
        }
    }

    fn try_recv(&self) -> Option<(String, Value)> {
        let mut effects = self.effects.borrow_mut();
        if effects.is_empty() {
            None
        } else {
            Some(effects.remove(0))
        }
    }
}

struct TestAdapter {
    id: String,
    controls: Controls,
}

impl TestAdapter {
    fn new(id: &str) -> Self {
        TestAdapter { id: id.to_string(), controls: Controls::new() }
    }

    fn controls(&self) -> Controls {
        self.controls.clone()
    }
}

impl Adapter for TestAdapter {
    type Guard = TestGuard;
    type Sink = TestSink;

    fn id(&self) -> String {
        self.id.clone()
    }

    fn name(&self) -> String {
        self.id.clone()
    }

    fn vendor(&self) -> String {
        "test@foxbox_adapters".to_string()
    }

    fn version(&self) -> [u32; 4] {
        [0, 0, 0, 0]
    }

    fn fetch_values(&self, set: Vec<String>) -> ResultMap<String, Option<Value>, Error> {
        self.controls.fetches.borrow_mut().push(set.clone());
        let map = self.controls.values.borrow();
        set.into_iter()
            .map(|id| {
                let result = match map.get(&id) {
                    None => Ok(None),
                    Some(Ok(value)) => Ok(Some(*value)),
                    Some(Err(error)) => Err(error.clone()),
                };
                (id, result)
            })
            .collect()
    }

    fn send_values(&self, values: Vec<(String, Value)>) -> ResultMap<String, (), Error> {
        self.controls.sends.borrow_mut().push(values.clone());
        let map = self.controls.senders.borrow();
        values
            .into_iter()
            .map(|(id, value)| {
                let result = match map.get(&id) {
                    None => {
                        self.controls.effects.borrow_mut().push((id.clone(), value));
                        Ok(())
                    }
                    Some(error) => Err(error.clone()),
                };
                (id, result)
            })
            .collect()
    }

    fn register_watch(
        &self,
        sources: Vec<(String, Option<Range>)>,
        sink: &TestSink,
    ) -> ResultMap<String, TestGuard, Error> {
        self.controls.watches.borrow_mut().push(sources.clone());
        sources
            .into_iter()
            .map(|(id, range)| {
                if self.controls.refused.borrow().contains(&id) {
                    let error = Error::AdapterError(format!("cannot watch {}", id));
                    (id, Err(error))
                } else {
                    self.controls.subscriptions.borrow_mut().push((id.clone(), range, sink.clone()));
                    let guard = TestGuard { id: id.clone(), released: self.controls.released.clone() };
                    (id, Ok(guard))
                }
            })
            .collect()
    }
}

type State = AdapterManagerState<TestAdapter>;

fn id(name: &str) -> String {
    name.to_string()
}

fn channel(name: &str, service: &str, adapter: &str, kind: ChannelKind) -> Channel {
    Channel { id: id(name), service: id(service), adapter: id(adapter), kind, tags: Vec::new() }
}

fn service(name: &str, adapter: &str) -> Service {
    Service {
        id: id(name),
        adapter: id(adapter),
        tags: Vec::new(),
        getters: Vec::new(),
        setters: Vec::new(),
    }
}

/// The result for `id`, read as in a map: the last entry wins.
fn lookup<'a, T>(data: &'a [(String, Result<T, Error>)], id: &str) -> Option<&'a Result<T, Error>> {
    data.iter().rev().find(|entry| entry.0 == id).map(|entry| &entry.1)
}

fn type_error(got: ChannelKind, expected: ChannelKind) -> Error {
    Error::TypeError(TypeError { got, expected })
}

/// Checks on the tables themselves that they refer to one another as they
/// should.
fn assert_consistent(state: &State) {
    for s in &state.service_by_id.entries {
        let owner = state.adapter_by_id.entries.iter().find(|a| a.id == s.adapter);
        let owner = owner.expect("the adapter of a service is registered");
        assert!(owner.services.contains(&s.id));
    }
    for a in &state.adapter_by_id.entries {
        for sid in &a.services {
            let s = state.service_by_id.entries.iter().find(|s| s.id == *sid);
            assert_eq!(s.expect("a listed service is registered").adapter, a.id);
        }
    }
    for g in &state.getter_by_id.entries {
        let parent = state.service_by_id.entries.iter().find(|s| s.id == g.getter.service);
        let parent = parent.expect("the service of a getter is registered");
        assert_eq!(parent.adapter, g.getter.adapter);
        assert!(parent.getters.contains(&g.getter.id));
        for key in &g.watchers {
            let w = state.watchers.watchers.entries.iter().find(|w| w.key == *key);
            assert!(w.expect("a named watcher is registered").getters.contains(&g.getter.id));
        }
    }
    for c in &state.setter_by_id.entries {
        let parent = state.service_by_id.entries.iter().find(|s| s.id == c.setter.service);
        let parent = parent.expect("the service of a setter is registered");
        assert_eq!(parent.adapter, c.setter.adapter);
        assert!(parent.setters.contains(&c.setter.id));
    }
    for s in &state.service_by_id.entries {
        for gid in &s.getters {
            let g = state.getter_by_id.entries.iter().find(|g| g.getter.id == *gid);
            assert_eq!(g.expect("a listed getter is registered").getter.service, s.id);
        }
        for cid in &s.setters {
            let c = state.setter_by_id.entries.iter().find(|c| c.setter.id == *cid);
            assert_eq!(c.expect("a listed setter is registered").setter.service, s.id);
        }
    }
    for w in &state.watchers.watchers.entries {
        assert!(w.key < state.watchers.counter);
        for gid in &w.getters {
            let g = state.getter_by_id.entries.iter().find(|g| g.getter.id == *gid);
            assert!(g.expect("a covered getter is registered").watchers.contains(&w.key));
        }
        for (gid, _) in &w.guards {
            assert!(w.getters.contains(gid));
        }
    }
}

/// What can be compared of the registry: every table but for the adapters
/// themselves and the subscriptions.
fn snapshot(state: &State) -> String {
    let adapters: Vec<(String, Vec<String>)> =
        state.adapter_by_id.entries.iter().map(|a| (a.id.clone(), a.services.clone())).collect();
    let getters: Vec<(Channel, Vec<usize>)> =
        state.getter_by_id.entries.iter().map(|g| (g.getter.clone(), g.watchers.clone())).collect();
    let setters: Vec<Channel> = state.setter_by_id.entries.iter().map(|c| c.setter.clone()).collect();
    let watchers: Vec<(usize, Vec<String>, Vec<String>)> = state
        .watchers
        .watchers
        .entries
        .iter()
        .map(|w| (w.key, w.getters.clone(), w.guards.iter().map(|g| g.0.clone()).collect()))
        .collect();
    format!(
        "{:?} {:?} {:?} {:?} {:?} {}",
        adapters, state.service_by_id.entries, getters, setters, watchers, state.watchers.counter
    )
}

#[test]
fn test_add_remove_adapter() {
    let mut manager = State::new();
    let id_1 = id("id 1");
    let id_2 = id("id 2");

    println!("* Adding two distinct test adapters should work.");
    manager.add_adapter(TestAdapter::new(&id_1)).unwrap();
    manager.add_adapter(TestAdapter::new(&id_2)).unwrap();

    println!("* Attempting to add yet another test adapter with id_1 or id_2 should fail.");
    match manager.add_adapter(TestAdapter::new(&id_1)) {
        Err(Error::InternalError(InternalError::DuplicateAdapter(ref id))) if *id == id_1 => {}
        other => panic!("Unexpected result {:?}", other),
    }
    match manager.add_adapter(TestAdapter::new(&id_2)) {
        Err(Error::InternalError(InternalError::DuplicateAdapter(ref id))) if *id == id_2 => {}
        other => panic!("Unexpected result {:?}", other),
    }

    println!("* Removing id_1 should succeed, and then only id_1 can be added again.");
    manager.remove_adapter(&id_1).unwrap();
    match manager.add_adapter(TestAdapter::new(&id_2)) {
        Err(Error::InternalError(InternalError::DuplicateAdapter(ref id))) if *id == id_2 => {}
        other => panic!("Unexpected result {:?}", other),
    }
    manager.add_adapter(TestAdapter::new(&id_1)).unwrap();

    println!("* Removing id_1 twice should fail the second time.");
    manager.remove_adapter(&id_1).unwrap();
    match manager.remove_adapter(&id_1) {
        Err(Error::InternalError(InternalError::NoSuchAdapter(ref id))) if *id == id_1 => {}
        other => panic!("Unexpected result {:?}", other),
    }
    assert_consistent(&manager);
}

#[test]
fn test_add_remove_services() {
    let mut manager = State::new();
    let id_1 = id("adapter id 1");
    let id_2 = id("adapter id 2");
    let id_3 = id("adapter id 3");

    let getter_id_1 = id("getter id 1");
    let getter_id_2 = id("getter id 2");
    let getter_id_3 = id("getter id 3");

    let setter_id_1 = id("setter id 1");
    let setter_id_2 = id("setter id 2");
    let setter_id_3 = id("setter id 3");

    let service_id_1 = id("service id 1");
    let service_id_2 = id("service id 2");
    let service_id_3 = id("service id 3");

    let getter_1 = channel(&getter_id_1, &service_id_1, &id_1, ChannelKind::OnOff);
    let setter_1 = channel(&setter_id_1, &service_id_1, &id_1, ChannelKind::OnOff);
    let getter_1_with_bad_service = channel(&getter_id_1, &service_id_3, &id_1, ChannelKind::OnOff);
    let setter_1_with_bad_service = channel(&setter_id_1, &service_id_3, &id_1, ChannelKind::OnOff);
    let getter_2_with_bad_adapter = Channel { adapter: id_3.clone(), ..getter_1.clone() };
    let setter_2_with_bad_adapter = Channel { adapter: id_3.clone(), ..setter_1.clone() };
    let service_1 = service(&service_id_1, &id_1);
    let getter_2 = channel(&getter_id_2, &service_id_2, &id_2, ChannelKind::OnOff);
    let setter_2 = channel(&setter_id_2, &service_id_2, &id_2, ChannelKind::OnOff);
    let service_2 = service(&service_id_2, &id_2);
    let service_2_with_channels = Service {
        getters: vec![getter_id_2.clone()],
        setters: vec![setter_id_2.clone()],
        ..service_2.clone()
    };

    let all_getters = || vec![GetterSelector::new()];
    let all_setters = || vec![SetterSelector::new()];
    let all_services = || vec![ServiceSelector::new()];
    let getter_with_id = |id: &String| vec![GetterSelector::new().with_id(id.clone())];
    let setter_with_id = |id: &String| vec![SetterSelector::new().with_id(id.clone())];
    let service_with_id = |id: &String| vec![ServiceSelector::new().with_id(id.clone())];
    let getter_with_parent = |id: &String| vec![GetterSelector::new().with_parent(id.clone())];
    let setter_with_parent = |id: &String| vec![SetterSelector::new().with_parent(id.clone())];
    let getter_on_off = || vec![GetterSelector::new().with_kind(ChannelKind::OnOff)];
    let setter_on_off = || vec![SetterSelector::new().with_kind(ChannelKind::OnOff)];

    println!("* Adding a service should fail if there is no adapter.");
    match manager.add_service(service_1.clone()) {
        Err(Error::InternalError(InternalError::NoSuchAdapter(ref err))) if *err == id_1 => {}
        other => panic!("Unexpected result {:?}", other),
    }

    println!("* Adding a service should fail if the adapter doesn't exist.");
    manager.add_adapter(TestAdapter::new(&id_2)).unwrap();
    match manager.add_service(service_1.clone()) {
        Err(Error::InternalError(InternalError::NoSuchAdapter(ref err))) if *err == id_1 => {}
        other => panic!("Unexpected result {:?}", other),
    }

    println!("* Adding a service should fail if the service is not empty.");
    match manager.add_service(service_2_with_channels.clone()) {
        Err(Error::InternalError(InternalError::InvalidInitialService)) => {}
        other => panic!("Unexpected result {:?}", other),
    }

    println!("* We shouldn't have any channels.");
    assert_eq!(manager.get_getter_channels(&all_getters()).len(), 0);
    assert_eq!(manager.get_setter_channels(&all_setters()).len(), 0);

    println!("* Make sure that none of the services has been added.");
    assert_eq!(manager.get_services(&all_services()).len(), 0);

    println!("* Adding a service can succeed.");
    manager.add_adapter(TestAdapter::new(&id_1)).unwrap();
    manager.add_service(service_1.clone()).unwrap();
    assert_eq!(manager.get_services(&all_services()).len(), 1);

    println!("* Make sure that we are finding the right service.");
    assert_eq!(manager.get_services(&service_with_id(&service_id_1)).len(), 1);
    assert_eq!(manager.get_services(&service_with_id(&service_id_2)).len(), 0);

    println!("* Adding a second service with the same id should fail.");
    match manager.add_service(service_1.clone()) {
        Err(Error::InternalError(InternalError::DuplicateService(ref err))) if *err == service_id_1 => {}
        other => panic!("Unexpected result {:?}", other),
    }

    println!("* Adding channels should fail if the service doesn't exist.");
    match manager.add_getter(getter_1_with_bad_service.clone()) {
        Err(Error::InternalError(InternalError::NoSuchService(ref err))) if *err == service_id_3 => {}
        other => panic!("Unexpected result {:?}", other),
    }
    match manager.add_setter(setter_1_with_bad_service.clone()) {
        Err(Error::InternalError(InternalError::NoSuchService(ref err))) if *err == service_id_3 => {}
        other => panic!("Unexpected result {:?}", other),
    }

    println!("* The attempt shouldn't let any channel lying around.");
    assert_eq!(manager.get_getter_channels(&all_getters()).len(), 0);
    assert_eq!(manager.get_setter_channels(&all_setters()).len(), 0);

    println!("* Adding channels should fail if the adapter doesn't match that of its service.");
    match manager.add_getter(getter_2_with_bad_adapter) {
        Err(Error::InternalError(InternalError::ConflictingAdapter(ref err_1, ref err_2)))
            if *err_1 == id_3 && *err_2 == id_1 => {}
        Err(Error::InternalError(InternalError::ConflictingAdapter(ref err_1, ref err_2)))
            if *err_1 == id_1 && *err_2 == id_3 => {}
        other => panic!("Unexpected result {:?}", other),
    }
    match manager.add_setter(setter_2_with_bad_adapter) {
        Err(Error::InternalError(InternalError::ConflictingAdapter(ref err_1, ref err_2)))
            if *err_1 == id_3 && *err_2 == id_1 => {}
        Err(Error::InternalError(InternalError::ConflictingAdapter(ref err_1, ref err_2)))
            if *err_1 == id_1 && *err_2 == id_3 => {}
        other => panic!("Unexpected result {:?}", other),
    }

    println!("* The attempt shouldn't let any channel lying around.");
    assert_eq!(manager.get_getter_channels(&all_getters()).len(), 0);
    assert_eq!(manager.get_setter_channels(&all_setters()).len(), 0);

    println!("* Adding getter channels can succeed.");
    manager.add_getter(getter_1.clone()).unwrap();
    assert_eq!(manager.get_getter_channels(&all_getters()).len(), 1);
    assert_eq!(manager.get_setter_channels(&all_setters()).len(), 0);
    assert_eq!(manager.get_getter_channels(&getter_with_id(&getter_id_1)).len(), 1);
    assert_eq!(manager.get_setter_channels(&setter_with_id(&setter_id_1)).len(), 0);
    assert_eq!(manager.get_getter_channels(&getter_with_parent(&service_id_1)).len(), 1);
    assert_eq!(manager.get_setter_channels(&setter_with_parent(&service_id_1)).len(), 0);
    assert_eq!(manager.get_getter_channels(&getter_on_off()).len(), 1);
    assert_eq!(manager.get_setter_channels(&setter_on_off()).len(), 0);

    println!("* Adding setter channels can succeed.");
    manager.add_setter(setter_1.clone()).unwrap();
    assert_eq!(manager.get_getter_channels(&all_getters()).len(), 1);
    assert_eq!(manager.get_setter_channels(&all_setters()).len(), 1);
    assert_eq!(manager.get_getter_channels(&getter_with_id(&getter_id_1)).len(), 1);
    assert_eq!(manager.get_setter_channels(&setter_with_id(&setter_id_1)).len(), 1);
    assert_eq!(manager.get_getter_channels(&getter_with_parent(&service_id_1)).len(), 1);
    assert_eq!(manager.get_setter_channels(&setter_with_parent(&service_id_1)).len(), 1);
    assert_eq!(manager.get_getter_channels(&getter_on_off()).len(), 1);
    assert_eq!(manager.get_setter_channels(&setter_on_off()).len(), 1);

    println!("* Removing getter channels can succeed.");
    manager.remove_getter(&getter_id_1).unwrap();
    assert_eq!(manager.get_getter_channels(&all_getters()).len(), 0);
    assert_eq!(manager.get_setter_channels(&all_setters()).len(), 1);
    assert_eq!(manager.get_getter_channels(&getter_with_id(&getter_id_1)).len(), 0);
    assert_eq!(manager.get_setter_channels(&setter_with_id(&setter_id_1)).len(), 1);
    assert_eq!(manager.get_getter_channels(&getter_with_parent(&service_id_1)).len(), 0);
    assert_eq!(manager.get_setter_channels(&setter_with_parent(&service_id_1)).len(), 1);
    assert_eq!(manager.get_getter_channels(&getter_on_off()).len(), 0);
    assert_eq!(manager.get_setter_channels(&setter_on_off()).len(), 1);

    println!("* Removing setter channels can succeed.");
    manager.remove_setter(&setter_id_1).unwrap();
    assert_eq!(manager.get_getter_channels(&all_getters()).len(), 0);
    assert_eq!(manager.get_setter_channels(&all_setters()).len(), 0);
    assert_eq!(manager.get_getter_channels(&getter_with_id(&getter_id_1)).len(), 0);
    assert_eq!(manager.get_setter_channels(&setter_with_id(&setter_id_1)).len(), 0);
    assert_eq!(manager.get_getter_channels(&getter_with_parent(&service_id_1)).len(), 0);
    assert_eq!(manager.get_setter_channels(&setter_with_parent(&service_id_1)).len(), 0);
    assert_eq!(manager.get_getter_channels(&getter_on_off()).len(), 0);
    assert_eq!(manager.get_setter_channels(&setter_on_off()).len(), 0);

    println!("* We can remove a service without channels.");
    manager.remove_service(&service_id_1).unwrap();

    println!("* We can add several services, then several channels.");
    manager.add_service(service_1.clone()).unwrap();
    manager.add_service(service_2.clone()).unwrap();
    manager.add_getter(getter_1.clone()).unwrap();
    manager.add_setter(setter_1.clone()).unwrap();
    manager.add_getter(getter_2.clone()).unwrap();
    manager.add_setter(setter_2.clone()).unwrap();
    assert_eq!(manager.get_services(&all_services()).len(), 2);
    assert_eq!(manager.get_services(&service_with_id(&service_id_1)).len(), 1);
    assert_eq!(manager.get_services(&service_with_id(&service_id_2)).len(), 1);
    assert_eq!(manager.get_services(&service_with_id(&service_id_3)).len(), 0);
    assert_eq!(manager.get_getter_channels(&all_getters()).len(), 2);
    assert_eq!(manager.get_setter_channels(&all_setters()).len(), 2);
    assert_eq!(manager.get_getter_channels(&getter_with_id(&getter_id_1)).len(), 1);
    assert_eq!(manager.get_setter_channels(&setter_with_id(&setter_id_1)).len(), 1);
    assert_eq!(manager.get_getter_channels(&getter_with_id(&getter_id_2)).len(), 1);
    assert_eq!(manager.get_setter_channels(&setter_with_id(&setter_id_2)).len(), 1);
    assert_eq!(manager.get_getter_channels(&getter_with_id(&getter_id_3)).len(), 0);
    assert_eq!(manager.get_setter_channels(&setter_with_id(&setter_id_3)).len(), 0);
    assert_eq!(manager.get_getter_channels(&getter_with_parent(&service_id_1)).len(), 1);
    assert_eq!(manager.get_setter_channels(&setter_with_parent(&service_id_1)).len(), 1);
    assert_eq!(manager.get_getter_channels(&getter_with_parent(&service_id_2)).len(), 1);
    assert_eq!(manager.get_setter_channels(&setter_with_parent(&service_id_2)).len(), 1);
    assert_eq!(manager.get_getter_channels(&getter_with_parent(&service_id_3)).len(), 0);
    assert_eq!(manager.get_setter_channels(&setter_with_parent(&service_id_3)).len(), 0);
    assert_eq!(manager.get_getter_channels(&getter_on_off()).len(), 2);
    assert_eq!(manager.get_setter_channels(&setter_on_off()).len(), 2);
    assert_consistent(&manager);

    println!("* We can remove a service with channels.");
    manager.remove_service(&service_id_1).unwrap();
    assert_eq!(manager.get_services(&all_services()).len(), 1);
    assert_eq!(manager.get_services(&service_with_id(&service_id_1)).len(), 0);
    assert_eq!(manager.get_services(&service_with_id(&service_id_2)).len(), 1);
    assert_eq!(manager.get_services(&service_with_id(&service_id_3)).len(), 0);

    println!("* Removing a service with channels also removes its channels.");
    assert_eq!(manager.get_getter_channels(&all_getters()).len(), 1);
    assert_eq!(manager.get_setter_channels(&all_setters()).len(), 1);
    assert_eq!(manager.get_getter_channels(&getter_with_id(&getter_id_1)).len(), 0);
    assert_eq!(manager.get_setter_channels(&setter_with_id(&setter_id_1)).len(), 0);
    assert_eq!(manager.get_getter_channels(&getter_with_parent(&service_id_1)).len(), 0);
    assert_eq!(manager.get_setter_channels(&setter_with_parent(&service_id_1)).len(), 0);
    assert_eq!(manager.get_getter_channels(&getter_on_off()).len(), 1);
    assert_eq!(manager.get_setter_channels(&setter_on_off()).len(), 1);

    println!("* Removing a service with channels doesn't remove other channels.");
    assert_eq!(manager.get_getter_channels(&getter_with_id(&getter_id_2)).len(), 1);
    assert_eq!(manager.get_setter_channels(&setter_with_id(&setter_id_2)).len(), 1);
    assert_eq!(manager.get_getter_channels(&getter_with_parent(&service_id_2)).len(), 1);
    assert_eq!(manager.get_setter_channels(&setter_with_parent(&service_id_2)).len(), 1);
    assert_eq!(manager.get_getter_channels(&getter_with_parent(&service_id_3)).len(), 0);
    assert_eq!(manager.get_setter_channels(&setter_with_parent(&service_id_3)).len(), 0);
    assert_consistent(&manager);
}

#[test]
fn test_add_remove_tags() {
    let mut manager = State::new();
    let id_1 = id("adapter id 1");
    let id_2 = id("adapter id 2");

    let getter_id_1 = id("getter id 1");
    let getter_id_2 = id("getter id 2");

    let setter_id_1 = id("setter id 1");
    let setter_id_2 = id("setter id 2");

    let service_id_1 = id("service id 1");
    let service_id_2 = id("service id 2");

    let getter_1 = channel(&getter_id_1, &service_id_1, &id_1, ChannelKind::OnOff);
    let setter_1 = channel(&setter_id_1, &service_id_1, &id_1, ChannelKind::OnOff);
    let service_1 = service(&service_id_1, &id_1);
    let getter_2 = channel(&getter_id_2, &service_id_2, &id_2, ChannelKind::OnOff);
    let setter_2 = channel(&setter_id_2, &service_id_2, &id_2, ChannelKind::OnOff);
    let service_2 = service(&service_id_2, &id_2);

    let tag_1 = id("tag_1");
    let tag_2 = id("tag_2");
    let tag_3 = id("tag_3");

    let services_tagged = |tag: &String| vec![ServiceSelector::new().with_tags(vec![tag.clone()])];
    let getters_tagged = |tag: &String| vec![GetterSelector::new().with_tags(vec![tag.clone()])];
    let setters_tagged = |tag: &String| vec![SetterSelector::new().with_tags(vec![tag.clone()])];
    let service_with_id = |id: &String| vec![ServiceSelector::new().with_id(id.clone())];
    let getter_with_id = |id: &String| vec![GetterSelector::new().with_id(id.clone())];
    let setter_with_id = |id: &String| vec![SetterSelector::new().with_id(id.clone())];
    let service_tagged_with_id = |tag: &String, id: &String| {
        vec![ServiceSelector::new().with_tags(vec![tag.clone()]).with_id(id.clone())]
    };
    let getter_tagged_with_id = |tag: &String, id: &String| {
        vec![GetterSelector::new().with_tags(vec![tag.clone()]).with_id(id.clone())]
    };
    let setter_tagged_with_id = |tag: &String, id: &String| {
        vec![SetterSelector::new().with_tags(vec![tag.clone()]).with_id(id.clone())]
    };

    println!("* Initially, there are no tags.");
    assert_eq!(manager.get_services(&services_tagged(&tag_1)).len(), 0);
    assert_eq!(manager.get_getter_channels(&getters_tagged(&tag_1)).len(), 0);
    assert_eq!(manager.get_setter_channels(&setters_tagged(&tag_1)).len(), 0);

    println!("* After adding an adapter, service, getter, setter, still no tags.");
    manager.add_adapter(TestAdapter::new(&id_1)).unwrap();
    manager.add_service(service_1.clone()).unwrap();
    manager.add_getter(getter_1.clone()).unwrap();
    manager.add_setter(setter_1.clone()).unwrap();
    assert_eq!(manager.get_services(&services_tagged(&tag_1)).len(), 0);
    assert_eq!(manager.get_getter_channels(&getters_tagged(&tag_1)).len(), 0);
    assert_eq!(manager.get_setter_channels(&setters_tagged(&tag_1)).len(), 0);

    println!("* Removing tags from non-existent services and channels doesn't hurt and returns 0.");
    let tags_2_3 = vec![tag_2.clone(), tag_3.clone()];
    assert_eq!(manager.remove_service_tags(&service_with_id(&service_id_2), &tags_2_3), 0);
    assert_eq!(manager.remove_getter_tags(&getter_with_id(&getter_id_2), &tags_2_3), 0);
    assert_eq!(manager.remove_setter_tags(&setter_with_id(&setter_id_2), &tags_2_3), 0);

    println!("* Adding tags to non-existent services and channels doesn't hurt and returns 0.");
    assert_eq!(manager.add_service_tags(&service_with_id(&service_id_2), &tags_2_3), 0);
    assert_eq!(manager.add_getter_tags(&getter_with_id(&getter_id_2), &tags_2_3), 0);
    assert_eq!(manager.add_setter_tags(&setter_with_id(&setter_id_2), &tags_2_3), 0);

    println!("* There are still no tags.");
    assert_eq!(manager.get_services(&services_tagged(&tag_2)).len(), 0);
    assert_eq!(manager.get_getter_channels(&getters_tagged(&tag_2)).len(), 0);
    assert_eq!(manager.get_setter_channels(&setters_tagged(&tag_2)).len(), 0);

    println!("* Removing non-added tags from existent services and channels doesn't hurt and returns 1.");
    manager.add_adapter(TestAdapter::new(&id_2)).unwrap();
    manager.add_service(service_2.clone()).unwrap();
    manager.add_getter(getter_2.clone()).unwrap();
    manager.add_setter(setter_2.clone()).unwrap();
    assert_eq!(manager.remove_service_tags(&service_with_id(&service_id_2), &tags_2_3), 1);
    assert_eq!(manager.remove_getter_tags(&getter_with_id(&getter_id_2), &tags_2_3), 1);
    assert_eq!(manager.remove_setter_tags(&setter_with_id(&setter_id_2), &tags_2_3), 1);

    println!("* We can add tags tags to services and channels, this returns 1.");
    assert_eq!(manager.add_service_tags(&service_with_id(&service_id_2), &tags_2_3), 1);
    assert_eq!(manager.add_getter_tags(&getter_with_id(&getter_id_2), &tags_2_3), 1);
    assert_eq!(manager.add_setter_tags(&setter_with_id(&setter_id_2), &tags_2_3), 1);

    println!("* We can select using these tags.");
    assert_eq!(manager.get_services(&services_tagged(&tag_1)).len(), 0);
    assert_eq!(manager.get_getter_channels(&getters_tagged(&tag_1)).len(), 0);
    assert_eq!(manager.get_setter_channels(&setters_tagged(&tag_1)).len(), 0);
    assert_eq!(manager.get_services(&services_tagged(&tag_2)).len(), 1);
    assert_eq!(manager.get_getter_channels(&getters_tagged(&tag_2)).len(), 1);
    assert_eq!(manager.get_setter_channels(&setters_tagged(&tag_2)).len(), 1);
    assert_eq!(manager.get_services(&services_tagged(&tag_3)).len(), 1);
    assert_eq!(manager.get_getter_channels(&getters_tagged(&tag_3)).len(), 1);
    assert_eq!(manager.get_setter_channels(&setters_tagged(&tag_3)).len(), 1);

    println!("* The tags are only applied to the right services/getters.");
    assert_eq!(manager.get_services(&service_tagged_with_id(&tag_2, &service_id_1)).len(), 0);
    assert_eq!(manager.get_getter_channels(&getter_tagged_with_id(&tag_2, &getter_id_1)).len(), 0);
    assert_eq!(manager.get_setter_channels(&setter_tagged_with_id(&tag_2, &setter_id_1)).len(), 0);

    println!("* The tags are applied to the right services/getters.");
    let selection = manager.get_services(&service_tagged_with_id(&tag_2, &service_id_2));
    assert_eq!(selection.len(), 1);
    assert_eq!(selection[0].id, service_id_2);
    assert_eq!(selection[0].tags.len(), 2);
    assert!(selection[0].tags.contains(&tag_2));
    assert!(selection[0].tags.contains(&tag_3));

    let selection = manager.get_getter_channels(&getter_tagged_with_id(&tag_2, &getter_id_2));
    assert_eq!(selection.len(), 1);
    assert_eq!(selection[0].id, getter_id_2);
    assert_eq!(selection[0].tags.len(), 2);
    assert!(selection[0].tags.contains(&tag_2));
    assert!(selection[0].tags.contains(&tag_3));

    let selection = manager.get_setter_channels(&setter_tagged_with_id(&tag_2, &setter_id_2));
    assert_eq!(selection.len(), 1);
    assert_eq!(selection[0].id, setter_id_2);
    assert_eq!(selection[0].tags.len(), 2);
    assert!(selection[0].tags.contains(&tag_2));
    assert!(selection[0].tags.contains(&tag_3));

    let selection = manager.get_services(&service_tagged_with_id(&tag_3, &service_id_2));
    assert_eq!(selection.len(), 1);
    assert_eq!(selection[0].id, service_id_2);
    assert_eq!(selection[0].tags.len(), 2);
    assert!(selection[0].tags.contains(&tag_2));
    assert!(selection[0].tags.contains(&tag_3));

    let selection = manager.get_getter_channels(&getter_tagged_with_id(&tag_3, &getter_id_2));
    assert_eq!(selection.len(), 1);
    assert_eq!(selection[0].id, getter_id_2);
    assert_eq!(selection[0].tags.len(), 2);
    assert!(selection[0].tags.contains(&tag_2));
    assert!(selection[0].tags.contains(&tag_3));

    let selection = manager.get_setter_channels(&setter_tagged_with_id(&tag_3, &setter_id_2));
    assert_eq!(selection.len(), 1);
    assert_eq!(selection[0].id, setter_id_2);
    assert_eq!(selection[0].tags.len(), 2);
    assert!(selection[0].tags.contains(&tag_2));
    assert!(selection[0].tags.contains(&tag_3));

    println!("* We can remove tags, both existent and non-existent.");
    let tags_1_3 = vec![tag_1.clone(), tag_3.clone()];
    assert_eq!(manager.remove_service_tags(&service_with_id(&service_id_2), &tags_1_3), 1);
    assert_eq!(manager.remove_getter_tags(&getter_with_id(&getter_id_2), &tags_1_3), 1);
    assert_eq!(manager.remove_setter_tags(&setter_with_id(&setter_id_2), &tags_1_3), 1);

    println!("* Looking by tags has been updated.");
    let selection = manager.get_services(&service_tagged_with_id(&tag_2, &service_id_2));
    assert_eq!(selection.len(), 1);
    assert_eq!(selection[0].id, service_id_2);
    assert_eq!(selection[0].tags.len(), 1);
    assert!(selection[0].tags.contains(&tag_2));

    let selection = manager.get_getter_channels(&getter_tagged_with_id(&tag_2, &getter_id_2));
    assert_eq!(selection.len(), 1);
    assert_eq!(selection[0].id, getter_id_2);
    assert_eq!(selection[0].tags.len(), 1);
    assert!(selection[0].tags.contains(&tag_2));

    let selection = manager.get_setter_channels(&setter_tagged_with_id(&tag_2, &setter_id_2));
    assert_eq!(selection.len(), 1);
    assert_eq!(selection[0].id, setter_id_2);
    assert_eq!(selection[0].tags.len(), 1);
    assert!(selection[0].tags.contains(&tag_2));

    let selection = manager.get_services(&service_tagged_with_id(&tag_3, &service_id_2));
    assert_eq!(selection.len(), 0);
    let selection = manager.get_getter_channels(&getter_tagged_with_id(&tag_3, &getter_id_2));
    assert_eq!(selection.len(), 0);
    let selection = manager.get_setter_channels(&setter_tagged_with_id(&tag_3, &setter_id_2));
    assert_eq!(selection.len(), 0);
    assert_consistent(&manager);
}

#[test]
fn test_fetch() {
    let mut manager = State::new();
    let id_1 = id("adapter id 1");
    let id_2 = id("adapter id 2");

    let getter_id_1_1 = id("getter id 1.1");
    let getter_id_1_2 = id("getter id 1.2");
    let getter_id_1_3 = id("getter id 1.3");
    let getter_id_2 = id("getter id 2");

    let service_id_1 = id("service id 1");
    let service_id_2 = id("service id 2");

    let getter_1_1 = channel(&getter_id_1_1, &service_id_1, &id_1, ChannelKind::OnOff);
    let getter_1_2 = channel(&getter_id_1_2, &service_id_1, &id_1, ChannelKind::OnOff);
    let getter_1_3 = channel(&getter_id_1_3, &service_id_1, &id_1, ChannelKind::OnOff);
    let getter_2 = channel(&getter_id_2, &service_id_2, &id_2, ChannelKind::OnOff);
    let service_1 = service(&service_id_1, &id_1);
    let service_2 = service(&service_id_2, &id_2);

    let adapter_1 = TestAdapter::new(&id_1);
    let adapter_2 = TestAdapter::new(&id_2);
    let tx_adapter_1 = adapter_1.controls();
    let all = vec![GetterSelector::new()];

    println!("* Without adapters, fetching values from a selector that has no channels returns an empty vector.");
    assert_eq!(manager.fetch_values(&all).len(), 0);

    println!("* With adapters, fetching values from a selector that has no channels returns an empty vector.");
    manager.add_adapter(adapter_1).unwrap();
    manager.add_adapter(adapter_2).unwrap();
    manager.add_service(service_1.clone()).unwrap();
    manager.add_service(service_2.clone()).unwrap();
    assert_eq!(manager.fetch_values(&all).len(), 0);

    println!("* Fetching empty values from a selector that has channels returns a vector of empty values.");
    manager.add_getter(getter_1_1.clone()).unwrap();
    manager.add_getter(getter_1_2.clone()).unwrap();
    manager.add_getter(getter_1_3.clone()).unwrap();
    manager.add_getter(getter_2.clone()).unwrap();
    let data = manager.fetch_values(&all);
    assert_eq!(data.len(), 4);

    for (_, result) in &data {
        if let Ok(None) = *result {
            // We're good.
        } else {
            panic!("Unexpected result {:?}", result)
        }
    }

    println!("* Fetching values returns the right values.");
    tx_adapter_1.inject_getter_value(&getter_id_1_1, Ok(Some(Value::OnOff(OnOff::On))));
    tx_adapter_1.inject_getter_value(&getter_id_1_2, Ok(Some(Value::OnOff(OnOff::Off))));
    let data = manager.fetch_values(&all);
    assert_eq!(data.len(), 4);
    match lookup(&data, &getter_id_1_1) {
        Some(&Ok(Some(Value::OnOff(OnOff::On)))) => {}
        other => panic!("Unexpected result, {:?}", other),
    }
    match lookup(&data, &getter_id_1_2) {
        Some(&Ok(Some(Value::OnOff(OnOff::Off)))) => {}
        other => panic!("Unexpected result, {:?}", other),
    }
    match lookup(&data, &getter_id_1_3) {
        Some(&Ok(None)) => {}
        other => panic!("Unexpected result, {:?}", other),
    }
    match lookup(&data, &getter_id_2) {
        Some(&Ok(None)) => {}
        other => panic!("Unexpected result, {:?}", other),
    }

    println!("* Fetching values returns the right errors.");
    tx_adapter_1.inject_getter_value(
        &getter_id_1_1,
        Err(Error::InternalError(InternalError::NoSuchGetter(getter_id_1_1.clone()))),
    );
    let data = manager.fetch_values(&all);
    assert_eq!(data.len(), 4);
    match lookup(&data, &getter_id_1_1) {
        Some(&Err(Error::InternalError(InternalError::NoSuchGetter(ref id)))) if *id == getter_id_1_1 => {}
        other => panic!("Unexpected result, {:?}", other),
    }
    match lookup(&data, &getter_id_1_2) {
        Some(&Ok(Some(Value::OnOff(OnOff::Off)))) => {}
        other => panic!("Unexpected result, {:?}", other),
    }
    match lookup(&data, &getter_id_1_3) {
        Some(&Ok(None)) => {}
        other => panic!("Unexpected result, {:?}", other),
    }
    match lookup(&data, &getter_id_2) {
        Some(&Ok(None)) => {}
        other => panic!("Unexpected result, {:?}", other),
    }

    println!("* Fetching a value that causes an internal type error returns that error.");
    tx_adapter_1.inject_getter_value(&getter_id_1_1, Ok(Some(Value::OpenClosed(OpenClosed::Open))));
    let data = manager.fetch_values(&all);
    assert_eq!(data.len(), 4);
    match lookup(&data, &getter_id_1_1) {
        Some(&Err(Error::TypeError(TypeError {
            got: ChannelKind::OpenClosed,
            expected: ChannelKind::OnOff,
        }))) => {}
        other => panic!("Unexpected result, {:?}", other),
    }
    match lookup(&data, &getter_id_1_2) {
        Some(&Ok(Some(Value::OnOff(OnOff::Off)))) => {}
        other => panic!("Unexpected result, {:?}", other),
    }
    match lookup(&data, &getter_id_1_3) {
        Some(&Ok(None)) => {}
        other => panic!("Unexpected result, {:?}", other),
    }
    match lookup(&data, &getter_id_2) {
        Some(&Ok(None)) => {}
        other => panic!("Unexpected result, {:?}", other),
    }
}

#[test]
fn test_send() {
    let mut manager = State::new();
    let id_1 = id("adapter id 1");
    let id_2 = id("adapter id 2");

    let setter_id_1_1 = id("setter id 1.1");
    let setter_id_1_2 = id("setter id 1.2");
    let setter_id_1_3 = id("setter id 1.3");
    let setter_id_2 = id("setter id 2");

    let service_id_1 = id("service id 1");
    let service_id_2 = id("service id 2");

    let setter_1_1 = channel(&setter_id_1_1, &service_id_1, &id_1, ChannelKind::OnOff);
    let setter_1_2 = channel(&setter_id_1_2, &service_id_1, &id_1, ChannelKind::OnOff);
    let setter_1_3 = channel(&setter_id_1_3, &service_id_1, &id_1, ChannelKind::OnOff);
    let setter_2 = channel(&setter_id_2, &service_id_2, &id_2, ChannelKind::OnOff);
    let service_1 = service(&service_id_1, &id_1);
    let service_2 = service(&service_id_2, &id_2);

    let adapter_1 = TestAdapter::new(&id_1);
    let adapter_2 = TestAdapter::new(&id_2);
    let tx_adapter_1 = adapter_1.controls();
    let rx_adapter_1 = adapter_1.controls();
    let rx_adapter_2 = adapter_2.controls();

    println!("* Without adapters, sending values to a selector that has no channels returns an empty vector.");
    let data = manager.send_values(vec![(vec![SetterSelector::new()], Value::OnOff(OnOff::On))]);
    assert_eq!(data.len(), 0);

    println!("* With adapters, sending values to a selector that has no channels returns an empty vector.");
    manager.add_adapter(adapter_1).unwrap();
    manager.add_adapter(adapter_2).unwrap();
    manager.add_service(service_1.clone()).unwrap();
    manager.add_service(service_2.clone()).unwrap();
    let data = manager.send_values(vec![(vec![SetterSelector::new()], Value::OnOff(OnOff::On))]);
    assert_eq!(data.len(), 0);

    println!("* Sending well-typed values to channels succeeds if the adapter succeeds.");
    manager.add_setter(setter_1_1.clone()).unwrap();
    manager.add_setter(setter_1_2.clone()).unwrap();
    manager.add_setter(setter_1_3.clone()).unwrap();
    manager.add_setter(setter_2.clone()).unwrap();

    let data = manager.send_values(vec![(vec![SetterSelector::new()], Value::OnOff(OnOff::On))]);
    assert_eq!(data.len(), 4);
    for (_, result) in &data {
        if let Ok(()) = *result {
            // We're good.
        } else {
            panic!("Unexpected result {:?}", result)
        }
    }

    println!("* All the values should have been received.");
    let mut received = HashMap::new();
    for _ in 0..3 {
        let (id, value) = rx_adapter_1.try_recv().unwrap();
        received.insert(id, value);
    }
    assert_eq!(received.len(), 3);

    let value = rx_adapter_2.try_recv().unwrap();
    if let (id, Value::OnOff(OnOff::On)) = value {
        assert_eq!(id, setter_id_2);
    } else {
        panic!("Unexpected value {:?}", value)
    }

    println!("* No further value should have been received.");
    assert!(rx_adapter_1.try_recv().is_none());
    assert!(rx_adapter_2.try_recv().is_none());

    println!("* Sending ill-typed values to channels will cause type errors.");
    let data = manager.send_values(vec![
        (
            vec![
                SetterSelector::new().with_id(setter_id_1_1.clone()),
                SetterSelector::new().with_id(setter_id_1_2.clone()),
                SetterSelector::new().with_id(setter_id_2.clone()),
            ],
            Value::OpenClosed(OpenClosed::Closed),
        ),
        (vec![SetterSelector::new().with_id(setter_id_1_3.clone())], Value::OnOff(OnOff::On)),
    ]);
    assert_eq!(data.len(), 4);
    for id in vec![&setter_id_1_1, &setter_id_1_2, &setter_id_2] {
        match lookup(&data, id) {
            Some(&Err(Error::TypeError(TypeError {
                got: ChannelKind::OpenClosed,
                expected: ChannelKind::OnOff,
            }))) => {}
            other => panic!("Unexpected result for {:?}: {:?}", id, other),
        }
    }
    match lookup(&data, &setter_id_1_3) {
        Some(&Ok(())) => {}
        other => panic!("Unexpected result for {:?}: {:?}", setter_id_1_3, other),
    }

    println!("* All the weill-typed values should have been received.");
    match rx_adapter_1.try_recv().unwrap() {
        (ref id, Value::OnOff(OnOff::On)) if *id == setter_id_1_3 => {}
        effect => panic!("Unexpected effect {:?}", effect),
    }

    println!("* No further value should have been received.");
    assert!(rx_adapter_1.try_recv().is_none());
    assert!(rx_adapter_2.try_recv().is_none());

    println!("* Sending values that cause channel errors will cause propagate the errors.");
    tx_adapter_1.inject_setter_error(
        &setter_id_1_1,
        Some(Error::InternalError(InternalError::InvalidInitialService)),
    );
    let data = manager.send_values(vec![(vec![SetterSelector::new()], Value::OnOff(OnOff::On))]);
    assert_eq!(data.len(), 4);
    for id in vec![&setter_id_2, &setter_id_1_2, &setter_id_2] {
        match lookup(&data, id) {
            Some(&Ok(())) => {}
            other => panic!("Unexpected result for {:?}: {:?}", id, other),
        }
    }

    for id in vec![&setter_id_1_1] {
        match lookup(&data, id) {
            Some(&Err(Error::InternalError(InternalError::InvalidInitialService))) => {}
            other => panic!("Unexpected result for {:?}: {:?}", id, other),
        }
    }

    println!("* All the non-errored values should have been received.");
    for _ in 0..2 {
        match rx_adapter_1.try_recv().unwrap() {
            (ref id, Value::OnOff(OnOff::On)) if *id != setter_id_1_1 => {}
            effect => panic!("Unexpected effect {:?}", effect),
        }
    }
    match rx_adapter_2.try_recv().unwrap() {
        (ref id, Value::OnOff(OnOff::On)) if *id == setter_id_2 => {}
        effect => panic!("Unexpected effect {:?}", effect),
    }

    println!("* No further value should have been received.");
    assert!(rx_adapter_1.try_recv().is_none());
    assert!(rx_adapter_2.try_recv().is_none());
    tx_adapter_1.inject_setter_error(&setter_id_1_1, None);
}

/// A registry with two adapters, each with one service.
fn two_adapters() -> (State, Controls, Controls) {
    let mut manager = State::new();
    let a1 = TestAdapter::new("a1");
    let a2 = TestAdapter::new("a2");
    let (c1, c2) = (a1.controls(), a2.controls());
    manager.add_adapter(a1).unwrap();
    manager.add_adapter(a2).unwrap();
    manager.add_service(service("s1", "a1")).unwrap();
    manager.add_service(service("s2", "a2")).unwrap();
    (manager, c1, c2)
}

fn tagged(mut c: Channel, tag: &str) -> Channel {
    c.tags.push(id(tag));
    c
}

fn with_tag(tag: &str) -> Vec<GetterSelector> {
    vec![GetterSelector::new().with_tags(vec![id(tag)])]
}

#[test]
fn duplicate_adapter_is_refused() {
    let mut manager = State::new();
    assert_eq!(manager.add_adapter(TestAdapter::new("a1")), Ok(()));
    let before = snapshot(&manager);
    assert_eq!(
        manager.add_adapter(TestAdapter::new("a1")),
        Err(Error::InternalError(InternalError::DuplicateAdapter(id("a1"))))
    );
    assert_eq!(snapshot(&manager), before);
    assert_eq!(manager.adapter_by_id.entries.len(), 1);
}

#[test]
fn insert_adapter_uses_the_given_identifier() {
    let mut manager = State::new();
    assert_eq!(manager.insert_adapter(id("alias"), TestAdapter::new("a1")), Ok(()));
    assert_eq!(manager.adapter_by_id.entries[0].id, "alias");
    assert_eq!(
        manager.insert_adapter(id("alias"), TestAdapter::new("a2")),
        Err(Error::InternalError(InternalError::DuplicateAdapter(id("alias"))))
    );
    assert_eq!(manager.add_adapter(TestAdapter::new("a1")), Ok(()));
}

#[test]
fn service_needs_its_adapter() {
    let mut manager = State::new();
    assert_eq!(
        manager.add_service(service("s1", "a1")),
        Err(Error::InternalError(InternalError::NoSuchAdapter(id("a1"))))
    );
    manager.add_adapter(TestAdapter::new("a1")).unwrap();
    assert_eq!(manager.add_service(service("s1", "a1")), Ok(()));
    let before = snapshot(&manager);
    assert_eq!(
        manager.add_service(service("s1", "a1")),
        Err(Error::InternalError(InternalError::DuplicateService(id("s1"))))
    );
    assert_eq!(snapshot(&manager), before);
    assert_eq!(manager.adapter_by_id.entries[0].services, vec![id("s1")]);
}

#[test]
fn service_with_channels_is_refused() {
    let mut manager = State::new();
    manager.add_adapter(TestAdapter::new("a1")).unwrap();
    let before = snapshot(&manager);
    let mut s2 = service("s2", "a1");
    s2.getters.push(id("g1"));
    assert_eq!(
        manager.add_service(s2),
        Err(Error::InternalError(InternalError::InvalidInitialService))
    );
    assert_eq!(snapshot(&manager), before);
    assert_eq!(manager.get_getter_channels(&[GetterSelector::new()]), Vec::<Channel>::new());
    let mut s3 = service("s3", "a1");
    s3.setters.push(id("c1"));
    assert_eq!(
        manager.add_service(s3),
        Err(Error::InternalError(InternalError::InvalidInitialService))
    );
    // The channels are looked at before the adapter is.
    let mut s4 = service("s4", "nowhere");
    s4.getters.push(id("g1"));
    assert_eq!(
        manager.add_service(s4),
        Err(Error::InternalError(InternalError::InvalidInitialService))
    );
    assert_eq!(snapshot(&manager), before);
}

#[test]
fn removing_a_service_removes_its_channels() {
    let mut manager = State::new();
    manager.add_adapter(TestAdapter::new("a1")).unwrap();
    manager.add_service(service("s1", "a1")).unwrap();
    manager.add_getter(channel("g1", "s1", "a1", ChannelKind::OnOff)).unwrap();
    manager.add_setter(channel("c1", "s1", "a1", ChannelKind::OnOff)).unwrap();
    assert_eq!(manager.remove_service(&id("s1")), Ok(()));
    assert!(manager.get_getter_channels(&[GetterSelector::new()]).is_empty());
    assert!(manager.get_setter_channels(&[SetterSelector::new()]).is_empty());
    assert!(manager.get_services(&[ServiceSelector::new()]).is_empty());
    assert!(manager.getter_by_id.entries.is_empty());
    assert!(manager.setter_by_id.entries.is_empty());
    assert_eq!(manager.adapter_by_id.entries.len(), 1);
    assert_eq!(manager.adapter_by_id.entries[0].id, "a1");
    assert!(manager.adapter_by_id.entries[0].services.is_empty());
    assert_consistent(&manager);
}

#[test]
fn removing_an_adapter_removes_what_it_owns() {
    let (mut manager, _, _) = two_adapters();
    manager.add_service(service("s3", "a1")).unwrap();
    manager.add_getter(channel("g1", "s1", "a1", ChannelKind::OnOff)).unwrap();
    manager.add_getter(channel("g3", "s3", "a1", ChannelKind::Level)).unwrap();
    manager.add_setter(channel("c1", "s1", "a1", ChannelKind::OnOff)).unwrap();
    manager.add_getter(channel("g2", "s2", "a2", ChannelKind::OnOff)).unwrap();
    manager.add_setter(channel("c2", "s2", "a2", ChannelKind::OnOff)).unwrap();
    assert_eq!(manager.remove_adapter(&id("a1")), Ok(()));
    let services = manager.get_services(&[ServiceSelector::new()]);
    assert_eq!(services, vec![Service { getters: vec![id("g2")], setters: vec![id("c2")], ..service("s2", "a2") }]);
    let getters = manager.get_getter_channels(&[GetterSelector::new()]);
    assert_eq!(getters, vec![channel("g2", "s2", "a2", ChannelKind::OnOff)]);
    let setters = manager.get_setter_channels(&[SetterSelector::new()]);
    assert_eq!(setters, vec![channel("c2", "s2", "a2", ChannelKind::OnOff)]);
    assert_consistent(&manager);
}

#[test]
fn failed_calls_change_nothing() {
    let (mut manager, _, _) = two_adapters();
    manager.add_getter(channel("g1", "s1", "a1", ChannelKind::OnOff)).unwrap();
    manager.add_setter(channel("c1", "s1", "a1", ChannelKind::OnOff)).unwrap();
    manager.register_channel_watch(vec![(vec![GetterSelector::new()], Exactly::Always)], TestSink::new());
    let before = snapshot(&manager);
    let internal = |e: InternalError| Err::<(), Error>(Error::InternalError(e));

    assert_eq!(manager.add_adapter(TestAdapter::new("a2")), internal(InternalError::DuplicateAdapter(id("a2"))));
    assert_eq!(manager.remove_adapter(&id("a3")), internal(InternalError::NoSuchAdapter(id("a3"))));
    assert_eq!(manager.add_service(service("s9", "a3")), internal(InternalError::NoSuchAdapter(id("a3"))));
    assert_eq!(manager.add_service(service("s1", "a2")), internal(InternalError::DuplicateService(id("s1"))));
    assert_eq!(manager.remove_service(&id("s9")), internal(InternalError::NoSuchService(id("s9"))));
    assert_eq!(
        manager.add_getter(channel("g2", "s9", "a1", ChannelKind::OnOff)),
        internal(InternalError::NoSuchService(id("s9")))
    );
    assert_eq!(
        manager.add_getter(channel("g2", "s1", "a2", ChannelKind::OnOff)),
        internal(InternalError::ConflictingAdapter(id("a1"), id("a2")))
    );
    assert_eq!(
        manager.add_getter(channel("g1", "s1", "a1", ChannelKind::Level)),
        internal(InternalError::DuplicateGetter(id("g1")))
    );
    assert_eq!(manager.remove_getter(&id("c1")), internal(InternalError::NoSuchGetter(id("c1"))));
    assert_eq!(
        manager.add_setter(channel("c2", "s9", "a1", ChannelKind::OnOff)),
        internal(InternalError::NoSuchService(id("s9")))
    );
    assert_eq!(
        manager.add_setter(channel("c2", "s1", "a2", ChannelKind::OnOff)),
        internal(InternalError::ConflictingAdapter(id("a1"), id("a2")))
    );
    assert_eq!(
        manager.add_setter(channel("c1", "s1", "a1", ChannelKind::Level)),
        internal(InternalError::DuplicateSetter(id("c1")))
    );
    assert_eq!(manager.remove_setter(&id("g1")), internal(InternalError::NoSuchSetter(id("g1"))));
    // A missing service is reported before a conflicting adapter, and that
    // before a duplicate.
    assert_eq!(
        manager.add_getter(channel("g1", "s1", "a2", ChannelKind::OnOff)),
        internal(InternalError::ConflictingAdapter(id("a1"), id("a2")))
    );
    assert_eq!(snapshot(&manager), before);
    assert_consistent(&manager);
}

#[test]
fn add_then_remove_restores_the_registry() {
    let (mut manager, _, _) = two_adapters();
    manager.add_getter(channel("g0", "s1", "a1", ChannelKind::OnOff)).unwrap();
    manager.register_channel_watch(vec![(vec![GetterSelector::new()], Exactly::Never)], TestSink::new());
    let initial = snapshot(&manager);

    manager.add_setter(channel("c1", "s1", "a1", ChannelKind::OnOff)).unwrap();
    assert_ne!(snapshot(&manager), initial);
    manager.remove_setter(&id("c1")).unwrap();
    assert_eq!(snapshot(&manager), initial);
    assert_eq!(
        manager.remove_setter(&id("c1")),
        Err(Error::InternalError(InternalError::NoSuchSetter(id("c1"))))
    );

    manager.add_getter(channel("g1", "s1", "a1", ChannelKind::OnOff)).unwrap();
    assert_ne!(snapshot(&manager), initial);
    manager.remove_getter(&id("g1")).unwrap();
    assert_eq!(snapshot(&manager), initial);
    assert_eq!(
        manager.remove_getter(&id("g1")),
        Err(Error::InternalError(InternalError::NoSuchGetter(id("g1"))))
    );

    manager.add_service(service("s3", "a2")).unwrap();
    manager.remove_service(&id("s3")).unwrap();
    assert_eq!(snapshot(&manager), initial);
    assert_eq!(
        manager.remove_service(&id("s3")),
        Err(Error::InternalError(InternalError::NoSuchService(id("s3"))))
    );

    manager.add_adapter(TestAdapter::new("a3")).unwrap();
    manager.remove_adapter(&id("a3")).unwrap();
    assert_eq!(snapshot(&manager), initial);
    assert_eq!(
        manager.remove_adapter(&id("a3")),
        Err(Error::InternalError(InternalError::NoSuchAdapter(id("a3"))))
    );
    assert_consistent(&manager);
}

#[test]
fn tables_stay_consistent() {
    let (mut manager, _, _) = two_adapters();
    assert_consistent(&manager);
    let key = manager.register_channel_watch(vec![(with_tag("temp"), Exactly::Always)], TestSink::new());
    assert_consistent(&manager);
    manager.add_getter(tagged(channel("g1", "s1", "a1", ChannelKind::Level), "temp")).unwrap();
    assert_consistent(&manager);
    manager.add_getter(channel("g2", "s2", "a2", ChannelKind::Level)).unwrap();
    manager.add_setter(channel("c1", "s1", "a1", ChannelKind::OnOff)).unwrap();
    assert_consistent(&manager);
    manager.register_channel_watch(vec![(vec![GetterSelector::new()], Exactly::Never)], TestSink::new());
    assert_consistent(&manager);
    manager.add_getter_tags(&[GetterSelector::new()], &vec![id("x")]);
    manager.add_service_tags(&[ServiceSelector::new()], &vec![id("x")]);
    manager.remove_setter_tags(&[SetterSelector::new()], &vec![id("x")]);
    assert_consistent(&manager);
    manager.remove_service(&id("s1")).unwrap();
    assert_consistent(&manager);
    manager.unregister_channel_watch(key);
    assert_consistent(&manager);
    manager.remove_adapter(&id("a2")).unwrap();
    assert_consistent(&manager);
    assert!(manager.getter_by_id.entries.is_empty());
    assert_eq!(manager.watchers.watchers.entries.len(), 1);
    assert!(manager.watchers.watchers.entries[0].getters.is_empty());
}

#[test]
fn tag_operations_count_entities() {
    let (mut manager, _, _) = two_adapters();
    manager.add_getter(channel("g1", "s1", "a1", ChannelKind::OnOff)).unwrap();
    manager.add_getter(channel("g2", "s2", "a2", ChannelKind::Level)).unwrap();
    manager.add_getter(channel("g3", "s2", "a2", ChannelKind::OnOff)).unwrap();
    manager.add_setter(channel("c1", "s1", "a1", ChannelKind::OnOff)).unwrap();
    let on_off = vec![GetterSelector::new().with_kind(ChannelKind::OnOff)];
    let three = vec![id("t1"), id("t2"), id("t3")];
    let matched = manager.get_getter_channels(&on_off).len();
    assert_eq!(matched, 2);
    assert_eq!(manager.add_getter_tags(&on_off, &three), 2);
    // Adding the same tags again changes nothing and counts the same.
    let before = snapshot(&manager);
    assert_eq!(manager.add_getter_tags(&on_off, &three), 2);
    assert_eq!(snapshot(&manager), before);
    assert_eq!(manager.add_getter_tags(&on_off, &Vec::new()), 2);
    assert_eq!(manager.remove_getter_tags(&on_off, &three), 2);
    assert_eq!(manager.remove_getter_tags(&on_off, &three), 2);
    // A channel that two selectors select counts once.
    let twice = vec![GetterSelector::new(), GetterSelector::new().with_id(id("g1"))];
    assert_eq!(manager.add_getter_tags(&twice, &three), 3);
    assert_eq!(manager.get_getter_channels(&twice).len(), 3);
    // No selector selects nothing.
    assert_eq!(manager.add_getter_tags(&[], &three), 0);
    assert_eq!(manager.add_setter_tags(&[SetterSelector::new()], &three), 1);
    assert_eq!(manager.add_service_tags(&[ServiceSelector::new()], &three), 2);
    assert_eq!(manager.remove_service_tags(&[ServiceSelector::new().with_parent(id("a2"))], &three), 1);
    let left = manager.get_services(&[ServiceSelector::new().with_tags(vec![id("t2")])]);
    assert_eq!(left.len(), 1);
    assert_eq!(left[0].id, "s1");
    assert_eq!(left[0].tags, three);
}

#[test]
fn selectors_are_any_of_all_of() {
    let (mut manager, _, _) = two_adapters();
    manager.add_getter(tagged(channel("g1", "s1", "a1", ChannelKind::OnOff), "a")).unwrap();
    manager.add_getter(tagged(tagged(channel("g2", "s2", "a2", ChannelKind::Level), "a"), "b")).unwrap();
    manager.add_getter(channel("g3", "s2", "a2", ChannelKind::OnOff)).unwrap();
    let ids = |found: Vec<Channel>| found.into_iter().map(|c| c.id).collect::<Vec<_>>();
    let both = vec![GetterSelector::new().with_tags(vec![id("a"), id("b")])];
    assert_eq!(ids(manager.get_getter_channels(&both)), vec![id("g2")]);
    let either = vec![
        GetterSelector::new().with_kind(ChannelKind::Level),
        GetterSelector::new().with_parent(id("s1")),
    ];
    assert_eq!(ids(manager.get_getter_channels(&either)), vec![id("g1"), id("g2")]);
    let none = vec![GetterSelector::new().with_parent(id("s1")).with_kind(ChannelKind::Level)];
    assert_eq!(ids(manager.get_getter_channels(&none)), Vec::<String>::new());
    assert_eq!(ids(manager.get_getter_channels(&[])), Vec::<String>::new());
    assert_eq!(
        ids(manager.get_getter_channels(&[GetterSelector::new()])),
        vec![id("g1"), id("g2"), id("g3")]
    );
}

#[test]
fn type_error_is_reported_for_one_getter() {
    let (mut manager, c1, c2) = two_adapters();
    manager.add_getter(channel("g", "s1", "a1", ChannelKind::OnOff)).unwrap();
    manager.add_getter(channel("h", "s1", "a1", ChannelKind::OnOff)).unwrap();
    manager.add_getter(channel("k", "s2", "a2", ChannelKind::Level)).unwrap();
    c1.inject_getter_value("g", Ok(Some(Value::OpenClosed(OpenClosed::Open))));
    c1.inject_getter_value("h", Ok(Some(Value::OnOff(OnOff::Off))));
    c2.inject_getter_value("k", Ok(Some(Value::Level(7))));
    let data = manager.fetch_values(&[GetterSelector::new()]);
    assert_eq!(
        data,
        vec![
            (id("g"), Err(type_error(ChannelKind::OpenClosed, ChannelKind::OnOff))),
            (id("h"), Ok(Some(Value::OnOff(OnOff::Off)))),
            (id("k"), Ok(Some(Value::Level(7)))),
        ]
    );
}

#[test]
fn fetch_asks_each_adapter_once() {
    let (mut manager, c1, c2) = two_adapters();
    manager.add_adapter(TestAdapter::new("a3")).unwrap();
    manager.add_getter(channel("g1", "s1", "a1", ChannelKind::OnOff)).unwrap();
    manager.add_getter(channel("g2", "s2", "a2", ChannelKind::OnOff)).unwrap();
    manager.add_getter(channel("g3", "s1", "a1", ChannelKind::Level)).unwrap();
    manager.add_getter(channel("g4", "s2", "a2", ChannelKind::Level)).unwrap();
    c2.inject_getter_value("g2", Err(Error::AdapterError(id("out of reach"))));
    let data = manager.fetch_values(&[GetterSelector::new()]);
    assert_eq!(*c1.fetches.borrow(), vec![vec![id("g1"), id("g3")]]);
    assert_eq!(*c2.fetches.borrow(), vec![vec![id("g2"), id("g4")]]);
    assert_eq!(
        data,
        vec![
            (id("g1"), Ok(None)),
            (id("g3"), Ok(None)),
            (id("g2"), Err(Error::AdapterError(id("out of reach")))),
            (id("g4"), Ok(None)),
        ]
    );
    // An adapter without a getter among those selected is not asked.
    let data = manager.fetch_values(&[GetterSelector::new().with_parent(id("s2"))]);
    assert_eq!(data.len(), 2);
    assert_eq!(c1.fetches.borrow().len(), 1);
    assert_eq!(c2.fetches.borrow().len(), 2);
    assert_eq!(manager.fetch_values(&[]), vec![]);
}

#[test]
fn check_fetched_only_replaces_values_of_the_wrong_kind() {
    let (mut manager, _, _) = two_adapters();
    manager.add_getter(channel("g", "s1", "a1", ChannelKind::Level)).unwrap();
    let got = vec![
        (id("g"), Ok(Some(Value::Level(3)))),
        (id("g"), Ok(Some(Value::OnOff(OnOff::On)))),
        (id("g"), Ok(None)),
        (id("g"), Err(Error::AdapterError(id("no")))),
        (id("stranger"), Ok(Some(Value::OnOff(OnOff::On)))),
    ];
    assert_eq!(
        manager.check_fetched(got),
        vec![
            (id("g"), Ok(Some(Value::Level(3)))),
            (id("g"), Err(type_error(ChannelKind::OnOff, ChannelKind::Level))),
            (id("g"), Ok(None)),
            (id("g"), Err(Error::AdapterError(id("no")))),
            (id("stranger"), Ok(Some(Value::OnOff(OnOff::On)))),
        ]
    );
}

#[test]
fn send_reports_type_errors_per_setter() {
    let mut manager = State::new();
    let adapter = TestAdapter::new("a1");
    let controls = adapter.controls();
    manager.add_adapter(adapter).unwrap();
    manager.add_service(service("svc", "a1")).unwrap();
    for name in ["s1", "s2", "s3", "s4"] {
        manager.add_setter(channel(name, "svc", "a1", ChannelKind::OnOff)).unwrap();
    }
    let data = manager.send_values(vec![
        (vec![SetterSelector::new()], Value::OpenClosed(OpenClosed::Closed)),
        (vec![SetterSelector::new().with_id(id("s3"))], Value::OnOff(OnOff::On)),
    ]);
    let mismatch = || Err(type_error(ChannelKind::OpenClosed, ChannelKind::OnOff));
    assert_eq!(
        data,
        vec![
            (id("s1"), mismatch()),
            (id("s2"), mismatch()),
            (id("s3"), mismatch()),
            (id("s4"), mismatch()),
            (id("s3"), Ok(())),
        ]
    );
    for name in ["s1", "s2", "s4"] {
        assert_eq!(lookup(&data, name), Some(&mismatch()));
    }
    assert_eq!(lookup(&data, "s3"), Some(&Ok(())));
    // Only the value of the right kind reached the adapter, in one call.
    assert_eq!(*controls.sends.borrow(), vec![vec![(id("s3"), Value::OnOff(OnOff::On))]]);
}

#[test]
fn send_hands_each_adapter_its_values_in_order() {
    let (mut manager, c1, c2) = two_adapters();
    manager.add_setter(channel("x", "s1", "a1", ChannelKind::Level)).unwrap();
    manager.add_setter(channel("y", "s2", "a2", ChannelKind::Level)).unwrap();
    manager.add_setter(channel("z", "s1", "a1", ChannelKind::OnOff)).unwrap();
    let data = manager.send_values(vec![
        (vec![SetterSelector::new().with_kind(ChannelKind::Level)], Value::Level(1)),
        (vec![SetterSelector::new().with_id(id("x"))], Value::Level(2)),
        (vec![SetterSelector::new().with_id(id("z"))], Value::OnOff(OnOff::Off)),
    ]);
    assert_eq!(
        *c1.sends.borrow(),
        vec![vec![
            (id("x"), Value::Level(1)),
            (id("x"), Value::Level(2)),
            (id("z"), Value::OnOff(OnOff::Off)),
        ]]
    );
    assert_eq!(*c2.sends.borrow(), vec![vec![(id("y"), Value::Level(1))]]);
    assert_eq!(data.len(), 4);
    assert!(data.iter().all(|entry| entry.1 == Ok(())));
    assert_eq!(manager.collect_send_payload(&vec![], &id("a1")), vec![]);
    assert_eq!(manager.send_values(vec![]), vec![]);
}

/// Plays the part of an adapter that reports to every subscription it
/// holds for `getter`.
fn emit(controls: &Controls, filter: &Exactly<Range>, event: AdapterWatchEvent) {
    let getter = match &event {
        AdapterWatchEvent::Enter { id, .. } => id.clone(),
        AdapterWatchEvent::Exit { id, .. } => id.clone(),
    };
    let released = controls.released.borrow().clone();
    for (id, _, sink) in controls.subscriptions.borrow().iter() {
        if *id == getter && !released.contains(id) {
            if let Some(told) = deliver(false, filter, event.clone()) {
                sink.send(told);
            }
        }
    }
}

#[test]
fn watch_follows_getters_that_come_and_go() {
    let (mut manager, c1, _) = two_adapters();
    let sink = TestSink::new();
    let events = sink.events.clone();
    let filter = Exactly::Exactly(Range::Geq(Value::Level(20)));
    let key = manager.register_channel_watch(vec![(with_tag("temp"), filter)], sink);
    assert!(events.borrow().is_empty());
    assert!(c1.watches.borrow().is_empty());
    assert!(manager.watchers.get(key).unwrap().getters.is_empty());

    manager.add_getter(tagged(channel("g", "s1", "a1", ChannelKind::Level), "temp")).unwrap();
    manager.add_getter(channel("other", "s1", "a1", ChannelKind::Level)).unwrap();
    assert_eq!(manager.watchers.get(key).unwrap().getters, vec![id("g")]);
    assert_eq!(manager.getter_by_id.entries[0].watchers, vec![key]);
    assert!(manager.getter_by_id.entries[1].watchers.is_empty());
    assert_eq!(*c1.watches.borrow(), vec![vec![(id("g"), Some(Range::Geq(Value::Level(20))))]]);
    assert_eq!(manager.watchers.get(key).unwrap().guards.len(), 1);
    assert_consistent(&manager);

    emit(&c1, &filter, AdapterWatchEvent::Enter { id: id("g"), value: Value::Level(25) });
    assert_eq!(*events.borrow(), vec![WatchEvent::EnterRange { from: id("g"), value: Value::Level(25) }]);

    manager.remove_getter(&id("g")).unwrap();
    assert!(manager.watchers.get(key).unwrap().getters.is_empty());
    assert!(manager.watchers.get(key).unwrap().guards.is_empty());
    assert_eq!(*c1.released.borrow(), vec![id("g")]);
    emit(&c1, &filter, AdapterWatchEvent::Enter { id: id("g"), value: Value::Level(30) });
    assert_eq!(events.borrow().len(), 1);

    manager.unregister_channel_watch(key);
    assert!(manager.watchers.get(key).is_none());
    assert!(manager.watchers.watchers.entries.is_empty());
    assert_consistent(&manager);
}

#[test]
fn watch_asks_each_adapter_once() {
    let (mut manager, c1, c2) = two_adapters();
    manager.add_getter(tagged(channel("g1", "s1", "a1", ChannelKind::Level), "temp")).unwrap();
    manager.add_getter(tagged(channel("g2", "s2", "a2", ChannelKind::Level), "temp")).unwrap();
    manager.add_getter(tagged(channel("g3", "s1", "a1", ChannelKind::OnOff), "door")).unwrap();
    manager.add_getter(channel("g4", "s1", "a1", ChannelKind::OnOff)).unwrap();
    let between = Range::BetweenEq { min: Value::Level(1), max: Value::Level(5) };
    let key = manager.register_channel_watch(
        vec![
            (with_tag("temp"), Exactly::Exactly(between)),
            (with_tag("door"), Exactly::Never),
            (vec![GetterSelector::new().with_id(id("g1"))], Exactly::Always),
        ],
        TestSink::new(),
    );
    assert_eq!(key, 0);
    assert_eq!(*c1.watches.borrow(), vec![vec![(id("g1"), Some(between)), (id("g1"), None)]]);
    assert_eq!(*c2.watches.borrow(), vec![vec![(id("g2"), Some(between))]]);
    let w = manager.watchers.get(key).unwrap();
    // A clause that watches no value still covers the getters it selects.
    assert_eq!(w.getters, vec![id("g1"), id("g2"), id("g3")]);
    let held: Vec<&String> = w.guards.iter().map(|g| &g.0).collect();
    assert_eq!(held, vec!["g1", "g1", "g2"]);
    assert_eq!(manager.collect_watch_requests(&w.watch, &id("a2")), vec![(id("g2"), Some(between))]);
    assert_eq!(manager.collect_watch_requests(&w.watch, &id("a3")), vec![]);
    let named: Vec<Vec<usize>> = manager.getter_by_id.entries.iter().map(|g| g.watchers.clone()).collect();
    assert_eq!(named, vec![vec![0], vec![0], vec![0], vec![]]);
    assert_consistent(&manager);
}

#[test]
fn watch_keys_are_never_used_twice() {
    let (mut manager, _, _) = two_adapters();
    let all = || vec![(vec![GetterSelector::new()], Exactly::Never)];
    assert_eq!(manager.register_channel_watch(all(), TestSink::new()), 0);
    assert_eq!(manager.register_channel_watch(all(), TestSink::new()), 1);
    manager.unregister_channel_watch(1);
    manager.unregister_channel_watch(0);
    assert_eq!(manager.register_channel_watch(all(), TestSink::new()), 2);
    assert_eq!(manager.watchers.counter, 3);
    let keys: Vec<usize> = manager.watchers.watchers.entries.iter().map(|w| w.key).collect();
    assert_eq!(keys, vec![2]);
    assert_eq!(manager.watchers.create(Vec::new(), TestSink::new()), 3);
    assert!(manager.watchers.remove(3).is_some());
    assert!(manager.watchers.remove(3).is_none());
}

#[test]
fn watch_reports_getters_that_cannot_be_watched() {
    let (mut manager, c1, _) = two_adapters();
    manager.add_getter(channel("g1", "s1", "a1", ChannelKind::Level)).unwrap();
    manager.add_getter(channel("g2", "s1", "a1", ChannelKind::Level)).unwrap();
    c1.refused.borrow_mut().push(id("g2"));
    c1.refused.borrow_mut().push(id("g3"));
    let sink = TestSink::new();
    let events = sink.events.clone();
    let key = manager.register_channel_watch(vec![(vec![GetterSelector::new()], Exactly::Always)], sink);
    assert_eq!(
        *events.borrow(),
        vec![WatchEvent::InitializationError {
            channel: id("g2"),
            error: Error::AdapterError(id("cannot watch g2")),
        }]
    );
    let w = manager.watchers.get(key).unwrap();
    assert_eq!(w.getters, vec![id("g1"), id("g2")]);
    assert_eq!(w.guards.len(), 1);
    assert_eq!(w.guards[0].0, "g1");
    // The same holds of a getter that comes later.
    manager.add_getter(channel("g3", "s1", "a1", ChannelKind::Level)).unwrap();
    assert_eq!(events.borrow().len(), 2);
    assert_eq!(
        events.borrow()[1],
        WatchEvent::InitializationError {
            channel: id("g3"),
            error: Error::AdapterError(id("cannot watch g3")),
        }
    );
    assert_eq!(manager.watchers.get(key).unwrap().guards.len(), 1);
    assert_consistent(&manager);
}

#[test]
fn unregistering_releases_the_subscriptions_last() {
    let (mut manager, c1, c2) = two_adapters();
    manager.add_getter(channel("g1", "s1", "a1", ChannelKind::Level)).unwrap();
    manager.add_getter(channel("g2", "s2", "a2", ChannelKind::Level)).unwrap();
    let all = || vec![(vec![GetterSelector::new()], Exactly::Always)];
    let first = manager.register_channel_watch(all(), TestSink::new());
    let second = manager.register_channel_watch(all(), TestSink::new());
    assert_eq!(manager.getter_by_id.entries[0].watchers, vec![first, second]);
    let before = snapshot(&manager);
    manager.unregister_channel_watch(7);
    assert_eq!(snapshot(&manager), before);
    assert!(c1.released.borrow().is_empty());

    manager.unregister_channel_watch(first);
    assert_eq!(*c1.released.borrow(), vec![id("g1")]);
    assert_eq!(*c2.released.borrow(), vec![id("g2")]);
    assert!(manager.watchers.get(first).is_none());
    assert_eq!(manager.getter_by_id.entries[0].watchers, vec![second]);
    assert_eq!(manager.getter_by_id.entries[1].watchers, vec![second]);
    assert_eq!(manager.watchers.get(second).unwrap().guards.len(), 2);
    manager.unregister_channel_watch(first);
    assert_eq!(c1.released.borrow().len(), 1);
    assert_consistent(&manager);
}

#[test]
fn removing_a_getter_keeps_the_other_subscriptions() {
    let (mut manager, c1, c2) = two_adapters();
    manager.add_getter(channel("g1", "s1", "a1", ChannelKind::Level)).unwrap();
    manager.add_getter(channel("g2", "s2", "a2", ChannelKind::Level)).unwrap();
    let key = manager.register_channel_watch(
        vec![(vec![GetterSelector::new()], Exactly::Always)],
        TestSink::new(),
    );
    manager.remove_getter(&id("g1")).unwrap();
    let w = manager.watchers.get(key).unwrap();
    assert_eq!(w.getters, vec![id("g2")]);
    assert_eq!(w.guards.len(), 1);
    assert_eq!(w.guards[0].0, "g2");
    assert_eq!(*c1.released.borrow(), vec![id("g1")]);
    assert!(c2.released.borrow().is_empty());
    // Removing the service of the other getter releases the rest.
    manager.remove_service(&id("s2")).unwrap();
    assert!(manager.watchers.get(key).unwrap().getters.is_empty());
    assert_eq!(*c2.released.borrow(), vec![id("g2")]);
    assert_consistent(&manager);
}

/// An adapter that answers a request to watch with subscriptions that
/// nobody asked for.
struct Meddler {
    released: Rc<RefCell<Vec<String>>>,
}

impl Adapter for Meddler {
    type Guard = TestGuard;
    type Sink = TestSink;

    fn id(&self) -> String {
        id("meddler")
    }

    fn name(&self) -> String {
        id("meddler")
    }

    fn vendor(&self) -> String {
        id("test@foxbox_adapters")
    }

    fn version(&self) -> [u32; 4] {
        [0, 0, 0, 1]
    }

    fn fetch_values(&self, _: Vec<String>) -> ResultMap<String, Option<Value>, Error> {
        vec![(id("elsewhere"), Ok(Some(Value::Level(1))))]
    }

    fn send_values(&self, _: Vec<(String, Value)>) -> ResultMap<String, (), Error> {
        Vec::new()
    }

    fn register_watch(
        &self,
        sources: Vec<(String, Option<Range>)>,
        _: &TestSink,
    ) -> ResultMap<String, TestGuard, Error> {
        let guard = |name: &str| TestGuard { id: id(name), released: self.released.clone() };
        let mut answers = vec![(id("g1"), Ok(guard("stray g1"))), (id("nobody"), Ok(guard("stray nobody")))];
        for (name, _) in sources {
            let g = guard(&name);
            answers.push((name, Ok(g)));
        }
        answers
    }
}

#[test]
fn subscriptions_that_were_not_asked_for_are_released_at_once() {
    let released = Rc::new(RefCell::new(Vec::new()));
    let mut manager: AdapterManagerState<Meddler> = AdapterManagerState::new();
    manager.add_adapter(Meddler { released: released.clone() }).unwrap();
    manager.add_service(service("s", "meddler")).unwrap();
    manager.add_getter(channel("g1", "s", "meddler", ChannelKind::Level)).unwrap();
    let key = manager.register_channel_watch(
        vec![(vec![GetterSelector::new()], Exactly::Always)],
        TestSink::new(),
    );
    // Asked for g1: the answers for g1 are kept, the other is not.
    let held = |m: &AdapterManagerState<Meddler>| {
        m.watchers.get(key).unwrap().guards.iter().map(|g| (g.0.clone(), g.1.id.clone())).collect::<Vec<_>>()
    };
    assert_eq!(held(&manager), vec![(id("g1"), id("stray g1")), (id("g1"), id("g1"))]);
    assert_eq!(*released.borrow(), vec![id("stray nobody")]);
    released.borrow_mut().clear();
    // Asked for g2 only: what is answered for g1 is not kept.
    manager.add_getter(channel("g2", "s", "meddler", ChannelKind::Level)).unwrap();
    assert_eq!(
        held(&manager),
        vec![(id("g1"), id("stray g1")), (id("g1"), id("g1")), (id("g2"), id("g2"))]
    );
    assert_eq!(*released.borrow(), vec![id("stray g1"), id("stray nobody")]);
    released.borrow_mut().clear();
    manager.remove_getter(&id("g2")).unwrap();
    assert_eq!(held(&manager), vec![(id("g1"), id("stray g1")), (id("g1"), id("g1"))]);
    assert_eq!(*released.borrow(), vec![id("g2")]);
    // An answer for a getter that is not registered is handed on as it is.
    assert_eq!(
        manager.fetch_values(&[GetterSelector::new()]),
        vec![(id("elsewhere"), Ok(Some(Value::Level(1))))]
    );
}
