use hey_listen::sync::{PriorityDispatcher, PriorityDispatcherResult, PriorityListener};
use std::sync::{Arc, Mutex, RwLock};

#[derive(Clone, Eq, Hash, PartialEq)]
enum Event {
    EventType,
}

struct EventListener {
    name: String,
    name_record: Arc<RwLock<Vec<String>>>,
}

impl PriorityListener<Event> for Arc<RwLock<EventListener>> {
    fn on_event(&self, _event: &Event) -> Option<PriorityDispatcherResult> {
        let listener = self.try_read().expect("Could not lock self");

        listener
            .name_record
            .try_write()
            .expect("Could not lock name_record")
            .push(listener.name.clone());

        None
    }
}

#[test]
fn listeners_dispatch_in_correct_order() {
    let names_record = Arc::new(RwLock::new(Vec::new()));

    let first_receiver_a = Arc::new(RwLock::new(EventListener {
        name: "1".to_string(),
        name_record: Arc::clone(&names_record),
    }));
    let last_receiver_a = Arc::new(RwLock::new(EventListener {
        name: "3".to_string(),
        name_record: Arc::clone(&names_record),
    }));
    let second_receiver_a = Arc::new(RwLock::new(EventListener {
        name: "2".to_string(),
        name_record: Arc::clone(&names_record),
    }));
    let last_receiver_b = Arc::new(RwLock::new(EventListener {
        name: "3".to_string(),
        name_record: Arc::clone(&names_record),
    }));
    let first_receiver_b = Arc::new(RwLock::new(EventListener {
        name: "1".to_string(),
        name_record: Arc::clone(&names_record),
    }));
    let second_receiver_b = Arc::new(RwLock::new(EventListener {
        name: "2".to_string(),
        name_record: Arc::clone(&names_record),
    }));

    let mut dispatcher =
        PriorityDispatcher::<u32, Event, Arc<RwLock<EventListener>>>::default();
    dispatcher.add_listener(Event::EventType, Arc::clone(&last_receiver_a), 3);
    dispatcher.add_listener(Event::EventType, Arc::clone(&last_receiver_b), 3);
    dispatcher.add_listener(Event::EventType, Arc::clone(&second_receiver_a), 2);
    dispatcher.add_listener(Event::EventType, Arc::clone(&first_receiver_a), 1);
    dispatcher.add_listener(Event::EventType, Arc::clone(&first_receiver_b), 1);
    dispatcher.add_listener(Event::EventType, Arc::clone(&second_receiver_b), 2);

    dispatcher.dispatch_event(&Event::EventType);
    let names_record = names_record.try_write().unwrap();

    assert_eq!(names_record[0], "1");
    assert_eq!(names_record[1], "1");
    assert_eq!(names_record[2], "2");
    assert_eq!(names_record[3], "2");
    assert_eq!(names_record[4], "3");
    assert_eq!(names_record[5], "3");
}

struct CountingListener {
    times_dispatched: usize,
    answer: fn() -> Option<PriorityDispatcherResult>,
}

impl PriorityListener<Event> for Arc<Mutex<CountingListener>> {
    fn on_event(&self, _event: &Event) -> Option<PriorityDispatcherResult> {
        let mut state = self.lock().unwrap();
        state.times_dispatched += 1;
        (state.answer)()
    }
}

fn counting(answer: fn() -> Option<PriorityDispatcherResult>) -> Arc<Mutex<CountingListener>> {
    Arc::new(Mutex::new(CountingListener { times_dispatched: 0, answer }))
}

fn stop_listening_answer() -> Option<PriorityDispatcherResult> {
    Some(PriorityDispatcherResult::StopListening)
}

fn stop_propagation_answer() -> Option<PriorityDispatcherResult> {
    Some(PriorityDispatcherResult::StopPropagation)
}

fn stop_both_answer() -> Option<PriorityDispatcherResult> {
    Some(PriorityDispatcherResult::StopListeningAndPropagation)
}

#[test]
fn priority_listener_test_stop_listening() {
    let receiver = counting(stop_listening_answer);
    let mut dispatcher =
        PriorityDispatcher::<u32, Event, Arc<Mutex<CountingListener>>>::default();
    dispatcher.add_listener(Event::EventType, Arc::clone(&receiver), 0);

    dispatcher.dispatch_event(&Event::EventType);
    dispatcher.dispatch_event(&Event::EventType);

    assert_eq!(receiver.lock().unwrap().times_dispatched, 1);
}

#[test]
fn stop_propagation() {
    let receiver_a = counting(stop_propagation_answer);
    let receiver_b = counting(stop_propagation_answer);
    let mut dispatcher =
        PriorityDispatcher::<u32, Event, Arc<Mutex<CountingListener>>>::default();

    dispatcher.add_listener(Event::EventType, Arc::clone(&receiver_a), 0);
    dispatcher.add_listener(Event::EventType, Arc::clone(&receiver_b), 0);

    dispatcher.dispatch_event(&Event::EventType);

    assert_eq!(receiver_a.lock().unwrap().times_dispatched, 1);
    assert_eq!(receiver_b.lock().unwrap().times_dispatched, 0);
}

#[test]
fn stop_listening_and_propagation() {
    let receiver_a = counting(stop_both_answer);
    let receiver_b = counting(stop_both_answer);
    let mut dispatcher =
        PriorityDispatcher::<u32, Event, Arc<Mutex<CountingListener>>>::default();

    dispatcher.add_listener(Event::EventType, Arc::clone(&receiver_a), 0);
    dispatcher.add_listener(Event::EventType, Arc::clone(&receiver_b), 0);

    dispatcher.dispatch_event(&Event::EventType);
    dispatcher.dispatch_event(&Event::EventType);
    dispatcher.dispatch_event(&Event::EventType);

    assert_eq!(receiver_a.lock().unwrap().times_dispatched, 1);
    assert_eq!(receiver_b.lock().unwrap().times_dispatched, 1);
}

#[test]
fn priority_listener_test_is_send_and_sync() {
    fn assert_send<T: Send + Sync>(_: &T) {}
    assert_send(&PriorityDispatcher::<u32, Event, Arc<RwLock<EventListener>>>::default());
}

#[test]
fn priority_equal_levels_keep_registration_order() {
    let names_record = Arc::new(RwLock::new(Vec::new()));
    let mk = |name: &str| {
        Arc::new(RwLock::new(EventListener {
            name: name.to_string(),
            name_record: Arc::clone(&names_record),
        }))
    };
    let first = mk("first");
    let second = mk("second");
    let third = mk("third");

    let mut dispatcher =
        PriorityDispatcher::<u32, Event, Arc<RwLock<EventListener>>>::default();
    dispatcher.add_listener(Event::EventType, Arc::clone(&first), 7);
    dispatcher.add_listener(Event::EventType, Arc::clone(&second), 7);
    dispatcher.add_listener(Event::EventType, Arc::clone(&third), 7);

    dispatcher.dispatch_event(&Event::EventType);

    let record = names_record.read().unwrap();
    assert_eq!(record.as_slice(), ["first", "second", "third"]);
}
