use hey_listen::rc::{Dispatcher, DispatcherRequest, Listener, PriorityEventDispatcher};
use std::cell::{Cell, RefCell};
use std::rc::Rc;

#[derive(Clone, Eq, Hash, PartialEq)]
enum Event {
    VariantA,
    VariantB,
}

type BoxedFn = Box<dyn Fn(&Event) -> Option<DispatcherRequest>>;

struct CountingListener {
    counter: Rc<Cell<usize>>,
    answer: fn() -> Option<DispatcherRequest>,
}

impl Listener<Event> for CountingListener {
    fn on_event(&self, _event: &Event) -> Option<DispatcherRequest> {
        self.counter.set(self.counter.get() + 1);
        (self.answer)()
    }
}

fn keep_going() -> Option<DispatcherRequest> {
    None
}

fn stop_listening_answer() -> Option<DispatcherRequest> {
    Some(DispatcherRequest::StopListening)
}

#[test]
fn rc_dispatch_invokes_each_listener_once_per_event() {
    let counter_a = Rc::new(Cell::new(0));
    let counter_b = Rc::new(Cell::new(0));

    let mut dispatcher: Dispatcher<Event, CountingListener> = Dispatcher::new();
    dispatcher.add_listener(
        Event::VariantA,
        CountingListener { counter: Rc::clone(&counter_a), answer: keep_going },
    );
    dispatcher.add_listener(
        Event::VariantB,
        CountingListener { counter: Rc::clone(&counter_b), answer: keep_going },
    );

    dispatcher.dispatch_event(&Event::VariantA);
    assert_eq!(counter_a.get(), 1);
    assert_eq!(counter_b.get(), 0);

    dispatcher.dispatch_event(&Event::VariantA);
    dispatcher.dispatch_event(&Event::VariantB);
    assert_eq!(counter_a.get(), 2);
    assert_eq!(counter_b.get(), 1);
}

#[test]
fn rc_dispatch_without_registration_is_a_noop() {
    let counter = Rc::new(Cell::new(0));
    let mut dispatcher: Dispatcher<Event, CountingListener> = Dispatcher::new();
    dispatcher.add_listener(
        Event::VariantA,
        CountingListener { counter: Rc::clone(&counter), answer: keep_going },
    );

    dispatcher.dispatch_event(&Event::VariantB);

    assert_eq!(counter.get(), 0);
}

#[test]
fn rc_stop_listening_removes_the_listener() {
    let counter = Rc::new(Cell::new(0));
    let mut dispatcher: Dispatcher<Event, CountingListener> = Dispatcher::new();
    dispatcher.add_listener(
        Event::VariantA,
        CountingListener { counter: Rc::clone(&counter), answer: stop_listening_answer },
    );

    dispatcher.dispatch_event(&Event::VariantA);
    dispatcher.dispatch_event(&Event::VariantA);
    dispatcher.dispatch_event(&Event::VariantA);

    assert_eq!(counter.get(), 1);
}

struct RecordingListener {
    name: String,
    record: Rc<RefCell<Vec<String>>>,
}

impl Listener<Event> for RecordingListener {
    fn on_event(&self, _event: &Event) -> Option<DispatcherRequest> {
        self.record.borrow_mut().push(self.name.clone());
        None
    }
}

#[test]
fn rc_priority_dispatches_in_ascending_priority_order() {
    let record = Rc::new(RefCell::new(Vec::new()));
    let mk = |name: &str| {
        Rc::new(RecordingListener { name: name.to_string(), record: Rc::clone(&record) })
    };
    let low = mk("1");
    let mid = mk("2");
    let high = mk("3");

    let mut dispatcher: PriorityEventDispatcher<u32, Event, RecordingListener, BoxedFn> =
        PriorityEventDispatcher::default();
    dispatcher.add_listener(Event::VariantA, &high, 3);
    dispatcher.add_listener(Event::VariantA, &low, 1);
    dispatcher.add_listener(Event::VariantA, &mid, 2);

    dispatcher.dispatch_event(&Event::VariantA);

    assert_eq!(record.borrow().as_slice(), ["1", "2", "3"]);
}

#[test]
fn rc_priority_purges_dropped_listeners() {
    let record = Rc::new(RefCell::new(Vec::new()));
    let live = Rc::new(RecordingListener {
        name: "live".to_string(),
        record: Rc::clone(&record),
    });
    let doomed = Rc::new(RecordingListener {
        name: "doomed".to_string(),
        record: Rc::clone(&record),
    });

    let mut dispatcher: PriorityEventDispatcher<u32, Event, RecordingListener, BoxedFn> =
        PriorityEventDispatcher::default();
    dispatcher.add_listener(Event::VariantA, &doomed, 1);
    dispatcher.add_listener(Event::VariantA, &live, 1);

    drop(doomed);

    dispatcher.dispatch_event(&Event::VariantA);
    dispatcher.dispatch_event(&Event::VariantA);

    assert_eq!(record.borrow().as_slice(), ["live", "live"]);
}

#[test]
fn rc_priority_dispatches_to_functions() {
    let counter = Rc::new(Cell::new(0));
    let captured = Rc::clone(&counter);
    let closure: BoxedFn = Box::new(move |_event: &Event| {
        captured.set(captured.get() + 1);
        None
    });

    let mut dispatcher: PriorityEventDispatcher<u32, Event, RecordingListener, BoxedFn> =
        PriorityEventDispatcher::default();
    dispatcher.add_fn(Event::VariantA, closure, 1);

    dispatcher.dispatch_event(&Event::VariantA);
    dispatcher.dispatch_event(&Event::VariantB);

    assert_eq!(counter.get(), 1);
}

#[test]
fn rc_priority_propagation_stop_protects_later_levels() {
    let record = Rc::new(RefCell::new(Vec::new()));
    let early = Rc::new(RecordingListener {
        name: "early".to_string(),
        record: Rc::clone(&record),
    });
    let late = Rc::new(RecordingListener {
        name: "late".to_string(),
        record: Rc::clone(&record),
    });

    let mut dispatcher: PriorityEventDispatcher<u32, Event, RecordingListener, BoxedFn> =
        PriorityEventDispatcher::default();
    dispatcher.add_listener(Event::VariantA, &early, 0);
    let halting: BoxedFn = Box::new(|_event: &Event| {
        Some(DispatcherRequest::StopPropagation)
    });
    dispatcher.add_fn(Event::VariantA, halting, 0);
    dispatcher.add_listener(Event::VariantA, &late, 1);

    dispatcher.dispatch_event(&Event::VariantA);

    assert_eq!(record.borrow().as_slice(), ["early"]);
}
