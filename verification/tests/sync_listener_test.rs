use hey_listen::sync::{EventDispatcher, Listener, PriorityDispatcherResult};
use std::ops::Deref;
use std::sync::{Arc, Mutex};

#[derive(Clone, Eq, Hash, PartialEq)]
enum Event {
    VariantA,
    VariantB,
}

type BoxedFn = Box<dyn Fn(&Event) -> Option<PriorityDispatcherResult>>;

struct EventListener {
    received_variant_a: bool,
    received_variant_b: bool,
}

impl Listener<Event> for Mutex<EventListener> {
    fn on_event(&self, event: &Event) -> Option<PriorityDispatcherResult> {
        let mut state = self.lock().unwrap();
        match *event {
            Event::VariantA => state.received_variant_a = true,
            Event::VariantB => state.received_variant_b = true,
        }
        None
    }
}

enum EnumListener {
    SomeVariant(bool),
}

impl Listener<Event> for Mutex<EnumListener> {
    fn on_event(&self, event: &Event) -> Option<PriorityDispatcherResult> {
        if let Event::VariantA = *event {
            let mut state = self.lock().unwrap();
            match *state {
                EnumListener::SomeVariant(ref mut x) => *x = true,
            }
        }
        None
    }
}

#[test]
fn dispatch_enum_variant_with_field() {
    let listener = Arc::new(Mutex::new(EnumListener::SomeVariant(false)));
    let mut dispatcher = EventDispatcher::<Event, Mutex<EnumListener>, BoxedFn>::default();
    dispatcher.add_listener(Event::VariantA, &listener);

    dispatcher.dispatch_event(&Event::VariantA);

    let enum_field = match *listener.lock().unwrap().deref() {
        EnumListener::SomeVariant(x) => x,
    };

    assert!(enum_field);
}

#[test]
fn register_one_enum_listener_for_one_event_variant_but_dispatch_two_variants() {
    let listener = Arc::new(Mutex::new(EventListener {
        received_variant_a: false,
        received_variant_b: false,
    }));

    let mut dispatcher = EventDispatcher::<Event, Mutex<EventListener>, BoxedFn>::default();
    dispatcher.add_listener(Event::VariantA, &listener);

    dispatcher.dispatch_event(&Event::VariantA);
    let a_has_been_received = listener.lock().unwrap().received_variant_a;
    let b_has_been_received = listener.lock().unwrap().received_variant_b;
    assert!(a_has_been_received);
    assert!(!b_has_been_received);

    dispatcher.dispatch_event(&Event::VariantB);
    let a_has_been_received = listener.lock().unwrap().received_variant_a;
    let b_has_been_received = listener.lock().unwrap().received_variant_b;
    assert!(a_has_been_received);
    assert!(!b_has_been_received);
}

#[test]
fn register_one_listener_for_two_event_variants_and_dispatch_two_variants() {
    let listener = Arc::new(Mutex::new(EventListener {
        received_variant_a: false,
        received_variant_b: false,
    }));

    let mut dispatcher = EventDispatcher::<Event, Mutex<EventListener>, BoxedFn>::default();

    dispatcher.add_listener(Event::VariantA, &listener);
    dispatcher.add_listener(Event::VariantB, &listener);

    dispatcher.dispatch_event(&Event::VariantA);
    let a_has_been_received = listener.lock().unwrap().received_variant_a;
    let b_has_been_received = listener.lock().unwrap().received_variant_b;
    assert!(a_has_been_received);
    assert!(!b_has_been_received);

    dispatcher.dispatch_event(&Event::VariantB);
    let a_has_been_received = listener.lock().unwrap().received_variant_a;
    let b_has_been_received = listener.lock().unwrap().received_variant_b;
    assert!(a_has_been_received);
    assert!(b_has_been_received);
}

#[test]
fn dispatch_to_function() {
    struct MethodListener {
        used_method: bool,
    }

    impl MethodListener {
        fn test_method(&mut self, _event: &Event) {
            self.used_method = true;
        }
    }

    let listener = Arc::new(Mutex::new(MethodListener { used_method: false }));
    let weak_listener_ref = Arc::downgrade(&Arc::clone(&listener));

    let closure: BoxedFn = Box::new(move |event: &Event| {
        let listener = weak_listener_ref.upgrade().unwrap();
        listener.lock().unwrap().test_method(event);

        None
    });

    let mut dispatcher = EventDispatcher::<Event, Mutex<EventListener>, BoxedFn>::default();
    dispatcher.add_fn(Event::VariantA, closure);
    dispatcher.dispatch_event(&Event::VariantA);

    let listener = listener.lock().unwrap();
    assert!(listener.used_method);
}

#[test]
fn register_and_request_stop_listening() {
    #[derive(Clone, Eq, Hash, PartialEq)]
    enum Event {
        EventType,
    }

    struct ListenerStruct {
        dispatched_events: usize,
    }

    impl Listener<Event> for Mutex<ListenerStruct> {
        fn on_event(&self, _: &Event) -> Option<PriorityDispatcherResult> {
            self.lock().unwrap().dispatched_events += 1;
            Some(PriorityDispatcherResult::StopListening)
        }
    }

    let listener = Arc::new(Mutex::new(ListenerStruct { dispatched_events: 0 }));

    let mut dispatcher = EventDispatcher::<
        Event,
        Mutex<ListenerStruct>,
        Box<dyn Fn(&Event) -> Option<PriorityDispatcherResult>>,
    >::default();

    dispatcher.add_listener(Event::EventType, &listener);
    dispatcher.dispatch_event(&Event::EventType);
    dispatcher.dispatch_event(&Event::EventType);
    assert_eq!(listener.lock().unwrap().dispatched_events, 1);
}

#[test]
fn register_one_listener_for_one_event_variant_but_dispatch_two_variants() {
    #[derive(Clone, Eq)]
    enum Event {
        VariantA(i32),
        VariantB(i32),
    }

    impl std::hash::Hash for Event {
        fn hash<H: std::hash::Hasher>(&self, _state: &mut H) {}
    }

    impl PartialEq for Event {
        fn eq(&self, other: &Event) -> bool {
            std::mem::discriminant(self) == std::mem::discriminant(other)
        }
    }

    struct VariantListener {
        received_variant_a: bool,
        received_variant_b: bool,
    }

    impl Listener<Event> for Mutex<VariantListener> {
        fn on_event(&self, event: &Event) -> Option<PriorityDispatcherResult> {
            let mut state = self.lock().unwrap();
            match *event {
                Event::VariantA(_) => state.received_variant_a = true,
                Event::VariantB(_) => state.received_variant_b = true,
            }
            None
        }
    }

    let listener = Arc::new(Mutex::new(VariantListener {
        received_variant_a: false,
        received_variant_b: false,
    }));
    let mut dispatcher = EventDispatcher::<
        Event,
        Mutex<VariantListener>,
        Box<dyn Fn(&Event) -> Option<PriorityDispatcherResult>>,
    >::default();

    dispatcher.add_listener(Event::VariantA(5), &listener);
    dispatcher.add_listener(Event::VariantB(0), &listener);

    dispatcher.dispatch_event(&Event::VariantA(10));
    let a_has_been_received = listener.lock().unwrap().received_variant_a;
    let b_has_been_received = listener.lock().unwrap().received_variant_b;
    assert!(a_has_been_received);
    assert!(!b_has_been_received);

    dispatcher.dispatch_event(&Event::VariantB(10));
    let b_has_been_received = listener.lock().unwrap().received_variant_b;
    assert!(b_has_been_received);
}

#[test]
fn stop_propagation_on_sync_dispatcher() {
    struct HaltingListener {
        has_been_dispatched: bool,
    }

    impl Listener<Event> for Mutex<HaltingListener> {
        fn on_event(&self, _: &Event) -> Option<PriorityDispatcherResult> {
            self.lock().unwrap().has_been_dispatched = true;

            Some(PriorityDispatcherResult::StopPropagation)
        }
    }

    let listener_a = Arc::new(Mutex::new(HaltingListener { has_been_dispatched: false }));
    let listener_b = Arc::new(Mutex::new(HaltingListener { has_been_dispatched: false }));

    let mut dispatcher = EventDispatcher::<Event, Mutex<HaltingListener>, BoxedFn>::default();

    dispatcher.add_listener(Event::VariantA, &listener_a);
    dispatcher.add_listener(Event::VariantA, &listener_b);

    dispatcher.dispatch_event(&Event::VariantA);
    let a_has_been_dispatched = listener_a.lock().unwrap().has_been_dispatched;
    let b_has_been_dispatched = listener_b.lock().unwrap().has_been_dispatched;
    assert!(a_has_been_dispatched);
    assert!(!b_has_been_dispatched);
}

#[test]
fn stop_listening_and_propagation_on_sync_dispatcher() {
    struct CountingListener {
        dispatch_counter: usize,
    }

    impl Listener<Event> for Mutex<CountingListener> {
        fn on_event(&self, _: &Event) -> Option<PriorityDispatcherResult> {
            self.lock().unwrap().dispatch_counter += 1;

            Some(PriorityDispatcherResult::StopListeningAndPropagation)
        }
    }

    let listener_a = Arc::new(Mutex::new(CountingListener { dispatch_counter: 0 }));
    let listener_b = Arc::new(Mutex::new(CountingListener { dispatch_counter: 0 }));

    let mut dispatcher = EventDispatcher::<Event, Mutex<CountingListener>, BoxedFn>::default();

    dispatcher.add_listener(Event::VariantA, &listener_a);
    dispatcher.add_listener(Event::VariantA, &listener_b);

    let counter_a = listener_a.lock().unwrap().dispatch_counter;
    let counter_b = listener_b.lock().unwrap().dispatch_counter;
    assert_eq!(counter_a, 0);
    assert_eq!(counter_b, 0);

    dispatcher.dispatch_event(&Event::VariantA);
    let counter_a = listener_a.lock().unwrap().dispatch_counter;
    let counter_b = listener_b.lock().unwrap().dispatch_counter;
    assert_eq!(counter_a, 1);
    assert_eq!(counter_b, 0);

    dispatcher.dispatch_event(&Event::VariantA);
    let counter_a = listener_a.lock().unwrap().dispatch_counter;
    let counter_b = listener_b.lock().unwrap().dispatch_counter;
    assert_eq!(counter_a, 1);
    assert_eq!(counter_b, 1);

    dispatcher.dispatch_event(&Event::VariantA);
    let counter_a = listener_a.lock().unwrap().dispatch_counter;
    let counter_b = listener_b.lock().unwrap().dispatch_counter;
    assert_eq!(counter_a, 1);
    assert_eq!(counter_b, 1);
}

#[test]
fn stop_listening_on_sync_dispatcher_of_fns() {
    struct UseCounter {
        use_counter: usize,
    }

    let listener = Arc::new(Mutex::new(UseCounter { use_counter: 0 }));

    let weak_listener_ref = Arc::downgrade(&Arc::clone(&listener));
    let closure_a: BoxedFn = Box::new(move |_event: &Event| {
        let listener = weak_listener_ref.upgrade().unwrap();
        listener.lock().unwrap().use_counter += 1;

        Some(PriorityDispatcherResult::StopListening)
    });

    let weak_listener_ref = Arc::downgrade(&Arc::clone(&listener));
    let closure_b: BoxedFn = Box::new(move |_event: &Event| {
        let listener = weak_listener_ref.upgrade().unwrap();
        listener.lock().unwrap().use_counter += 1;

        Some(PriorityDispatcherResult::StopListening)
    });

    let counter = listener.lock().unwrap().use_counter;
    assert_eq!(counter, 0);

    let mut dispatcher = EventDispatcher::<Event, Mutex<EventListener>, BoxedFn>::default();
    dispatcher.add_fn(Event::VariantA, closure_a);
    dispatcher.add_fn(Event::VariantA, closure_b);
    dispatcher.dispatch_event(&Event::VariantA);

    let counter = listener.lock().unwrap().use_counter;
    assert_eq!(counter, 2);

    dispatcher.dispatch_event(&Event::VariantA);
    let counter = listener.lock().unwrap().use_counter;
    assert_eq!(counter, 2);
}

#[test]
fn stop_propagation_on_sync_dispatcher_of_fns() {
    struct UseCounter {
        use_counter: usize,
    }

    let listener = Arc::new(Mutex::new(UseCounter { use_counter: 0 }));

    let weak_listener_ref = Arc::downgrade(&Arc::clone(&listener));
    let closure_a: BoxedFn = Box::new(move |_event: &Event| {
        let listener = weak_listener_ref.upgrade().unwrap();
        listener.lock().unwrap().use_counter += 1;

        Some(PriorityDispatcherResult::StopPropagation)
    });

    let weak_listener_ref = Arc::downgrade(&Arc::clone(&listener));
    let closure_b: BoxedFn = Box::new(move |_event: &Event| {
        let listener = weak_listener_ref.upgrade().unwrap();
        listener.lock().unwrap().use_counter += 1;

        Some(PriorityDispatcherResult::StopPropagation)
    });

    let counter = listener.lock().unwrap().use_counter;
    assert_eq!(counter, 0);

    let mut dispatcher = EventDispatcher::<Event, Mutex<EventListener>, BoxedFn>::default();
    dispatcher.add_fn(Event::VariantA, closure_a);
    dispatcher.add_fn(Event::VariantA, closure_b);
    dispatcher.dispatch_event(&Event::VariantA);

    let counter = listener.lock().unwrap().use_counter;
    assert_eq!(counter, 1);

    dispatcher.dispatch_event(&Event::VariantA);
    let counter = listener.lock().unwrap().use_counter;
    assert_eq!(counter, 2);
}

#[test]
fn stop_propagation_and_listening_on_sync_dispatcher_of_fns() {
    struct UseCounter {
        use_counter: usize,
    }

    let listener = Arc::new(Mutex::new(UseCounter { use_counter: 0 }));

    let weak_listener_ref = Arc::downgrade(&Arc::clone(&listener));
    let closure_a: BoxedFn = Box::new(move |_event: &Event| {
        let listener = weak_listener_ref.upgrade().unwrap();
        listener.lock().unwrap().use_counter += 1;

        Some(PriorityDispatcherResult::StopListeningAndPropagation)
    });

    let weak_listener_ref = Arc::downgrade(&Arc::clone(&listener));
    let closure_b: BoxedFn = Box::new(move |_event: &Event| {
        let listener = weak_listener_ref.upgrade().unwrap();
        listener.lock().unwrap().use_counter += 1;

        Some(PriorityDispatcherResult::StopListeningAndPropagation)
    });

    let counter = listener.lock().unwrap().use_counter;
    assert_eq!(counter, 0);

    let mut dispatcher = EventDispatcher::<Event, Mutex<EventListener>, BoxedFn>::default();
    dispatcher.add_fn(Event::VariantA, closure_a);
    dispatcher.add_fn(Event::VariantA, closure_b);
    dispatcher.dispatch_event(&Event::VariantA);

    let counter = listener.lock().unwrap().use_counter;
    assert_eq!(counter, 1);

    dispatcher.dispatch_event(&Event::VariantA);
    let counter = listener.lock().unwrap().use_counter;
    assert_eq!(counter, 2);

    dispatcher.dispatch_event(&Event::VariantA);
    let counter = listener.lock().unwrap().use_counter;
    assert_eq!(counter, 2);
}

#[test]
fn dropped_listeners_are_never_invoked_again() {
    let live = Arc::new(Mutex::new(EventListener {
        received_variant_a: false,
        received_variant_b: false,
    }));
    let doomed = Arc::new(Mutex::new(EventListener {
        received_variant_a: false,
        received_variant_b: false,
    }));

    let mut dispatcher = EventDispatcher::<Event, Mutex<EventListener>, BoxedFn>::default();
    dispatcher.add_listener(Event::VariantA, &doomed);
    dispatcher.add_listener(Event::VariantA, &live);

    drop(doomed);

    dispatcher.dispatch_event(&Event::VariantA);
    assert!(live.lock().unwrap().received_variant_a);

    dispatcher.dispatch_event(&Event::VariantA);
    assert!(live.lock().unwrap().received_variant_a);
}
