use hey_listen::sync::{ParallelDispatchResult, ParallelDispatcher, ParallelListener};
use hey_listen::Error;
use std::sync::{Arc, Mutex, RwLock};

#[derive(Clone, Eq, Hash, PartialEq)]
enum Event {
    VariantA,
    VariantB,
}

#[derive(Default)]
struct CountingEventListener {
    dispatch_counter: usize,
}

impl ParallelListener<Event> for Arc<RwLock<CountingEventListener>> {
    fn on_event(&self, _event: &Event) -> Option<ParallelDispatchResult> {
        self.write().unwrap().dispatch_counter += 1;

        None
    }
}

#[test]
fn dispatch_parallel_to_dyn_traits() {
    let mut dispatcher = ParallelDispatcher::<Event, Arc<RwLock<CountingEventListener>>>::new(
        1,
    ).expect("Failed constructing threadpool");
    let listener_b = Arc::new(RwLock::new(CountingEventListener::default()));
    let listener_c = Arc::new(RwLock::new(CountingEventListener::default()));

    dispatcher.add_listener(Event::VariantB, Arc::clone(&listener_b));
    dispatcher.add_listener(Event::VariantA, Arc::clone(&listener_c));

    dispatcher.dispatch_event(&Event::VariantA);
    assert_eq!(listener_b.try_write().unwrap().dispatch_counter, 0);
    assert_eq!(listener_c.try_write().unwrap().dispatch_counter, 1);

    dispatcher.dispatch_event(&Event::VariantA);
    assert_eq!(listener_b.try_write().unwrap().dispatch_counter, 0);
    assert_eq!(listener_c.try_write().unwrap().dispatch_counter, 2);

    dispatcher.dispatch_event(&Event::VariantA);
    dispatcher.dispatch_event(&Event::VariantB);
    assert_eq!(listener_b.try_write().unwrap().dispatch_counter, 1);
    assert_eq!(listener_c.try_write().unwrap().dispatch_counter, 3);

    dispatcher.dispatch_event(&Event::VariantB);
    assert_eq!(listener_b.try_write().unwrap().dispatch_counter, 2);
    assert_eq!(listener_c.try_write().unwrap().dispatch_counter, 3);
}

#[test]
fn is_send_and_sync() {
    fn assert_send<T: Send + Sync>(_: &T) {}
    assert_send(
        &ParallelDispatcher::<Event, Arc<RwLock<CountingEventListener>>>::new(0).unwrap(),
    );
}

struct SelectiveListener {
    dispatch_counter: Mutex<usize>,
    stop_after_first: bool,
}

impl ParallelListener<Event> for Arc<SelectiveListener> {
    fn on_event(&self, _event: &Event) -> Option<ParallelDispatchResult> {
        *self.dispatch_counter.lock().unwrap() += 1;

        if self.stop_after_first {
            Some(ParallelDispatchResult::StopListening)
        } else {
            None
        }
    }
}

#[test]
fn parallel_removes_only_the_listener_that_asked() {
    for _ in 0..32 {
        let stopping = Arc::new(SelectiveListener {
            dispatch_counter: Mutex::new(0),
            stop_after_first: true,
        });
        let staying = Arc::new(SelectiveListener {
            dispatch_counter: Mutex::new(0),
            stop_after_first: false,
        });

        let mut dispatcher = ParallelDispatcher::<Event, Arc<SelectiveListener>>::new(4)
            .expect("Failed constructing threadpool");
        dispatcher.add_listener(Event::VariantA, Arc::clone(&stopping));
        dispatcher.add_listener(Event::VariantA, Arc::clone(&staying));

        dispatcher.dispatch_event(&Event::VariantA);
        dispatcher.dispatch_event(&Event::VariantA);

        assert_eq!(*stopping.dispatch_counter.lock().unwrap(), 1);
        assert_eq!(*staying.dispatch_counter.lock().unwrap(), 2);
    }
}

#[test]
fn num_threads_keeps_registrations() {
    let listener = Arc::new(RwLock::new(CountingEventListener::default()));
    let mut dispatcher = ParallelDispatcher::<Event, Arc<RwLock<CountingEventListener>>>::new(
        1,
    ).expect("Failed constructing threadpool");
    dispatcher.add_listener(Event::VariantA, Arc::clone(&listener));

    dispatcher.num_threads(2).expect("Failed rebuilding threadpool");

    dispatcher.dispatch_event(&Event::VariantA);
    assert_eq!(listener.try_write().unwrap().dispatch_counter, 1);
}

#[test]
fn error_carries_the_builder_report() {
    let error = Error::ThreadPoolBuilder("could not spawn workers".to_string());
    assert_eq!(error.message(), "could not spawn workers");
}

#[test]
fn build_error_carries_the_runtime_report() {
    let error = hey_listen::parallel::BuildError::NumThreads("too many workers".to_string());
    assert_eq!(error.message(), "too many workers");
}
