use hey_listen::sync::AsyncDispatcher;

#[derive(Clone, Eq, Hash, PartialEq)]
enum Event {
    VariantA,
    VariantB,
}

#[test]
fn async_registry_groups_listeners_by_identifier() {
    let mut dispatcher: AsyncDispatcher<Event, &'static str> =
        AsyncDispatcher::new().expect("Failed constructing dispatcher");

    dispatcher.add_listener(Event::VariantA, "first");
    dispatcher.add_listener(Event::VariantA, "second");
    dispatcher.add_listener(Event::VariantB, "third");

    assert_eq!(
        dispatcher.listeners_for(&Event::VariantA).unwrap().as_slice(),
        ["first", "second"]
    );
    assert_eq!(dispatcher.listeners_for(&Event::VariantB).unwrap().as_slice(), ["third"]);
}

#[test]
fn async_apply_removals_drops_exactly_the_recorded_positions() {
    let mut dispatcher: AsyncDispatcher<Event, &'static str> =
        AsyncDispatcher::new().expect("Failed constructing dispatcher");

    dispatcher.add_listener(Event::VariantA, "keep_a");
    dispatcher.add_listener(Event::VariantA, "drop_b");
    dispatcher.add_listener(Event::VariantA, "keep_c");
    dispatcher.add_listener(Event::VariantA, "drop_d");

    // Completion order is arbitrary, repeats and stale positions are
    // tolerated: only positions 1 and 3 name listeners to remove.
    dispatcher.apply_removals(&Event::VariantA, vec![3, 1, 3, 99]);

    let remaining = dispatcher.listeners_for(&Event::VariantA).unwrap();
    assert_eq!(remaining.len(), 2);
    assert!(remaining.contains(&"keep_a"));
    assert!(remaining.contains(&"keep_c"));
    assert!(!remaining.contains(&"drop_b"));
    assert!(!remaining.contains(&"drop_d"));
}

#[test]
fn async_apply_removals_on_unknown_identifier_is_a_noop() {
    let mut dispatcher: AsyncDispatcher<Event, &'static str> =
        AsyncDispatcher::new().expect("Failed constructing dispatcher");

    dispatcher.add_listener(Event::VariantA, "only");
    dispatcher.apply_removals(&Event::VariantB, vec![0]);

    assert_eq!(dispatcher.listeners_for(&Event::VariantA).unwrap().len(), 1);
    assert!(dispatcher.listeners_for(&Event::VariantB).is_none());
}
