use playbox::message_bus::MessageBus;

#[derive(Clone, Debug, PartialEq)]
struct EmptyMessage;

#[derive(Clone, Debug, PartialEq)]
struct EmptyMessage2;

#[test]
fn basic_scenario() {
    let mut bus = MessageBus::new();

    bus.emit(EmptyMessage);

    let subscription = bus.subscribe();
    assert!(!bus.peek_any(&subscription), "New subscriptions shouldn't see prior messages");
    assert_eq!(bus.poll_all(&subscription).len(), 0, "New subscriptions shouldn't see prior messages");

    bus.emit(EmptyMessage);
    bus.emit(EmptyMessage);

    assert!(bus.peek_any(&subscription), "Existing subscriptions should see new messages");
    assert_eq!(bus.poll_all(&subscription).len(), 2, "Subscriptions should see _all_ new messages");

    assert!(!bus.peek_any(&subscription), "Subscriptions should only see each message once");
    assert_eq!(bus.poll_all(&subscription).len(), 0, "Subscriptions should only see each message once");

    bus.emit(EmptyMessage);
    bus.emit(EmptyMessage);

    bus.garbage_collect();

    assert!(bus.peek_any(&subscription), "Existing subscriptions should still see new messages after garbage_collect");
    assert_eq!(bus.poll_all(&subscription).len(), 2, "Subscriptions should still see _all_ new messages after garbage_collect");
}

#[test]
fn subscribe_same_while_polling() {
    let mut bus = MessageBus::new();
    let subscription = bus.subscribe();

    bus.emit(EmptyMessage);

    let mut polled = 0;
    while let Some(_) = bus.poll(&subscription) {
        let same_message_type = bus.subscribe();
        assert_eq!(bus.peek_count(&same_message_type), 0);
        polled += 1;
    }
    assert_eq!(polled, 1);
}

#[test]
fn subscribe_different_while_polling() {
    let mut bus = MessageBus::new();
    let mut bus2: MessageBus<EmptyMessage2> = MessageBus::new();
    let subscription = bus.subscribe();

    bus.emit(EmptyMessage);

    let mut polled = 0;
    while let Some(_) = bus.poll(&subscription) {
        let _different_message_type = bus2.subscribe();
        polled += 1;
    }
    assert_eq!(polled, 1);
}

#[test]
fn emit_different_message_while_polling() {
    let mut bus = MessageBus::new();
    let mut bus2 = MessageBus::new();
    let subscription = bus.subscribe();
    let subscription2 = bus2.subscribe();

    bus.emit(EmptyMessage);

    let mut polled = 0;
    while let Some(_) = bus.poll(&subscription) {
        bus2.emit(EmptyMessage2);
        polled += 1;
    }
    assert_eq!(polled, 1);
    assert_eq!(bus2.count(&subscription2), 1);
}

#[test]
fn emit_same_message_while_polling() {
    let mut bus = MessageBus::new();
    let subscription = bus.subscribe();

    bus.emit(1u32);

    let mut hits = 0;

    for _ in 0..5 {
        let Some(value) = bus.poll(&subscription) else { break };
        for _ in 0..100 {
            bus.emit(5u32);
        }

        hits += value;
    }

    assert_eq!(hits, 4 * 5 + 1, "poll should see all messages emitted during loop");
}

#[test]
fn poll_different_while_polling() {
    let mut bus = MessageBus::new();
    let mut bus2 = MessageBus::new();
    let subscription = bus.subscribe();
    let subscription2 = bus2.subscribe();

    bus.emit(EmptyMessage);
    bus2.emit(EmptyMessage2);

    let mut hits = 0;

    for _ in 0..5 {
        let Some(_) = bus.poll(&subscription) else { break };
        hits += 1;

        for _ in 0..5 {
            let Some(_) = bus2.poll(&subscription2) else { break };
            hits += 10;
        }
    }

    assert_eq!(hits, 11, "Polling for different message types should be fine");
}

#[test]
fn poll_consume_different_while_polling() {
    let mut bus = MessageBus::new();
    let mut bus2 = MessageBus::new();
    let subscription = bus.subscribe();
    let subscription2 = bus2.subscribe();

    bus.emit(2u32);
    bus2.emit(3u16);

    let mut hits = 0;

    for _ in 0..5 {
        let Some(value) = bus.poll(&subscription) else { break };
        for _ in 0..5 {
            let Some(value) = bus2.poll_consume(&subscription2) else { break };
            hits += value as u32 * 10;
        }

        hits += value;
    }

    assert_eq!(hits, 32, "Polling for different message types should be fine");
}

#[test]
fn poll_same_while_polling() {
    let mut bus = MessageBus::new();
    let subscription = bus.subscribe();
    let subscription2 = bus.subscribe();

    bus.emit(EmptyMessage);
    bus.emit(EmptyMessage);

    let mut outer = 0;
    let mut inner = 0;
    for _ in 0..5 {
        let Some(_) = bus.poll(&subscription) else { break };
        outer += 1;
        for _ in 0..5 {
            let Some(_) = bus.poll(&subscription2) else { break };
            inner += 1;
        }
    }
    assert_eq!(outer, 2);
    assert_eq!(inner, 2);
}

#[test]
fn multiple_same_subs() {
    let mut bus = MessageBus::new();

    bus.emit(EmptyMessage);
    let subscription_1 = bus.subscribe();

    bus.emit(EmptyMessage);
    let subscription_2 = bus.subscribe();

    bus.emit(EmptyMessage);

    assert_eq!(bus.poll_all(&subscription_1).len(), 2, "New subscriptions shouldn't see prior messages");
    assert_eq!(bus.poll_all(&subscription_2).len(), 1, "New subscriptions shouldn't see prior messages");

    bus.emit(EmptyMessage);
    bus.emit(EmptyMessage);

    assert_eq!(bus.poll_all(&subscription_1).len(), 2, "Subscriptions should see _all_ new messages");
    assert_eq!(bus.poll_all(&subscription_1).len(), 0, "Subscriptions should only see each message once");

    bus.emit(EmptyMessage);
    bus.emit(EmptyMessage);

    bus.garbage_collect();

    assert!(bus.peek_any(&subscription_1), "Existing subscriptions should still see new messages after garbage_collect");
    assert_eq!(bus.poll_all(&subscription_1).len(), 2, "Subscriptions should still see _all_ new messages after garbage_collect");

    assert!(bus.peek_any(&subscription_2));
    assert_eq!(bus.poll_all(&subscription_2).len(), 4);
}

#[test]
fn poll_consume_removes_messages_for_everyone() {
    let mut bus = MessageBus::new();
    let reader = bus.subscribe();
    let consumer = bus.subscribe();

    bus.emit(1u32);
    bus.emit(10u32);

    assert_eq!(bus.poll_consume_all(&consumer), vec![1u32, 10u32]);
    assert_eq!(bus.peek_count(&reader), 0);
    assert!(!bus.any(&reader));
}

#[test]
fn count_marks_everything_read() {
    let mut bus = MessageBus::new();
    let subscription = bus.subscribe();
    bus.emit(EmptyMessage);
    bus.emit(EmptyMessage);
    bus.emit(EmptyMessage);
    assert_eq!(bus.peek_count(&subscription), 3);
    assert_eq!(bus.count(&subscription), 3);
    assert_eq!(bus.peek_count(&subscription), 0);
    assert!(!bus.peek_any(&subscription));
}

#[test]
fn unsubscribed_readers_do_not_hold_back_collection() {
    let mut bus = MessageBus::new();
    let early = bus.subscribe();
    let late = bus.subscribe();
    bus.emit(7u32);
    bus.emit(8u32);
    assert_eq!(bus.poll_all(&late), vec![7u32, 8u32]);
    bus.unsubscribe(early);
    bus.garbage_collect();
    bus.emit(9u32);
    assert_eq!(bus.poll_all(&late), vec![9u32]);
}

#[test]
fn consuming_keeps_other_subscriptions_in_place() {
    let mut bus: MessageBus<u32> = MessageBus::new();
    let s1 = bus.subscribe();
    let s2 = bus.subscribe();
    bus.emit(1);
    assert_eq!(bus.poll_all(&s1), vec![1]);
    assert_eq!(bus.poll_consume_all(&s2), vec![1]);
    bus.emit(2);
    assert!(bus.peek_any(&s1));
    assert_eq!(bus.poll_all(&s1), vec![2]);
    assert_eq!(bus.poll_consume(&s2), Some(2));

    // One message consumed from the middle: the reader past it keeps its place.
    bus.emit(3);
    bus.emit(4);
    assert_eq!(bus.poll(&s1), Some(3));
    assert_eq!(bus.poll_consume(&s2), Some(3));
    assert_eq!(bus.poll_all(&s1), vec![4]);
}
