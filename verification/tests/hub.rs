use chat_relay::hub::{Delivery, Hub};

fn frame(hub: &mut Hub, id: usize) -> String {
    match hub.receive(id) {
        Delivery::Frame(f) => f,
        Delivery::Idle => panic!("nothing waits for {}", id),
        Delivery::Closed => panic!("{} is no subscriber", id),
    }
}

fn idle(hub: &mut Hub, id: usize) -> bool {
    matches!(hub.receive(id), Delivery::Idle)
}

#[test]
fn new_hub_has_no_subscribers() {
    let mut hub = Hub::new(100);
    assert_eq!(hub.capacity(), 100);
    assert!(!hub.is_subscribed(0));
    assert!(matches!(hub.receive(0), Delivery::Closed));
}

#[test]
fn subscribers_are_numbered_from_the_least_free() {
    let mut hub = Hub::new(4);
    assert_eq!(hub.subscribe(), 0);
    assert_eq!(hub.subscribe(), 1);
    assert_eq!(hub.subscribe(), 2);
    hub.unsubscribe(1);
    assert!(!hub.is_subscribed(1));
    assert_eq!(hub.subscribe(), 1);
    hub.unsubscribe(0);
    hub.unsubscribe(2);
    assert_eq!(hub.subscribe(), 0);
    assert_eq!(hub.subscribe(), 2);
    assert_eq!(hub.subscribe(), 3);
}

#[test]
fn a_new_subscriber_sees_nothing_of_the_past() {
    let mut hub = Hub::new(4);
    hub.publish("before anyone");
    let a = hub.subscribe();
    assert!(idle(&mut hub, a));
    hub.publish("one");
    let b = hub.subscribe();
    assert!(idle(&mut hub, b));
    assert_eq!(frame(&mut hub, a), "one");
}

#[test]
fn publish_reaches_every_subscriber_in_one_order() {
    let mut hub = Hub::new(10);
    let ids = [hub.subscribe(), hub.subscribe(), hub.subscribe()];
    hub.publish("one");
    hub.publish("two");
    hub.publish("three");
    for id in ids {
        assert_eq!(frame(&mut hub, id), "one");
        assert_eq!(frame(&mut hub, id), "two");
        assert_eq!(frame(&mut hub, id), "three");
        assert!(idle(&mut hub, id));
    }
}

#[test]
fn receive_takes_from_one_mailbox_only() {
    let mut hub = Hub::new(10);
    let a = hub.subscribe();
    let b = hub.subscribe();
    hub.publish("one");
    assert_eq!(frame(&mut hub, a), "one");
    assert!(idle(&mut hub, a));
    assert_eq!(frame(&mut hub, b), "one");
}

#[test]
fn a_full_mailbox_loses_its_oldest_frame() {
    let mut hub = Hub::new(3);
    let slow = hub.subscribe();
    let quick = hub.subscribe();
    for text in ["1", "2", "3"] {
        hub.publish(text);
        assert_eq!(frame(&mut hub, quick), text);
    }
    hub.publish("4");
    assert_eq!(frame(&mut hub, quick), "4");
    hub.publish("5");
    assert_eq!(frame(&mut hub, quick), "5");
    assert_eq!(frame(&mut hub, slow), "3");
    assert_eq!(frame(&mut hub, slow), "4");
    assert_eq!(frame(&mut hub, slow), "5");
    assert!(idle(&mut hub, slow));
    hub.publish("6");
    hub.publish("7");
    assert_eq!(frame(&mut hub, slow), "6");
    assert_eq!(frame(&mut hub, slow), "7");
    assert_eq!(frame(&mut hub, quick), "6");
    assert_eq!(frame(&mut hub, quick), "7");
}

#[test]
fn a_stalled_subscriber_sees_a_gap_and_then_goes_on() {
    let capacity = 100;
    let mut hub = Hub::new(capacity);
    let stalled = hub.subscribe();
    for n in 0..capacity + 50 {
        hub.publish(&n.to_string());
    }
    for n in 50..capacity + 50 {
        assert_eq!(frame(&mut hub, stalled), n.to_string());
    }
    assert!(idle(&mut hub, stalled));
    hub.publish("after");
    assert_eq!(frame(&mut hub, stalled), "after");
}

#[test]
fn a_hub_of_capacity_one_keeps_the_latest() {
    let mut hub = Hub::new(1);
    let a = hub.subscribe();
    hub.publish("one");
    hub.publish("two");
    assert_eq!(frame(&mut hub, a), "two");
    assert!(idle(&mut hub, a));
}

#[test]
fn a_hub_of_capacity_zero_keeps_nothing() {
    let mut hub = Hub::new(0);
    let a = hub.subscribe();
    hub.publish("one");
    assert!(idle(&mut hub, a));
    assert!(hub.is_subscribed(a));
}

#[test]
fn unsubscribe_ends_the_subscription() {
    let mut hub = Hub::new(4);
    let a = hub.subscribe();
    let b = hub.subscribe();
    hub.publish("one");
    hub.unsubscribe(a);
    assert!(matches!(hub.receive(a), Delivery::Closed));
    assert!(!hub.is_subscribed(a));
    assert_eq!(frame(&mut hub, b), "one");
    hub.unsubscribe(a);
    hub.unsubscribe(17);
    assert!(hub.is_subscribed(b));
}

#[test]
fn a_number_used_again_starts_with_an_empty_mailbox() {
    let mut hub = Hub::new(4);
    let a = hub.subscribe();
    hub.publish("old");
    hub.unsubscribe(a);
    let again = hub.subscribe();
    assert_eq!(again, a);
    assert!(idle(&mut hub, again));
}

#[test]
fn publish_without_subscribers_is_no_failure() {
    let mut hub = Hub::new(4);
    hub.publish("nobody hears this");
    hub.publish("nor this");
    let a = hub.subscribe();
    assert!(idle(&mut hub, a));
}
