use std::cell::RefCell;
use std::rc::Rc;

use mp2c::asynch::{Carousel, CarouselError, Consumer, Event, PollAction};
use mp2c::asynch::{clone_payload, fan_out, is_terminate, poll_action, terminate_event, wrap_message};
use mp2c::mp2c::Consumer as Mp2cConsumer;

struct TestConsumer1;

impl Consumer for TestConsumer1 {
    fn consume(&self, data: Vec<u8>) {
        assert_eq!(String::from_utf8(data).unwrap(), String::from("test"));
    }
}

struct TestConsumer2;

impl Consumer for TestConsumer2 {
    fn consume(&self, data: Vec<u8>) {
        assert_eq!(String::from_utf8(data).unwrap(), String::from("test"));
    }
}

enum AssertingConsumer {
    One(TestConsumer1),
    Two(TestConsumer2),
}

impl Consumer for AssertingConsumer {
    fn consume(&self, data: Vec<u8>) {
        match self {
            AssertingConsumer::One(c) => c.consume(data),
            AssertingConsumer::Two(c) => c.consume(data),
        }
    }
}

struct LoggingConsumer {
    log: Rc<RefCell<Vec<Vec<u8>>>>,
}

impl Consumer for LoggingConsumer {
    fn consume(&self, data: Vec<u8>) {
        self.log.borrow_mut().push(data);
    }
}

struct PanickingConsumer;

impl Consumer for PanickingConsumer {
    fn consume(&self, _data: Vec<u8>) {
        panic!("no payload may reach this consumer");
    }
}

#[test]
fn basic() {
    let v = vec![
        AssertingConsumer::One(TestConsumer1),
        AssertingConsumer::Two(TestConsumer2),
    ];
    let mut c = Carousel::new(v).unwrap();

    assert!(c.put(String::from("test").into_bytes()).is_ok());
    assert!(c.put(String::from("test").into_bytes()).is_ok());
    assert!(c.put(String::from("test").into_bytes()).is_ok());
    assert!(c.put(String::from("test").into_bytes()).is_ok());

    c.shutdown();

    for lane in &c.lanes {
        assert_eq!(lane.delivered.len(), 4);
        for d in &lane.delivered {
            assert_eq!(String::from_utf8(d.clone()).unwrap(), String::from("test"));
        }
        assert!(lane.stopped);
    }
}

#[test]
fn multi_producer() {
    let v = vec![
        AssertingConsumer::One(TestConsumer1),
        AssertingConsumer::Two(TestConsumer2),
    ];
    let mut c = Carousel::new(v).unwrap();

    for _ in 1..10 {
        assert!(c.put(String::from("test").into_bytes()).is_ok());
    }

    c.shutdown();
}

#[test]
fn nine_producers_two_consumers() {
    let log1: Rc<RefCell<Vec<Vec<u8>>>> = Rc::new(RefCell::new(Vec::new()));
    let log2: Rc<RefCell<Vec<Vec<u8>>>> = Rc::new(RefCell::new(Vec::new()));
    let v = vec![
        LoggingConsumer { log: Rc::clone(&log1) },
        LoggingConsumer { log: Rc::clone(&log2) },
    ];
    let mut c = Carousel::new(v).unwrap();

    for _ in 0..9 {
        assert!(c.put(String::from("test").into_bytes()).is_ok());
    }

    c.shutdown();

    for log in [&log1, &log2] {
        let seen = log.borrow();
        assert_eq!(seen.len(), 9);
        for d in seen.iter() {
            assert_eq!(d.as_slice(), b"test");
        }
    }
    for lane in &c.lanes {
        assert_eq!(lane.delivered.len(), 9);
    }
}

#[test]
fn two_consumers_observe_single_payload() {
    let log1: Rc<RefCell<Vec<Vec<u8>>>> = Rc::new(RefCell::new(Vec::new()));
    let log2: Rc<RefCell<Vec<Vec<u8>>>> = Rc::new(RefCell::new(Vec::new()));
    let v = vec![
        LoggingConsumer { log: Rc::clone(&log1) },
        LoggingConsumer { log: Rc::clone(&log2) },
    ];
    let mut c = Carousel::new(v).unwrap();

    assert!(c.put(String::from("test").into_bytes()).is_ok());
    c.shutdown();

    assert_eq!(log1.borrow().len(), 1);
    assert_eq!(log1.borrow()[0].as_slice(), b"test");
    assert_eq!(log2.borrow().len(), 1);
    assert_eq!(log2.borrow()[0].as_slice(), b"test");
}

#[test]
fn shutdown_without_submissions() {
    let v = vec![PanickingConsumer, PanickingConsumer, PanickingConsumer];
    let mut c = Carousel::new(v).unwrap();

    c.shutdown();

    assert!(c.dispatcher_stopped);
    for lane in &c.lanes {
        assert!(lane.stopped);
        assert!(lane.delivered.is_empty());
        assert!(lane.inbox.is_empty());
    }
}

#[test]
fn empty_consumer_set_rejected() {
    let v: Vec<PanickingConsumer> = Vec::new();
    match Carousel::new(v) {
        Ok(_) => panic!("an empty consumer set must be rejected"),
        Err(e) => assert_eq!(e, CarouselError::NoConsumers),
    }
}

#[test]
fn put_after_shutdown_rejected() {
    let log: Rc<RefCell<Vec<Vec<u8>>>> = Rc::new(RefCell::new(Vec::new()));
    let v = vec![LoggingConsumer { log: Rc::clone(&log) }];
    let mut c = Carousel::new(v).unwrap();

    c.shutdown();

    match c.put(b"late".to_vec()) {
        Ok(()) => panic!("a submission after shutdown must be rejected"),
        Err(e) => assert_eq!(e, CarouselError::Terminated),
    }
    assert!(log.borrow().is_empty());
}

#[test]
fn per_lane_fifo_under_interleaving() {
    let v = vec![
        LoggingConsumer { log: Rc::new(RefCell::new(Vec::new())) },
        LoggingConsumer { log: Rc::new(RefCell::new(Vec::new())) },
    ];
    let mut c = Carousel::new(v).unwrap();

    assert!(c.put(b"a".to_vec()).is_ok());
    assert!(c.put(b"b".to_vec()).is_ok());
    c.dispatcher_step();
    c.lane_step(0);
    c.dispatcher_step();
    c.lane_step(1);
    c.lane_step(1);
    assert!(c.put(b"c".to_vec()).is_ok());
    c.shutdown();

    for lane in &c.lanes {
        assert_eq!(lane.delivered.len(), 3);
        assert_eq!(lane.delivered[0].as_slice(), b"a");
        assert_eq!(lane.delivered[1].as_slice(), b"b");
        assert_eq!(lane.delivered[2].as_slice(), b"c");
    }
}

#[test]
fn broadcast_all_delivers_batch_in_order() {
    let log1: Rc<RefCell<Vec<Vec<u8>>>> = Rc::new(RefCell::new(Vec::new()));
    let log2: Rc<RefCell<Vec<Vec<u8>>>> = Rc::new(RefCell::new(Vec::new()));
    let v = vec![
        LoggingConsumer { log: Rc::clone(&log1) },
        LoggingConsumer { log: Rc::clone(&log2) },
    ];
    let msgs = vec![b"one".to_vec(), b"two".to_vec(), b"three".to_vec()];

    let c = mp2c::asynch::broadcast_all(v, msgs.clone()).unwrap();

    for lane in &c.lanes {
        assert_eq!(lane.delivered, msgs);
        assert!(lane.stopped);
    }
    assert_eq!(*log1.borrow(), msgs);
    assert_eq!(*log2.borrow(), msgs);

    let none: Vec<LoggingConsumer> = Vec::new();
    match mp2c::asynch::broadcast_all(none, vec![b"lost".to_vec()]) {
        Ok(_) => panic!("an empty consumer set must be rejected"),
        Err(e) => assert_eq!(e, CarouselError::NoConsumers),
    }
}

#[test]
fn fan_out_copies_every_lane() {
    let copies = fan_out(&Event::Message(b"ab".to_vec()), 3);
    assert_eq!(copies.len(), 3);
    for copy in &copies {
        match copy {
            Event::Message(data) => assert_eq!(data.as_slice(), b"ab"),
            Event::Terminate => panic!("a message must be copied as a message"),
        }
    }

    let sentinels = fan_out(&terminate_event(), 2);
    assert_eq!(sentinels.len(), 2);
    for s in &sentinels {
        assert!(is_terminate(s));
    }
}

#[test]
fn poll_action_decisions() {
    match poll_action(wrap_message(b"xy".to_vec())) {
        PollAction::Deliver(data) => assert_eq!(data.as_slice(), b"xy"),
        PollAction::Stop => panic!("a message must be delivered"),
    }
    match poll_action(terminate_event()) {
        PollAction::Deliver(_) => panic!("the sentinel must stop the worker"),
        PollAction::Stop => {}
    }
}

#[test]
fn event_clone_is_deep() {
    let message = Event::Message(b"deep".to_vec());
    let copy = message.clone();
    match (message, copy) {
        (Event::Message(a), Event::Message(b)) => {
            assert_eq!(a, b);
        }
        _ => panic!("cloning must keep the variant"),
    }
    assert!(is_terminate(&Event::Terminate.clone()));

    let payload = b"bytes".to_vec();
    let copied = clone_payload(&payload);
    assert_eq!(copied, payload);
}

#[test]
fn mp2c_event_shapes() {
    struct Printer;

    impl Mp2cConsumer for Printer {
        fn consume(&self, data: Vec<u8>) {
            assert_eq!(String::from_utf8(data).unwrap(), String::from("test"));
        }
    }

    let e = mp2c::mp2c::Event::Message(String::from("test").into_bytes());
    match e {
        mp2c::mp2c::Event::Message(data) => Printer.consume(data),
        mp2c::mp2c::Event::Terminate => panic!("a message was built"),
    }
    assert!(matches!(mp2c::mp2c::Event::Terminate, mp2c::mp2c::Event::Terminate));
}
