use datakit::atomic_boolean::AtomicBoolean;
use datakit::blocking_queue::BlockingQueue;
use datakit::builder_pattern::{Car, CarBuilder};

#[test]
fn basic_test() {
    let mut ab = AtomicBoolean::new(false);
    assert_eq!(ab.get(), false);

    ab.set(true);
    assert_eq!(ab.get(), true);
}

#[test]
fn test_concurrent_access() {
    assert!(true)
}

#[test]
fn test_single_thread() {
    let mut queue = BlockingQueue::new();
    let res1 = queue.poll();

    assert_eq!(res1, None);
    assert_eq!(queue.is_empty(), true);

    queue.add(3);
    queue.add(2);
    queue.add(1);

    assert_eq!(queue.is_empty(), false);

    let res2 = queue.poll().unwrap();

    assert_eq!(res2, 3);
    assert_eq!(queue.is_empty(), false);

    queue.clear();
    let res3 = queue.poll();

    assert_eq!(res3, None);
    assert_eq!(queue.is_empty(), true);
}

#[test]
fn test_fn() {
    let mut queue = BlockingQueue::new();
    let f = move || false;
    queue.add(f);
    let res = queue.poll().unwrap();
    assert_eq!(res(), false);
}

#[test]
fn queue_is_first_in_first_out() {
    let mut queue = BlockingQueue::new();
    for i in 0..10 {
        queue.add(i);
    }
    for i in 0..10 {
        assert_eq!(queue.poll(), Some(i));
    }
    assert_eq!(queue.poll(), None);
}

#[test]
fn builder_pattern_test() {
    let builder = CarBuilder::new();

    let car = builder.with_color("black").with_maker("lamborghini").with_seats(4).build();

    let expected =
        Car { color: "black".to_string(), maker: "lamborghini".to_string(), seats: 4 };

    assert_eq!(car, expected);
}

#[test]
fn builder_defaults() {
    let car = CarBuilder::new().build();
    assert_eq!(car, Car { color: String::new(), maker: String::new(), seats: 4 });
    let car = CarBuilder::new().with_seats(2).with_seats(7).build();
    assert_eq!(car.seats, 7);
}

#[test]
fn singleton_test() {
    let inst1 = datakit::singleton::get_instance();
    let inst2 = datakit::singleton::get_instance();

    assert_eq!(inst1, inst2);
    assert_eq!(inst2, datakit::singleton::INSTANCE);
}
