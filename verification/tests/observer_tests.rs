use datakit::observer_pattern::{Observer, Subject};
use std::cell::RefCell;
use std::cmp::Ordering;

struct TestObserver<'l> {
    name: String,
    log: &'l RefCell<Vec<String>>,
}

impl<'l> Observer for TestObserver<'l> {
    fn update(&self) {
        println!("[Observer] {} has been updated", self.name);
        self.log.borrow_mut().push(self.name.clone());
    }
}

impl<'l> PartialEq for TestObserver<'l> {
    fn eq(&self, other: &Self) -> bool {
        self.name == other.name
    }
}

impl<'l> Eq for TestObserver<'l> {}

impl<'l> PartialOrd for TestObserver<'l> {
    fn partial_cmp(&self, other: &Self) -> Option<Ordering> {
        Some(self.cmp(other))
    }
}

impl<'l> Ord for TestObserver<'l> {
    fn cmp(&self, other: &Self) -> Ordering {
        self.name.cmp(&other.name)
    }
}

fn observer<'l>(name: &str, log: &'l RefCell<Vec<String>>) -> TestObserver<'l> {
    TestObserver { name: name.to_string(), log }
}

#[test]
fn test_subject() {
    let log = RefCell::new(Vec::new());
    let o1 = observer("Observer1", &log);
    let o2 = observer("Observer2", &log);
    let o3 = observer("Observer3", &log);

    let mut sub = Subject::new();
    sub.attach(&o1);
    sub.attach(&o2);
    sub.attach(&o3);

    sub.change_state();
    assert_eq!(*log.borrow(), vec!["Observer1", "Observer2", "Observer3"]);

    sub.detach(&o1);
    log.borrow_mut().clear();
    sub.change_state();
    assert_eq!(*log.borrow(), vec!["Observer2", "Observer3"]);
}

#[test]
fn observers_are_notified_in_ascending_order() {
    let log = RefCell::new(Vec::new());
    let names = ["d", "b", "e", "a", "c"];
    let observers: Vec<TestObserver> = names.iter().map(|n| observer(n, &log)).collect();
    let mut sub = Subject::new();
    for o in observers.iter() {
        sub.attach(o);
    }
    sub.notify();
    assert_eq!(*log.borrow(), vec!["a", "b", "c", "d", "e"]);
}

#[test]
fn detach_gives_the_observer_back_or_nothing() {
    let log = RefCell::new(Vec::new());
    let a = observer("a", &log);
    let b = observer("b", &log);
    let c = observer("c", &log);
    let mut sub = Subject::new();
    assert!(sub.detach(&a).is_none());
    sub.attach(&b);
    sub.attach(&a);
    assert!(sub.detach(&c).is_none());
    assert_eq!(sub.detach(&a).map(|o| o.name.clone()), Some("a".to_string()));
    assert!(sub.detach(&a).is_none());
    sub.notify();
    assert_eq!(*log.borrow(), vec!["b"]);
}

#[test]
fn an_observer_attached_twice_is_notified_twice() {
    let log = RefCell::new(Vec::new());
    let a = observer("a", &log);
    let b = observer("b", &log);
    let mut sub = Subject::new();
    sub.attach(&a);
    sub.attach(&b);
    sub.attach(&a);
    sub.notify();
    assert_eq!(*log.borrow(), vec!["a", "a", "b"]);
    assert!(sub.detach(&a).is_some());
    log.borrow_mut().clear();
    sub.notify();
    assert_eq!(*log.borrow(), vec!["a", "b"]);
}
