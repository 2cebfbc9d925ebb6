use datakit::thread_pool::{FixedThreadPool, Step};

type Task = Box<dyn Fn() -> u32>;

#[test]
fn test_pool_size_1() {
    let pool: FixedThreadPool<Task> = FixedThreadPool::new(1);
    assert_eq!(pool.is_running(), true);
    assert_eq!(pool.size, 1);
    assert_eq!(pool.name, "default-poll");
}

#[test]
fn test_pool_size_4() {
    let pool: FixedThreadPool<Task> = FixedThreadPool::new_with_name(4, "TestPool".to_string());
    assert_eq!(pool.is_running(), true);
    assert_eq!(pool.size, 4);
    assert_eq!(pool.name, "TestPool");
}

#[test]
fn test_pool_with_task() {
    let mut pool: FixedThreadPool<Task> = FixedThreadPool::new(2);

    for i in 0..10 {
        pool.execute(Box::new(move || i));
    }

    let mut executed = Vec::new();
    while let Step::Run(task) = pool.next_step() {
        executed.push(task());
    }
    assert_eq!(executed, (0..10).collect::<Vec<u32>>());
    assert_eq!(pool.is_idle(), true);
}

#[test]
fn test_pool_with_stop() {
    let mut pool: FixedThreadPool<Task> = FixedThreadPool::new(2);

    for i in 0..4 {
        pool.execute(Box::new(move || i));
    }

    // the two workers pick up the first 2 tasks
    assert!(matches!(pool.next_step(), Step::Run(_)));
    assert!(matches!(pool.next_step(), Step::Run(_)));

    assert_eq!(pool.is_idle(), false);
    pool.stop();
    assert_eq!(pool.is_running(), false);
    assert_eq!(pool.is_idle(), false);

    // the waiting tasks are still run, then the workers end
    assert!(matches!(pool.next_step(), Step::Run(_)));
    assert!(matches!(pool.next_step(), Step::Run(_)));
    assert!(matches!(pool.next_step(), Step::Finish));
    assert_eq!(pool.is_idle(), true);
}

#[test]
fn test_pool_with_shutdown() {
    let mut pool: FixedThreadPool<Task> = FixedThreadPool::new(2);

    for i in 0..4 {
        pool.execute(Box::new(move || i));
    }

    assert!(matches!(pool.next_step(), Step::Run(_)));
    assert!(matches!(pool.next_step(), Step::Run(_)));

    assert_eq!(pool.is_idle(), false);
    pool.shutdown();
    assert_eq!(pool.is_idle(), true);

    assert!(matches!(pool.next_step(), Step::Finish));
    assert_eq!(pool.is_idle(), true);
}

#[test]
fn an_idle_running_pool_tells_its_workers_to_sleep() {
    let mut pool: FixedThreadPool<Task> = FixedThreadPool::new(1);
    assert!(matches!(pool.next_step(), Step::Sleep));
    pool.execute(Box::new(|| 7));
    match pool.next_step() {
        Step::Run(task) => assert_eq!(task(), 7),
        _ => panic!("a task was waiting"),
    }
    assert!(matches!(pool.next_step(), Step::Sleep));
}
