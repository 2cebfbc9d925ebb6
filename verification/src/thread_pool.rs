//! The bookkeeping of a pool of worker threads: whether the pool still
//! accepts tasks, which tasks wait, and what a worker does next.
//!
//! The threads themselves belong to whoever runs the pool: every worker
//! asks `next_step` with the pool locked, and then runs the task, sleeps,
//! or ends, as it is told.

use crate::atomic_boolean::AtomicBoolean;
use crate::blocking_queue::BlockingQueue;
use vstd::prelude::*;

verus! {

/// What a worker does next.
pub enum Step<T> {
    /// Run the job given, which has left the queue.
    Run(T),
    /// Nothing waits, but the pool is running: sleep and ask again.
    Sleep,
    /// The pool was stopped and nothing waits: end.
    Finish,
}

/// The state of a pool of `size` worker threads.
pub struct FixedThreadPool<T> {
    pub name: String,
    pub size: u32,
    running: AtomicBoolean,
    queue: BlockingQueue<T>,
}

impl<T> FixedThreadPool<T> {
    /// Whether the pool accepts new tasks.
    pub closed spec fn running(&self) -> bool {
        self.running@
    }

    /// The tasks that wait, oldest first.
    pub closed spec fn pending(&self) -> Seq<T> {
        self.queue@
    }

    /// The number of workers the pool was made for.
    pub closed spec fn spec_size(&self) -> u32 {
        self.size
    }

    /// The name of the pool.
    pub closed spec fn spec_name(&self) -> Seq<char> {
        self.name@
    }

    /// A running pool of `size` workers with the default name and no tasks.
    pub fn new(size: u32) -> (pool: FixedThreadPool<T>)
        ensures
            pool.running(),
            pool.pending() == Seq::<T>::empty(),
            pool.spec_size() == size,
            pool.spec_name() == "default-poll"@,
    {
        Self::new_with_name(size, "default-poll".to_owned())
    }

    /// A running pool of `size` workers with the name `name` and no tasks.
    pub fn new_with_name(size: u32, name: String) -> (pool: FixedThreadPool<T>)
        ensures
            pool.running(),
            pool.pending() == Seq::<T>::empty(),
            pool.spec_size() == size,
            pool.spec_name() == name@,
    {
        FixedThreadPool {
            name: name,
            size: size,
            running: AtomicBoolean::new(true),
            queue: BlockingQueue::new(),
        }
    }

    /// Whether the pool accepts new tasks.
    pub fn is_running(&self) -> (running: bool)
        ensures
            running == self.running(),
    {
        self.running.get()
    }

    /// Whether no task waits.
    pub fn is_idle(&self) -> (idle: bool)
        ensures
            idle == (self.pending().len() == 0),
    {
        self.queue.is_empty()
    }

    /// Stops the pool: no new tasks are accepted, the waiting ones are
    /// still run.
    pub fn stop(&mut self)
        ensures
            !final(self).running(),
            final(self).pending() == old(self).pending(),
            final(self).spec_size() == old(self).spec_size(),
            final(self).spec_name() == old(self).spec_name(),
    {
        self.running.set(false);
    }

    /// Shuts the pool down: no new tasks are accepted and the waiting ones
    /// are thrown away.
    pub fn shutdown(&mut self)
        ensures
            !final(self).running(),
            final(self).pending() == Seq::<T>::empty(),
            final(self).spec_size() == old(self).spec_size(),
            final(self).spec_name() == old(self).spec_name(),
    {
        self.stop();
        self.queue.clear();
    }

    /// Hands a task to a running pool: it waits behind the tasks already
    /// there.
    pub fn execute(&mut self, task: T)
        requires
            old(self).running(),
        ensures
            final(self).running(),
            final(self).pending() == old(self).pending().push(task),
            final(self).spec_size() == old(self).spec_size(),
            final(self).spec_name() == old(self).spec_name(),
    {
        self.queue.add(task);
    }

    /// What a worker does next: it ends if the pool was stopped and no
    /// task waits; else it runs the oldest waiting task, or sleeps if there
    /// is none.
    pub fn next_step(&mut self) -> (step: Step<T>)
        ensures
            final(self).running() == old(self).running(),
            final(self).spec_size() == old(self).spec_size(),
            final(self).spec_name() == old(self).spec_name(),
            old(self).pending().len() > 0 ==> step == Step::Run(old(self).pending()[0])
                && final(self).pending() == old(self).pending().subrange(
                1,
                old(self).pending().len() as int,
            ),
            old(self).pending().len() == 0 ==> final(self).pending() == old(self).pending()
                && step == (if old(self).running() {
                Step::<T>::Sleep
            } else {
                Step::<T>::Finish
            }),
    {
        if self.running.get() || !self.queue.is_empty() {
            match self.queue.poll() {
                Some(task) => Step::Run(task),
                None => Step::Sleep,
            }
        } else {
            Step::Finish
        }
    }
}

} // verus!
