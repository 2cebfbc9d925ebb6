//! A subject and the observers that it notifies of its changes.

use crate::order::{ascending, key_lt, lemma_total_order, less, total_order};
use vstd::prelude::*;

verus! {

/// Something that wants to hear of a change.
pub trait Observer {
    /// Called once for every change of a subject that the observer is
    /// attached to.
    fn update(&self);
}

/// Keeps the observers attached to it in ascending order.
pub struct Subject<'a, T: Observer> {
    observers: Vec<Box<&'a T>>,
}

impl<'a, T: Observer + Ord> Subject<'a, T> {
    /// The observers attached, in the order in which they are notified.
    pub closed spec fn attached(&self) -> Seq<T> {
        Seq::new(self.observers@.len(), |i: int| **self.observers@[i])
    }

    /// The invariant of the subject: its observers are in ascending order.
    pub closed spec fn wf(&self) -> bool {
        ascending(self.attached())
    }

    /// A subject without observers.
    pub fn new() -> (subject: Subject<'a, T>)
        ensures
            subject.wf(),
            subject.attached() == Seq::<T>::empty(),
    {
        let subject = Subject { observers: Vec::new() };
        proof {
            assert(subject.attached() =~= Seq::<T>::empty());
        }
        subject
    }

    /// Attaches `o` behind the observers that are not above it and before
    /// those that are.
    pub fn attach(&mut self, o: &'a T)
        requires
            old(self).wf(),
            total_order::<T>(),
        ensures
            final(self).wf(),
            exists|at: int|
                {
                    &&& 0 <= at <= old(self).attached().len()
                    &&& #[trigger] final(self).attached() == old(self).attached().insert(at, *o)
                    &&& forall|j: int| 0 <= j < at ==> !key_lt(*o, #[trigger] old(self).attached()[j])
                    &&& forall|j: int|
                        at <= j < old(self).attached().len() ==> key_lt(
                            *o,
                            #[trigger] old(self).attached()[j],
                        )
                },
    {
        let ghost before = self.attached();
        proof {
            lemma_total_order::<T>();
        }
        let mut lo: usize = 0;
        let mut hi: usize = self.observers.len();
        while lo < hi
            invariant
                total_order::<T>(),
                before == self.attached(),
                before.len() == self.observers@.len(),
                ascending(before),
                lo <= hi <= before.len(),
                forall|j: int| 0 <= j < lo ==> !key_lt(*o, #[trigger] before[j]),
                forall|j: int| hi <= j < before.len() ==> key_lt(*o, #[trigger] before[j]),
            decreases hi - lo,
        {
            let mid: usize = lo + (hi - lo) / 2;
            proof {
                lemma_total_order::<T>();
                assert(before[mid as int] == **self.observers@[mid as int]);
            }
            if less(o, &**self.observers[mid]) {
                proof {
                    assert forall|j: int| mid <= j < before.len() implies key_lt(
                        *o,
                        #[trigger] before[j],
                    ) by {
                        if mid < j {
                            assert(!key_lt(before[j], before[mid as int]));
                        }
                    }
                }
                hi = mid;
            } else {
                proof {
                    assert forall|j: int| 0 <= j < mid + 1 implies !key_lt(
                        *o,
                        #[trigger] before[j],
                    ) by {
                        if j < mid {
                            assert(!key_lt(before[mid as int], before[j]));
                        }
                    }
                }
                lo = mid + 1;
            }
        }
        self.observers.insert(lo, Box::new(o));
        proof {
            lemma_total_order::<T>();
            let after = self.attached();
            before.insert_ensures(lo as int, *o);
            old(self).observers@.insert_ensures(lo as int, Box::new(o));
            assert(after =~= before.insert(lo as int, *o));
            assert forall|i: int, j: int| 0 <= i < j < after.len() implies !key_lt(
                #[trigger] after[j],
                #[trigger] after[i],
            ) by {
                let x = if i < lo {
                    i
                } else {
                    i - 1
                };
                let y = if j < lo {
                    j
                } else {
                    j - 1
                };
                if i != lo && j != lo {
                    assert(after[i] == before[x]);
                    assert(after[j] == before[y]);
                    assert(!key_lt(before[y], before[x]));
                } else if i == lo {
                    assert(after[j] == before[y]);
                } else {
                    assert(after[i] == before[x]);
                }
            }
        }
    }

    /// Detaches an observer equal to `target` and hands it back; `None`,
    /// with nothing changed, if there is none.
    pub fn detach(&mut self, target: &'a T) -> (detached: Option<&'a T>)
        requires
            old(self).wf(),
            total_order::<T>(),
        ensures
            final(self).wf(),
            match detached {
                Some(o) => {
                    &&& *o == *target
                    &&& exists|at: int|
                        0 <= at < old(self).attached().len() && old(self).attached()[at] == *target
                            && #[trigger] old(self).attached().remove(at) == final(self).attached()
                },
                None => {
                    &&& !old(self).attached().contains(*target)
                    &&& final(self).attached() == old(self).attached()
                },
            },
    {
        let ghost before = self.attached();
        proof {
            lemma_total_order::<T>();
        }
        let mut lo: usize = 0;
        let mut hi: usize = self.observers.len();
        while lo < hi
            invariant
                total_order::<T>(),
                before == self.attached(),
                self.observers == old(self).observers,
                before.len() == self.observers@.len(),
                ascending(before),
                lo <= hi <= before.len(),
                forall|j: int| 0 <= j < lo ==> key_lt(#[trigger] before[j], *target),
                forall|j: int| hi <= j < before.len() ==> !key_lt(#[trigger] before[j], *target),
            decreases hi - lo,
        {
            let mid: usize = lo + (hi - lo) / 2;
            proof {
                lemma_total_order::<T>();
                assert(before[mid as int] == **self.observers@[mid as int]);
            }
            if less(&**self.observers[mid], target) {
                proof {
                    assert forall|j: int| 0 <= j < mid + 1 implies key_lt(
                        #[trigger] before[j],
                        *target,
                    ) by {
                        if j < mid {
                            assert(!key_lt(before[mid as int], before[j]));
                        }
                    }
                }
                lo = mid + 1;
            } else {
                proof {
                    assert forall|j: int| mid <= j < before.len() implies !key_lt(
                        #[trigger] before[j],
                        *target,
                    ) by {
                        if mid < j {
                            assert(!key_lt(before[j], before[mid as int]));
                        }
                    }
                }
                hi = mid;
            }
        }
        proof {
            lemma_total_order::<T>();
            if lo < before.len() {
                assert(before[lo as int] == **self.observers@[lo as int]);
            }
        }
        if lo < self.observers.len() && !less(target, &**self.observers[lo]) {
            let removed = self.observers.remove(lo);
            proof {
                let after = self.attached();
                before.remove_ensures(lo as int);
                old(self).observers@.remove_ensures(lo as int);
                assert(after =~= before.remove(lo as int));
                assert forall|i: int, j: int| 0 <= i < j < after.len() implies !key_lt(
                    #[trigger] after[j],
                    #[trigger] after[i],
                ) by {
                    let x = if i < lo {
                        i
                    } else {
                        i + 1
                    };
                    let y = if j < lo {
                        j
                    } else {
                        j + 1
                    };
                    assert(after[i] == before[x]);
                    assert(after[j] == before[y]);
                    assert(!key_lt(before[y], before[x]));
                }
            }
            Some(*removed)
        } else {
            proof {
                assert forall|j: int| 0 <= j < before.len() implies before[j] != *target by {
                    if j < lo {
                        assert(key_lt(before[j], *target));
                    } else {
                        if lo < j {
                            assert(!key_lt(before[j], before[lo as int]));
                        }
                    }
                }
            }
            None
        }
    }

    /// `update` has returned for every observer attached: whatever an
    /// observer's `update` ensures holds of each of them.
    pub open spec fn notified(&self) -> bool {
        forall|i: int|
            0 <= i < self.attached().len() ==> call_ensures(
                T::update,
                (&#[trigger] self.attached()[i],),
                (),
            )
    }

    /// Calls `update` on every observer, in ascending order.
    pub fn notify(&self)
        ensures
            self.notified(),
    {
        let mut i: usize = 0;
        while i < self.observers.len()
            invariant
                0 <= i <= self.observers@.len(),
                self.attached().len() == self.observers@.len(),
                forall|j: int|
                    0 <= j < i ==> call_ensures(T::update, (&#[trigger] self.attached()[j],), ()),
            decreases self.observers@.len() - i,
        {
            let o: &T = &**&self.observers[i];
            proof {
                assert(self.attached()[i as int] == *o);
            }
            o.update();
            i += 1;
        }
    }

    /// Tells all observers that the state has changed: calls `update` on
    /// every observer, in ascending order, and leaves the subject as it was.
    pub fn change_state(&mut self)
        ensures
            *final(self) == *old(self),
            final(self).notified(),
    {
        self.notify();
    }
}

} // verus!
