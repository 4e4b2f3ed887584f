//! The frontier of a search: the configurations discovered and not yet
//! examined. Here is what every frontier offers, and the stack discipline.

use crate::state::State;
use vstd::multiset::Multiset;
use vstd::prelude::*;

verus! {

broadcast use vstd::seq_lib::group_to_multiset_ensures;

/// A frontier. What distinguishes one discipline from another is only which
/// of the waiting configurations `pop` hands back.
pub trait StateQueue: Sized {
    /// The waiting configurations, each as many times as it was pushed and
    /// not yet popped.
    spec fn items(&self) -> Multiset<State>;

    /// What the frontier's own operations establish and keep, and rely on.
    spec fn wf(&self) -> bool;

    /// A frontier with nothing waiting.
    fn empty() -> (queue: Self)
        ensures
            queue.wf(),
            queue.items() == Multiset::<State>::empty(),
    ;

    /// Adds `state` to the waiting configurations.
    fn push(&mut self, state: State)
        requires
            old(self).wf(),
            state.countable(),
        ensures
            final(self).wf(),
            final(self).items() == old(self).items().insert(state),
    ;

    /// Takes one waiting configuration out, or tells that none is waiting.
    fn pop(&mut self) -> (popped: Option<State>)
        requires
            old(self).wf(),
        ensures
            final(self).wf(),
            match popped {
                Some(state) => {
                    &&& old(self).items().contains(state)
                    &&& final(self).items() == old(self).items().remove(state)
                },
                None => {
                    &&& old(self).items().len() == 0
                    &&& final(self).items() == old(self).items()
                },
            },
    ;

    /// Whether nothing is waiting.
    fn is_empty(&self) -> (none_waiting: bool)
        requires
            self.wf(),
        ensures
            none_waiting == (self.items().len() == 0),
    ;
}

/// The stack discipline: the configuration pushed last is popped first.
impl StateQueue for Vec<State> {
    open spec fn items(&self) -> Multiset<State> {
        self@.to_multiset()
    }

    open spec fn wf(&self) -> bool {
        true
    }

    fn empty() -> (queue: Self)
        ensures
            queue@ == Seq::<State>::empty(),
    {
        Vec::new()
    }

    fn push(&mut self, state: State)
        ensures
            final(self)@ == old(self)@.push(state),
    {
        self.push(state);
    }

    fn pop(&mut self) -> (popped: Option<State>)
        ensures
            old(self)@.len() == 0 ==> popped.is_none() && final(self)@ == old(self)@,
            old(self)@.len() > 0 ==> popped == Some(old(self)@.last())
                && final(self)@ == old(self)@.drop_last(),
    {
        proof {
            let waiting = self@;
            if waiting.len() > 0 {
                assert(waiting.drop_last() =~= waiting.remove(waiting.len() - 1));
            }
        }
        self.pop()
    }

    fn is_empty(&self) -> (none_waiting: bool) {
        self.is_empty()
    }
}

} // verus!
