//! A bounded history that keeps the newest entries first.

use std::ops::Index;
use vstd::prelude::*;

verus! {

/// The last `N` values pushed, newest at index 0. Once `N` values are held,
/// a push drops the oldest.
pub struct ArrayQueue<T: Copy, const N: usize>(Vec<T>);

impl<T: Copy, const N: usize> View for ArrayQueue<T, N> {
    type V = Seq<T>;

    closed spec fn view(&self) -> Seq<T> {
        self.0@
    }
}

impl<T: Copy, const N: usize> ArrayQueue<T, N> {
    /// A queue never holds more than `N` values.
    pub closed spec fn wf(&self) -> bool {
        self.0@.len() <= N
    }

    /// A well-formed queue holds at most `N` values.
    pub proof fn lemma_bounded(&self)
        requires
            self.wf(),
        ensures
            self@.len() <= N,
    {
    }

    /// What a queue holds after `val` is pushed onto `held`: `val`, then as
    /// much of `held` as still fits.
    pub open spec fn pushed(held: Seq<T>, val: T) -> Seq<T> {
        if held.len() < N {
            seq![val] + held
        } else {
            seq![val] + held.take(N - 1)
        }
    }

    /// An empty queue.
    pub fn new() -> (q: Self)
        ensures
            q.wf(),
            q@ == Seq::<T>::empty(),
    {
        Self(Vec::new())
    }

    /// Puts `val` in front, dropping the oldest value when the queue is full.
    pub fn push(&mut self, val: T)
        requires
            N > 0,
            old(self).wf(),
        ensures
            final(self).wf(),
            final(self)@ == Self::pushed(old(self)@, val),
    {
        if self.0.len() >= N {
            self.0.truncate(N - 1);
        }
        self.0.insert(0, val);
        proof {
            assert(self.0@ =~= Self::pushed(old(self).0@, val));
        }
    }

    /// Forgets every value.
    pub fn clear(&mut self)
        ensures
            final(self).wf(),
            final(self)@ == Seq::<T>::empty(),
    {
        self.0.clear();
    }

    /// The number of values held.
    pub fn len(&self) -> (n: usize)
        ensures
            n == self@.len(),
    {
        self.0.len()
    }
}

impl<T: Copy, const N: usize> vstd::std_specs::core::IndexSpecImpl<usize> for ArrayQueue<T, N> {
    open spec fn index_req(&self, index: &usize) -> bool {
        *index < self@.len()
    }
}

impl<T: Copy, const N: usize> Index<usize> for ArrayQueue<T, N> {
    type Output = T;

    /// The value pushed `index` pushes before the newest one.
    fn index(&self, index: usize) -> (value: &T)
        ensures
            *value == self@[index as int],
    {
        &self.0[index]
    }
}

} // verus!
