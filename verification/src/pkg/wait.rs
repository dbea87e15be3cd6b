//! Waiters under numbers, and what they are sent.

use crate::sorted_map::SortedMap;
use vstd::prelude::*;

verus! {

/// Waiters that each have a number, by which they are sent data once. A waiter is
/// whatever can take the data.
#[derive(Debug)]
pub struct Wait<T> {
    chs: SortedMap<u64, T>,
    next_id: u64,
}

/// The model of a [`Wait`].
#[verifier::ext_equal]
#[verifier::reject_recursive_types(T)]
pub struct WaitView<T> {
    pub waiting: Map<u64, T>,
    pub next_id: u64,
}

impl<T> View for Wait<T> {
    type V = WaitView<T>;

    closed spec fn view(&self) -> WaitView<T> {
        WaitView { waiting: self.chs@, next_id: self.next_id }
    }
}

impl<T> WaitView<T> {
    /// The waiters after a new one.
    pub open spec fn with(self, waiter: T) -> WaitView<T> {
        WaitView {
            waiting: self.waiting.insert(self.next_id, waiter),
            next_id: if self.next_id == u64::MAX {
                0
            } else {
                (self.next_id + 1) as u64
            },
        }
    }

    /// The waiters without one.
    pub open spec fn without(self, id: u64) -> WaitView<T> {
        WaitView { waiting: self.waiting.remove(id), ..self }
    }
}

impl<T> Wait<T> {
    /// What holds of all waiters: their numbers stand in order.
    pub closed spec fn wf(&self) -> bool {
        self.chs.wf()
    }

    /// No waiter.
    pub fn new() -> (r: Wait<T>)
        ensures
            r.wf(),
            r@ == (WaitView { waiting: Map::<u64, T>::empty(), next_id: 1u64 }),
    {
        Wait { chs: SortedMap::new(), next_id: 1 }
    }

    /// Adds a waiter. Its number is returned.
    pub fn register(&mut self, waiter: T) -> (id: u64)
        requires
            old(self).wf(),
        ensures
            final(self).wf(),
            id == old(self)@.next_id,
            final(self)@ == old(self)@.with(waiter),
    {
        let id = self.next_id;
        self.next_id = id.wrapping_add(1);
        let _ = self.chs.insert(id, waiter);
        id
    }

    /// What is sent under a number: the data, and the waiter that it goes to. It
    /// waits no longer. Without such a waiter nothing is sent.
    pub fn trigger(&mut self, id: u64, data: Vec<u8>) -> (r: Option<(T, Vec<u8>)>)
        requires
            old(self).wf(),
        ensures
            final(self).wf(),
            r == (if old(self)@.waiting.contains_key(id) {
                Some((old(self)@.waiting[id], data))
            } else {
                None
            }),
            final(self)@ == old(self)@.without(id),
    {
        match self.chs.remove(&id) {
            Some(waiter) => Some((waiter, data)),
            None => None,
        }
    }

    /// Whether a waiter has a number.
    pub fn is_registered(&self, id: u64) -> (r: bool)
        requires
            self.wf(),
        ensures
            r == self@.waiting.contains_key(id),
    {
        self.chs.contains_key(&id)
    }
}

/// A waiter that was added is the one that its number leads to, it is sent data once,
/// and the others stay as they are.
pub proof fn law_sent_once<T>(s: WaitView<T>, waiter: T, other: u64)
    ensures
        s.with(waiter).waiting.contains_key(s.next_id),
        s.with(waiter).waiting[s.next_id] == waiter,
        !s.with(waiter).without(s.next_id).waiting.contains_key(s.next_id),
        other != s.next_id ==> s.with(waiter).without(s.next_id).waiting.contains_key(other)
            == s.waiting.contains_key(other),
        other != s.next_id && s.waiting.contains_key(other) ==> s.with(waiter).without(
            s.next_id,
        ).waiting[other] == s.waiting[other],
{
}

/// Two waiters get different numbers, and the first still waits after the second came.
pub proof fn law_waiters_have_their_numbers<T>(s: WaitView<T>, first: T, second: T)
    ensures
        s.with(first).next_id != s.next_id,
        s.with(first).with(second).waiting.contains_key(s.next_id),
        s.with(first).with(second).waiting[s.next_id] == first,
        s.with(first).with(second).waiting[s.with(first).next_id] == second,
        s.next_id < u64::MAX ==> s.with(first).next_id == s.next_id + 1,
{
}

} // verus!
