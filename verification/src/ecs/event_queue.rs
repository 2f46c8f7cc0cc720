//! Two-window event queue: on `flush`, `previous <- current` and
//! `current <- empty`. The app flushes once per frame after systems and
//! command flush.

use vstd::prelude::*;

verus! {

/// Typed two-window event buffer resource.
pub struct EventQueue<T> {
    current: Vec<T>,
    previous: Vec<T>,
}

impl<T> EventQueue<T> {
    /// Events sent since the last flush.
    pub closed spec fn current_events(&self) -> Seq<T> {
        self.current@
    }

    /// Events of the window before the last flush.
    pub closed spec fn previous_events(&self) -> Seq<T> {
        self.previous@
    }

    /// Everything visible to readers: previous window first, then current.
    pub open spec fn all_events(&self) -> Seq<T> {
        self.previous_events() + self.current_events()
    }

    /// Empty queue.
    pub fn new() -> (q: Self)
        ensures
            q.current_events() == Seq::<T>::empty(),
            q.previous_events() == Seq::<T>::empty(),
    {
        EventQueue { current: Vec::new(), previous: Vec::new() }
    }

    /// Append an event to the current window.
    pub fn send(&mut self, event: T)
        ensures
            final(self).current_events() == old(self).current_events().push(event),
            final(self).previous_events() == old(self).previous_events(),
    {
        self.current.push(event);
    }

    /// Previous window first, then current.
    pub fn iter(&self) -> (r: Vec<&T>)
        ensures
            r@.len() == self.all_events().len(),
            forall|i: int| 0 <= i < r@.len() ==> *(#[trigger] r@[i]) == self.all_events()[i],
    {
        let mut r: Vec<&T> = Vec::new();
        let mut i: usize = 0;
        while i < self.previous.len()
            invariant
                i <= self.previous@.len(),
                r@.len() == i,
                forall|k: int| 0 <= k < i ==> *(#[trigger] r@[k]) == self.previous@[k],
            decreases self.previous@.len() - i,
        {
            r.push(&self.previous[i]);
            i += 1;
        }
        let mut j: usize = 0;
        while j < self.current.len()
            invariant
                j <= self.current@.len(),
                r@.len() == self.previous@.len() + j,
                forall|k: int| 0 <= k < self.previous@.len() ==> *(#[trigger] r@[k]) == self.previous@[k],
                forall|k: int| 0 <= k < j ==> *(#[trigger] r@[self.previous@.len() + k]) == self.current@[k],
            decreases self.current@.len() - j,
        {
            r.push(&self.current[j]);
            j += 1;
        }
        proof {
            assert forall|i: int| 0 <= i < r@.len() implies *(#[trigger] r@[i]) == self.all_events()[i] by {
                if i >= self.previous@.len() {
                    let k = i - self.previous@.len();
                    assert(r@[self.previous@.len() + k] == r@[i]);
                }
            }
        }
        r
    }

    /// Current window only.
    pub fn iter_current(&self) -> (r: Vec<&T>)
        ensures
            r@.len() == self.current_events().len(),
            forall|i: int| 0 <= i < r@.len() ==> *(#[trigger] r@[i]) == self.current_events()[i],
    {
        let mut r: Vec<&T> = Vec::new();
        let mut j: usize = 0;
        while j < self.current.len()
            invariant
                j <= self.current@.len(),
                r@.len() == j,
                forall|k: int| 0 <= k < j ==> *(#[trigger] r@[k]) == self.current@[k],
            decreases self.current@.len() - j,
        {
            r.push(&self.current[j]);
            j += 1;
        }
        r
    }

    /// Both windows are empty.
    pub fn is_empty(&self) -> (r: bool)
        ensures
            r == (self.all_events().len() == 0),
    {
        self.current.len() == 0 && self.previous.len() == 0
    }

    /// Total event count across both windows.
    pub fn len(&self) -> (r: usize)
        requires
            self.all_events().len() <= usize::MAX,
        ensures
            r == self.all_events().len(),
    {
        self.previous.len() + self.current.len()
    }

    /// Rotate windows at the frame boundary: the current window becomes the
    /// previous one and the current window starts empty.
    pub fn flush(&mut self)
        ensures
            final(self).previous_events() == old(self).current_events(),
            final(self).current_events() == Seq::<T>::empty(),
    {
        self.previous.clear();
        std::mem::swap(&mut self.current, &mut self.previous);
    }
}

impl<T> Default for EventQueue<T> {
    fn default() -> (q: Self)
        ensures
            q.current_events() == Seq::<T>::empty(),
            q.previous_events() == Seq::<T>::empty(),
    {
        Self::new()
    }
}

} // verus!
