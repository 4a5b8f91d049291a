//! Queue of the tenants, or shards, that wait for their turn.
use vstd::prelude::*;

verus! {

/// First-in first-out ring over a vector whose consumed prefix is cut off now
/// and then.
#[derive(Debug)]
pub struct ActiveRing<T: Copy> {
    buf: Vec<T>,
    head: usize,
}

impl<T: Copy> View for ActiveRing<T> {
    type V = Seq<T>;

    closed spec fn view(&self) -> Seq<T> {
        self.buf@.subrange(self.head as int, self.buf@.len() as int)
    }
}

impl<T: Copy> ActiveRing<T> {
    /// The consumed prefix is a prefix.
    pub closed spec fn wf(&self) -> bool {
        self.head <= self.buf@.len()
    }

    /// An empty ring.
    pub fn new() -> (ring: ActiveRing<T>)
        ensures
            ring.wf(),
            ring@ == Seq::<T>::empty(),
    {
        ActiveRing { buf: Vec::new(), head: 0 }
    }

    /// Number of items.
    pub fn len(&self) -> (n: usize)
        requires
            self.wf(),
        ensures
            n == self@.len(),
    {
        self.buf.len() - self.head
    }

    /// Whether there are no items.
    pub fn is_empty(&self) -> (b: bool)
        requires
            self.wf(),
        ensures
            b == (self@.len() == 0),
    {
        self.len() == 0
    }

    /// Adds an item at the back.
    pub fn push_back(&mut self, item: T)
        requires
            old(self).wf(),
        ensures
            final(self).wf(),
            final(self)@ == old(self)@.push(item),
    {
        if self.head == self.buf.len() {
            self.buf.clear();
            self.head = 0;
        }
        self.buf.push(item);
        assert(self@ =~= old(self)@.push(item));
    }

    /// Takes the item in front, if there is one.
    pub fn pop_front(&mut self) -> (item: Option<T>)
        requires
            old(self).wf(),
        ensures
            final(self).wf(),
            match item {
                Some(x) => old(self)@.len() > 0 && x == old(self)@[0] && final(self)@ == old(
                    self,
                )@.drop_first(),
                None => old(self)@.len() == 0 && final(self)@ == old(self)@,
            },
    {
        if self.head >= self.buf.len() {
            return None;
        }
        let item = self.buf[self.head];
        self.head += 1;
        if self.head > 64 && self.head >= self.buf.len() - self.head {
            self.buf = self.buf.split_off(self.head);
            self.head = 0;
        } else if self.head == self.buf.len() {
            self.buf.clear();
            self.head = 0;
        }
        assert(self@ =~= old(self)@.drop_first());
        Some(item)
    }
}

} // verus!
