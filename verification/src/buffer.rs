//! The sliding window: a ring buffer of fixed capacity, and the read-only
//! joint view of two buffers that the match finder searches.
use vstd::prelude::*;
use std::ops::Index;
use crate::errors::Error;

verus! {

/// The last `min(capacity, |items|)` items of `items`: what a window of that
/// capacity retains of everything pushed into it.
pub open spec fn retained<T>(items: Seq<T>, capacity: int) -> Seq<T> {
    if items.len() <= capacity {
        items
    } else {
        items.skip(items.len() - capacity)
    }
}

/// What a window of `capacity` items holds after the items of `items` were
/// pushed into it one by one, `held` being what it held before.
pub open spec fn pushed<T>(held: Seq<T>, items: Seq<T>, capacity: int) -> Seq<T>
    decreases items.len(),
{
    if items.len() == 0 {
        held
    } else {
        pushed(retained(held.push(items[0]), capacity), items.skip(1), capacity)
    }
}

/// Dropping old items early changes nothing: what is retained of a sequence
/// that grew after an earlier cut is what is retained of the whole.
pub proof fn lemma_retained_append<T>(items: Seq<T>, more: Seq<T>, capacity: int)
    requires
        capacity >= 0,
    ensures
        retained(retained(items, capacity) + more, capacity) == retained(items + more, capacity),
{
    assert(retained(retained(items, capacity) + more, capacity) =~= retained(
        items + more,
        capacity,
    ));
}

/// After any run of pushes the window holds at most `capacity` items, and
/// they are the most recent ones in the order in which they were pushed.
pub proof fn lemma_window_keeps_latest<T>(held: Seq<T>, items: Seq<T>, capacity: int)
    requires
        capacity > 0,
        held.len() <= capacity,
    ensures
        pushed(held, items, capacity) == retained(held + items, capacity),
        pushed(held, items, capacity).len() <= capacity,
        forall|k: int|
            #![trigger items[items.len() - 1 - k]]
            0 <= k < items.len() && k < capacity ==> pushed(held, items, capacity)[pushed(
                held,
                items,
                capacity,
            ).len() - 1 - k] == items[items.len() - 1 - k],
    decreases items.len(),
{
    if items.len() == 0 {
        assert(held + items =~= held);
    } else {
        let next = retained(held.push(items[0]), capacity);
        lemma_window_keeps_latest(next, items.skip(1), capacity);
        lemma_retained_append(held.push(items[0]), items.skip(1), capacity);
        assert(held.push(items[0]) + items.skip(1) =~= held + items);
        let w = pushed(held, items, capacity);
        assert forall|k: int| 0 <= k < items.len() && k < capacity implies w[w.len() - 1 - k]
            == #[trigger] items[items.len() - 1 - k] by {
            assert(w == retained(held + items, capacity));
        }
    }
}

/// A buffer that reports its length and hands out its items by position.
pub trait SizedBuffer {
    type Item;

    /// The items, first to last.
    spec fn content(&self) -> Seq<Self::Item>;

    /// What every buffer that can be read satisfies.
    spec fn valid(&self) -> bool;

    /// The number of items.
    fn len(&self) -> (n: usize)
        requires
            self.valid(),
        ensures
            n == self.content().len(),
    ;

    /// The item at position `index`, counted from the first.
    fn at(&self, index: usize) -> (item: &Self::Item)
        requires
            self.valid(),
            index < self.content().len(),
        ensures
            *item == self.content()[index as int],
    ;
}

impl<T> SizedBuffer for Vec<T> {
    type Item = T;

    open spec fn content(&self) -> Seq<T> {
        self@
    }

    open spec fn valid(&self) -> bool {
        true
    }

    fn len(&self) -> (n: usize) {
        Vec::len(self)
    }

    fn at(&self, index: usize) -> (item: &T) {
        &self[index]
    }
}

/// A window over the most recent items: once `capacity()` items are held,
/// each push overwrites the oldest.
#[derive(Debug)]
pub struct RingBuffer<T> {
    cur_start: usize,
    capacity: usize,
    buf: Vec<T>,
}

impl<T> View for RingBuffer<T> {
    type V = Seq<T>;

    /// The items held, oldest first.
    closed spec fn view(&self) -> Seq<T> {
        self.buf@.subrange(self.cur_start as int, self.buf@.len() as int) + self.buf@.subrange(
            0,
            self.cur_start as int,
        )
    }
}

impl<T> RingBuffer<T> {
    /// The storage never outgrows the capacity, and the oldest item stands at
    /// the rotating start.
    pub closed spec fn wf(&self) -> bool {
        &&& self.capacity > 0
        &&& self.buf@.len() <= self.capacity
        &&& self.cur_start < self.capacity
        &&& self.buf@.len() < self.capacity ==> self.cur_start == 0
    }

    /// The number of items that the window retains at most.
    pub closed spec fn capacity(&self) -> int {
        self.capacity as int
    }

    /// A window never holds more than its capacity, which is not zero.
    pub proof fn lemma_bounds(&self)
        requires
            self.wf(),
        ensures
            0 < self.capacity(),
            self@.len() <= self.capacity(),
    {
    }

    /// An empty window for `size` items.
    pub fn new(size: usize) -> (ring: RingBuffer<T>)
        requires
            size > 0,
        ensures
            ring.wf(),
            ring@ == Seq::<T>::empty(),
            ring.capacity() == size,
    {
        let ring = RingBuffer { cur_start: 0, capacity: size, buf: Vec::with_capacity(size) };
        assert(ring@ =~= Seq::<T>::empty());
        ring
    }

    /// A full window that holds the items of `vec`, the first being the oldest.
    pub fn from_vec(vec: Vec<T>) -> (ring: RingBuffer<T>)
        requires
            vec@.len() > 0,
        ensures
            ring.wf(),
            ring@ == vec@,
            ring.capacity() == vec@.len(),
    {
        let ring = RingBuffer { cur_start: 0, capacity: vec.len(), buf: vec };
        assert(ring@ =~= vec@);
        ring
    }

    /// Where the item at logical position `index` is stored.
    fn slot(&self, index: usize) -> (at: usize)
        requires
            self.wf(),
            index < self@.len(),
        ensures
            at < self.buf@.len(),
            at == (self.cur_start + index) % (self.buf@.len() as int),
            self.buf@[at as int] == self@[index as int],
    {
        let n = self.buf.len();
        let head = n - self.cur_start;
        if index < head {
            assert((self.cur_start + index) % (n as int) == self.cur_start + index) by {
                vstd::arithmetic::div_mod::lemma_small_mod((self.cur_start + index) as nat, n as nat);
            }
            self.cur_start + index
        } else {
            assert((self.cur_start + index) % (n as int) == index - head) by {
                vstd::arithmetic::div_mod::lemma_mod_add_multiples_vanish((index - head) as int, n as int);
                vstd::arithmetic::div_mod::lemma_small_mod((index - head) as nat, n as nat);
            }
            index - head
        }
    }

    /// Appends `item`; a full window drops its oldest item for it.
    pub fn push(&mut self, item: T)
        requires
            old(self).wf(),
        ensures
            final(self).wf(),
            final(self).capacity() == old(self).capacity(),
            final(self)@ == retained(old(self)@.push(item), old(self).capacity()),
    {
        if self.buf.len() == self.capacity {
            let i = self.cur_start;
            assert((i + 1) % (self.capacity as int) == if i + 1 == self.capacity {
                0
            } else {
                i + 1
            }) by {
                if i + 1 < self.capacity {
                    vstd::arithmetic::div_mod::lemma_small_mod((i + 1) as nat, self.capacity as nat);
                } else {
                    vstd::arithmetic::div_mod::lemma_mod_self_0(self.capacity as int);
                }
            }
            self.cur_start = (self.cur_start + 1) % self.capacity;
            self.buf[i] = item;
            let ghost want = retained(old(self)@.push(item), old(self).capacity());
            assert(self@.len() == want.len());
            assert forall|k: int| 0 <= k < want.len() implies self@[k] == want[k] by {
                if k < want.len() - 1 {
                    assert(want[k] == old(self)@[k + 1]);
                }
            }
            assert(self@ =~= want);
        } else {
            self.buf.push(item);
            assert(self@ =~= retained(old(self)@.push(item), old(self).capacity()));
        }
    }
}

impl RingBuffer<u8> {
    /// Takes the first `size` bytes of `source` into the window, as `size`
    /// pushes would, in runs that stop where the storage wraps around. A
    /// source that is too short leaves the window as it was.
    pub fn read_to_buf(&mut self, source: &[u8], size: usize) -> (res: Result<(), Error>)
        requires
            old(self).wf(),
        ensures
            final(self).wf(),
            final(self).capacity() == old(self).capacity(),
            res is Ok <==> size <= source@.len(),
            res is Ok ==> final(self)@ == retained(
                old(self)@ + source@.subrange(0, size as int),
                old(self).capacity(),
            ),
            res matches Err(e) ==> e == Error::UnexpectedEnd && final(self)@ == old(self)@,
    {
        if size > source.len() {
            return Err(Error::UnexpectedEnd);
        }
        let ghost cap = self.capacity as int;
        let mut pos: usize = 0;
        assert(old(self)@ + source@.subrange(0, 0) =~= old(self)@);
        while pos < size
            invariant
                self.wf(),
                self.capacity == cap,
                pos <= size <= source@.len(),
                self@ == retained(old(self)@ + source@.subrange(0, pos as int), cap),
            decreases size - pos,
        {
            let ghost before = self@;
            let ghost stored = self.buf@;
            let left = size - pos;
            let mut k: usize = 0;
            if self.buf.len() == self.capacity {
                let start = self.cur_start;
                let room = self.capacity - start;
                let to_copy = if room < left { room } else { left };
                while k < to_copy
                    invariant
                        self.capacity == cap,
                        self.cur_start == start,
                        self.buf@.len() == cap,
                        k <= to_copy,
                        start + to_copy <= cap,
                        pos + to_copy <= size <= source@.len(),
                        stored.len() == cap,
                        forall|j: int|
                            0 <= j < cap ==> self.buf@[j] == if start <= j < start + k {
                                source@[pos + j - start]
                            } else {
                                stored[j]
                            },
                    decreases to_copy - k,
                {
                    self.buf[start + k] = source[pos + k];
                    k += 1;
                }
                assert((start + to_copy) % cap == if start + to_copy == cap {
                    0
                } else {
                    start + to_copy
                }) by {
                    if start + to_copy < cap {
                        vstd::arithmetic::div_mod::lemma_small_mod((start + to_copy) as nat, cap as nat);
                    } else {
                        vstd::arithmetic::div_mod::lemma_mod_self_0(cap);
                    }
                }
                self.cur_start = (start + to_copy) % self.capacity;
                assert(self@ =~= retained(
                    before + source@.subrange(pos as int, pos + to_copy),
                    cap,
                ));
            } else {
                let room = self.capacity - self.buf.len();
                let to_copy = if room < left { room } else { left };
                while k < to_copy
                    invariant
                        self.capacity == cap,
                        self.cur_start == 0,
                        k <= to_copy,
                        stored.len() + to_copy <= cap,
                        pos + to_copy <= size <= source@.len(),
                        self.buf@ == stored + source@.subrange(pos as int, pos + k),
                    decreases to_copy - k,
                {
                    self.buf.push(source[pos + k]);
                    k += 1;
                    assert(self.buf@ =~= stored + source@.subrange(pos as int, pos + k));
                }
                assert(self@ =~= retained(
                    before + source@.subrange(pos as int, pos + to_copy),
                    cap,
                ));
            }
            proof {
                lemma_retained_append(
                    old(self)@ + source@.subrange(0, pos as int),
                    source@.subrange(pos as int, pos + k),
                    cap,
                );
                assert(old(self)@ + source@.subrange(0, pos as int) + source@.subrange(
                    pos as int,
                    pos + k,
                ) =~= old(self)@ + source@.subrange(0, pos + k));
            }
            pos += k;
        }
        Ok(())
    }
}

impl<T> SizedBuffer for RingBuffer<T> {
    type Item = T;

    open spec fn content(&self) -> Seq<T> {
        self@
    }

    open spec fn valid(&self) -> bool {
        self.wf()
    }

    fn len(&self) -> (n: usize) {
        self.buf.len()
    }

    fn at(&self, index: usize) -> (item: &T) {
        let i = self.slot(index);
        &self.buf[i]
    }
}

impl<T> vstd::std_specs::core::IndexSpecImpl<usize> for RingBuffer<T> {
    open spec fn index_req(&self, index: &usize) -> bool {
        self.wf() && *index < self@.len()
    }
}

impl<T> Index<usize> for RingBuffer<T> {
    type Output = T;

    fn index(&self, index: usize) -> (item: &T)
        ensures
            *item == self@[index as int],
    {
        self.at(index)
    }
}

/// Two buffers read as one: the items of the first, then those of the second.
/// It borrows both and copies neither.
pub struct CombinedBuffer<'a, 'b, A, B>(pub &'a A, pub &'b B) where
    A: SizedBuffer,
    B: SizedBuffer<Item = A::Item>,
;

impl<'a, 'b, A, B> SizedBuffer for CombinedBuffer<'a, 'b, A, B> where
    A: SizedBuffer,
    B: SizedBuffer<Item = A::Item>,
 {
    type Item = A::Item;

    open spec fn content(&self) -> Seq<A::Item> {
        self.0.content() + self.1.content()
    }

    open spec fn valid(&self) -> bool {
        &&& self.0.valid()
        &&& self.1.valid()
        &&& self.0.content().len() + self.1.content().len() <= usize::MAX
    }

    fn len(&self) -> (n: usize) {
        self.0.len() + self.1.len()
    }

    fn at(&self, index: usize) -> (item: &A::Item) {
        let first = self.0.len();
        if index < first {
            self.0.at(index)
        } else {
            self.1.at(index - first)
        }
    }
}

impl<'a, 'b, A, B> vstd::std_specs::core::IndexSpecImpl<usize> for CombinedBuffer<'a, 'b, A, B> where
    A: SizedBuffer,
    B: SizedBuffer<Item = A::Item>,
 {
    open spec fn index_req(&self, index: &usize) -> bool {
        self.valid() && *index < self.content().len()
    }
}

impl<'a, 'b, A, B> Index<usize> for CombinedBuffer<'a, 'b, A, B> where
    A: SizedBuffer,
    B: SizedBuffer<Item = A::Item>,
 {
    type Output = A::Item;

    fn index(&self, index: usize) -> (item: &A::Item)
        ensures
            *item == self.content()[index as int],
    {
        self.at(index)
    }
}

} // verus!
