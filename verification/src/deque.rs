//! Two slices read as one: what a ring hands out when a range wraps around its end.
use vstd::prelude::*;

verus! {

/// Writes `src` over the start of `dst` and leaves the rest of `dst` alone.
pub fn copy_to_front<T: Copy>(dst: &mut [T], src: &[T])
    requires
        src@.len() <= old(dst)@.len(),
    ensures
        final(dst)@ == src@ + old(dst)@.skip(src@.len() as int),
{
    let n: usize = src.len();
    let mut i: usize = 0;
    let ghost before = dst@;
    while i < n
        invariant
            i <= n,
            n == src@.len(),
            n <= before.len(),
            dst@ == src@.take(i as int) + before.skip(i as int),
        decreases n - i,
    {
        dst[i] = src[i];
        i = i + 1;
        assert(dst@ =~= src@.take(i as int) + before.skip(i as int));
    }
    assert(src@.take(n as int) =~= src@);
}

/// A mutable range in two pieces; `front` comes first.
#[derive(Debug)]
pub struct DequeSliceMut<'a, T> {
    pub front: &'a mut [T],
    pub back: &'a mut [T],
}

impl<'a, T> DequeSliceMut<'a, T> {
    /// The elements in order.
    pub open spec fn view(&self) -> Seq<T> {
        self.front@ + self.back@
    }

    pub fn new(front: &'a mut [T], back: &'a mut [T]) -> (r: Self)
        ensures
            r.front@ == old(front)@,
            r.back@ == old(back)@,
            final(front)@ == final(r.front)@,
            final(back)@ == final(r.back)@,
    {
        Self { front, back }
    }

    /// The empty range.
    pub fn mt() -> (r: Self)
        ensures
            r.front@ == Seq::<T>::empty(),
            r.back@ == Seq::<T>::empty(),
    {
        Self { front: &mut [], back: &mut [] }
    }

    /// All of `slice`, read from `index` to its end and then from its start.
    pub fn from_slice_mut_start_at(slice: &'a mut [T], index: usize) -> (r: Self)
        requires
            index <= old(slice)@.len(),
        ensures
            r.front@ == old(slice)@.skip(index as int),
            r.back@ == old(slice)@.take(index as int),
            final(slice)@ == final(r.back)@ + final(r.front)@,
    {
        let (back, front) = slice.split_at_mut(index);
        Self { front, back }
    }

    /// Overwrites the whole range with `src`.
    pub fn copy_from_slice(&mut self, src: &[T])
        where T: Copy,
        requires
            old(self)@.len() == src@.len(),
        ensures
            final(self).front@ == src@.take(old(self).front@.len() as int),
            final(self).back@ == src@.skip(old(self).front@.len() as int),
            final(self)@ == src@,
            final(final(self).front)@ == final(old(self).front)@,
            final(final(self).back)@ == final(old(self).back)@,
    {
        let (src_front, src_back) = src.split_at(self.front.len());
        copy_to_front(self.front, src_front);
        copy_to_front(self.back, src_back);
        assert(self@ =~= src@);
    }

    /// Overwrites as much of the range as `src` has elements for, and says how many that were.
    pub fn copy(&mut self, src: &[T]) -> (r: usize)
        where T: Copy,
        requires
            src@.len() <= old(self)@.len(),
        ensures
            r == src@.len(),
            final(self)@ == src@ + old(self)@.skip(src@.len() as int),
            final(self).front@.len() == old(self).front@.len(),
            final(self).back@.len() == old(self).back@.len(),
            forall|i: int|
                0 <= i < old(self).front@.len() ==> #[trigger] final(self).front@[i] == if i
                    < src@.len() {
                    src@[i]
                } else {
                    old(self).front@[i]
                },
            forall|i: int|
                0 <= i < old(self).back@.len() ==> #[trigger] final(self).back@[i] == if i
                    + old(self).front@.len() < src@.len() {
                    src@[i + old(self).front@.len()]
                } else {
                    old(self).back@[i]
                },
            final(final(self).front)@ == final(old(self).front)@,
            final(final(self).back)@ == final(old(self).back)@,
    {
        let ghost before = *old(self);
        let front_len: usize = if self.front.len() < src.len() {
            self.front.len()
        } else {
            src.len()
        };
        let (src_front, src_back) = src.split_at(front_len);
        let back_len: usize = src_back.len();
        copy_to_front(self.front, src_front);
        copy_to_front(self.back, src_back);
        assert(self@ =~= src@ + before@.skip(src@.len() as int));
        front_len + back_len
    }

    pub fn len(&self) -> (r: usize)
        requires
            self@.len() <= usize::MAX,
        ensures
            r == self@.len(),
    {
        self.front.len() + self.back.len()
    }

    pub fn is_empty(&self) -> (r: bool)
        ensures
            r == (self@.len() == 0),
    {
        self.front.is_empty() && self.back.is_empty()
    }

    /// The first `index` elements and the others.
    pub fn split_mut(self, index: usize) -> (r: (Self, Self))
        requires
            index <= self@.len(),
        ensures
            r.0@ == self@.take(index as int),
            r.1@ == self@.skip(index as int),
            r.0.front@.len() == if old(self.front)@.len() < index {
                old(self.front)@.len()
            } else {
                index as nat
            },
            old(self.front)@ == r.0.front@ + r.1.front@,
            old(self.back)@ == r.0.back@ + r.1.back@,
            final(self.front)@ == final(r.0.front)@ + final(r.1.front)@,
            final(self.back)@ == final(r.0.back)@ + final(r.1.back)@,
    {
        let front_len1: usize = if self.front.len() < index { self.front.len() } else { index };
        let back_len1: usize = index - front_len1;
        let ghost whole = self@;
        let ghost front = self.front@;
        let ghost back = self.back@;
        let (front1, front2) = self.front.split_at_mut(front_len1);
        let (back1, back2) = self.back.split_at_mut(back_len1);
        assert(front1@ + back1@ =~= whole.take(index as int));
        assert(front2@ + back2@ =~= whole.skip(index as int));
        assert(front =~= front1@ + front2@);
        assert(back =~= back1@ + back2@);
        (Self::new(front1, back1), Self::new(front2, back2))
    }

    pub fn to_immutable(self) -> (r: DequeSlice<'a, T>)
        ensures
            r.front@ == old(self.front)@,
            r.back@ == old(self.back)@,
            final(self.front)@ == old(self.front)@,
            final(self.back)@ == old(self.back)@,
    {
        DequeSlice::new(self.front, self.back)
    }
}

/// A range in two pieces; `front` comes first.
pub struct DequeSlice<'a, T> {
    pub front: &'a [T],
    pub back: &'a [T],
}

impl<'a, T> DequeSlice<'a, T> {
    /// The elements in order.
    pub open spec fn view(&self) -> Seq<T> {
        self.front@ + self.back@
    }

    pub fn new(front: &'a [T], back: &'a [T]) -> (r: Self)
        ensures
            r.front@ == front@,
            r.back@ == back@,
    {
        Self { front, back }
    }
}

/// What is read as one is the front, and behind it the back.
pub proof fn law_front_comes_first<T>(range: DequeSlice<'_, T>, i: int)
    requires
        0 <= i < range.front@.len() + range.back@.len(),
    ensures
        range@.len() == range.front@.len() + range.back@.len(),
        range@[i] == if i < range.front@.len() {
            range.front@[i]
        } else {
            range.back@[i - range.front@.len()]
        },
{
}

/// What can be written as one is the front, and behind it the back.
pub proof fn law_mutable_front_comes_first<T>(range: DequeSliceMut<'_, T>, i: int)
    requires
        0 <= i < old(range.front)@.len() + old(range.back)@.len(),
    ensures
        range@.len() == old(range.front)@.len() + old(range.back)@.len(),
        range@[i] == if i < old(range.front)@.len() {
            old(range.front)@[i]
        } else {
            old(range.back)@[i - old(range.front)@.len()]
        },
{
}

} // verus!
