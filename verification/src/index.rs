//! Typed indices, and vectors that are addressed by them.

use std::marker::PhantomData;
use vstd::prelude::*;

verus! {

/// What a 32-bit index keeps of a number.
pub open spec fn wrap32(n: int) -> int {
    n % 0x1_0000_0000
}

/// The low 32 bits of a machine word.
pub fn low_word(idx: usize) -> (r: u32)
    ensures
        r as int == wrap32(idx as int),
{
    let wide: u64 = idx as u64;
    let low: u64 = wide & 0xffff_ffff;
    assert(low == wide % 0x1_0000_0000 && low <= 0xffff_ffff) by (bit_vector)
        requires
            low == wide & 0xffff_ffff,
    ;
    low as u32
}

/// The number behind a number, in 32 bits.
pub fn successor(n: u32) -> (r: u32)
    ensures
        r as int == wrap32(n as int + 1),
{
    if n == u32::MAX {
        0
    } else {
        n + 1
    }
}

/// A trait to be implemented by any "index-like" types.
pub trait Index: Copy + Eq + PartialEq + Sized {
    /// The number that the index stands for.
    spec fn ix(self) -> int;

    /// Makes an index of the low 32 bits of `idx`.
    fn new(idx: usize) -> (r: Self)
        ensures
            r.ix() == wrap32(idx as int),
    ;

    /// The number that the index stands for.
    fn index(self) -> (r: usize)
        ensures
            r as int == self.ix(),
    ;

    /// Moves the index forward in place.
    fn increment_by(&mut self, amount: usize)
        requires
            old(self).ix() + amount as int <= usize::MAX as int,
        ensures
            final(self).ix() == wrap32(old(self).ix() + amount as int),
    {
        *self = self.plus(amount);
    }

    /// The index that lies `amount` steps further on.
    fn plus(self, amount: usize) -> (r: Self)
        requires
            self.ix() + amount as int <= usize::MAX as int,
        ensures
            r.ix() == wrap32(self.ix() + amount as int),
    {
        Self::new(self.index() + amount)
    }
}

/// A vector whose elements are addressed by indices of type `I`.
pub struct IndexVec<I: Index, T> {
    pub raw: Vec<T>,
    pub _marker: PhantomData<I>,
}

impl<I: Index, T> View for IndexVec<I, T> {
    type V = Seq<T>;

    open spec fn view(&self) -> Seq<T> {
        self.raw@
    }
}

impl<I: Index, T> IndexVec<I, T> {
    /// Constructs a new, empty `IndexVec<I, T>`.
    pub fn new() -> (r: Self)
        ensures
            r@ == Seq::<T>::empty(),
    {
        IndexVec::from_raw(Vec::new())
    }

    /// Constructs a new `IndexVec<I, T>` from a `Vec<T>`.
    pub fn from_raw(raw: Vec<T>) -> (r: Self)
        ensures
            r@ == raw@,
    {
        IndexVec { raw, _marker: PhantomData }
    }

    /// Constructs an empty `IndexVec<I, T>` with room for `capacity` elements.
    pub fn with_capacity(capacity: usize) -> (r: Self)
        ensures
            r@ == Seq::<T>::empty(),
    {
        IndexVec::from_raw(Vec::with_capacity(capacity))
    }

    /// Pushes an element to the array returning the index where it was pushed to.
    pub fn push(&mut self, d: T) -> (r: I)
        ensures
            final(self)@ == old(self)@.push(d),
            r.ix() == wrap32(old(self)@.len() as int),
    {
        let idx = self.next_index();
        self.raw.push(d);
        idx
    }

    /// Takes the last element off the array.
    pub fn pop(&mut self) -> (r: Option<T>)
        ensures
            old(self)@.len() == 0 ==> r is None && final(self)@ == old(self)@,
            old(self)@.len() > 0 ==> r == Some(old(self)@.last()) && final(self)@
                == old(self)@.drop_last(),
    {
        self.raw.pop()
    }

    /// The elements in order, by value.
    pub fn into_iter(self) -> (r: std::vec::IntoIter<T>)
        ensures
            vstd::std_specs::vec::into_iter_elts(r) == self@,
    {
        self.raw.into_iter()
    }

    /// The elements in order, by reference.
    pub fn iter(&self) -> (r: std::slice::Iter<'_, T>)
        ensures
            vstd::std_specs::slice::into_iter_elts(r) == self@,
    {
        self.raw.iter()
    }

    /// The indices of the elements, in order.
    pub fn indices(&self) -> (r: Vec<I>)
        ensures
            r@.len() == self@.len(),
            forall|i: int| 0 <= i < r@.len() ==> (#[trigger] r@[i]).ix() == wrap32(i),
    {
        let mut out: Vec<I> = Vec::new();
        let mut n: usize = 0;
        while n < self.raw.len()
            invariant
                0 <= n <= self.raw@.len(),
                out@.len() == n,
                forall|i: int| 0 <= i < n ==> (#[trigger] out@[i]).ix() == wrap32(i),
            decreases self.raw@.len() - n,
        {
            out.push(I::new(n));
            n = n + 1;
        }
        out
    }

    /// The elements in order, each behind its index.
    pub fn enumerate(&self) -> (r: Vec<(I, &T)>)
        ensures
            r@.len() == self@.len(),
            forall|i: int|
                0 <= i < r@.len() ==> (#[trigger] r@[i]).0.ix() == wrap32(i) && *r@[i].1
                    == self@[i],
    {
        let mut out: Vec<(I, &T)> = Vec::new();
        let mut n: usize = 0;
        while n < self.raw.len()
            invariant
                0 <= n <= self.raw@.len(),
                out@.len() == n,
                forall|i: int|
                    0 <= i < n ==> (#[trigger] out@[i]).0.ix() == wrap32(i) && *out@[i].1
                        == self.raw@[i],
            decreases self.raw@.len() - n,
        {
            out.push((I::new(n), &self.raw[n]));
            n = n + 1;
        }
        out
    }

    /// The elements in order, by value, each behind its index.
    pub fn into_entries(self) -> (r: Vec<(I, T)>)
        ensures
            r@.len() == self@.len(),
            forall|i: int|
                0 <= i < r@.len() ==> (#[trigger] r@[i]).0.ix() == wrap32(i) && r@[i].1
                    == self@[i],
    {
        let ghost all = self.raw@;
        let mut out: Vec<(I, T)> = Vec::new();
        for item in it: self.raw
            invariant
                it.seq() == all,
                out@.len() == it.index(),
                forall|i: int|
                    0 <= i < out@.len() ==> (#[trigger] out@[i]).0.ix() == wrap32(i)
                        && out@[i].1 == all[i],
        {
            let key = I::new(out.len());
            out.push((key, item));
        }
        out
    }

    /// The number of elements.
    pub fn len(&self) -> (r: usize)
        ensures
            r == self@.len(),
    {
        self.raw.len()
    }

    /// Whether there are no elements.
    pub fn is_empty(&self) -> (r: bool)
        ensures
            r == (self@.len() == 0),
    {
        self.raw.len() == 0
    }

    /// Gives the next index that will be assigned when `push` is called.
    pub fn next_index(&self) -> (r: I)
        ensures
            r.ix() == wrap32(self@.len() as int),
    {
        I::new(self.len())
    }

    /// The element at `index`, if there is one.
    pub fn get(&self, index: I) -> (r: Option<&T>)
        ensures
            0 <= index.ix() < self@.len() ==> r == Some(&self@[index.ix()]),
            !(0 <= index.ix() < self@.len()) ==> r is None,
    {
        let at: usize = index.index();
        if at < self.raw.len() {
            Some(&self.raw[at])
        } else {
            None
        }
    }

    /// The element at `index`, if there is one, to be changed in place.
    pub fn get_mut(&mut self, index: I) -> (r: Option<&mut T>)
        ensures
            match r {
                Some(slot) => {
                    &&& 0 <= index.ix() < old(self)@.len()
                    &&& *slot == old(self)@[index.ix()]
                    &&& final(self)@ == old(self)@.update(index.ix(), *final(slot))
                },
                None => !(0 <= index.ix() < old(self)@.len()) && final(self)@ == old(self)@,
            },
    {
        let at: usize = index.index();
        if at < self.raw.len() {
            Some(&mut self.raw[at])
        } else {
            None
        }
    }

    /// Grows the array with elements that `fill_value` gives until `elem`
    /// addresses one of them, and gives that element.
    pub fn ensure_contains_elem<F: FnMut() -> T>(&mut self, elem: I, fill_value: F) -> (r: &mut T)
        requires
            elem.ix() < usize::MAX as int,
            fill_value.requires(()),
        ensures
            ({
                let before = old(self)@;
                let after = final(self)@;
                let at = elem.ix();
                &&& at < before.len() ==> after == before.update(at, *final(r)) && *r == before[at]
                &&& at >= before.len() ==> {
                    &&& after.len() == at + 1
                    &&& after[at] == *final(r)
                    &&& fill_value.ensures((), *r)
                    &&& forall|i: int| 0 <= i < before.len() ==> after[i] == before[i]
                    &&& forall|i: int|
                        before.len() <= i < at ==> fill_value.ensures((), #[trigger] after[i])
                }
            }),
    {
        let at: usize = elem.index();
        let mut fill = fill_value;
        while self.raw.len() <= at
            invariant
                at < usize::MAX,
                fill == fill_value,
                fill_value.requires(()),
                old(self)@.len() <= self.raw@.len(),
                self.raw@.len() <= old(self)@.len() || self.raw@.len() <= at + 1,
                self.raw@.len() == old(self)@.len() ==> self.raw@ == old(self)@,
                forall|i: int| 0 <= i < old(self)@.len() ==> self.raw@[i] == old(self)@[i],
                forall|i: int|
                    old(self)@.len() <= i < self.raw@.len() ==> fill_value.ensures(
                        (),
                        #[trigger] self.raw@[i],
                    ),
            decreases at + 1 - self.raw@.len(),
        {
            let value = fill();
            self.raw.push(value);
        }
        &mut self.raw[at]
    }
}

} // verus!
