use vstd::prelude::*;

verus! {

/// A growable contiguous sequence of `T` with an explicit capacity policy.
///
/// The array advertises a `capacity` (slot count) alongside its live
/// `length`; appending when the two are equal first grows the capacity
/// (0 becomes 1, otherwise it doubles), so appends are amortized O(1).
/// Elements live at indices `0 .. length`; removal shifts later elements
/// down by one.  The array is the sole owner of its elements: popping or
/// removing hands the element to the caller, and dropping the array
/// releases every remaining element exactly once.
pub struct DynamicArray<T> {
    storage: Vec<T>,
    capacity: usize,
}

impl<T> View for DynamicArray<T> {
    type V = Seq<T>;

    closed spec fn view(&self) -> Seq<T> {
        self.storage@
    }
}

impl<T> DynamicArray<T> {
    /// The advertised slot count; always at least the live length.
    pub closed spec fn spec_capacity(&self) -> nat {
        self.capacity as nat
    }

    /// Well-formedness: the live prefix fits in the advertised capacity.
    pub open spec fn wf(&self) -> bool {
        self@.len() <= self.spec_capacity()
    }

    /// Returns an empty array with no capacity.
    pub fn new() -> (r: DynamicArray<T>)
        ensures
            r@ == Seq::<T>::empty(),
            r.spec_capacity() == 0,
            r.wf(),
    {
        DynamicArray { storage: Vec::new(), capacity: 0 }
    }

    /// Builds an array holding exactly the given elements, with capacity
    /// sized exactly to their number.
    pub fn from_vec(items: Vec<T>) -> (r: DynamicArray<T>)
        ensures
            r@ == items@,
            r.spec_capacity() == items@.len(),
            r.wf(),
    {
        let capacity: usize = items.len();
        DynamicArray { storage: items, capacity }
    }

    /// The number of live elements.
    pub fn len(&self) -> (n: usize)
        ensures
            n == self@.len(),
    {
        self.storage.len()
    }

    /// The advertised slot count.
    pub fn capacity(&self) -> (c: usize)
        ensures
            c == self.spec_capacity(),
    {
        self.capacity
    }

    /// Doubles the capacity (or sets it to 1 from 0), keeping every live
    /// element in place.  Called only when the array is full.
    fn grow(&mut self)
        requires
            old(self).wf(),
            old(self)@.len() == old(self).spec_capacity(),
            old(self).spec_capacity() <= usize::MAX / 2,
        ensures
            final(self)@ == old(self)@,
            final(self).spec_capacity() == (if old(self).spec_capacity() == 0 {
                1nat
            } else {
                2 * old(self).spec_capacity()
            }),
            final(self).wf(),
    {
        let new_capacity: usize = if self.capacity == 0 {
            1
        } else {
            2 * self.capacity
        };
        self.storage.reserve(new_capacity - self.storage.len());
        self.capacity = new_capacity;
    }

    /// Appends `value` at index `length`.  When the array is full it
    /// grows first (capacity 0 becomes 1, otherwise it doubles); when it
    /// is not, the capacity is left untouched.
    pub fn append(&mut self, value: T)
        requires
            old(self).wf(),
            old(self)@.len() <= usize::MAX / 2,
        ensures
            final(self)@ == old(self)@.push(value),
            final(self).wf(),
            old(self)@.len() < old(self).spec_capacity() ==> final(self).spec_capacity()
                == old(self).spec_capacity(),
            old(self)@.len() == old(self).spec_capacity() ==> final(self).spec_capacity() == (
            if old(self).spec_capacity() == 0 {
                1nat
            } else {
                2 * old(self).spec_capacity()
            }),
    {
        if self.capacity == self.storage.len() {
            self.grow();
        }
        self.storage.push(value);
    }

    /// Removes and returns the last element, or nothing when empty.
    pub fn pop(&mut self) -> (r: Option<T>)
        requires
            old(self).wf(),
        ensures
            final(self).wf(),
            final(self).spec_capacity() == old(self).spec_capacity(),
            old(self)@.len() == 0 ==> r is None && final(self)@ == old(self)@,
            old(self)@.len() > 0 ==> r == Some(old(self)@.last()) && final(self)@ == old(
                self,
            )@.drop_last(),
    {
        self.storage.pop()
    }

    /// Removes and returns the element at `index`, shifting every later
    /// element down by one; out-of-range indices leave the array unchanged.
    pub fn remove_at(&mut self, index: usize) -> (r: Option<T>)
        requires
            old(self).wf(),
        ensures
            final(self).wf(),
            final(self).spec_capacity() == old(self).spec_capacity(),
            index >= old(self)@.len() ==> r is None && final(self)@ == old(self)@,
            index < old(self)@.len() ==> r == Some(old(self)@[index as int]) && final(self)@
                == old(self)@.remove(index as int),
    {
        if index < self.storage.len() {
            Some(self.storage.remove(index))
        } else {
            None
        }
    }

    /// Bounds-checked read access to the element at `index`.
    pub fn get(&self, index: usize) -> (r: Option<&T>)
        ensures
            index < self@.len() ==> (r matches Some(x) && *x == self@[index as int]),
            index >= self@.len() ==> r is None,
    {
        if index < self.storage.len() {
            Some(&self.storage[index])
        } else {
            None
        }
    }

    /// Bounds-checked write access to the element at `index`.
    pub fn get_mut(&mut self, index: usize) -> (r: Option<&mut T>)
        requires
            old(self).wf(),
        ensures
            final(self).wf(),
            final(self).spec_capacity() == old(self).spec_capacity(),
            index >= old(self)@.len() ==> r is None && final(self)@ == old(self)@,
            index < old(self)@.len() ==> (r matches Some(x) && *x == old(self)@[index as int]
                && final(self)@ == old(self)@.update(index as int, *final(x))),
    {
        if index < self.storage.len() {
            Some(&mut self.storage[index])
        } else {
            None
        }
    }

    /// Each append adds exactly one element: `append` ensures the new
    /// view is `old(self)@.push(value)`, and a push grows the length by
    /// one, places the value at the new last index, and moves no other
    /// element.  Hence after any sequence of appends the length equals
    /// the number of appends, and every appended value stays
    /// retrievable at its insertion index until a structural mutation.
    pub proof fn lemma_append_keeps_values(before: Seq<T>, value: T)
        ensures
            before.push(value).len() == before.len() + 1,
            before.push(value)[before.len() as int] == value,
            forall|i: int| 0 <= i < before.len() ==> before.push(value)[i] == before[i],
    {
    }

    /// Exchanges the elements at indices `i` and `j`.
    pub fn swap(&mut self, i: usize, j: usize)
        requires
            old(self).wf(),
            i < old(self)@.len(),
            j < old(self)@.len(),
        ensures
            final(self).wf(),
            final(self).spec_capacity() == old(self).spec_capacity(),
            final(self)@ == old(self)@.update(i as int, old(self)@[j as int]).update(
                j as int,
                old(self)@[i as int],
            ),
    {
        let ghost s0 = self.storage@;
        if i != j {
            let (lo, hi): (usize, usize) = if i < j {
                (i, j)
            } else {
                (j, i)
            };
            let x: T = self.storage.remove(lo);
            let y: T = self.storage.remove(hi - 1);
            self.storage.insert(lo, y);
            self.storage.insert(hi, x);
        }
        proof {
            assert(self.storage@ =~= s0.update(i as int, s0[j as int]).update(
                j as int,
                s0[i as int],
            ));
        }
    }
}

} // verus!
