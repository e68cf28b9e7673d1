use vstd::prelude::*;
use vstd::std_specs::cmp::PartialEqSpec;

verus! {

/// A double-ended queue of at most `N` elements held in a ring of `N` slots.
///
/// Logical element `i` (counted from the front) lives in slot `(start + i) mod N`.
/// Exactly the `size` slots that hold logical elements are occupied; all others are empty.
pub struct StackDequeue<T, const N: usize> {
    data: Vec<Option<T>>,
    start: usize,
    size: usize,
}

/// Slot of logical index `i` in a ring of `n` slots whose front is at `start`,
/// for `0 <= start < n` and `0 <= i <= n`.
spec fn ring_slot(start: int, i: int, n: int) -> int {
    if start + i < n {
        start + i
    } else {
        start + i - n
    }
}

/// Logical index held by slot `j` in a ring of `n` slots whose front is at `start`.
spec fn ring_offset(start: int, j: int, n: int) -> int {
    if j >= start {
        j - start
    } else {
        j + n - start
    }
}

impl<T, const N: usize> View for StackDequeue<T, N> {
    type V = Seq<T>;

    /// The elements from front to back.
    closed spec fn view(&self) -> Seq<T> {
        Seq::new(self.size as nat, |i: int| self.data@[self.slot(i)]->0)
    }
}

impl<T, const N: usize> StackDequeue<T, N> {
    /// Slot that holds logical element `i`.
    closed spec fn slot(&self, i: int) -> int {
        ring_slot(self.start as int, i, N as int)
    }

    /// Index of the front slot.
    pub closed spec fn front_slot(&self) -> nat {
        self.start as nat
    }

    /// The ring is consistent: `N` slots, the front slot in range, at most `N` elements,
    /// and a slot is occupied exactly when it holds one of the `size` logical elements.
    pub closed spec fn wf(&self) -> bool {
        &&& self.data@.len() == N
        &&& self.size <= N
        &&& (self.start < N || (N == 0 && self.start == 0))
        &&& forall|j: int|
            0 <= j < N ==> (#[trigger] self.data@[j] is Some <==> ring_offset(
                self.start as int,
                j,
                N as int,
            ) < self.size)
    }

    /// The slot of a held element is in range, maps back to its index, and is occupied.
    proof fn lemma_slot(&self, i: int)
        requires
            self.wf(),
            0 <= i < self.size,
        ensures
            0 <= self.slot(i) < N,
            ring_offset(self.start as int, self.slot(i), N as int) == i,
            self.data@[self.slot(i)] is Some,
    {
        assert(self.data@[self.slot(i)] is Some <==> ring_offset(
            self.start as int,
            self.slot(i),
            N as int,
        ) < self.size);
    }

    /// A ring that differs from `self` only in what the slot of a held element holds,
    /// still occupied, is consistent and holds the same elements but at that index.
    proof fn lemma_overwrite(&self, index: int)
        requires
            self.wf(),
            0 <= index < self.size,
        ensures
            forall|s: Self|
                s.start == self.start && s.size == self.size && s.data@.len() == self.data@.len()
                    && s.data@[self.slot(index)] is Some && (forall|j: int|
                    0 <= j < N && j != self.slot(index) ==> s.data@[j] == self.data@[j])
                    ==> #[trigger] s.wf() && #[trigger] s@ == self@.update(
                    index,
                    s.data@[self.slot(index)]->0,
                ),
    {
        self.lemma_slot(index);
        assert forall|s: Self|
            s.start == self.start && s.size == self.size && s.data@.len() == self.data@.len()
                && s.data@[self.slot(index)] is Some && (forall|j: int|
                0 <= j < N && j != self.slot(index) ==> s.data@[j] == self.data@[j])
                implies #[trigger] s.wf() && #[trigger] s@ == self@.update(
                index,
                s.data@[self.slot(index)]->0,
            ) by {
            assert forall|j: int| 0 <= j < N implies (#[trigger] s.data@[j] is Some
                <==> ring_offset(s.start as int, j, N as int) < s.size) by {
                assert(self.data@[j] is Some <==> ring_offset(self.start as int, j, N as int)
                    < self.size);
            }
            assert forall|i: int| 0 <= i < self.size && i != index implies self.slot(i)
                != self.slot(index) by {
                self.lemma_slot(i);
            }
            assert(s@ =~= self@.update(index, s.data@[self.slot(index)]->0));
        }
    }

    /// Filling the empty slot just past the back, with one element more, gives a consistent
    /// ring holding that element at the back.
    proof fn lemma_fill_back(&self)
        requires
            self.wf(),
            self.size < N,
        ensures
            forall|s: Self|
                s.start == self.start && s.size == self.size + 1
                    && s.data@[self.slot(self.size as int)] is Some
                    && s.data@ == self.data@.update(
                    self.slot(self.size as int),
                    s.data@[self.slot(self.size as int)],
                ) ==> #[trigger] s.wf() && #[trigger] s@ == self@.push(
                    s.data@[self.slot(self.size as int)]->0,
                ),
    {
        assert forall|s: Self|
            s.start == self.start && s.size == self.size + 1
                && s.data@[self.slot(self.size as int)] is Some
                && s.data@ == self.data@.update(
                self.slot(self.size as int),
                s.data@[self.slot(self.size as int)],
            ) implies #[trigger] s.wf() && #[trigger] s@ == self@.push(
                s.data@[self.slot(self.size as int)]->0,
            ) by {
            let k = self.slot(self.size as int);
            assert(ring_offset(self.start as int, k, N as int) == self.size);
            assert forall|j: int| 0 <= j < N implies (#[trigger] s.data@[j] is Some
                <==> ring_offset(s.start as int, j, N as int) < s.size) by {
                assert(self.data@[j] is Some <==> ring_offset(self.start as int, j, N as int)
                    < self.size);
            }
            assert forall|i: int| 0 <= i < self.size implies self.slot(i) != k by {
                self.lemma_slot(i);
            }
            assert(s@ =~= self@.push(s.data@[k]->0));
        }
    }

    /// Filling the empty slot just before the front, moving the front there, with one
    /// element more, gives a consistent ring holding that element at the front.
    proof fn lemma_fill_front(&self, start: usize)
        requires
            self.wf(),
            self.size < N,
            start == (if self.start == 0 { N - 1 } else { self.start - 1 }),
        ensures
            forall|s: Self|
                s.start == start && s.size == self.size + 1 && s.data@[start as int] is Some
                    && s.data@ == self.data@.update(start as int, s.data@[start as int])
                    ==> #[trigger] s.wf() && #[trigger] s@ == seq![s.data@[start as int]->0]
                    + self@,
    {
        assert forall|s: Self|
            s.start == start && s.size == self.size + 1 && s.data@[start as int] is Some
                && s.data@ == self.data@.update(start as int, s.data@[start as int])
                implies #[trigger] s.wf() && #[trigger] s@ == seq![s.data@[start as int]->0]
                + self@ by {
            assert forall|j: int| 0 <= j < N implies (#[trigger] s.data@[j] is Some
                <==> ring_offset(s.start as int, j, N as int) < s.size) by {
                assert(self.data@[j] is Some <==> ring_offset(self.start as int, j, N as int)
                    < self.size);
            }
            assert(ring_offset(self.start as int, start as int, N as int) == N - 1);
            assert forall|i: int| 0 <= i < self.size implies self.slot(i) != start && s.slot(i + 1)
                == self.slot(i) by {
                self.lemma_slot(i);
            }
            assert(s@ =~= seq![s.data@[start as int]->0] + self@);
        }
    }

    /// An empty deque.
    pub fn new() -> (r: Self)
        ensures
            r.wf(),
            r@ == Seq::<T>::empty(),
            r.front_slot() == 0,
    {
        let mut data: Vec<Option<T>> = Vec::new();
        let mut k: usize = 0;
        while k < N
            invariant
                k <= N,
                data@.len() == k,
                forall|j: int| 0 <= j < k ==> #[trigger] data@[j] is None,
            decreases N - k,
        {
            data.push(None);
            k = k + 1;
        }
        let r = StackDequeue { data, start: 0, size: 0 };
        assert(r@ =~= Seq::<T>::empty());
        r
    }

    /// A full deque holding the elements of `value` in order, front slot first.
    pub fn from_array(value: [T; N]) -> (r: Self)
        ensures
            r.wf(),
            r@ == value@,
            r.front_slot() == 0,
    {
        let boxed: Box<[T]> = Box::new(value);
        let mut items: Vec<T> = boxed.into_vec();
        let mut data: Vec<Option<T>> = Vec::new();
        let mut k: usize = 0;
        while k < N
            invariant
                k <= N,
                data@.len() == k,
                items@.len() == N,
                forall|j: int| 0 <= j < k ==> #[trigger] data@[j] is None,
            decreases N - k,
        {
            data.push(None);
            k = k + 1;
        }
        let ghost all = items@;
        assert(all == value@);
        while items.len() > 0
            invariant
                data@.len() == N,
                all.len() == N,
                items@.len() <= N,
                items@ == all.subrange(0, items@.len() as int),
                forall|j: int| 0 <= j < items@.len() ==> #[trigger] data@[j] is None,
                forall|j: int| items@.len() <= j < N ==> #[trigger] data@[j] == Some(all[j]),
            decreases items@.len(),
        {
            let last = items.len() - 1;
            let x = items.pop().unwrap();
            data.set(last, Some(x));
        }
        let r = StackDequeue { data, start: 0, size: N };
        assert(r@ =~= value@);
        r
    }

    /// Number of elements held.
    pub fn len(&self) -> (r: usize)
        requires
            self.wf(),
        ensures
            r == self@.len(),
    {
        self.size
    }

    /// Slot of logical index `index`.
    fn get_idx(&self, index: usize) -> (r: usize)
        requires
            self.wf(),
            N > 0,
            index <= N,
        ensures
            r == self.slot(index as int),
            r < N,
    {
        if index < N - self.start {
            self.start + index
        } else {
            index - (N - self.start)
        }
    }

    /// Element at logical index `index`, or `None` past the end.
    pub fn get(&self, index: usize) -> (r: Option<&T>)
        requires
            self.wf(),
        ensures
            index < self@.len() ==> r == Some(&self@[index as int]),
            index >= self@.len() ==> r is None,
    {
        if index < self.size {
            let idx = self.get_idx(index);
            proof {
                self.lemma_slot(index as int);
            }
            self.data[idx].as_ref()
        } else {
            None
        }
    }

    /// Mutable access to the element at logical index `index`, or `None` past the end.
    pub fn get_mut(&mut self, index: usize) -> (r: Option<&mut T>)
        requires
            old(self).wf(),
        ensures
            index < old(self)@.len() ==> {
                &&& r is Some
                &&& *r.unwrap() == old(self)@[index as int]
                &&& final(self).wf()
                &&& final(self)@ == old(self)@.update(index as int, *final(r.unwrap()))
                &&& final(self).front_slot() == old(self).front_slot()
            },
            index >= old(self)@.len() ==> r is None && *final(self) == *old(self),
    {
        if index < self.size {
            let idx = self.get_idx(index);
            proof {
                self.lemma_slot(index as int);
                self.lemma_overwrite(index as int);
            }
            self.data[idx].as_mut()
        } else {
            None
        }
    }

    /// The first element, or `None` when empty.
    pub fn front(&self) -> (r: Option<&T>)
        requires
            self.wf(),
        ensures
            r == (if self@.len() == 0 { None } else { Some(&self@[0]) }),
    {
        self.get(0)
    }

    /// Mutable access to the first element, or `None` when empty.
    pub fn front_mut(&mut self) -> (r: Option<&mut T>)
        requires
            old(self).wf(),
        ensures
            old(self)@.len() > 0 ==> {
                &&& r is Some
                &&& *r.unwrap() == old(self)@[0]
                &&& final(self).wf()
                &&& final(self)@ == old(self)@.update(0, *final(r.unwrap()))
                &&& final(self).front_slot() == old(self).front_slot()
            },
            old(self)@.len() == 0 ==> r is None && *final(self) == *old(self),
    {
        self.get_mut(0)
    }

    /// The last element, or `None` when empty.
    pub fn back(&self) -> (r: Option<&T>)
        requires
            self.wf(),
        ensures
            r == (if self@.len() == 0 { None } else { Some(&self@.last()) }),
    {
        if self.size == 0 {
            None
        } else {
            self.get(self.size - 1)
        }
    }

    /// Mutable access to the last element, or `None` when empty.
    pub fn back_mut(&mut self) -> (r: Option<&mut T>)
        requires
            old(self).wf(),
        ensures
            old(self)@.len() > 0 ==> {
                &&& r is Some
                &&& *r.unwrap() == old(self)@.last()
                &&& final(self).wf()
                &&& final(self)@ == old(self)@.update(
                    old(self)@.len() - 1,
                    *final(r.unwrap()),
                )
                &&& final(self).front_slot() == old(self).front_slot()
            },
            old(self)@.len() == 0 ==> r is None && *final(self) == *old(self),
    {
        if self.size == 0 {
            None
        } else {
            let last = self.size - 1;
            self.get_mut(last)
        }
    }

    /// Appends `value` at the back and gives mutable access to it where it is stored.
    pub fn push_back_mut(&mut self, value: T) -> (r: &mut T)
        requires
            old(self).wf(),
            old(self)@.len() < N,
        ensures
            *r == value,
            final(self).wf(),
            final(self)@ == old(self)@.push(*final(r)),
            final(self).front_slot() == old(self).front_slot(),
    {
        proof {
            self.lemma_fill_back();
        }
        let idx = self.get_idx(self.size);
        self.size = self.size + 1;
        self.data[idx].insert(value)
    }

    /// Appends `value` at the back.
    pub fn push_back(&mut self, value: T)
        requires
            old(self).wf(),
            old(self)@.len() < N,
        ensures
            final(self).wf(),
            final(self)@ == old(self)@.push(value),
            final(self).front_slot() == old(self).front_slot(),
    {
        self.push_back_mut(value);
    }

    /// Prepends `value` at the front and gives mutable access to it where it is stored.
    /// The front moves one slot back, wrapping from the first slot to the last.
    pub fn push_front_mut(&mut self, value: T) -> (r: &mut T)
        requires
            old(self).wf(),
            old(self)@.len() < N,
        ensures
            *r == value,
            final(self).wf(),
            final(self)@ == seq![*final(r)] + old(self)@,
            final(self).front_slot() == (if old(self).front_slot() == 0 {
                N - 1
            } else {
                old(self).front_slot() - 1
            }),
    {
        let start: usize = if self.start == 0 { N - 1 } else { self.start - 1 };
        proof {
            self.lemma_fill_front(start);
        }
        self.start = start;
        self.size = self.size + 1;
        self.data[start].insert(value)
    }

    /// Prepends `value` at the front.
    pub fn push_front(&mut self, value: T)
        requires
            old(self).wf(),
            old(self)@.len() < N,
        ensures
            final(self).wf(),
            final(self)@ == seq![value] + old(self)@,
            final(self).front_slot() == (if old(self).front_slot() == 0 {
                N - 1
            } else {
                old(self).front_slot() - 1
            }),
    {
        self.push_front_mut(value);
    }

    /// Removes and returns the first element, or returns `None` when empty.
    /// The front moves one slot on, wrapping from the last slot to the first.
    pub fn pop_front(&mut self) -> (r: Option<T>)
        requires
            old(self).wf(),
        ensures
            final(self).wf(),
            old(self)@.len() == 0 ==> r is None && *final(self) == *old(self),
            old(self)@.len() > 0 ==> {
                &&& r == Some(old(self)@[0])
                &&& final(self)@ == old(self)@.drop_first()
                &&& final(self).front_slot() == (if old(self).front_slot() + 1 == N {
                    0
                } else {
                    old(self).front_slot() + 1
                })
            },
    {
        if self.size == 0 {
            return None;
        }
        let ghost pre = *self;
        proof {
            pre.lemma_slot(0);
        }
        let start = self.start;
        let next = self.get_idx(1);
        let r = self.data[start].take();
        self.start = next;
        self.size = self.size - 1;
        proof {
            assert forall|j: int| 0 <= j < N implies (#[trigger] self.data@[j] is Some
                <==> ring_offset(self.start as int, j, N as int) < self.size) by {
                assert(pre.data@[j] is Some <==> ring_offset(pre.start as int, j, N as int)
                    < pre.size);
            }
            assert forall|i: int| 0 <= i < self.size implies self.slot(i) == pre.slot(i + 1) by {
                pre.lemma_slot(i + 1);
            }
            assert(self@ =~= pre@.drop_first());
        }
        r
    }

    /// Removes and returns the last element, or returns `None` when empty.
    pub fn pop_back(&mut self) -> (r: Option<T>)
        requires
            old(self).wf(),
        ensures
            final(self).wf(),
            old(self)@.len() == 0 ==> r is None && *final(self) == *old(self),
            old(self)@.len() > 0 ==> {
                &&& r == Some(old(self)@.last())
                &&& final(self)@ == old(self)@.drop_last()
                &&& final(self).front_slot() == old(self).front_slot()
            },
    {
        if self.size == 0 {
            return None;
        }
        let ghost pre = *self;
        proof {
            pre.lemma_slot(pre.size - 1);
        }
        let idx = self.get_idx(self.size - 1);
        let r = self.data[idx].take();
        self.size = self.size - 1;
        proof {
            assert forall|j: int| 0 <= j < N implies (#[trigger] self.data@[j] is Some
                <==> ring_offset(self.start as int, j, N as int) < self.size) by {
                assert(pre.data@[j] is Some <==> ring_offset(pre.start as int, j, N as int)
                    < pre.size);
            }
            assert forall|i: int| 0 <= i < self.size implies self.slot(i) != idx by {
                pre.lemma_slot(i);
            }
            assert(self@ =~= pre@.drop_last());
        }
        r
    }

    /// Length of the first contiguous run of slots, from the front slot towards the end of
    /// the storage: `min(N - start, size)`.
    pub open spec fn first_run_len(&self) -> nat {
        if N - self.front_slot() < self@.len() {
            (N - self.front_slot()) as nat
        } else {
            self@.len()
        }
    }

    /// The elements as two contiguous runs of slots: the first from the front slot towards
    /// the end of the storage, the second from the first slot on. The second is non-empty
    /// only where the elements wrap past the end of the storage.
    pub fn as_slices(&self) -> (r: (Vec<&T>, Vec<&T>))
        requires
            self.wf(),
        ensures
            r.0@.len() == self.first_run_len(),
            r.0@.len() + r.1@.len() == self@.len(),
            r.1@.len() > 0 <==> self.front_slot() + self@.len() > N,
            forall|i: int| 0 <= i < r.0@.len() ==> *r.0@[i] == self@[i],
            forall|i: int| 0 <= i < r.1@.len() ==> *r.1@[i] == self@[r.0@.len() + i],
    {
        let len1: usize = if N - self.start < self.size { N - self.start } else { self.size };
        let mut a: Vec<&T> = Vec::new();
        let mut k: usize = 0;
        while k < len1
            invariant
                self.wf(),
                len1 <= self.size,
                self.start + len1 <= N,
                k <= len1,
                a@.len() == k,
                forall|i: int| 0 <= i < k ==> *a@[i] == self@[i],
            decreases len1 - k,
        {
            proof {
                self.lemma_slot(k as int);
            }
            a.push(self.data[self.start + k].as_ref().unwrap());
            k = k + 1;
        }
        let mut b: Vec<&T> = Vec::new();
        let mut k: usize = 0;
        while k < self.size - len1
            invariant
                self.wf(),
                len1 <= self.size,
                len1 == self.first_run_len(),
                k <= self.size - len1,
                b@.len() == k,
                forall|i: int| 0 <= i < k ==> *b@[i] == self@[len1 + i],
            decreases self.size - len1 - k,
        {
            proof {
                self.lemma_slot(len1 + k);
            }
            b.push(self.data[k].as_ref().unwrap());
            k = k + 1;
        }
        (a, b)
    }

    /// The element at logical index `index`; the index must be in range.
    pub fn index(&self, index: usize) -> (r: &T)
        requires
            self.wf(),
            index < self@.len(),
        ensures
            *r == self@[index as int],
    {
        self.get(index).unwrap()
    }

    /// Mutable access to the element at logical index `index`; the index must be in range.
    pub fn index_mut(&mut self, index: usize) -> (r: &mut T)
        requires
            old(self).wf(),
            index < old(self)@.len(),
        ensures
            *r == old(self)@[index as int],
            final(self).wf(),
            final(self)@ == old(self)@.update(index as int, *final(r)),
            final(self).front_slot() == old(self).front_slot(),
    {
        self.get_mut(index).unwrap()
    }

    /// Whether the elements, front to back, equal those of `other`, one by one.
    /// Deques of different lengths are never equal to it.
    pub fn eq_slice(&self, other: &[T]) -> (r: bool)
        where
            T: PartialEq,
        requires
            self.wf(),
        ensures
            T::obeys_eq_spec() ==> (r <==> (self@.len() == other@.len() && forall|i: int|
                0 <= i < self@.len() ==> self@[i].eq_spec(&other@[i]))),
    {
        if self.size != other.len() {
            return false;
        }
        let mut k: usize = 0;
        while k < self.size
            invariant
                self.wf(),
                self.size == other@.len(),
                k <= self.size,
                T::obeys_eq_spec() ==> forall|i: int| 0 <= i < k ==> self@[i].eq_spec(&other@[i]),
            decreases self.size - k,
        {
            let x = self.index(k);
            if !x.eq(&other[k]) {
                return false;
            }
            k = k + 1;
        }
        true
    }

    /// A front-to-back traversal by shared reference.
    pub fn iter<'a>(&'a self) -> (r: Iter<'a, T, N>)
        requires
            self.wf(),
        ensures
            r.wf(),
            r@ == self@,
    {
        Iter { deq: self, front: 0, back: self.size }
    }

    /// A front-to-back traversal by mutable reference.
    pub fn iter_mut<'a>(&'a mut self) -> (r: IterMut<'a, T, N>)
        requires
            old(self).wf(),
        ensures
            r.wf(),
            *r.deq == *old(self),
            r.front == 0,
            r.back == old(self)@.len(),
            *final(self) == *final(r.deq),
    {
        let back = self.size;
        IterMut { deq: self, front: 0, back }
    }

    /// A traversal that takes the elements out, front to back.
    pub fn into_iter(self) -> (r: IntoIter<T, N>)
        requires
            self.wf(),
        ensures
            r.wf(),
            r@ == self@,
    {
        IntoIter(self)
    }
}

/// Traversal of a deque by shared reference, from either end.
pub struct Iter<'a, T, const N: usize> {
    deq: &'a StackDequeue<T, N>,
    front: usize,
    back: usize,
}

impl<'a, T, const N: usize> View for Iter<'a, T, N> {
    type V = Seq<T>;

    /// The elements not yet visited, front to back.
    closed spec fn view(&self) -> Seq<T> {
        self.deq@.subrange(self.front as int, self.back as int)
    }
}

impl<'a, T, const N: usize> Iter<'a, T, N> {
    /// The traversal stays within the deque's elements.
    pub closed spec fn wf(&self) -> bool {
        &&& self.deq.wf()
        &&& self.front <= self.back <= self.deq@.len()
    }

    /// Visits the next element from the front, or returns `None` when all are visited.
    pub fn next(&mut self) -> (r: Option<&'a T>)
        requires
            old(self).wf(),
        ensures
            final(self).wf(),
            old(self)@.len() == 0 ==> r is None && final(self)@ == old(self)@,
            old(self)@.len() > 0 ==> r == Some(&old(self)@[0]) && final(self)@
                == old(self)@.drop_first(),
    {
        if self.front == self.back {
            return None;
        }
        let r = self.deq.get(self.front);
        self.front = self.front + 1;
        proof {
            assert(self@ =~= old(self)@.drop_first());
        }
        r
    }

    /// Visits the next element from the back, or returns `None` when all are visited.
    pub fn next_back(&mut self) -> (r: Option<&'a T>)
        requires
            old(self).wf(),
        ensures
            final(self).wf(),
            old(self)@.len() == 0 ==> r is None && final(self)@ == old(self)@,
            old(self)@.len() > 0 ==> r == Some(&old(self)@.last()) && final(self)@
                == old(self)@.drop_last(),
    {
        if self.front == self.back {
            return None;
        }
        self.back = self.back - 1;
        let r = self.deq.get(self.back);
        proof {
            assert(self@ =~= old(self)@.drop_last());
        }
        r
    }

    /// Number of elements not yet visited.
    pub fn len(&self) -> (r: usize)
        requires
            self.wf(),
        ensures
            r == self@.len(),
    {
        self.back - self.front
    }
}

/// Traversal of a deque by mutable reference, from either end. Each element handed out
/// stays borrowed until the next call.
pub struct IterMut<'a, T, const N: usize> {
    /// The deque traversed.
    pub deq: &'a mut StackDequeue<T, N>,
    /// Logical index of the next element from the front.
    pub front: usize,
    /// Logical index just past the next element from the back.
    pub back: usize,
}

impl<'a, T, const N: usize> IterMut<'a, T, N> {
    /// The traversal stays within the deque's elements.
    pub open spec fn wf(&self) -> bool {
        &&& self.deq.wf()
        &&& self.front <= self.back <= self.deq@.len()
    }

    /// Hands out the next element from the front, or returns `None` when all are visited.
    pub fn next(&mut self) -> (r: Option<&mut T>)
        requires
            old(self).wf(),
        ensures
            final(self).wf(),
            *final(final(self).deq) == *final(old(self).deq),
            final(self).back == old(self).back,
            old(self).front == old(self).back ==> r is None && *final(self).deq == *old(self).deq
                && final(self).front == old(self).front,
            old(self).front < old(self).back ==> {
                &&& r is Some
                &&& *r.unwrap() == old(self).deq@[old(self).front as int]
                &&& final(self).front == old(self).front + 1
                &&& final(self).deq@ == old(self).deq@.update(
                    old(self).front as int,
                    *final(r.unwrap()),
                )
            },
    {
        if self.front == self.back {
            return None;
        }
        let i = self.front;
        self.front = i + 1;
        self.deq.get_mut(i)
    }

    /// Hands out the next element from the back, or returns `None` when all are visited.
    pub fn next_back(&mut self) -> (r: Option<&mut T>)
        requires
            old(self).wf(),
        ensures
            final(self).wf(),
            *final(final(self).deq) == *final(old(self).deq),
            final(self).front == old(self).front,
            old(self).front == old(self).back ==> r is None && *final(self).deq == *old(self).deq
                && final(self).back == old(self).back,
            old(self).front < old(self).back ==> {
                &&& r is Some
                &&& *r.unwrap() == old(self).deq@[old(self).back - 1]
                &&& final(self).back == old(self).back - 1
                &&& final(self).deq@ == old(self).deq@.update(
                    old(self).back - 1,
                    *final(r.unwrap()),
                )
            },
    {
        if self.front == self.back {
            return None;
        }
        let i = self.back - 1;
        self.back = i;
        self.deq.get_mut(i)
    }

    /// Number of elements not yet visited.
    pub fn len(&self) -> (r: usize)
        requires
            self.wf(),
        ensures
            r == self.back - self.front,
    {
        self.back - self.front
    }
}

/// Traversal that takes the elements out of a deque, from either end.
pub struct IntoIter<T, const N: usize>(StackDequeue<T, N>);

impl<T, const N: usize> View for IntoIter<T, N> {
    type V = Seq<T>;

    /// The elements not yet taken, front to back.
    closed spec fn view(&self) -> Seq<T> {
        self.0@
    }
}

impl<T, const N: usize> IntoIter<T, N> {
    /// The remaining deque is consistent.
    pub closed spec fn wf(&self) -> bool {
        self.0.wf()
    }

    /// Takes the next element from the front, or returns `None` when all are taken.
    pub fn next(&mut self) -> (r: Option<T>)
        requires
            old(self).wf(),
        ensures
            final(self).wf(),
            old(self)@.len() == 0 ==> r is None && final(self)@ == old(self)@,
            old(self)@.len() > 0 ==> r == Some(old(self)@[0]) && final(self)@
                == old(self)@.drop_first(),
    {
        self.0.pop_front()
    }

    /// Takes the next element from the back, or returns `None` when all are taken.
    pub fn next_back(&mut self) -> (r: Option<T>)
        requires
            old(self).wf(),
        ensures
            final(self).wf(),
            old(self)@.len() == 0 ==> r is None && final(self)@ == old(self)@,
            old(self)@.len() > 0 ==> r == Some(old(self)@.last()) && final(self)@
                == old(self)@.drop_last(),
    {
        self.0.pop_back()
    }

    /// Number of elements not yet taken.
    pub fn len(&self) -> (r: usize)
        requires
            self.wf(),
        ensures
            r == self@.len(),
    {
        self.0.len()
    }
}


/// One operation on a deque's elements, as `push_back`, `push_front`, `pop_front` and
/// `pop_back` perform it.
pub enum DequeOp<T> {
    PushBack(T),
    PushFront(T),
    PopFront,
    PopBack,
}

/// The elements after `op` is made on a deque holding `s`; a pop on an empty deque
/// leaves it as it is.
pub open spec fn apply_op<T>(s: Seq<T>, op: DequeOp<T>) -> Seq<T> {
    match op {
        DequeOp::PushBack(v) => s.push(v),
        DequeOp::PushFront(v) => seq![v] + s,
        DequeOp::PopFront => if s.len() == 0 { s } else { s.drop_first() },
        DequeOp::PopBack => if s.len() == 0 { s } else { s.drop_last() },
    }
}

/// The elements after the operations `ops` are made in turn on a deque holding `s`.
pub open spec fn apply_ops<T>(s: Seq<T>, ops: Seq<DequeOp<T>>) -> Seq<T>
    decreases ops.len(),
{
    if ops.len() == 0 {
        s
    } else {
        apply_ops(apply_op(s, ops[0]), ops.drop_first())
    }
}

/// Whether `op` is a push.
pub open spec fn is_push<T>(op: DequeOp<T>) -> bool {
    op is PushBack || op is PushFront
}

/// Number of pushes in `ops`.
pub open spec fn count_pushes<T>(ops: Seq<DequeOp<T>>) -> int
    decreases ops.len(),
{
    if ops.len() == 0 {
        0
    } else {
        (if is_push(ops[0]) { 1int } else { 0int }) + count_pushes(ops.drop_first())
    }
}

/// Number of pops in `ops`.
pub open spec fn count_pops<T>(ops: Seq<DequeOp<T>>) -> int
    decreases ops.len(),
{
    if ops.len() == 0 {
        0
    } else {
        (if is_push(ops[0]) { 0int } else { 1int }) + count_pops(ops.drop_first())
    }
}

/// Whether the operations `ops`, made in turn from `s`, never push beyond `n` elements.
pub open spec fn within_capacity<T>(s: Seq<T>, ops: Seq<DequeOp<T>>, n: nat) -> bool
    decreases ops.len(),
{
    ops.len() == 0 || ((is_push(ops[0]) ==> s.len() < n) && within_capacity(
        apply_op(s, ops[0]),
        ops.drop_first(),
        n,
    ))
}

/// Whether, once a pop made in turn from `s` finds the deque empty, only pops follow.
pub open spec fn no_push_after_empty_pop<T>(s: Seq<T>, ops: Seq<DequeOp<T>>) -> bool
    decreases ops.len(),
{
    ops.len() == 0 || (if !is_push(ops[0]) && s.len() == 0 {
        count_pushes(ops) == 0
    } else {
        no_push_after_empty_pop(apply_op(s, ops[0]), ops.drop_first())
    })
}

/// Without pushes, pops leave an empty deque empty.
proof fn lemma_pops_on_empty<T>(s: Seq<T>, ops: Seq<DequeOp<T>>)
    requires
        s.len() == 0,
        count_pushes(ops) == 0,
    ensures
        apply_ops(s, ops).len() == 0,
        count_pops(ops) == ops.len(),
    decreases ops.len(),
{
    if ops.len() > 0 {
        lemma_count_pushes_nonneg(ops.drop_first());
        lemma_pops_on_empty(apply_op(s, ops[0]), ops.drop_first());
    }
}

proof fn lemma_count_pushes_nonneg<T>(ops: Seq<DequeOp<T>>)
    ensures
        count_pushes(ops) >= 0,
    decreases ops.len(),
{
    if ops.len() > 0 {
        lemma_count_pushes_nonneg(ops.drop_first());
    }
}

/// Starting from an empty deque, after any sequence of pushes and pops within its capacity,
/// the number of elements held is the number of pushes less the number of pops, or zero
/// where the pops outnumber the pushes. Excluded is a push made after a pop that found the
/// deque empty, which the count would not see.
pub proof fn lemma_len_after_ops<T>(ops: Seq<DequeOp<T>>, n: nat)
    requires
        within_capacity(Seq::<T>::empty(), ops, n),
        no_push_after_empty_pop(Seq::<T>::empty(), ops),
    ensures
        apply_ops(Seq::<T>::empty(), ops).len() == (if count_pushes(ops) >= count_pops(ops) {
            count_pushes(ops) - count_pops(ops)
        } else {
            0
        }),
        apply_ops(Seq::<T>::empty(), ops).len() <= n,
{
    lemma_len_from(Seq::<T>::empty(), ops, n);
}

proof fn lemma_len_from<T>(s: Seq<T>, ops: Seq<DequeOp<T>>, n: nat)
    requires
        s.len() <= n,
        within_capacity(s, ops, n),
        no_push_after_empty_pop(s, ops),
    ensures
        apply_ops(s, ops).len() == (if s.len() + count_pushes(ops) >= count_pops(ops) {
            s.len() + count_pushes(ops) - count_pops(ops)
        } else {
            0
        }),
        apply_ops(s, ops).len() <= n,
    decreases ops.len(),
{
    if ops.len() > 0 {
        if !is_push(ops[0]) && s.len() == 0 {
            lemma_pops_on_empty(s, ops);
        } else {
            lemma_len_from(apply_op(s, ops[0]), ops.drop_first(), n);
        }
    }
}

/// Pushing an element at one end and then popping at that same end gives back the elements
/// held before, and the popped element is the one pushed; popping at one end and then
/// pushing the popped element back at that end gives back the elements held before.
/// The front slot moves back and forth in the same way: one slot back, wrapping from the
/// first slot to the last, and one slot on, wrapping from the last to the first.
pub proof fn lemma_push_pop_restores<T>(s: Seq<T>, v: T, start: nat, n: nat)
    requires
        start < n,
    ensures
        apply_op(apply_op(s, DequeOp::PushBack(v)), DequeOp::PopBack) == s,
        apply_op(apply_op(s, DequeOp::PushFront(v)), DequeOp::PopFront) == s,
        s.len() > 0 ==> apply_op(apply_op(s, DequeOp::PopBack), DequeOp::PushBack(s.last()))
            == s,
        s.len() > 0 ==> apply_op(apply_op(s, DequeOp::PopFront), DequeOp::PushFront(s[0]))
            == s,
        ({
            let back = if start == 0 { (n - 1) as nat } else { (start - 1) as nat };
            let on = if back + 1 == n { 0 } else { back + 1 };
            on == start
        }),
        ({
            let on = if start + 1 == n { 0 } else { start + 1 };
            let back = if on == 0 { (n - 1) as nat } else { (on - 1) as nat };
            back == start
        }),
{
    assert(s.push(v).drop_last() =~= s);
    assert((seq![v] + s).drop_first() =~= s);
    if s.len() > 0 {
        assert(s.drop_last().push(s.last()) =~= s);
        assert(seq![s[0]] + s.drop_first() =~= s);
    }
}

} // verus!
