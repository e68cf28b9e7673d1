use vstd::prelude::*;

verus! {

/// A vector of at most `N` elements, filled and emptied at its tail.
///
/// The elements occupy the first `len` places of the storage, in the order pushed.
pub struct StackVec<T, const N: usize> {
    data: Vec<T>,
}

impl<T, const N: usize> View for StackVec<T, N> {
    type V = Seq<T>;

    /// The elements, first pushed first.
    closed spec fn view(&self) -> Seq<T> {
        self.data@
    }
}

impl<T, const N: usize> StackVec<T, N> {
    /// The capacity bound holds: never more than `N` elements.
    pub closed spec fn wf(&self) -> bool {
        self.data@.len() <= N
    }

    /// An empty vector.
    pub fn new() -> (r: Self)
        ensures
            r.wf(),
            r@ == Seq::<T>::empty(),
    {
        StackVec { data: Vec::new() }
    }

    /// A full vector holding the elements of `value` in order.
    pub fn from_array(value: [T; N]) -> (r: Self)
        ensures
            r.wf(),
            r@ == value@,
    {
        let boxed: Box<[T]> = Box::new(value);
        StackVec { data: boxed.into_vec() }
    }

    /// Number of elements held.
    pub fn len(&self) -> (r: usize)
        requires
            self.wf(),
        ensures
            r == self@.len(),
    {
        self.data.len()
    }

    /// Appends `value` at the tail; there must be room for it.
    pub fn push(&mut self, value: T)
        requires
            old(self).wf(),
            old(self)@.len() < N,
        ensures
            final(self).wf(),
            final(self)@ == old(self)@.push(value),
    {
        self.data.push(value);
    }

    /// Appends `value` at the tail, where the caller has made sure there is room for it.
    pub fn push_unchecked(&mut self, value: T)
        requires
            old(self).wf(),
            old(self)@.len() < N,
        ensures
            final(self).wf(),
            final(self)@ == old(self)@.push(value),
    {
        self.data.push(value);
    }

    /// Removes and returns the last element, or returns `None` when empty.
    pub fn pop(&mut self) -> (r: Option<T>)
        requires
            old(self).wf(),
        ensures
            final(self).wf(),
            old(self)@.len() == 0 ==> r is None && final(self)@ == old(self)@,
            old(self)@.len() > 0 ==> r == Some(old(self)@.last()) && final(self)@
                == old(self)@.drop_last(),
    {
        self.data.pop()
    }

    /// The elements as one contiguous run, first pushed first.
    pub fn as_slice(&self) -> (r: &[T])
        requires
            self.wf(),
        ensures
            r@ == self@,
    {
        self.data.as_slice()
    }

    /// A traversal that takes the elements out, first pushed first.
    pub fn into_iter(self) -> (r: IntoIter<T, N>)
        requires
            self.wf(),
        ensures
            r.wf(),
            r@ == self@,
    {
        let mut items: Vec<Option<T>> = Vec::new();
        let mut data = self.data;
        let ghost all = data@;
        while data.len() > 0
            invariant
                data@ == all.subrange(0, data@.len() as int),
                items@.len() + data@.len() == all.len(),
                forall|j: int| 0 <= j < items@.len() ==> #[trigger] items@[j] == Some(
                    all[all.len() - 1 - j],
                ),
            decreases data@.len(),
        {
            let x = data.pop().unwrap();
            items.push(Some(x));
        }
        let mut rev: Vec<Option<T>> = Vec::new();
        while items.len() > 0
            invariant
                items@.len() + rev@.len() == all.len(),
                forall|j: int| 0 <= j < items@.len() ==> #[trigger] items@[j] == Some(
                    all[all.len() - 1 - j],
                ),
                forall|j: int| 0 <= j < rev@.len() ==> #[trigger] rev@[j] == Some(all[j]),
            decreases items@.len(),
        {
            let x = items.pop().unwrap();
            rev.push(x);
        }
        let r = IntoIter { index: 0, items: rev };
        assert(r@ =~= all);
        r
    }
}

impl<T, const N: usize> Default for StackVec<T, N> {
    /// An empty vector.
    fn default() -> (r: Self)
        ensures
            r.wf(),
            r@ == Seq::<T>::empty(),
    {
        Self::new()
    }
}

/// Traversal that takes the elements out of a vector, first pushed first.
///
/// Places before `index` were already handed out and are empty; the rest still hold their
/// elements, which are released with the traversal if it stops early.
pub struct IntoIter<T, const N: usize> {
    index: usize,
    items: Vec<Option<T>>,
}

impl<T, const N: usize> View for IntoIter<T, N> {
    type V = Seq<T>;

    /// The elements not yet taken, in order.
    closed spec fn view(&self) -> Seq<T> {
        Seq::new(
            (self.items@.len() - self.index) as nat,
            |i: int| self.items@[self.index + i]->0,
        )
    }
}

impl<T, const N: usize> IntoIter<T, N> {
    /// Every place from `index` on holds an element; those before it are empty.
    pub closed spec fn wf(&self) -> bool {
        &&& self.index <= self.items@.len() <= N
        &&& forall|j: int| 0 <= j < self.items@.len() ==> (#[trigger] self.items@[j] is Some
            <==> j >= self.index)
    }

    /// Takes the next element, or returns `None` when all are taken.
    pub fn next(&mut self) -> (r: Option<T>)
        requires
            old(self).wf(),
        ensures
            final(self).wf(),
            old(self)@.len() == 0 ==> r is None && final(self)@ == old(self)@,
            old(self)@.len() > 0 ==> r == Some(old(self)@[0]) && final(self)@
                == old(self)@.drop_first(),
    {
        if self.index >= self.items.len() {
            return None;
        }
        let index = self.index;
        let r = self.items[index].take();
        self.index = index + 1;
        proof {
            assert(self@ =~= old(self)@.drop_first());
        }
        r
    }

    /// Number of elements not yet taken.
    pub fn len(&self) -> (r: usize)
        requires
            self.wf(),
        ensures
            r == self@.len(),
    {
        self.items.len() - self.index
    }
}

/// The elements that `k` calls of `pop` hand out in turn from a vector holding `s`,
/// leaving out the `None` of a call on an empty vector.
pub open spec fn popped<T>(s: Seq<T>, k: nat) -> Seq<T>
    decreases k,
{
    if k == 0 || s.len() == 0 {
        Seq::empty()
    } else {
        seq![s.last()] + popped(s.drop_last(), (k - 1) as nat)
    }
}

/// Popping all the elements of a vector hands them out last pushed first: the reverse of
/// the order in which they were pushed.
pub proof fn lemma_pop_all_reverses<T>(s: Seq<T>)
    ensures
        popped(s, s.len()).len() == s.len(),
        forall|i: int| 0 <= i < s.len() ==> #[trigger] popped(s, s.len())[i] == s[s.len() - 1 - i],
    decreases s.len(),
{
    if s.len() > 0 {
        let t = s.drop_last();
        lemma_pop_all_reverses(t);
        assert forall|i: int| 0 <= i < s.len() implies #[trigger] popped(s, s.len())[i] == s[s.len()
            - 1 - i] by {
            if i > 0 {
                assert(popped(s, s.len())[i] == popped(t, t.len())[i - 1]);
            }
        }
    }
}

} // verus!
