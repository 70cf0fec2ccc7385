//! A fixed-capacity stack of `u16` items, used for the free-minipages and
//! free-segments stacks of each size class.
use vstd::prelude::*;

verus! {

/// Stack with a capacity fixed at creation. Does not grow.
pub struct FixedStack {
    items: Vec<u16>,
    max_size: u16,
}

impl View for FixedStack {
    type V = Seq<u16>;

    /// The items, bottom first: the top of the stack is the last one.
    closed spec fn view(&self) -> Seq<u16> {
        self.items@
    }
}

impl FixedStack {
    /// The number of items the stack can hold.
    pub closed spec fn capacity(&self) -> nat {
        self.max_size as nat
    }

    /// The stack holds no more than its capacity.
    pub closed spec fn wf(&self) -> bool {
        self.items@.len() <= self.max_size
    }

    /// An empty stack that can hold `max_size` items.
    pub fn new(max_size: u16) -> (r: FixedStack)
        ensures
            r.wf(),
            r@ == Seq::<u16>::empty(),
            r.capacity() == max_size,
    {
        FixedStack { items: Vec::new(), max_size }
    }

    /// The number of items on the stack.
    pub fn size(&self) -> (r: usize)
        ensures
            r == self@.len(),
    {
        self.items.len()
    }

    /// Pushes `item`. Returns `Some(item)`, or `None` when the stack is full,
    /// in which case it is unchanged.
    pub fn push(&mut self, item: u16) -> (r: Option<u16>)
        requires
            old(self).wf(),
        ensures
            final(self).wf(),
            final(self).capacity() == old(self).capacity(),
            old(self)@.len() < old(self).capacity() ==> r == Some(item)
                && final(self)@ == old(self)@.push(item),
            old(self)@.len() >= old(self).capacity() ==> r is None && final(self)@ == old(self)@,
    {
        if self.items.len() >= self.max_size as usize {
            return None;
        }
        self.items.push(item);
        Some(item)
    }

    /// Removes and returns the top item, or `None` when the stack is empty.
    pub fn pop(&mut self) -> (r: Option<u16>)
        requires
            old(self).wf(),
        ensures
            final(self).wf(),
            final(self).capacity() == old(self).capacity(),
            old(self)@.len() == 0 ==> r is None && final(self)@ == old(self)@,
            old(self)@.len() > 0 ==> r == Some(old(self)@.last())
                && final(self)@ == old(self)@.drop_last(),
    {
        self.items.pop()
    }

    /// The top item without removing it, or `None` when the stack is empty.
    pub fn peek(&self) -> (r: Option<u16>)
        ensures
            self@.len() == 0 ==> r is None,
            self@.len() > 0 ==> r == Some(self@.last()),
    {
        let n = self.items.len();
        if n == 0 {
            None
        } else {
            Some(self.items[n - 1])
        }
    }

    /// Removes every item.
    pub fn clear(&mut self)
        requires
            old(self).wf(),
        ensures
            final(self).wf(),
            final(self).capacity() == old(self).capacity(),
            final(self)@ == Seq::<u16>::empty(),
    {
        self.items.clear();
    }
}

} // verus!

verus! {

/// A sequence of distinct values below `n` has at most `n` items.
pub proof fn lemma_unique_bounded_len(s: Seq<u16>, n: int)
    requires
        s.no_duplicates(),
        n >= 0,
        forall|k: int| 0 <= k < s.len() ==> s[k] < n,
    ensures
        s.len() <= n,
{
    let t = s.map_values(|x: u16| x as int);
    assert(t.no_duplicates()) by {
        assert forall|i: int, j: int| 0 <= i < t.len() && 0 <= j < t.len() && i != j implies t[i]
            != t[j] by {
            assert(s[i] != s[j]);
        }
    }
    t.unique_seq_to_set();
    vstd::set_lib::lemma_int_range(0, n);
    assert(t.to_set().subset_of(vstd::set_lib::set_int_range(0, n))) by {
        assert forall|x: int| t.to_set().contains(x) implies vstd::set_lib::set_int_range(
            0,
            n,
        ).contains(x) by {
            let k = choose|k: int| 0 <= k < t.len() && t[k] == x;
        }
    }
    vstd::set_lib::lemma_len_subset(t.to_set(), vstd::set_lib::set_int_range(0, n));
}

} // verus!
