//! Sets of state indices.

use vstd::prelude::*;

verus! {

/// A subset of the state indices `0..capacity` of one automaton.
pub struct StateSet {
    bits: Vec<bool>,
}

impl View for StateSet {
    type V = Set<int>;

    closed spec fn view(&self) -> Set<int> {
        Set::new(|i: int| 0 <= i < self.bits@.len() && self.bits@[i])
    }
}

/// The indices below `bound` that `s` holds.
pub open spec fn below(s: Set<int>, bound: int) -> Set<int> {
    Set::new(|i: int| 0 <= i < bound && s.contains(i))
}

/// `below(s, bound)` is finite and has at most `bound` members.
pub proof fn lemma_below_finite(s: Set<int>, bound: int)
    requires
        0 <= bound,
    ensures
        below(s, bound).finite(),
        below(s, bound).len() <= bound,
    decreases bound,
{
    if bound == 0 {
        assert(below(s, bound) =~= Set::<int>::empty());
    } else {
        lemma_below_finite(s, bound - 1);
        if s.contains(bound - 1) {
            assert(below(s, bound) =~= below(s, bound - 1).insert(bound - 1));
        } else {
            assert(below(s, bound) =~= below(s, bound - 1));
        }
    }
}

impl StateSet {
    /// The number of state indices that the set ranges over.
    pub closed spec fn capacity(&self) -> nat {
        self.bits@.len()
    }

    /// Members are state indices below the capacity, so the set is finite.
    pub proof fn lemma_bounded(&self)
        ensures
            self@.finite(),
            self@.len() <= self.capacity(),
            forall|i: int| self@.contains(i) ==> 0 <= i < self.capacity(),
    {
        lemma_below_finite(self@, self.capacity() as int);
        assert(self@ =~= below(self@, self.capacity() as int));
    }

    /// The empty subset of `0..capacity`.
    pub fn new(capacity: usize) -> (s: StateSet)
        ensures
            s@ == Set::<int>::empty(),
            s.capacity() == capacity,
    {
        let mut bits: Vec<bool> = Vec::new();
        while bits.len() < capacity
            invariant
                bits@.len() <= capacity,
                forall|i: int| 0 <= i < bits@.len() ==> !bits@[i],
            decreases capacity - bits@.len(),
        {
            bits.push(false);
        }
        let s = StateSet { bits };
        assert(s@ =~= Set::<int>::empty());
        s
    }

    /// The number of state indices that the set ranges over.
    pub fn universe(&self) -> (n: usize)
        ensures
            n == self.capacity(),
    {
        self.bits.len()
    }

    /// Whether `i` is a member. An index outside the universe never is.
    pub fn contains(&self, i: usize) -> (b: bool)
        ensures
            b == self@.contains(i as int),
    {
        i < self.bits.len() && self.bits[i]
    }

    /// Adds `i` to the set.
    pub fn insert(&mut self, i: usize)
        requires
            i < old(self).capacity(),
        ensures
            final(self)@ == old(self)@.insert(i as int),
            final(self).capacity() == old(self).capacity(),
    {
        self.bits.set(i, true);
        assert(self@ =~= old(self)@.insert(i as int));
    }

    /// Removes every member.
    pub fn clear(&mut self)
        ensures
            final(self)@ == Set::<int>::empty(),
            final(self).capacity() == old(self).capacity(),
    {
        let n = self.bits.len();
        let mut i: usize = 0;
        while i < n
            invariant
                i <= n,
                self.bits@.len() == n,
                forall|j: int| 0 <= j < i ==> !self.bits@[j],
            decreases n - i,
        {
            self.bits.set(i, false);
            i += 1;
        }
        assert(self@ =~= Set::<int>::empty());
    }

    /// A copy of the set.
    pub fn duplicate(&self) -> (s: StateSet)
        ensures
            s@ == self@,
            s.capacity() == self.capacity(),
    {
        let n = self.bits.len();
        let mut bits: Vec<bool> = Vec::new();
        let mut i: usize = 0;
        while i < n
            invariant
                i <= n,
                n == self.bits@.len(),
                bits@.len() == i,
                forall|j: int| 0 <= j < i ==> bits@[j] == self.bits@[j],
            decreases n - i,
        {
            bits.push(self.bits[i]);
            i += 1;
        }
        let s = StateSet { bits };
        assert(s@ =~= self@);
        s
    }

    /// Adds every member of `other`.
    pub fn union_with(&mut self, other: &StateSet)
        requires
            old(self).capacity() == other.capacity(),
        ensures
            final(self)@ == old(self)@.union(other@),
            final(self).capacity() == old(self).capacity(),
    {
        let n = self.bits.len();
        let ghost before = self.bits@;
        let mut i: usize = 0;
        while i < n
            invariant
                i <= n,
                self.bits@.len() == n,
                other.bits@.len() == n,
                before.len() == n,
                forall|j: int| 0 <= j < i ==> #[trigger] self.bits@[j] == (before[j] || other.bits@[j]),
                forall|j: int| i <= j < n ==> #[trigger] self.bits@[j] == before[j],
            decreases n - i,
        {
            let b = self.bits[i] || other.bits[i];
            self.bits.set(i, b);
            i += 1;
        }
        assert(self@ =~= old(self)@.union(other@));
    }

    /// Keeps only the members that `other` holds too.
    pub fn intersect_with(&mut self, other: &StateSet)
        requires
            old(self).capacity() == other.capacity(),
        ensures
            final(self)@ == old(self)@.intersect(other@),
            final(self).capacity() == old(self).capacity(),
    {
        let n = self.bits.len();
        let ghost before = self.bits@;
        let mut i: usize = 0;
        while i < n
            invariant
                i <= n,
                self.bits@.len() == n,
                other.bits@.len() == n,
                before.len() == n,
                forall|j: int| 0 <= j < i ==> #[trigger] self.bits@[j] == (before[j] && other.bits@[j]),
                forall|j: int| i <= j < n ==> #[trigger] self.bits@[j] == before[j],
            decreases n - i,
        {
            let b = self.bits[i] && other.bits[i];
            self.bits.set(i, b);
            i += 1;
        }
        assert(self@ =~= old(self)@.intersect(other@));
    }

    /// Removes every member of `other`.
    pub fn difference_with(&mut self, other: &StateSet)
        requires
            old(self).capacity() == other.capacity(),
        ensures
            final(self)@ == old(self)@.difference(other@),
            final(self).capacity() == old(self).capacity(),
    {
        let n = self.bits.len();
        let ghost before = self.bits@;
        let mut i: usize = 0;
        while i < n
            invariant
                i <= n,
                self.bits@.len() == n,
                other.bits@.len() == n,
                before.len() == n,
                forall|j: int| 0 <= j < i ==> #[trigger] self.bits@[j] == (before[j] && !other.bits@[j]),
                forall|j: int| i <= j < n ==> #[trigger] self.bits@[j] == before[j],
            decreases n - i,
        {
            let b = self.bits[i] && !other.bits[i];
            self.bits.set(i, b);
            i += 1;
        }
        assert(self@ =~= old(self)@.difference(other@));
    }

    /// The least member, if there is one.
    pub fn first(&self) -> (r: Option<usize>)
        ensures
            match r {
                Some(i) => self@.contains(i as int) && forall|j: int| self@.contains(j) ==> i <= j,
                None => self@ == Set::<int>::empty(),
            },
    {
        let n = self.bits.len();
        let mut i: usize = 0;
        while i < n
            invariant
                i <= n,
                n == self.bits@.len(),
                forall|j: int| 0 <= j < i ==> !self.bits@[j],
            decreases n - i,
        {
            if self.bits[i] {
                return Some(i);
            }
            i += 1;
        }
        assert(self@ =~= Set::<int>::empty());
        None
    }

    /// Whether the set has no member.
    pub fn is_empty(&self) -> (b: bool)
        ensures
            b == (self@ == Set::<int>::empty()),
    {
        let r = self.first();
        match r {
            Some(i) => {
                assert(self@.contains(i as int));
                false
            },
            None => true,
        }
    }

    /// Whether every member of `other` is a member of this set.
    pub fn is_superset(&self, other: &StateSet) -> (b: bool)
        ensures
            b == other@.subset_of(self@),
    {
        let n = other.bits.len();
        let mut i: usize = 0;
        while i < n
            invariant
                i <= n,
                n == other.bits@.len(),
                forall|j: int| 0 <= j < i && other.bits@[j] ==> self@.contains(j),
            decreases n - i,
        {
            if other.bits[i] && !self.contains(i) {
                assert(other@.contains(i as int));
                return false;
            }
            i += 1;
        }
        true
    }

    /// Whether the two sets have the same members.
    pub fn equals(&self, other: &StateSet) -> (b: bool)
        ensures
            b == (self@ == other@),
    {
        let b = self.is_superset(other) && other.is_superset(self);
        assert(b == (self@ =~= other@));
        b
    }

    /// The number of members.
    pub fn len(&self) -> (n: usize)
        ensures
            n == self@.len(),
    {
        let cap = self.bits.len();
        let mut count: usize = 0;
        let mut i: usize = 0;
        assert(below(self@, 0) =~= Set::<int>::empty());
        while i < cap
            invariant
                i <= cap,
                cap == self.bits@.len(),
                count == below(self@, i as int).len(),
                count <= i,
            decreases cap - i,
        {
            proof {
                lemma_below_finite(self@, i as int);
                lemma_below_finite(self@, i + 1);
                if self.bits@[i as int] {
                    assert(below(self@, i + 1) =~= below(self@, i as int).insert(i as int));
                } else {
                    assert(below(self@, i + 1) =~= below(self@, i as int));
                }
            }
            if self.bits[i] {
                count += 1;
            }
            i += 1;
        }
        assert(self@ =~= below(self@, cap as int));
        count
    }

    /// The members in ascending order.
    pub fn members(&self) -> (list: Vec<usize>)
        ensures
            forall|i: int| 0 <= i < list@.len() ==> self@.contains(#[trigger] list@[i] as int),
            forall|x: int| self@.contains(x) ==> exists|i: int| 0 <= i < list@.len() && #[trigger] list@[i] == x,
            forall|i: int, j: int| 0 <= i < j < list@.len() ==> #[trigger] list@[i] < #[trigger] list@[j],
    {
        let n = self.bits.len();
        let mut list: Vec<usize> = Vec::new();
        let mut s: usize = 0;
        while s < n
            invariant
                s <= n,
                n == self.bits@.len(),
                forall|i: int| 0 <= i < list@.len() ==> #[trigger] list@[i] < s && self.bits@[list@[i] as int],
                forall|x: int|
                    0 <= x < s && self.bits@[x] ==> exists|i: int| 0 <= i < list@.len() && #[trigger] list@[i] == x,
                forall|i: int, j: int| 0 <= i < j < list@.len() ==> #[trigger] list@[i] < #[trigger] list@[j],
            decreases n - s,
        {
            if self.bits[s] {
                let ghost before = list@;
                list.push(s);
                proof {
                    assert forall|x: int| 0 <= x < s + 1 && self.bits@[x] implies exists|i: int|
                        0 <= i < list@.len() && #[trigger] list@[i] == x by {
                        if x < s {
                            let i = choose|i: int| 0 <= i < before.len() && #[trigger] before[i] == x;
                            assert(list@[i] == x);
                        } else {
                            assert(list@[before.len() as int] == x);
                        }
                    }
                }
            }
            s += 1;
        }
        list
    }
}

} // verus!
