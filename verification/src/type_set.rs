//! Sets of type keys, kept as ascending key lists.
//!
//! Every component, tag, resource, event and system type is named by a `u64`
//! key. A `TypeSet` is the canonical form of an unordered set of such keys:
//! the keys in strictly ascending order. Two well-formed sets with the same
//! members therefore hold the same list, which is what lets an archetype be
//! found again by its component types.

use vstd::prelude::*;

verus! {

/// `s` is strictly ascending: sorted, and no key occurs twice.
pub open spec fn ascending(s: Seq<u64>) -> bool {
    forall|i: int, j: int| 0 <= i < j < s.len() ==> s[i] < s[j]
}

/// An ascending list is fixed by the set of its members.
pub proof fn lemma_ascending_determined(a: Seq<u64>, b: Seq<u64>)
    requires
        ascending(a),
        ascending(b),
        a.to_set() == b.to_set(),
    ensures
        a == b,
    decreases a.len(),
{
    if a.len() == 0 {
        if b.len() > 0 {
            assert(b.contains(b[0]));
            assert(b.to_set().contains(b[0]));
            assert(a.contains(b[0]));
        }
        assert(a =~= b);
    } else {
        let x = a.last();
        assert(a.contains(x));
        assert(a.to_set().contains(x));
        assert(b.contains(x));
        let bi = choose|i: int| 0 <= i < b.len() && b[i] == x;
        let y = b.last();
        assert(b.contains(y));
        assert(b.to_set().contains(y));
        assert(a.contains(y));
        let ai = choose|i: int| 0 <= i < a.len() && a[i] == y;
        // x is the greatest member on both sides
        assert(y <= x);
        assert(x <= y);
        let a0 = a.drop_last();
        let b0 = b.drop_last();
        assert forall|k: u64| a0.to_set().contains(k) == b0.to_set().contains(k) by {
            if a0.contains(k) {
                let i = choose|i: int| 0 <= i < a0.len() && a0[i] == k;
                assert(a[i] == k);
                assert(a.contains(k));
                assert(b.to_set().contains(k));
                let j = choose|j: int| 0 <= j < b.len() && b[j] == k;
                assert(j < b.len() - 1);
                assert(b0[j] == k);
            }
            if b0.contains(k) {
                let i = choose|i: int| 0 <= i < b0.len() && b0[i] == k;
                assert(b[i] == k);
                assert(b.contains(k));
                assert(a.to_set().contains(k));
                let j = choose|j: int| 0 <= j < a.len() && a[j] == k;
                assert(j < a.len() - 1);
                assert(a0[j] == k);
            }
        }
        assert(a0.to_set() =~= b0.to_set());
        lemma_ascending_determined(a0, b0);
        assert(a =~= a0.push(x));
        assert(b =~= b0.push(y));
    }
}

/// The two sets have a member in common.
pub open spec fn overlap(a: Set<u64>, b: Set<u64>) -> bool {
    exists|k: u64| a.contains(k) && b.contains(k)
}

/// A set of type keys.
pub struct TypeSet {
    keys: Vec<u64>,
}

impl TypeSet {
    /// The members in ascending order.
    pub closed spec fn keys(&self) -> Seq<u64> {
        self.keys@
    }

    /// The key list is strictly ascending.
    pub closed spec fn wf(&self) -> bool {
        ascending(self.keys@)
    }

    /// The members as a mathematical set.
    pub open spec fn view(&self) -> Set<u64> {
        self.keys().to_set()
    }

    /// The key list of a well-formed set is ascending.
    pub proof fn lemma_keys_ascending(&self)
        requires
            self.wf(),
        ensures
            ascending(self.keys()),
    {
    }

    /// Two well-formed sets with the same members hold the same key list.
    pub proof fn lemma_same_members_same_keys(&self, other: &TypeSet)
        requires
            self.wf(),
            other.wf(),
        ensures
            self@ == other@ <==> self.keys() == other.keys(),
    {
        if self@ == other@ {
            lemma_ascending_determined(self.keys(), other.keys());
        }
    }

    /// The empty set.
    pub fn new() -> (s: TypeSet)
        ensures
            s.wf(),
            s.keys() == Seq::<u64>::empty(),
            s@ == Set::<u64>::empty(),
    {
        let s = TypeSet { keys: Vec::new() };
        assert(s.keys@.to_set() =~= Set::<u64>::empty());
        s
    }

    /// Number of members.
    pub fn len(&self) -> (n: usize)
        ensures
            n == self.keys().len(),
    {
        self.keys.len()
    }

    /// The member at place `i` of the ascending order.
    pub fn key(&self, i: usize) -> (k: u64)
        requires
            i < self.keys().len(),
        ensures
            k == self.keys()[i as int],
    {
        self.keys[i]
    }

    /// Place of `k` in the ascending order, if it is a member.
    pub fn position(&self, k: u64) -> (r: Option<usize>)
        ensures
            match r {
                Some(i) => i < self.keys().len() && self.keys()[i as int] == k,
                None => !self@.contains(k),
            },
    {
        let mut i: usize = 0;
        while i < self.keys.len()
            invariant
                i <= self.keys.len(),
                forall|j: int| 0 <= j < i ==> self.keys@[j] != k,
            decreases self.keys.len() - i,
        {
            if self.keys[i] == k {
                return Some(i);
            }
            i += 1;
        }
        None
    }

    /// Whether `k` is a member.
    pub fn contains(&self, k: u64) -> (r: bool)
        ensures
            r == self@.contains(k),
    {
        match self.position(k) {
            Some(i) => {
                assert(self.keys@.contains(k));
                true
            },
            None => false,
        }
    }

    /// Number of members smaller than `k`: the place where `k` stands, or would stand.
    fn lower_bound(&self, k: u64) -> (p: usize)
        requires
            self.wf(),
        ensures
            p <= self.keys().len(),
            forall|j: int| 0 <= j < p ==> self.keys()[j] < k,
            forall|j: int| p <= j < self.keys().len() ==> self.keys()[j] >= k,
    {
        let mut i: usize = 0;
        while i < self.keys.len() && self.keys[i] < k
            invariant
                i <= self.keys.len(),
                forall|j: int| 0 <= j < i ==> self.keys@[j] < k,
            decreases self.keys.len() - i,
        {
            i += 1;
        }
        i
    }

    /// Adds `k`. Returns the place at which it was put, or `None` if it was a
    /// member already, in which case nothing changes.
    pub fn insert(&mut self, k: u64) -> (r: Option<usize>)
        requires
            old(self).wf(),
        ensures
            final(self).wf(),
            final(self)@ == old(self)@.insert(k),
            match r {
                Some(p) => {
                    &&& !old(self)@.contains(k)
                    &&& p <= old(self).keys().len()
                    &&& final(self).keys() == old(self).keys().insert(p as int, k)
                },
                None => old(self)@.contains(k) && final(self).keys() == old(self).keys(),
            },
    {
        let p = self.lower_bound(k);
        let ghost before = self.keys@;
        if p < self.keys.len() && self.keys[p] == k {
            assert(before.contains(k));
            assert(before.to_set().insert(k) =~= before.to_set());
            None
        } else {
            self.keys.insert(p, k);
            proof {
                let after = self.keys@;
                assert(after.len() == before.len() + 1);
                assert(forall|j: int| 0 <= j < p ==> after[j] == before[j]);
                assert(after[p as int] == k);
                assert(forall|j: int| p < j < after.len() ==> after[j] == before[j - 1]);
                assert(!before.contains(k));
                assert forall|x: u64| after.to_set().contains(x) == before.to_set().insert(
                    k,
                ).contains(x) by {
                    if after.contains(x) {
                        let j = choose|j: int| 0 <= j < after.len() && after[j] == x;
                        if j < p {
                            assert(before[j] == x);
                        } else if j > p {
                            assert(before[j - 1] == x);
                        }
                    }
                    if x == k {
                        assert(after[p as int] == x);
                    } else if before.contains(x) {
                        let j = choose|j: int| 0 <= j < before.len() && before[j] == x;
                        if j < p {
                            assert(after[j] == x);
                        } else {
                            assert(after[j + 1] == x);
                        }
                    }
                }
                assert(after.to_set() =~= before.to_set().insert(k));
            }
            Some(p)
        }
    }

    /// Takes `k` out. Returns the place it had, or `None` if it was no
    /// member, in which case nothing changes.
    pub fn remove(&mut self, k: u64) -> (r: Option<usize>)
        requires
            old(self).wf(),
        ensures
            final(self).wf(),
            final(self)@ == old(self)@.remove(k),
            match r {
                Some(p) => {
                    &&& p < old(self).keys().len()
                    &&& old(self).keys()[p as int] == k
                    &&& final(self).keys() == old(self).keys().remove(p as int)
                },
                None => !old(self)@.contains(k) && final(self).keys() == old(self).keys(),
            },
    {
        let ghost before = self.keys@;
        match self.position(k) {
            None => {
                assert(before.to_set().remove(k) =~= before.to_set());
                None
            },
            Some(p) => {
                self.keys.remove(p);
                proof {
                    let after = self.keys@;
                    assert(after.len() == before.len() - 1);
                    assert(forall|j: int| 0 <= j < p ==> after[j] == before[j]);
                    assert(forall|j: int| p <= j < after.len() ==> after[j] == before[j + 1]);
                    assert forall|x: u64| after.to_set().contains(x) == before.to_set().remove(
                        k,
                    ).contains(x) by {
                        if after.contains(x) {
                            let j = choose|j: int| 0 <= j < after.len() && after[j] == x;
                            if j < p {
                                assert(before[j] == x);
                            } else {
                                assert(before[j + 1] == x);
                            }
                        }
                        if x != k && before.contains(x) {
                            let j = choose|j: int| 0 <= j < before.len() && before[j] == x;
                            if j < p {
                                assert(after[j] == x);
                            } else {
                                assert(after[j - 1] == x);
                            }
                        }
                    }
                    assert(after.to_set() =~= before.to_set().remove(k));
                }
                Some(p)
            },
        }
    }

    /// The set of the keys listed in `list`, in whatever order and however often.
    pub fn from_keys(list: &Vec<u64>) -> (s: TypeSet)
        ensures
            s.wf(),
            s@ == list@.to_set(),
    {
        let mut s = TypeSet::new();
        let mut i: usize = 0;
        while i < list.len()
            invariant
                i <= list.len(),
                s.wf(),
                s@ == list@.take(i as int).to_set(),
            decreases list.len() - i,
        {
            s.insert(list[i]);
            proof {
                assert(list@.take(i + 1) =~= list@.take(i as int).push(list@[i as int]));
                list@.take(i as int).lemma_push_to_set_commute(list@[i as int]);
            }
            i += 1;
        }
        assert(list@.take(list.len() as int) =~= list@);
        s
    }

    /// A copy of the set.
    pub fn duplicate(&self) -> (s: TypeSet)
        ensures
            s.keys() == self.keys(),
            s@ == self@,
            s.wf() == self.wf(),
    {
        let mut keys: Vec<u64> = Vec::new();
        let mut i: usize = 0;
        while i < self.keys.len()
            invariant
                i <= self.keys.len(),
                keys@ == self.keys@.take(i as int),
            decreases self.keys.len() - i,
        {
            keys.push(self.keys[i]);
            assert(self.keys@.take(i + 1) =~= self.keys@.take(i as int).push(self.keys@[i as int]));
            i += 1;
        }
        assert(self.keys@.take(self.keys.len() as int) =~= self.keys@);
        TypeSet { keys }
    }

    /// Whether the two sets have the same members.
    pub fn same(&self, other: &TypeSet) -> (r: bool)
        requires
            self.wf(),
            other.wf(),
        ensures
            r == (self@ == other@),
            r == (self.keys() == other.keys()),
    {
        proof {
            self.lemma_same_members_same_keys(other);
        }
        if self.keys.len() != other.keys.len() {
            return false;
        }
        let mut i: usize = 0;
        while i < self.keys.len()
            invariant
                i <= self.keys.len(),
                self.keys.len() == other.keys.len(),
                forall|j: int| 0 <= j < i ==> self.keys@[j] == other.keys@[j],
                (self@ == other@) == (self.keys@ == other.keys@),
            decreases self.keys.len() - i,
        {
            if self.keys[i] != other.keys[i] {
                assert(self.keys@[i as int] != other.keys@[i as int]);
                return false;
            }
            i += 1;
        }
        assert(self.keys@ =~= other.keys@);
        true
    }

    /// Whether every member of this set is a member of `other`.
    pub fn is_subset_of(&self, other: &TypeSet) -> (r: bool)
        ensures
            r == self@.subset_of(other@),
    {
        let mut i: usize = 0;
        while i < self.keys.len()
            invariant
                i <= self.keys.len(),
                forall|j: int| 0 <= j < i ==> other@.contains(self.keys@[j]),
            decreases self.keys.len() - i,
        {
            if !other.contains(self.keys[i]) {
                assert(self.keys@.contains(self.keys@[i as int]));
                assert(self@.contains(self.keys@[i as int]));
                return false;
            }
            i += 1;
        }
        assert forall|k: u64| self@.contains(k) implies other@.contains(k) by {
            let j = choose|j: int| 0 <= j < self.keys@.len() && self.keys@[j] == k;
            assert(other@.contains(self.keys@[j]));
        }
        true
    }

    /// Whether the two sets have a member in common.
    pub fn intersects(&self, other: &TypeSet) -> (r: bool)
        ensures
            r == overlap(self@, other@),
    {
        let mut i: usize = 0;
        while i < self.keys.len()
            invariant
                i <= self.keys.len(),
                forall|j: int| 0 <= j < i ==> !other@.contains(self.keys@[j]),
            decreases self.keys.len() - i,
        {
            if other.contains(self.keys[i]) {
                assert(self.keys@.contains(self.keys@[i as int]));
                assert(self@.contains(self.keys@[i as int]) && other@.contains(self.keys@[i as int]));
                return true;
            }
            i += 1;
        }
        assert forall|k: u64| !(self@.contains(k) && other@.contains(k)) by {
            if self@.contains(k) {
                let j = choose|j: int| 0 <= j < self.keys@.len() && self.keys@[j] == k;
                assert(!other@.contains(self.keys@[j]));
            }
        }
        false
    }
}

} // verus!
