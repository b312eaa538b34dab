//! A finite set of state identifiers, kept as a strictly ascending vector so
//! that two equal sets always have the same representation.

use vstd::prelude::*;

verus! {

/// Whether `s` is strictly ascending.
pub open spec fn ascending(s: Seq<usize>) -> bool {
    forall|i: int, j: int| 0 <= i < j < s.len() ==> s[i] < s[j]
}

/// A strictly ascending sequence repeats nothing, so it is as long as the set
/// of its members is large.
pub proof fn lemma_ascending_len(s: Seq<usize>)
    requires
        ascending(s),
    ensures
        s.no_duplicates(),
        s.to_set().finite(),
        s.to_set().len() == s.len(),
{
    assert forall|i: int, j: int| 0 <= i < s.len() && 0 <= j < s.len() && i != j implies s[i]
        != s[j] by {
        if i < j {
            assert(s[i] < s[j]);
        } else {
            assert(s[j] < s[i]);
        }
    }
    s.unique_seq_to_set();
}

/// Two strictly ascending sequences with the same members are the same
/// sequence.
pub proof fn lemma_ascending_unique(a: Seq<usize>, b: Seq<usize>)
    requires
        ascending(a),
        ascending(b),
        a.to_set() == b.to_set(),
    ensures
        a == b,
    decreases a.len(),
{
    lemma_ascending_len(a);
    lemma_ascending_len(b);
    if a.len() > 0 {
        let x = a.last();
        let y = b.last();
        assert(a.contains(x));
        assert(b.contains(y));
        assert(b.to_set().contains(x));
        assert(a.to_set().contains(y));
        let i = choose|i: int| 0 <= i < b.len() && b[i] == x;
        let j = choose|j: int| 0 <= j < a.len() && a[j] == y;
        assert(x <= y) by {
            if i < b.len() - 1 {
                assert(b[i] < b[b.len() - 1]);
            }
        }
        assert(y <= x) by {
            if j < a.len() - 1 {
                assert(a[j] < a[a.len() - 1]);
            }
        }
        let a0 = a.drop_last();
        let b0 = b.drop_last();
        assert forall|z: usize| a0.contains(z) <==> (a.contains(z) && z != x) by {
            if a0.contains(z) {
                let k = choose|k: int| 0 <= k < a0.len() && a0[k] == z;
                assert(a[k] == z);
                assert(a[k] < a[a.len() - 1]);
            }
            if a.contains(z) && z != x {
                let k = choose|k: int| 0 <= k < a.len() && a[k] == z;
                assert(a0[k] == z);
            }
        }
        assert forall|z: usize| b0.contains(z) <==> (b.contains(z) && z != x) by {
            if b0.contains(z) {
                let k = choose|k: int| 0 <= k < b0.len() && b0[k] == z;
                assert(b[k] == z);
                assert(b[k] < b[b.len() - 1]);
            }
            if b.contains(z) && z != x {
                let k = choose|k: int| 0 <= k < b.len() && b[k] == z;
                assert(b0[k] == z);
            }
        }
        assert forall|z: usize| a0.to_set().contains(z) == b0.to_set().contains(z) by {
            assert(a.to_set().contains(z) == b.to_set().contains(z));
            assert(a.to_set().contains(z) == a.contains(z));
            assert(b.to_set().contains(z) == b.contains(z));
            assert(a0.to_set().contains(z) == a0.contains(z));
            assert(b0.to_set().contains(z) == b0.contains(z));
        }
        assert(a0.to_set() =~= b0.to_set());
        lemma_ascending_unique(a0, b0);
        assert(a =~= a0.push(x));
        assert(b =~= b0.push(y));
    } else {
        assert(a =~= b);
    }
}

/// A set of state identifiers.
#[derive(Debug, PartialEq, Eq)]
pub struct StateSet {
    items: Vec<usize>,
}

impl View for StateSet {
    type V = Set<usize>;

    open spec fn view(&self) -> Set<usize> {
        self.seq().to_set()
    }
}

impl StateSet {
    /// The members in ascending order.
    pub closed spec fn seq(&self) -> Seq<usize> {
        self.items@
    }

    #[verifier::type_invariant]
    spec fn inv(&self) -> bool {
        ascending(self.items@)
    }

    /// The empty set.
    pub fn new() -> (s: Self)
        ensures
            s@ == Set::<usize>::empty(),
            s.seq() == Seq::<usize>::empty(),
    {
        let s = StateSet { items: Vec::new() };
        assert(s.items@.to_set() =~= Set::<usize>::empty());
        s
    }
}

impl StateSet {
    /// The number of members.
    pub fn len(&self) -> (n: usize)
        ensures
            n == self.seq().len(),
            n == self@.len(),
            ascending(self.seq()),
    {
        proof {
            use_type_invariant(self);
            lemma_ascending_len(self.items@);
        }
        self.items.len()
    }

    /// Whether the set has no member.
    pub fn is_empty(&self) -> (b: bool)
        ensures
            b == (self@ == Set::<usize>::empty()),
            b == (self.seq().len() == 0),
    {
        proof {
            if self.items@.len() > 0 {
                assert(self.items@.contains(self.items@[0]));
                assert(self@.contains(self.items@[0]));
            } else {
                assert(self@ =~= Set::<usize>::empty());
            }
        }
        self.items.len() == 0
    }

    /// The member at position `i` of the ascending order.
    pub fn at(&self, i: usize) -> (id: usize)
        requires
            i < self.seq().len(),
        ensures
            id == self.seq()[i as int],
            self@.contains(id),
    {
        proof {
            assert(self.items@.contains(self.items@[i as int]));
        }
        self.items[i]
    }

    /// Whether `id` is a member.
    pub fn contains(&self, id: usize) -> (b: bool)
        ensures
            b == self@.contains(id),
    {
        let mut i: usize = 0;
        while i < self.items.len()
            invariant
                i <= self.items@.len(),
                forall|k: int| 0 <= k < i ==> self.items@[k] != id,
            decreases self.items@.len() - i,
        {
            if self.items[i] == id {
                assert(self.items@.contains(id));
                return true;
            }
            i += 1;
        }
        false
    }

    /// Adds `id` to the set; says whether it was new.
    pub fn insert(&mut self, id: usize) -> (fresh: bool)
        ensures
            final(self)@ == old(self)@.insert(id),
            fresh == !old(self)@.contains(id),
    {
        proof {
            use_type_invariant(&*self);
        }
        let ghost before = self.items@;
        let mut i: usize = 0;
        while i < self.items.len() && self.items[i] < id
            invariant
                i <= self.items@.len(),
                self.items@ == before,
                forall|k: int| 0 <= k < i ==> before[k] < id,
            decreases self.items@.len() - i,
        {
            i += 1;
        }
        if i < self.items.len() && self.items[i] == id {
            proof {
                assert(before.contains(id));
                assert(before.to_set().insert(id) =~= before.to_set());
            }
            return false;
        }
        let mut items = Vec::new();
        std::mem::swap(&mut items, &mut self.items);
        items.insert(i, id);
        proof {
            let after = items@;
            assert(after == before.insert(i as int, id));
            assert forall|a: int, b: int| 0 <= a < b < after.len() implies after[a] < after[b] by {
                if b < i {
                } else if b == i {
                } else if a < i {
                    assert(before[a] < id);
                    assert(id <= before[b - 1]) by {
                        assert(before[i as int] <= before[b - 1]);
                    }
                } else if a == i {
                    assert(id < before[i as int]);
                    assert(before[i as int] <= before[b - 1]);
                } else {
                    assert(before[a - 1] < before[b - 1]);
                }
            }
            assert forall|x: usize| after.contains(x) <==> (x == id || before.contains(x)) by {
                if after.contains(x) {
                    let k = choose|k: int| 0 <= k < after.len() && after[k] == x;
                    if k < i {
                        assert(before[k] == x);
                    } else if k > i {
                        assert(before[k - 1] == x);
                    }
                }
                if x == id {
                    assert(after[i as int] == x);
                }
                if before.contains(x) {
                    let k = choose|k: int| 0 <= k < before.len() && before[k] == x;
                    if k < i {
                        assert(after[k] == x);
                    } else {
                        assert(after[k + 1] == x);
                    }
                }
            }
            assert(after.to_set() =~= before.to_set().insert(id));
            assert(!before.contains(id)) by {
                if before.contains(id) {
                    let k = choose|k: int| 0 <= k < before.len() && before[k] == id;
                    if k < i {
                    } else if k > i {
                        assert(before[i as int] < before[k]);
                    }
                }
            }
        }
        self.items = items;
        true
    }
}

impl StateSet {
    /// Adds every member of `other` to the set.
    pub fn extend(&mut self, other: &StateSet)
        ensures
            final(self)@ == old(self)@.union(other@),
    {
        let n = other.len();
        let mut i: usize = 0;
        while i < n
            invariant
                i <= n,
                n == other.seq().len(),
                forall|x: usize|
                    self@.contains(x) <==> old(self)@.contains(x) || exists|k: int|
                        0 <= k < i && other.seq()[k] == x,
            decreases n - i,
        {
            let x = other.at(i);
            self.insert(x);
            i += 1;
        }
        proof {
            assert forall|x: usize| self@.contains(x) <==> old(self)@.union(other@).contains(x) by {
                if other@.contains(x) {
                    let k = choose|k: int| 0 <= k < other.seq().len() && other.seq()[k] == x;
                    assert(other.seq()[k] == x);
                }
                if self@.contains(x) && !old(self)@.contains(x) {
                    let k = choose|k: int| 0 <= k < i && other.seq()[k] == x;
                    assert(other.seq().contains(x));
                }
            }
            assert(self@ =~= old(self)@.union(other@));
        }
    }

    /// Whether the two sets have the same members.
    pub fn equals(&self, other: &StateSet) -> (b: bool)
        ensures
            b == (self@ == other@),
    {
        proof {
            use_type_invariant(self);
            use_type_invariant(other);
            lemma_ascending_len(self.items@);
            lemma_ascending_len(other.items@);
        }
        if self.items.len() != other.items.len() {
            return false;
        }
        let mut i: usize = 0;
        while i < self.items.len()
            invariant
                i <= self.items@.len(),
                self.items@.len() == other.items@.len(),
                forall|k: int| 0 <= k < i ==> self.items@[k] == other.items@[k],
                ascending(self.items@),
                ascending(other.items@),
            decreases self.items@.len() - i,
        {
            if self.items[i] != other.items[i] {
                proof {
                    if self@ == other@ {
                        lemma_ascending_unique(self.items@, other.items@);
                    }
                }
                return false;
            }
            i += 1;
        }
        assert(self.items@ =~= other.items@);
        true
    }

    /// Whether the two sets share a member.
    pub fn intersects(&self, other: &StateSet) -> (b: bool)
        ensures
            b == (exists|id: usize| self@.contains(id) && other@.contains(id)),
    {
        let mut i: usize = 0;
        while i < self.items.len()
            invariant
                i <= self.items@.len(),
                forall|k: int| 0 <= k < i ==> !other@.contains(self.items@[k]),
            decreases self.items@.len() - i,
        {
            if other.contains(self.items[i]) {
                assert(self.items@.contains(self.items@[i as int]));
                assert(self@.contains(self.items@[i as int]));
                return true;
            }
            i += 1;
        }
        proof {
            assert forall|id: usize| self@.contains(id) implies !other@.contains(id) by {
                let k = choose|k: int| 0 <= k < self.items@.len() && self.items@[k] == id;
                assert(!other@.contains(self.items@[k]));
            }
        }
        false
    }
}

impl Clone for StateSet {
    fn clone(&self) -> (s: Self)
        ensures
            s@ == self@,
            s.seq() == self.seq(),
    {
        proof {
            use_type_invariant(self);
        }
        let items = self.items.clone();
        assert(items@ =~= self.items@);
        StateSet { items }
    }
}

} // verus!
