//! Duplicate-free sets of unit identifiers, the exec form of the
//! mathematical live-unit sets that the structural-log replay and the
//! version manager reason about.

use vstd::prelude::*;
use vstd::assert_sets_equal;
use crate::keys::{RowSetKey, DvKey};

verus! {

proof fn lemma_to_set_push<A>(s: Seq<A>, a: A)
    ensures
        s.push(a).to_set() == s.to_set().insert(a),
{
    assert_sets_equal!(s.push(a).to_set() == s.to_set().insert(a), x => {
        if s.push(a).to_set().contains(x) {
            let i = choose|i: int| 0 <= i < s.push(a).len() && s.push(a)[i] == x;
            if i < s.len() {
                assert(s[i] == x);
            }
        }
        if s.to_set().insert(a).contains(x) {
            if x == a {
                assert(s.push(a)[s.len() as int] == a);
            } else {
                let i = choose|i: int| 0 <= i < s.len() && s[i] == x;
                assert(s.push(a)[i] == x);
            }
        }
    });
}

proof fn lemma_no_dup_push<A>(s: Seq<A>, a: A)
    requires
        s.no_duplicates(),
        !s.contains(a),
    ensures
        s.push(a).no_duplicates(),
{
    assert forall|i: int, j: int|
        0 <= i < s.push(a).len() && 0 <= j < s.push(a).len() && i != j implies s.push(a)[i]
        != s.push(a)[j] by {
        if i < s.len() && j < s.len() {
        } else if j == s.len() {
            assert(s[i] == s.push(a)[i]);
        } else {
            assert(s[j] == s.push(a)[j]);
        }
    }
}

/// After removing the one occurrence of `s[i]` by swapping the last element
/// into its place, the set of elements has lost exactly `s[i]`.
proof fn lemma_swap_remove_set<A>(s: Seq<A>, i: int)
    requires
        s.no_duplicates(),
        0 <= i < s.len(),
    ensures
        s.update(i, s.last()).drop_last().to_set() == s.to_set().remove(s[i]),
        s.update(i, s.last()).drop_last().no_duplicates(),
{
    let t = s.update(i, s.last()).drop_last();
    assert forall|p: int, q: int| 0 <= p < t.len() && 0 <= q < t.len() && p != q implies t[p]
        != t[q] by {
        let sp: int = if p == i { s.len() - 1 } else { p };
        let sq: int = if q == i { s.len() - 1 } else { q };
        assert(t[p] == s[sp] && t[q] == s[sq]);
    }
    assert_sets_equal!(t.to_set() == s.to_set().remove(s[i]), x => {
        if t.to_set().contains(x) {
            let j = choose|j: int| 0 <= j < t.len() && t[j] == x;
            let sj: int = if j == i { s.len() - 1 } else { j };
            assert(s[sj] == x);
            assert(x != s[i]);
        }
        if s.to_set().remove(s[i]).contains(x) {
            let j = choose|j: int| 0 <= j < s.len() && s[j] == x;
            if j == s.len() - 1 {
                if i < s.len() - 1 {
                    assert(t[i] == x);
                }
            } else {
                assert(t[j] == x);
            }
        }
    });
}

/// A set of row-group identifiers, kept without duplicates.
#[derive(Debug)]
pub struct RowSetSet {
    items: Vec<RowSetKey>,
}

impl RowSetSet {
    pub closed spec fn view(&self) -> Set<RowSetKey> {
        self.items@.to_set()
    }

    pub closed spec fn wf(&self) -> bool {
        self.items@.no_duplicates()
    }

    pub fn new() -> (r: Self)
        ensures
            r.wf(),
            r@ == Set::<RowSetKey>::empty(),
    {
        let r = RowSetSet { items: Vec::new() };
        proof {
            assert_sets_equal!(r.items@.to_set() == Set::<RowSetKey>::empty());
        }
        r
    }

    pub fn contains(&self, k: RowSetKey) -> (r: bool)
        ensures
            r == self@.contains(k),
    {
        let n = self.items.len();
        let mut i: usize = 0;
        while i < n
            invariant
                i <= n,
                n == self.items@.len(),
                forall|j: int| 0 <= j < i ==> self.items@[j] != k,
            decreases n - i,
        {
            if self.items[i] == k {
                assert(self.items@.contains(k));
                return true;
            }
            i += 1;
        }
        assert(!self.items@.contains(k));
        false
    }

    pub fn len(&self) -> (n: usize)
        requires
            self.wf(),
        ensures
            n == self@.len(),
    {
        proof {
            self.items@.unique_seq_to_set();
        }
        self.items.len()
    }

    /// Inserting an already-present identifier leaves the set as it was.
    pub fn insert(&mut self, k: RowSetKey)
        requires
            old(self).wf(),
        ensures
            final(self).wf(),
            final(self)@ == old(self)@.insert(k),
    {
        if !self.contains(k) {
            proof {
                lemma_to_set_push(self.items@, k);
                lemma_no_dup_push(self.items@, k);
            }
            self.items.push(k);
        } else {
            proof {
                assert_sets_equal!(self@ == old(self)@.insert(k));
            }
        }
    }

    /// Removing an absent identifier leaves the set as it was.
    pub fn remove(&mut self, k: RowSetKey)
        requires
            old(self).wf(),
        ensures
            final(self).wf(),
            final(self)@ == old(self)@.remove(k),
    {
        let n = self.items.len();
        let mut i: usize = 0;
        while i < n
            invariant
                i <= n,
                n == self.items@.len(),
                self.items@ == old(self).items@,
                self.items@.no_duplicates(),
                forall|j: int| 0 <= j < i ==> self.items@[j] != k,
            decreases n - i,
        {
            if self.items[i] == k {
                proof {
                    lemma_swap_remove_set(self.items@, i as int);
                }
                self.items.swap_remove(i);
                return ;
            }
            i += 1;
        }
        proof {
            assert(!self.items@.contains(k));
            assert_sets_equal!(self@ == old(self)@.remove(k));
        }
    }

    /// Element-by-element copy, so that a snapshot shares nothing with the
    /// set it was taken from.
    pub fn duplicate(&self) -> (r: Self)
        requires
            self.wf(),
        ensures
            r.wf(),
            r@ == self@,
    {
        let n = self.items.len();
        let mut out: Vec<RowSetKey> = Vec::new();
        let mut i: usize = 0;
        while i < n
            invariant
                i <= n,
                n == self.items@.len(),
                out@ == self.items@.take(i as int),
            decreases n - i,
        {
            out.push(self.items[i]);
            proof {
                assert(out@ =~= self.items@.take(i as int + 1));
            }
            i += 1;
        }
        proof {
            assert(out@ =~= self.items@);
        }
        RowSetSet { items: out }
    }

    /// The identifiers, in an order without meaning; each appears once.
    pub fn as_vec(&self) -> (r: &Vec<RowSetKey>)
        ensures
            r@.to_set() == self@,
            self.wf() ==> r@.no_duplicates(),
    {
        &self.items
    }
}

/// A set of delete-vector identifiers, kept without duplicates.
#[derive(Debug)]
pub struct DvSet {
    items: Vec<DvKey>,
}

impl DvSet {
    pub closed spec fn view(&self) -> Set<DvKey> {
        self.items@.to_set()
    }

    pub closed spec fn wf(&self) -> bool {
        self.items@.no_duplicates()
    }

    pub fn new() -> (r: Self)
        ensures
            r.wf(),
            r@ == Set::<DvKey>::empty(),
    {
        let r = DvSet { items: Vec::new() };
        proof {
            assert_sets_equal!(r.items@.to_set() == Set::<DvKey>::empty());
        }
        r
    }

    pub fn contains(&self, k: DvKey) -> (r: bool)
        ensures
            r == self@.contains(k),
    {
        let n = self.items.len();
        let mut i: usize = 0;
        while i < n
            invariant
                i <= n,
                n == self.items@.len(),
                forall|j: int| 0 <= j < i ==> self.items@[j] != k,
            decreases n - i,
        {
            if self.items[i] == k {
                assert(self.items@.contains(k));
                return true;
            }
            i += 1;
        }
        assert(!self.items@.contains(k));
        false
    }

    pub fn len(&self) -> (n: usize)
        requires
            self.wf(),
        ensures
            n == self@.len(),
    {
        proof {
            self.items@.unique_seq_to_set();
        }
        self.items.len()
    }

    /// Inserting an already-present identifier leaves the set as it was.
    pub fn insert(&mut self, k: DvKey)
        requires
            old(self).wf(),
        ensures
            final(self).wf(),
            final(self)@ == old(self)@.insert(k),
    {
        if !self.contains(k) {
            proof {
                lemma_to_set_push(self.items@, k);
                lemma_no_dup_push(self.items@, k);
            }
            self.items.push(k);
        } else {
            proof {
                assert_sets_equal!(self@ == old(self)@.insert(k));
            }
        }
    }

    /// Removing an absent identifier leaves the set as it was.
    pub fn remove(&mut self, k: DvKey)
        requires
            old(self).wf(),
        ensures
            final(self).wf(),
            final(self)@ == old(self)@.remove(k),
    {
        let n = self.items.len();
        let mut i: usize = 0;
        while i < n
            invariant
                i <= n,
                n == self.items@.len(),
                self.items@ == old(self).items@,
                self.items@.no_duplicates(),
                forall|j: int| 0 <= j < i ==> self.items@[j] != k,
            decreases n - i,
        {
            if self.items[i] == k {
                proof {
                    lemma_swap_remove_set(self.items@, i as int);
                }
                self.items.swap_remove(i);
                return ;
            }
            i += 1;
        }
        proof {
            assert(!self.items@.contains(k));
            assert_sets_equal!(self@ == old(self)@.remove(k));
        }
    }

    /// Element-by-element copy, so that a snapshot shares nothing with the
    /// set it was taken from.
    pub fn duplicate(&self) -> (r: Self)
        requires
            self.wf(),
        ensures
            r.wf(),
            r@ == self@,
    {
        let n = self.items.len();
        let mut out: Vec<DvKey> = Vec::new();
        let mut i: usize = 0;
        while i < n
            invariant
                i <= n,
                n == self.items@.len(),
                out@ == self.items@.take(i as int),
            decreases n - i,
        {
            out.push(self.items[i]);
            proof {
                assert(out@ =~= self.items@.take(i as int + 1));
            }
            i += 1;
        }
        proof {
            assert(out@ =~= self.items@);
        }
        DvSet { items: out }
    }

    /// The identifiers, in an order without meaning; each appears once.
    pub fn as_vec(&self) -> (r: &Vec<DvKey>)
        ensures
            r@.to_set() == self@,
            self.wf() ==> r@.no_duplicates(),
    {
        &self.items
    }
}

} // verus!
