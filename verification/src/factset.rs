//! Finite sets of dataflow facts.

use vstd::prelude::*;

verus! {

/// A dataflow fact: a value that can be copied and compared by its view.
pub trait Fact: View + Sized {
    /// Whether two facts are the same.
    fn same(&self, other: &Self) -> (r: bool)
        ensures
            r == (self@ == other@),
    ;

    /// A copy of this fact.
    fn dup(&self) -> (r: Self)
        ensures
            r@ == self@,
    ;
}

/// A set of facts, held as a list without repetitions.
pub struct FactSet<T: Fact> {
    pub items: Vec<T>,
}

/// The views of a list of facts.
pub open spec fn fact_views<T: Fact>(items: Seq<T>) -> Seq<T::V> {
    Seq::new(items.len(), |i: int| items[i]@)
}

impl<T: Fact> View for FactSet<T> {
    type V = Set<T::V>;

    open spec fn view(&self) -> Set<T::V> {
        fact_views(self.items@).to_set()
    }
}

impl<T: Fact> FactSet<T> {
    /// The invariant: no fact is listed twice.
    pub open spec fn wf(&self) -> bool {
        fact_views(self.items@).no_duplicates()
    }

    /// The set of a well-formed list has as many members as the list.
    pub proof fn lemma_len(&self)
        requires
            self.wf(),
        ensures
            self@.finite(),
            self@.len() == self.items@.len(),
    {
        fact_views(self.items@).unique_seq_to_set();
        vstd::seq_lib::seq_to_set_is_finite(fact_views(self.items@));
    }

    /// The empty set.
    pub fn new() -> (r: Self)
        ensures
            r.wf(),
            r@ == Set::<T::V>::empty(),
    {
        let r = FactSet { items: Vec::new() };
        assert(fact_views(r.items@) =~= Seq::<T::V>::empty());
        assert(r@ =~= Set::<T::V>::empty());
        r
    }

    /// The number of facts.
    pub fn len(&self) -> (n: usize)
        ensures
            n == self.items@.len(),
            self.wf() ==> n == self@.len(),
    {
        proof {
            if self.wf() {
                self.lemma_len();
            }
        }
        self.items.len()
    }

    /// Whether the set holds `fact`.
    pub fn contains(&self, fact: &T) -> (r: bool)
        ensures
            r == self@.contains(fact@),
    {
        let mut i: usize = 0;
        while i < self.items.len()
            invariant
                i <= self.items@.len(),
                forall|j: int| 0 <= j < i ==> fact_views(self.items@)[j] != fact@,
            decreases self.items@.len() - i,
        {
            if self.items[i].same(fact) {
                assert(fact_views(self.items@)[i as int] == fact@);
                return true;
            }
            i += 1;
        }
        false
    }

    /// Puts `fact` into the set.
    pub fn insert(&mut self, fact: T)
        requires
            old(self).wf(),
        ensures
            final(self).wf(),
            final(self)@ == old(self)@.insert(fact@),
    {
        let ghost before = fact_views(self.items@);
        if !self.contains(&fact) {
            self.items.push(fact);
            proof {
                let after = fact_views(self.items@);
                assert(after =~= before.push(fact@));
                assert forall|i: int, j: int|
                    0 <= i < after.len() && 0 <= j < after.len() && i != j implies after[i]
                    != after[j] by {
                    if i < before.len() {
                        assert(before.contains(before[i]));
                    }
                    if j < before.len() {
                        assert(before.contains(before[j]));
                    }
                }
                assert(self@ =~= old(self)@.insert(fact@)) by {
                    assert forall|v: T::V| self@.contains(v) <==> old(self)@.insert(
                        fact@,
                    ).contains(v) by {
                        if after.contains(v) {
                            let i = choose|i: int| 0 <= i < after.len() && after[i] == v;
                            if i < before.len() {
                                assert(before[i] == v);
                            }
                        }
                        if before.contains(v) {
                            let i = choose|i: int| 0 <= i < before.len() && before[i] == v;
                            assert(after[i] == v);
                        }
                        if v == fact@ {
                            assert(after[before.len() as int] == v);
                        }
                    }
                }
            }
        } else {
            assert(self@ =~= old(self)@.insert(fact@));
        }
    }

    /// Puts every fact of `other` into the set.
    pub fn union_with(&mut self, other: &FactSet<T>)
        requires
            old(self).wf(),
        ensures
            final(self).wf(),
            final(self)@ == old(self)@.union(other@),
    {
        let ghost others = fact_views(other.items@);
        let mut i: usize = 0;
        assert(others.take(0).to_set() =~= Set::<T::V>::empty());
        assert(self@ =~= old(self)@.union(others.take(0).to_set()));
        while i < other.items.len()
            invariant
                i <= other.items@.len(),
                others == fact_views(other.items@),
                self.wf(),
                self@ == old(self)@.union(others.take(i as int).to_set()),
            decreases other.items@.len() - i,
        {
            let ghost mid = self@;
            self.insert(other.items[i].dup());
            proof {
                let pre = others.take(i as int);
                let post = others.take(i + 1);
                assert(post =~= pre.push(others[i as int]));
                assert(post.to_set() =~= pre.to_set().insert(others[i as int])) by {
                    assert forall|v: T::V| post.to_set().contains(v) <==> pre.to_set().insert(
                        others[i as int],
                    ).contains(v) by {
                        if post.contains(v) {
                            let j = choose|j: int| 0 <= j < post.len() && post[j] == v;
                            if j < i {
                                assert(pre[j] == v);
                            }
                        }
                        if pre.contains(v) {
                            let j = choose|j: int| 0 <= j < pre.len() && pre[j] == v;
                            assert(post[j] == v);
                        }
                        if v == others[i as int] {
                            assert(post[i as int] == v);
                        }
                    }
                }
                assert(self@ =~= old(self)@.union(post.to_set()));
            }
            i += 1;
        }
        assert(others.take(other.items@.len() as int) =~= others);
    }

    /// Takes `fact` out of the set.
    pub fn remove(&mut self, fact: &T)
        requires
            old(self).wf(),
        ensures
            final(self).wf(),
            final(self)@ == old(self)@.remove(fact@),
    {
        let ghost before = fact_views(self.items@);
        let mut i: usize = 0;
        while i < self.items.len()
            invariant
                i <= self.items@.len(),
                self.items == old(self).items,
                forall|j: int| 0 <= j < i ==> before[j] != fact@,
                before == fact_views(self.items@),
                before.no_duplicates(),
            decreases self.items@.len() - i,
        {
            if self.items[i].same(fact) {
                let _ = self.items.remove(i);
                proof {
                    let after = fact_views(self.items@);
                    assert(after =~= before.remove(i as int));
                    assert forall|a: int, b: int|
                        0 <= a < after.len() && 0 <= b < after.len() && a != b implies after[a]
                        != after[b] by {
                        let a2 = if a < i { a } else { a + 1 };
                        let b2 = if b < i { b } else { b + 1 };
                        assert(after[a] == before[a2]);
                        assert(after[b] == before[b2]);
                    }
                    assert(self@ =~= old(self)@.remove(fact@)) by {
                        assert forall|v: T::V| self@.contains(v) <==> old(self)@.remove(
                            fact@,
                        ).contains(v) by {
                            assert(before[i as int] == fact@);
                            if after.contains(v) {
                                let a = choose|a: int| 0 <= a < after.len() && after[a] == v;
                                let a2 = if a < i { a } else { a + 1 };
                                assert(before[a2] == v);
                                assert(a2 != i);
                                assert(before.contains(v));
                                assert(before[a2] != before[i as int]);
                            }
                            if before.contains(v) && v != fact@ {
                                let a2 = choose|a2: int| 0 <= a2 < before.len() && before[a2] == v;
                                let a = if a2 < i { a2 } else { a2 - 1 };
                                assert(after[a] == v);
                            }
                        }
                    }
                }
                return ;
            }
            i += 1;
        }
        proof {
            assert(!self@.contains(fact@)) by {
                if before.contains(fact@) {
                    let a = choose|a: int| 0 <= a < before.len() && before[a] == fact@;
                }
            }
            assert(self@ =~= old(self)@.remove(fact@));
        }
    }

    /// Whether every fact of this set is in `other`.
    pub fn within(&self, other: &FactSet<T>) -> (r: bool)
        ensures
            r == self@.subset_of(other@),
    {
        let ghost mine = fact_views(self.items@);
        let mut i: usize = 0;
        while i < self.items.len()
            invariant
                i <= self.items@.len(),
                mine == fact_views(self.items@),
                forall|j: int| 0 <= j < i ==> other@.contains(#[trigger] mine[j]),
            decreases self.items@.len() - i,
        {
            if !other.contains(&self.items[i]) {
                assert(self@.contains(mine[i as int])) by {
                    assert(mine.contains(mine[i as int]));
                }
                return false;
            }
            i += 1;
        }
        proof {
            assert forall|v: T::V| self@.contains(v) implies other@.contains(v) by {
                let j = choose|j: int| 0 <= j < mine.len() && mine[j] == v;
            }
        }
        true
    }

    /// Whether the two sets hold the same facts.
    pub fn same_as(&self, other: &FactSet<T>) -> (r: bool)
        ensures
            r == (self@ == other@),
    {
        let r = self.within(other) && other.within(self);
        proof {
            if r {
                assert(self@ =~= other@);
            }
        }
        r
    }

    /// A copy of this set.
    pub fn dup(&self) -> (r: FactSet<T>)
        requires
            self.wf(),
        ensures
            r.wf(),
            r@ == self@,
    {
        let mut items: Vec<T> = Vec::new();
        let mut i: usize = 0;
        while i < self.items.len()
            invariant
                i <= self.items@.len(),
                items@.len() == i,
                forall|j: int| 0 <= j < i ==> items@[j]@ == self.items@[j]@,
            decreases self.items@.len() - i,
        {
            items.push(self.items[i].dup());
            i += 1;
        }
        let r = FactSet { items };
        assert(fact_views(r.items@) =~= fact_views(self.items@));
        r
    }
}

} // verus!
