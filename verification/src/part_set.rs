//! A deduplicated collection of partitions: the explicit state that one
//! enumeration run owns, fills and finally hands back.

use vstd::prelude::*;
use vstd::multiset::Multiset;
use crate::partition::NonincSum;
use crate::partition::lemma_le_order;
use crate::partition::spec_le;

verus! {

/// The term sequences of a sequence of partitions, in order.
pub open spec fn views_of(items: Seq<NonincSum>) -> Seq<Seq<usize>> {
    items.map_values(|p: NonincSum| p@)
}

proof fn lemma_views_push(items: Seq<NonincSum>, p: NonincSum)
    ensures
        views_of(items.push(p)) =~= views_of(items).push(p@),
{
}

proof fn lemma_views_remove(items: Seq<NonincSum>, i: int)
    requires
        0 <= i < items.len(),
    ensures
        views_of(items.remove(i)) =~= views_of(items).remove(i),
{
}

proof fn lemma_to_multiset_empty(s: Seq<Seq<usize>>)
    requires
        s.len() == 0,
    ensures
        s.to_multiset() =~= Multiset::<Seq<usize>>::empty(),
{
    broadcast use vstd::multiset::group_multiset_axioms;

    assert forall|x: Seq<usize>|
        s.to_multiset().count(x) == Multiset::<Seq<usize>>::empty().count(x) by {
        vstd::seq_lib::to_multiset_contains::<Seq<usize>>(s, x);
    }
}

proof fn lemma_add_empty(b: Multiset<Seq<usize>>)
    ensures
        Multiset::<Seq<usize>>::empty().add(b) =~= b,
        b.add(Multiset::<Seq<usize>>::empty()) =~= b,
{
    broadcast use vstd::multiset::group_multiset_axioms;

}

proof fn lemma_extract_one(a: Multiset<Seq<usize>>, b: Multiset<Seq<usize>>, x: Seq<usize>)
    requires
        b.count(x) >= 1,
    ensures
        a.insert(x).add(b.remove(x)) =~= a.add(b),
{
    broadcast use vstd::multiset::group_multiset_axioms;

}

/// A set of partitions with no two equal term sequences.
pub struct PartSet {
    items: Vec<NonincSum>,
}

impl PartSet {
    /// The term sequences held, in insertion order.
    pub closed spec fn views(&self) -> Seq<Seq<usize>> {
        views_of(self.items@)
    }

    /// Whether a term sequence is held.
    pub open spec fn contains_view(&self, t: Seq<usize>) -> bool {
        self.views().contains(t)
    }

    /// No two held term sequences are equal, and every held partition is
    /// well formed.
    pub closed spec fn wf(&self) -> bool {
        &&& self.views().no_duplicates()
        &&& forall|i: int| 0 <= i < self.items@.len() ==> (#[trigger] self.items@[i]).wf()
    }

    /// An empty set.
    pub fn new() -> (r: PartSet)
        ensures
            r.wf(),
            r.views() == Seq::<Seq<usize>>::empty(),
    {
        let r = PartSet { items: Vec::new() };
        proof {
            assert(r.views() =~= Seq::<Seq<usize>>::empty());
        }
        r
    }

    /// How many partitions are held.
    pub fn len(&self) -> (n: usize)
        ensures
            n == self.views().len(),
    {
        self.items.len()
    }

    /// The partition at a position, in insertion order.
    pub fn get(&self, i: usize) -> (p: &NonincSum)
        requires
            self.wf(),
            i < self.views().len(),
        ensures
            p@ == self.views()[i as int],
            p.wf(),
    {
        &self.items[i]
    }

    /// Whether a partition with the same term sequence is already held.
    pub fn contains(&self, p: &NonincSum) -> (r: bool)
        requires
            self.wf(),
            p.wf(),
        ensures
            r == self.contains_view(p@),
    {
        let n = self.items.len();
        let mut idx: usize = 0;
        while idx < n
            invariant
                self.wf(),
                p.wf(),
                n == self.views().len(),
                idx <= n,
                forall|j: int| 0 <= j < idx ==> self.views()[j] != p@,
            decreases n - idx,
        {
            if *self.get(idx) == *p {
                return true;
            }
            idx += 1;
        }
        false
    }

    /// Adds a partition unless an equal one is already held; reports
    /// whether it was added.
    pub fn insert(&mut self, p: NonincSum) -> (added: bool)
        requires
            old(self).wf(),
            p.wf(),
        ensures
            final(self).wf(),
            added == !old(self).contains_view(p@),
            added ==> final(self).views() == old(self).views().push(p@),
            !added ==> final(self).views() == old(self).views(),
            forall|t: Seq<usize>| final(self).contains_view(t) <==> old(self).contains_view(t)
                || t == p@,
    {
        if self.contains(&p) {
            return false;
        }
        let ghost before = self.views();
        self.items.push(p);
        proof {
            assert(self.views() =~= before.push(p@));
            assert forall|t: Seq<usize>|
                self.contains_view(t) <==> before.contains(t) || t == p@ by {
                if before.contains(t) {
                    let j = choose|j: int| 0 <= j < before.len() && before[j] == t;
                    assert(self.views()[j] == t);
                }
                if t == p@ {
                    assert(self.views()[before.len() as int] == t);
                }
                if self.contains_view(t) {
                    let j = choose|j: int|
                        0 <= j < self.views().len() && self.views()[j] == t;
                    if j < before.len() {
                        assert(before[j] == t);
                    }
                }
            }
        }
        true
    }
    /// Because no two held term sequences are equal, the count of held
    /// partitions is the cardinality of the set of their term sequences.
    pub proof fn lemma_view_set_card(&self)
        requires
            self.wf(),
        ensures
            self.views().to_set().finite(),
            self.views().to_set().len() == self.views().len(),
            forall|t: Seq<usize>| self.views().to_set().contains(t) <==> self.contains_view(t),
    {
        vstd::seq_lib::seq_to_set_is_finite(self.views());
        self.views().unique_seq_to_set();
    }

    /// The held partitions in the output order: smaller totals first,
    /// ties broken lexicographically by the terms.
    pub fn to_sorted_vec(&self) -> (r: Vec<NonincSum>)
        requires
            self.wf(),
        ensures
            views_of(r@).to_multiset() == self.views().to_multiset(),
            forall|j: int, k: int| 0 <= j < k < r@.len() ==> spec_le(r@[j]@, r@[k]@),
            forall|j: int| 0 <= j < r@.len() ==> (#[trigger] r@[j]).wf(),
    {
        let mut work: Vec<NonincSum> = Vec::new();
        let n = self.len();
        let mut i: usize = 0;
        proof {
            assert(views_of(work@) =~= self.views().take(0));
        }
        while i < n
            invariant
                self.wf(),
                i <= n,
                n == self.views().len(),
                views_of(work@) == self.views().take(i as int),
                forall|q: int| 0 <= q < work@.len() ==> (#[trigger] work@[q]).wf(),
            decreases n - i,
        {
            let p = self.get(i).clone();
            proof {
                assert(p.wf());
                assert(p@ == self.views()[i as int]);
            }
            let ghost w_before = work@;
            proof {
                lemma_views_push(w_before, p);
            }
            work.push(p);
            proof {
                assert(views_of(work@) == views_of(w_before).push(p@));
                assert(self.views().take(i + 1) =~= self.views().take(i as int).push(
                    self.views()[i as int],
                ));
            }
            i += 1;
        }
        proof {
            assert(self.views().take(n as int) =~= self.views());
        }
        let mut out: Vec<NonincSum> = Vec::new();
        proof {
            assert(views_of(out@).len() == 0);
            lemma_to_multiset_empty(views_of(out@));
            lemma_add_empty(views_of(work@).to_multiset());
            assert(views_of(out@).to_multiset().add(views_of(work@).to_multiset())
                =~= self.views().to_multiset());
        }
        while work.len() > 0
            invariant
                forall|q: int| 0 <= q < work@.len() ==> (#[trigger] work@[q]).wf(),
                forall|q: int| 0 <= q < out@.len() ==> (#[trigger] out@[q]).wf(),
                views_of(out@).to_multiset().add(views_of(work@).to_multiset())
                    == self.views().to_multiset(),
                forall|j: int, k: int| 0 <= j < k < out@.len() ==> spec_le(out@[j]@, out@[k]@),
                forall|j: int, q: int|
                    0 <= j < out@.len() && 0 <= q < work@.len() ==> spec_le(out@[j]@, work@[q]@),
            decreases work@.len(),
        {
            let mut mi: usize = 0;
            let mut q: usize = 1;
            proof {
                lemma_le_order(work@[0]@, work@[0]@, work@[0]@);
            }
            while q < work.len()
                invariant
                    forall|p: int| 0 <= p < work@.len() ==> (#[trigger] work@[p]).wf(),
                    mi < q <= work@.len(),
                    forall|p: int| 0 <= p < q ==> spec_le(work@[mi as int]@, #[trigger] work@[p]@),
                decreases work@.len() - q,
            {
                proof {
                    lemma_le_order(work@[mi as int]@, work@[q as int]@, work@[q as int]@);
                }
                if !(work[mi].le(&work[q])) {
                    proof {
                        assert(spec_le(work@[q as int]@, work@[mi as int]@));
                        assert forall|p: int|
                            0 <= p < q + 1 implies spec_le(
                                work@[q as int]@,
                                #[trigger] work@[p]@,
                            ) by {
                            if p < q {
                                lemma_le_order(work@[q as int]@, work@[mi as int]@, work@[p]@);
                            } else {
                                lemma_le_order(work@[q as int]@, work@[q as int]@, work@[p]@);
                            }
                        }
                    }
                    mi = q;
                }
                q += 1;
            }
            let ghost w_pre = work@;
            let ghost out_pre = out@;
            let m = work.remove(mi);
            proof {
                lemma_views_remove(w_pre, mi as int);
                lemma_views_push(out_pre, m);
                vstd::seq_lib::to_multiset_remove::<Seq<usize>>(views_of(w_pre), mi as int);
                vstd::seq_lib::to_multiset_build::<Seq<usize>>(views_of(out_pre), m@);
                vstd::seq_lib::to_multiset_contains::<Seq<usize>>(views_of(w_pre), m@);
                assert(views_of(w_pre)[mi as int] == m@);
                assert(views_of(w_pre).contains(m@));
                lemma_extract_one(
                    views_of(out_pre).to_multiset(),
                    views_of(w_pre).to_multiset(),
                    m@,
                );
            }
            out.push(m);
            proof {
                assert(views_of(work@) == views_of(w_pre).remove(mi as int));
                assert(views_of(out@) == views_of(out_pre).push(m@));
                assert(views_of(out@).to_multiset().add(views_of(work@).to_multiset())
                    =~= views_of(out_pre).to_multiset().add(views_of(w_pre).to_multiset()));
            }
        }
        proof {
            assert(views_of(work@).len() == 0);
            lemma_to_multiset_empty(views_of(work@));
            lemma_add_empty(views_of(out@).to_multiset());
            assert(views_of(out@).to_multiset().add(views_of(work@).to_multiset())
                =~= views_of(out@).to_multiset());
        }
        out
    }
}

} // verus!
