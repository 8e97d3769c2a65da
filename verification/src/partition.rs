//! The partition entity: a non-increasing sequence of at least two positive
//! terms with a cached total, plus the transformations that derive new
//! partitions from it.

use vstd::prelude::*;

verus! {

/// A sequence of terms forms a partition body when it has at least two
/// terms, every term is strictly positive, and no term exceeds the one
/// before it.
pub open spec fn is_partition(s: Seq<usize>) -> bool {
    &&& s.len() >= 2
    &&& forall|i: int| 0 <= i < s.len() ==> s[i] > 0
    &&& forall|i: int| 0 < i < s.len() ==> s[i - 1] >= #[trigger] s[i]
}

/// The mathematical sum of a sequence of terms.
pub open spec fn sum_of(s: Seq<usize>) -> int
    decreases s.len(),
{
    if s.len() == 0 {
        0
    } else {
        sum_of(s.drop_last()) + s.last()
    }
}

/// All partitions with a given total: the non-increasing positive
/// sequences of at least two terms that sum to it.
pub open spec fn partitions_of(total: int) -> Set<Seq<usize>> {
    Set::new(|t: Seq<usize>| is_partition(t) && sum_of(t) == total)
}

/// Moving one unit from position `d` to position `i`: the single edit that
/// the brute-force search applies.
pub open spec fn transfer(s: Seq<usize>, d: int, i: int) -> Seq<usize> {
    s.update(d, (s[d] - 1) as usize).update(i, (s[i] + 1) as usize)
}

pub proof fn lemma_sum_of_nonneg(s: Seq<usize>)
    ensures
        sum_of(s) >= 0,
    decreases s.len(),
{
    if s.len() > 0 {
        lemma_sum_of_nonneg(s.drop_last());
    }
}

pub proof fn lemma_sum_of_split(s: Seq<usize>, j: int)
    requires
        0 <= j <= s.len(),
    ensures
        sum_of(s) == sum_of(s.take(j)) + sum_of(s.skip(j)),
    decreases s.len(),
{
    if j == s.len() {
        assert(s.take(j) =~= s);
        assert(s.skip(j) =~= Seq::<usize>::empty());
    } else {
        let d = s.drop_last();
        lemma_sum_of_split(d, j);
        assert(d.take(j) =~= s.take(j));
        assert(s.skip(j).drop_last() =~= d.skip(j));
        assert(s.skip(j).last() == s.last());
    }
}

/// One more element of a prefix adds exactly that element to the prefix sum.
pub proof fn lemma_sum_of_take_succ(s: Seq<usize>, i: int)
    requires
        0 <= i < s.len(),
    ensures
        sum_of(s.take(i + 1)) == sum_of(s.take(i)) + s[i],
{
    assert(s.take(i + 1).drop_last() =~= s.take(i));
    assert(s.take(i + 1).last() == s[i]);
}

/// A sequence of positive terms sums to at least its length.
pub proof fn lemma_len_le_sum(s: Seq<usize>)
    requires
        forall|i: int| 0 <= i < s.len() ==> s[i] > 0,
    ensures
        sum_of(s) >= s.len(),
    decreases s.len(),
{
    if s.len() > 0 {
        lemma_len_le_sum(s.drop_last());
    }
}

pub proof fn lemma_element_le_sum(s: Seq<usize>, i: int)
    requires
        0 <= i < s.len(),
    ensures
        s[i] <= sum_of(s),
{
    lemma_sum_of_split(s, i + 1);
    lemma_sum_of_take_succ(s, i);
    lemma_sum_of_nonneg(s.take(i));
    lemma_sum_of_nonneg(s.skip(i + 1));
}

pub proof fn lemma_pair_le_sum(s: Seq<usize>, i: int, j: int)
    requires
        0 <= i < j < s.len(),
    ensures
        s[i] + s[j] <= sum_of(s),
{
    lemma_sum_of_split(s, j);
    assert(s.take(j)[i] == s[i]);
    lemma_element_le_sum(s.take(j), i);
    assert(s.skip(j)[0] == s[j]);
    lemma_element_le_sum(s.skip(j), 0);
}

pub proof fn lemma_sum_of_update(s: Seq<usize>, j: int, v: usize)
    requires
        0 <= j < s.len(),
    ensures
        sum_of(s.update(j, v)) == sum_of(s) - s[j] + v,
    decreases s.len(),
{
    let u = s.update(j, v);
    if j == s.len() - 1 {
        assert(u.drop_last() =~= s.drop_last());
        assert(u.last() == v);
    } else {
        assert(u.drop_last() =~= s.drop_last().update(j, v));
        lemma_sum_of_update(s.drop_last(), j, v);
        assert(u.last() == s.last());
    }
}

/// A transfer leaves the total unchanged.
pub proof fn lemma_sum_of_transfer(s: Seq<usize>, d: int, i: int)
    requires
        0 <= d < s.len(),
        0 <= i < s.len(),
        d != i,
    ensures
        sum_of(transfer(s, d, i)) == sum_of(s) + (s[i] + 1) as usize - s[i] + (s[d] - 1) as usize
            - s[d],
{
    lemma_sum_of_update(s, d, (s[d] - 1) as usize);
    lemma_sum_of_update(s.update(d, (s[d] - 1) as usize), i, (s[i] + 1) as usize);
}

/// The kind of rule that a rejected term sequence breaks; the checks run in
/// this order and the first failure wins.
#[derive(Debug, Clone, Copy, PartialEq, Eq, Structural)]
pub enum PartitionError {
    InvalidArity,
    NonPositiveTerm,
    NotNonIncreasing,
}

/// The error that a given term sequence earns, first failing check first.
pub open spec fn expected_error(s: Seq<usize>) -> PartitionError {
    if s.len() < 2 {
        PartitionError::InvalidArity
    } else if exists|i: int| 0 <= i < s.len() && s[i] == 0 {
        PartitionError::NonPositiveTerm
    } else {
        PartitionError::NotNonIncreasing
    }
}

/// A validated partition: a non-increasing sequence of positive terms with
/// its total.  Values are immutable; every transformation builds a new one.
#[derive(Debug)]
pub struct NonincSum {
    sum: usize,
    terms: Vec<usize>,
}

impl View for NonincSum {
    type V = Seq<usize>;

    closed spec fn view(&self) -> Seq<usize> {
        self.terms@
    }
}

impl NonincSum {
    /// The cached total.
    pub closed spec fn total_spec(&self) -> int {
        self.sum as int
    }

    /// The construction invariant: the terms form a partition body and the
    /// cached total is their sum.
    pub open spec fn wf(&self) -> bool {
        is_partition(self@) && self.total_spec() == sum_of(self@)
    }

    /// Validating factory: accepts exactly the sequences that form a
    /// partition body and rejects the rest with the first failing check.
    pub fn new(v: Vec<usize>) -> (r: Result<NonincSum, PartitionError>)
        requires
            is_partition(v@) ==> sum_of(v@) <= usize::MAX,
        ensures
            r is Ok <==> is_partition(v@),
            r matches Ok(p) ==> p@ == v@ && p.wf(),
            r matches Err(e) ==> e == expected_error(v@),
    {
        if v.len() < 2 {
            return Err(PartitionError::InvalidArity);
        }
        let n = v.len();
        let mut idx: usize = 0;
        while idx < n
            invariant
                n == v@.len() >= 2,
                idx <= n,
                forall|j: int| 0 <= j < idx ==> v@[j] > 0,
            decreases n - idx,
        {
            if v[idx] == 0 {
                assert(v@[idx as int] == 0);
                return Err(PartitionError::NonPositiveTerm);
            }
            idx += 1;
        }
        idx = 1;
        while idx < n
            invariant
                n == v@.len() >= 2,
                1 <= idx <= n,
                forall|j: int| 0 <= j < n ==> v@[j] > 0,
                forall|j: int| 0 < j < idx ==> v@[j - 1] >= #[trigger] v@[j],
            decreases n - idx,
        {
            if v[idx - 1] < v[idx] {
                assert(v@[idx as int] > v@[idx as int - 1]);
                return Err(PartitionError::NotNonIncreasing);
            }
            idx += 1;
        }
        assert(is_partition(v@));
        let mut s: usize = 0;
        idx = 0;
        while idx < n
            invariant
                n == v@.len(),
                idx <= n,
                is_partition(v@),
                sum_of(v@) <= usize::MAX,
                s == sum_of(v@.take(idx as int)),
            decreases n - idx,
        {
            proof {
                lemma_sum_of_take_succ(v@, idx as int);
                lemma_sum_of_split(v@, idx + 1);
                lemma_sum_of_nonneg(v@.skip(idx + 1));
            }
            s = s + v[idx];
            idx += 1;
        }
        proof {
            assert(v@.take(n as int) =~= v@);
        }
        Ok(NonincSum { sum: s, terms: v })
    }

    /// Attempts to move one unit from the term at `dec` to the term at
    /// `inc`.  Returns the redistributed partition when the edit keeps
    /// every rule, and nothing when it breaks one.
    pub fn generate(&self, dec: usize, inc: usize) -> (r: Option<NonincSum>)
        requires
            self.wf(),
            dec < inc < self@.len(),
        ensures
            r is Some <==> is_partition(transfer(self@, dec as int, inc as int)),
            r matches Some(p) ==> {
                &&& p@ == transfer(self@, dec as int, inc as int)
                &&& p.wf()
                &&& p.total_spec() == self.total_spec()
            },
    {
        proof {
            lemma_pair_le_sum(self@, dec as int, inc as int);
        }
        let mut v = copy_terms(&self.terms);
        let dec_val = v[dec];
        v.set(dec, dec_val - 1);
        let inc_val = v[inc];
        v.set(inc, inc_val + 1);
        proof {
            assert(v@ =~= transfer(self@, dec as int, inc as int));
            lemma_sum_of_transfer(self@, dec as int, inc as int);
        }
        match NonincSum::new(v) {
            Ok(p) => Some(p),
            Err(_) => None,
        }
    }

    /// Appends a trailing term of one, growing the total and the arity by
    /// one.  Always succeeds on a well-formed partition.
    pub fn append_at_end(&self) -> (r: NonincSum)
        requires
            self.wf(),
            sum_of(self@) + 1 <= usize::MAX,
        ensures
            r@ == self@.push(1usize),
            r.wf(),
            r.total_spec() == self.total_spec() + 1,
    {
        let mut v = copy_terms(&self.terms);
        v.push(1);
        proof {
            let p = self@.push(1usize);
            assert(p.drop_last() =~= self@);
            assert(forall|j: int| 0 < j < p.len() ==> p[j - 1] >= #[trigger] p[j]);
        }
        NonincSum { sum: self.sum + 1, terms: v }
    }

    /// Attempts to grow the last term by one.  Succeeds exactly when the
    /// last term is still strictly below its predecessor, so that the
    /// non-increasing order survives.
    pub fn inc_last(&self) -> (r: Option<NonincSum>)
        requires
            self.wf(),
            self@[self@.len() - 2] > self@.last() ==> sum_of(self@) + 1 <= usize::MAX,
        ensures
            r is Some <==> self@[self@.len() - 2] > self@.last(),
            r is Some <==> is_partition(self@.update(self@.len() - 1, (self@.last() + 1) as usize)),
            r matches Some(p) ==> {
                &&& p@ == self@.update(self@.len() - 1, (self@.last() + 1) as usize)
                &&& p.wf()
                &&& p.total_spec() == self.total_spec() + 1
            },
    {
        let len = self.terms.len();
        let ghost u = self@.update(self@.len() - 1, (self@.last() + 1) as usize);
        proof {
            lemma_pair_le_sum(self@, 0, self@.len() - 1);
            if self@[self@.len() - 2] > self@.last() {
                assert(forall|j: int| 0 < j < u.len() ==> u[j - 1] >= #[trigger] u[j]);
            } else {
                assert(u[u.len() - 2] < u[u.len() - 1]);
            }
        }
        if self.terms[len - 2] <= self.terms[len - 1] {
            return None;
        }
        let mut v = copy_terms(&self.terms);
        let last_val = v[len - 1];
        v.set(len - 1, last_val + 1);
        proof {
            assert(v@ =~= u);
            lemma_sum_of_update(self@, self@.len() - 1, (self@.last() + 1) as usize);
        }
        Some(NonincSum { sum: self.sum + 1, terms: v })
    }

    /// Whether this partition sorts at or before another under the output
    /// ordering.
    pub fn le(&self, other: &NonincSum) -> (r: bool)
        requires
            self.wf(),
            other.wf(),
        ensures
            r == spec_le(self@, other@),
    {
        if self.sum < other.sum {
            return true;
        }
        if self.sum > other.sum {
            return false;
        }
        let a = &self.terms;
        let b = &other.terms;
        let mut i: usize = 0;
        proof {
            assert(a@.skip(0) =~= a@);
            assert(b@.skip(0) =~= b@);
        }
        while i < a.len() && i < b.len()
            invariant
                self.wf(),
                other.wf(),
                sum_of(self@) == sum_of(other@),
                a@ == self@,
                b@ == other@,
                i <= a@.len(),
                i <= b@.len(),
                lex_le(a@, b@) == lex_le(a@.skip(i as int), b@.skip(i as int)),
            decreases a@.len() - i,
        {
            let ghost sa = a@.skip(i as int);
            let ghost sb = b@.skip(i as int);
            proof {
                assert(sa.first() == a@[i as int]);
                assert(sb.first() == b@[i as int]);
                assert(sa.drop_first() =~= a@.skip(i as int + 1));
                assert(sb.drop_first() =~= b@.skip(i as int + 1));
            }
            if a[i] < b[i] {
                proof {
                    assert(lex_le(sa, sb));
                }
                return true;
            }
            if a[i] > b[i] {
                proof {
                    assert(!lex_le(sa, sb));
                }
                return false;
            }
            i += 1;
        }
        let r = a.len() <= b.len();
        proof {
            if a@.len() <= b@.len() {
                assert(a@.skip(i as int) =~= Seq::<usize>::empty());
            } else {
                assert(b@.skip(i as int) =~= Seq::<usize>::empty());
                assert(a@.skip(i as int).len() > 0);
            }
        }
        r
    }

    /// The terms, in their non-increasing order.
    pub fn terms(&self) -> (r: &Vec<usize>)
        ensures
            r@ == self@,
    {
        &self.terms
    }

    /// The cached total of the terms.
    pub fn total(&self) -> (r: usize)
        ensures
            r == self.total_spec(),
    {
        self.sum
    }
}

/// An element-wise copy of a term vector.
fn copy_terms(v: &Vec<usize>) -> (r: Vec<usize>)
    ensures
        r@ == v@,
{
    let mut r: Vec<usize> = Vec::new();
    let mut idx: usize = 0;
    while idx < v.len()
        invariant
            idx <= v@.len(),
            r@ == v@.take(idx as int),
        decreases v@.len() - idx,
    {
        r.push(v[idx]);
        proof {
            assert(r@ =~= v@.take(idx + 1));
        }
        idx += 1;
    }
    proof {
        assert(v@.take(v@.len() as int) =~= v@);
    }
    r
}

impl Clone for NonincSum {
    /// A copy with the same terms and the same total.
    fn clone(&self) -> (r: Self)
        ensures
            r@ == self@,
            r.total_spec() == self.total_spec(),
    {
        NonincSum { sum: self.sum, terms: copy_terms(&self.terms) }
    }
}

impl PartialEq for NonincSum {
    /// Two partitions are equal exactly when their term sequences are.
    fn eq(&self, other: &NonincSum) -> (r: bool) {
        if self.sum != other.sum {
            return false;
        }
        if self.terms.len() != other.terms.len() {
            return false;
        }
        let n = self.terms.len();
        let mut idx: usize = 0;
        while idx < n
            invariant
                n == self@.len() == other@.len(),
                idx <= n,
                forall|j: int| 0 <= j < idx ==> self@[j] == other@[j],
            decreases n - idx,
        {
            if self.terms[idx] != other.terms[idx] {
                return false;
            }
            idx += 1;
        }
        proof {
            assert(self@ =~= other@);
        }
        true
    }
}

impl vstd::std_specs::cmp::PartialEqSpecImpl for NonincSum {
    open spec fn obeys_eq_spec() -> bool {
        true
    }

    open spec fn eq_spec(&self, other: &NonincSum) -> bool {
        self@ == other@ && self.total_spec() == other.total_spec()
    }
}

/// Lexicographic comparison of term sequences; a strict prefix sorts
/// before its extensions.
pub open spec fn lex_le(a: Seq<usize>, b: Seq<usize>) -> bool
    decreases a.len(),
{
    if a.len() == 0 {
        true
    } else if b.len() == 0 {
        false
    } else if a.first() < b.first() {
        true
    } else if a.first() > b.first() {
        false
    } else {
        lex_le(a.drop_first(), b.drop_first())
    }
}

/// The output ordering: smaller total first, ties broken lexicographically
/// by the terms.  Used only to make the printed order deterministic.
pub open spec fn spec_le(a: Seq<usize>, b: Seq<usize>) -> bool {
    sum_of(a) < sum_of(b) || (sum_of(a) == sum_of(b) && lex_le(a, b))
}

pub proof fn lemma_lex_refl(a: Seq<usize>)
    ensures
        lex_le(a, a),
    decreases a.len(),
{
    if a.len() > 0 {
        lemma_lex_refl(a.drop_first());
    }
}

pub proof fn lemma_lex_total(a: Seq<usize>, b: Seq<usize>)
    ensures
        lex_le(a, b) || lex_le(b, a),
    decreases a.len(),
{
    if a.len() > 0 && b.len() > 0 && a.first() == b.first() {
        lemma_lex_total(a.drop_first(), b.drop_first());
    }
}

pub proof fn lemma_lex_trans(a: Seq<usize>, b: Seq<usize>, c: Seq<usize>)
    requires
        lex_le(a, b),
        lex_le(b, c),
    ensures
        lex_le(a, c),
    decreases a.len(),
{
    if a.len() > 0 && b.len() > 0 && c.len() > 0 && a.first() == b.first() && b.first()
        == c.first() {
        lemma_lex_trans(a.drop_first(), b.drop_first(), c.drop_first());
    }
}

/// The output ordering is reflexive, total and transitive.
pub proof fn lemma_le_order(a: Seq<usize>, b: Seq<usize>, c: Seq<usize>)
    ensures
        spec_le(a, a),
        spec_le(a, b) || spec_le(b, a),
        spec_le(a, b) && spec_le(b, c) ==> spec_le(a, c),
{
    lemma_lex_refl(a);
    lemma_lex_total(a, b);
    if lex_le(a, b) && lex_le(b, c) {
        lemma_lex_trans(a, b, c);
    }
}

/// A well-formed partition's total is cached in a machine word, so its
/// term sum fits one.
pub proof fn lemma_wf_sum_bound(p: &NonincSum)
    requires
        p.wf(),
    ensures
        0 <= sum_of(p@) <= usize::MAX,
{
}

/// Law: redistributing one unit from `d` to `i` and then moving it back
/// returns the original term sequence, whenever both redistributions stay
/// within the partition rules.
pub proof fn lemma_transfer_round_trip(s: Seq<usize>, d: int, i: int)
    requires
        is_partition(s),
        sum_of(s) <= usize::MAX,
        0 <= d < i < s.len(),
        is_partition(transfer(s, d, i)),
    ensures
        transfer(transfer(s, d, i), i, d) == s,
{
    lemma_pair_le_sum(s, d, i);
    assert(transfer(transfer(s, d, i), i, d) =~= s);
}

} // verus!
