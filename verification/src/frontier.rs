//! Brute-force enumeration: breadth-first search over the unit-transfer
//! move, starting from the extreme partition and deduplicated by a global
//! set.  The search is proved sound and complete: what it returns for an
//! arity is exactly the set of partitions of the total with that many
//! parts.

use vstd::prelude::*;
use crate::partition::NonincSum;
use crate::partition::is_partition;
use crate::partition::lemma_pair_le_sum;
use crate::partition::lemma_sum_of_update;
use crate::partition::partitions_of;
use crate::partition::lemma_sum_of_nonneg;
use crate::partition::lemma_sum_of_transfer;
use crate::partition::sum_of;
use crate::partition::transfer;
use crate::part_set::PartSet;
use crate::part_set::views_of;

verus! {

/// The seed for a given total and arity: the one partition whose first
/// term is as large as possible, `[sum - (terms - 1), 1, ..., 1]`.
pub open spec fn seed_seq(sum: int, terms: int) -> Seq<usize> {
    Seq::new(
        terms as nat,
        |i: int| if i == 0 { (sum - (terms - 1)) as usize } else { 1usize },
    )
}

/// One brute-force move: an in-range transfer whose result keeps every
/// partition rule.
pub open spec fn step_to(s: Seq<usize>, t: Seq<usize>) -> bool {
    is_partition(s) && sum_of(s) <= usize::MAX && exists|d: int, i: int|
        0 <= d < i < s.len() && is_partition(#[trigger] transfer(s, d, i)) && t == transfer(
            s,
            d,
            i,
        )
}

/// Reachability from `from` in exactly `n` moves.
pub open spec fn reaches(from: Seq<usize>, to: Seq<usize>, n: nat) -> bool
    decreases n,
{
    if n == 0 {
        to == from
    } else {
        exists|mid: Seq<usize>| reaches(from, mid, (n - 1) as nat) && #[trigger] step_to(mid, to)
    }
}

/// Reachability from `from` in any number of moves.
pub open spec fn reachable(from: Seq<usize>, to: Seq<usize>) -> bool {
    exists|n: nat| reaches(from, to, n)
}

/// The weight of a sequence: each term multiplied by its position.  Every
/// move raises it, which bounds the number of search rounds.
pub open spec fn weight(s: Seq<usize>) -> int
    decreases s.len(),
{
    if s.len() == 0 {
        0
    } else {
        weight(s.drop_last()) + (s.len() - 1) * s.last()
    }
}

pub proof fn lemma_weight_nonneg(s: Seq<usize>)
    ensures
        weight(s) >= 0,
    decreases s.len(),
{
    if s.len() > 0 {
        lemma_weight_nonneg(s.drop_last());
        assert((s.len() - 1) * s.last() >= 0) by (nonlinear_arith)
            requires
                s.len() >= 1,
                s.last() >= 0,
        ;
    }
}

pub proof fn lemma_weight_update(s: Seq<usize>, j: int, v: usize)
    requires
        0 <= j < s.len(),
    ensures
        weight(s.update(j, v)) == weight(s) - j * s[j] + j * v,
    decreases s.len(),
{
    let u = s.update(j, v);
    if j == s.len() - 1 {
        assert(u.drop_last() =~= s.drop_last());
        assert(u.last() == v);
    } else {
        assert(u.drop_last() =~= s.drop_last().update(j, v));
        lemma_weight_update(s.drop_last(), j, v);
        assert(u.last() == s.last());
    }
}

/// A transfer from `d` to `i` raises the weight by exactly `i - d`.
pub proof fn lemma_weight_transfer(s: Seq<usize>, d: int, i: int)
    requires
        0 <= d < i < s.len(),
        s[d] >= 1,
        s[i] + 1 <= usize::MAX,
    ensures
        weight(transfer(s, d, i)) == weight(s) + i - d,
{
    let u1 = s.update(d, (s[d] - 1) as usize);
    lemma_weight_update(s, d, (s[d] - 1) as usize);
    assert(d * ((s[d] - 1) as usize) == d * s[d] - d) by (nonlinear_arith)
        requires
            s[d] >= 1,
    ;
    lemma_weight_update(u1, i, (s[i] + 1) as usize);
    assert(u1[i] == s[i]);
    assert(i * ((s[i] + 1) as usize) == i * s[i] + i) by (nonlinear_arith)
        requires
            0 <= s[i],
            s[i] + 1 <= usize::MAX,
    ;
}

/// The weight never exceeds the arity times the total.
pub proof fn lemma_weight_le(s: Seq<usize>)
    ensures
        weight(s) <= (s.len() - 1) * sum_of(s) || s.len() == 0,
    decreases s.len(),
{
    if s.len() == 0 {
    } else if s.len() == 1 {
        assert(s.drop_last().len() == 0);
        assert(weight(s.drop_last()) == 0);
        assert((s.len() - 1) * s.last() == 0) by (nonlinear_arith)
            requires
                s.len() == 1,
        ;
        assert((s.len() - 1) * sum_of(s) == 0) by (nonlinear_arith)
            requires
                s.len() == 1,
        ;
    } else {
        let d = s.drop_last();
        lemma_weight_le(d);
        lemma_sum_of_nonneg(d);
        let n = s.len() - 1;
        assert((n - 1) * sum_of(d) <= n * sum_of(d)) by (nonlinear_arith)
            requires
                sum_of(d) >= 0,
                n >= 1,
        ;
        assert(n * sum_of(d) + n * s.last() == n * (sum_of(d) + s.last())) by (nonlinear_arith);
        assert(sum_of(s) == sum_of(d) + s.last());
    }
}

/// Every term sequence reached by moves keeps the seed's length and total,
/// and after at least one move it is a partition body.
pub proof fn lemma_reaches_props(from: Seq<usize>, to: Seq<usize>, n: nat)
    requires
        reaches(from, to, n),
    ensures
        to.len() == from.len(),
        sum_of(to) == sum_of(from),
        n > 0 ==> is_partition(to),
    decreases n,
{
    if n > 0 {
        let mid = choose|mid: Seq<usize>|
            reaches(from, mid, (n - 1) as nat) && #[trigger] step_to(mid, to);
        lemma_reaches_props(from, mid, (n - 1) as nat);
        let (d, i) = choose|d: int, i: int|
            0 <= d < i < mid.len() && is_partition(#[trigger] transfer(mid, d, i)) && to == transfer(
                mid,
                d,
                i,
            );
        assert(mid[d] >= 1);
        lemma_pair_le_sum(mid, d, i);
        lemma_sum_of_transfer(mid, d, i);
    }
}

/// One more valid move from a reachable sequence stays reachable.
pub proof fn lemma_reachable_step(seed: Seq<usize>, s: Seq<usize>, d: int, i: int)
    requires
        reachable(seed, s),
        is_partition(s),
        sum_of(s) <= usize::MAX,
        0 <= d < i < s.len(),
        is_partition(transfer(s, d, i)),
    ensures
        reachable(seed, transfer(s, d, i)),
{
    let n = choose|n: nat| reaches(seed, s, n);
    assert(step_to(s, transfer(s, d, i)));
    assert(reaches(seed, s, ((n + 1) - 1) as nat));
    assert(reaches(seed, transfer(s, d, i), n + 1));
}

/// Expands one frontier element: tries every transfer pair on it, adds
/// each result that is new to the unique set, and queues the new ones for
/// the next round.
fn expand_one(
    p: &NonincSum,
    terms: usize,
    unique: &mut PartSet,
    next: &mut Vec<NonincSum>,
    Ghost(seed): Ghost<Seq<usize>>,
    Ghost(round): Ghost<int>,
)
    requires
        p.wf(),
        p@.len() == terms,
        old(unique).wf(),
        reachable(seed, p@),
        weight(p@) >= round,
        forall|t: Seq<usize>| old(unique).contains_view(t) ==> reachable(seed, t),
        forall|j: int|
            0 <= j < old(next)@.len() ==> {
                &&& (#[trigger] old(next)@[j]).wf()
                &&& old(unique).contains_view(old(next)@[j]@)
                &&& weight(old(next)@[j]@) >= round + 1
                &&& old(next)@[j]@.len() == terms
            },
    ensures
        final(unique).wf(),
        forall|t: Seq<usize>| old(unique).contains_view(t) ==> final(unique).contains_view(t),
        forall|t: Seq<usize>| final(unique).contains_view(t) ==> reachable(seed, t),
        forall|d: int, i: int|
            0 <= d < i < terms && is_partition(transfer(p@, d, i))
                ==> final(unique).contains_view(#[trigger] transfer(p@, d, i)),
        forall|j: int|
            0 <= j < final(next)@.len() ==> {
                &&& (#[trigger] final(next)@[j]).wf()
                &&& final(unique).contains_view(final(next)@[j]@)
                &&& weight(final(next)@[j]@) >= round + 1
                &&& final(next)@[j]@.len() == terms
            },
        forall|t: Seq<usize>|
            final(unique).contains_view(t) && !old(unique).contains_view(t)
                ==> views_of(final(next)@).contains(t),
        forall|t: Seq<usize>|
            views_of(old(next)@).contains(t) ==> views_of(final(next)@).contains(t),
{
    let ghost u0 = unique.views();
    let ghost n0 = next@;
    proof {
        crate::partition::lemma_wf_sum_bound(p);
    }
    let mut i: usize = 0;
    while i < terms
        invariant
            p.wf(),
            p@.len() == terms,
            reachable(seed, p@),
            weight(p@) >= round,
            sum_of(p@) <= usize::MAX,
            i <= terms,
            unique.wf(),
            forall|t: Seq<usize>| u0.contains(t) ==> unique.contains_view(t),
            forall|t: Seq<usize>| unique.contains_view(t) ==> reachable(seed, t),
            forall|d2: int, k2: int|
                0 <= d2 < k2 < terms && d2 < i && is_partition(transfer(p@, d2, k2))
                    ==> unique.contains_view(#[trigger] transfer(p@, d2, k2)),
            forall|j: int|
                0 <= j < next@.len() ==> {
                    &&& (#[trigger] next@[j]).wf()
                    &&& unique.contains_view(next@[j]@)
                    &&& weight(next@[j]@) >= round + 1
                    &&& next@[j]@.len() == terms
                },
            forall|t: Seq<usize>|
                unique.contains_view(t) && !u0.contains(t) ==> views_of(next@).contains(t),
            forall|t: Seq<usize>| views_of(n0).contains(t) ==> views_of(next@).contains(t),
        decreases terms - i,
    {
        let mut k: usize = i + 1;
        while k < terms
            invariant
                p.wf(),
                p@.len() == terms,
                reachable(seed, p@),
                weight(p@) >= round,
                sum_of(p@) <= usize::MAX,
                i < terms,
                i + 1 <= k <= terms,
                unique.wf(),
                forall|t: Seq<usize>| u0.contains(t) ==> unique.contains_view(t),
                forall|t: Seq<usize>| unique.contains_view(t) ==> reachable(seed, t),
                forall|d2: int, k2: int|
                    0 <= d2 < k2 < terms && (d2 < i || (d2 == i && k2 < k)) && is_partition(
                        transfer(p@, d2, k2),
                    ) ==> unique.contains_view(#[trigger] transfer(p@, d2, k2)),
                forall|j: int|
                    0 <= j < next@.len() ==> {
                        &&& (#[trigger] next@[j]).wf()
                        &&& unique.contains_view(next@[j]@)
                        &&& weight(next@[j]@) >= round + 1
                        &&& next@[j]@.len() == terms
                    },
                forall|t: Seq<usize>|
                    unique.contains_view(t) && !u0.contains(t) ==> views_of(next@).contains(t),
                forall|t: Seq<usize>| views_of(n0).contains(t) ==> views_of(next@).contains(t),
            decreases terms - k,
        {
            match p.generate(i, k) {
                Some(x) => {
                    let ghost xv = x@;
                    proof {
                        lemma_pair_le_sum(p@, i as int, k as int);
                        lemma_reachable_step(seed, p@, i as int, k as int);
                        lemma_weight_transfer(p@, i as int, k as int);
                    }
                    let x2 = x.clone();
                    let added = unique.insert(x);
                    if added {
                        let ghost nv = next@;
                        next.push(x2);
                        proof {
                            assert(views_of(next@) =~= views_of(nv).push(xv));
                            assert forall|t: Seq<usize>|
                                views_of(nv).contains(t) implies views_of(next@).contains(t) by {
                                let j = choose|j: int|
                                    0 <= j < views_of(nv).len() && views_of(nv)[j] == t;
                                assert(views_of(next@)[j] == t);
                            }
                            assert(views_of(next@)[nv.len() as int] == xv);
                        }
                    }
                }
                None => {
                },
            }
            k += 1;
        }
        i += 1;
    }
}

/// Everything reachable from a partition body keeps its length and total
/// and is itself a partition body.
pub proof fn lemma_reachable_props(from: Seq<usize>, to: Seq<usize>)
    requires
        reachable(from, to),
        is_partition(from),
    ensures
        to.len() == from.len(),
        sum_of(to) == sum_of(from),
        is_partition(to),
{
    let n = choose|n: nat| reaches(from, to, n);
    lemma_reaches_props(from, to, n);
}

/// The seed is a partition body of the asked total and arity.
pub proof fn lemma_seed_partition(sum: int, terms: int)
    requires
        2 <= terms <= sum <= usize::MAX,
    ensures
        is_partition(seed_seq(sum, terms)),
        seed_seq(sum, terms).len() == terms,
        sum_of(seed_seq(sum, terms)) == sum,
{
    let s = seed_seq(sum, terms);
    assert(forall|i: int| 0 < i < s.len() ==> s[i - 1] >= #[trigger] s[i]);
    lemma_seed_sum(sum, terms);
}

proof fn lemma_seed_sum(sum: int, terms: int)
    requires
        1 <= terms <= sum <= usize::MAX,
    ensures
        sum_of(seed_seq(sum, terms)) == sum,
    decreases terms,
{
    let s = seed_seq(sum, terms);
    assert(s.len() == terms);
    assert(sum_of(s) == sum_of(s.drop_last()) + s.last());
    if terms == 1 {
        assert(s.drop_last() =~= Seq::<usize>::empty());
        assert(sum_of(Seq::<usize>::empty()) == 0);
        assert(s.last() == s[0]);
        assert(s[0] == (sum - (terms - 1)) as usize);
        assert(s[0] == sum);
    } else {
        assert(s.drop_last() =~= seed_seq(sum - 1, terms - 1));
        lemma_seed_sum(sum - 1, terms - 1);
        assert(s.last() == s[terms - 1]);
        assert(s.last() == 1);
    }
}

/// A set that holds the seed and is closed under every valid move holds
/// everything reachable from the seed.
proof fn lemma_reaches_in_closed(u: &PartSet, from: Seq<usize>, to: Seq<usize>, n: nat)
    requires
        u.contains_view(from),
        forall|t: Seq<usize>, d: int, i: int|
            u.contains_view(t) && 0 <= d < i < t.len() && is_partition(transfer(t, d, i))
                ==> u.contains_view(#[trigger] transfer(t, d, i)),
        reaches(from, to, n),
    ensures
        u.contains_view(to),
    decreases n,
{
    if n > 0 {
        let mid = choose|mid: Seq<usize>|
            reaches(from, mid, (n - 1) as nat) && #[trigger] step_to(mid, to);
        lemma_reaches_in_closed(u, from, mid, (n - 1) as nat);
        let (d, i) = choose|d: int, i: int|
            0 <= d < i < mid.len() && is_partition(#[trigger] transfer(mid, d, i)) && to == transfer(
                mid,
                d,
                i,
            );
    }
}

/// The sum of a sequence whose terms past the first are all one.
proof fn lemma_ones_suffix_sum(t: Seq<usize>)
    requires
        t.len() >= 1,
        forall|q: int| 1 <= q < t.len() ==> #[trigger] t[q] == 1,
    ensures
        sum_of(t) == t[0] + t.len() - 1,
    decreases t.len(),
{
    if t.len() == 1 {
        assert(t.drop_last() =~= Seq::<usize>::empty());
        assert(sum_of(Seq::<usize>::empty()) == 0);
        assert(t.last() == t[0]);
    } else {
        let d = t.drop_last();
        assert(d[0] == t[0]);
        assert(forall|q: int| 1 <= q < d.len() ==> #[trigger] d[q] == 1);
        lemma_ones_suffix_sum(d);
        assert(t.last() == 1);
    }
}

/// The last position past the first that holds at least two.
proof fn last_big_index(t: Seq<usize>) -> (i: int)
    requires
        exists|q: int| 1 <= q < t.len() && t[q] >= 2,
    ensures
        1 <= i < t.len(),
        t[i] >= 2,
        forall|j: int| i < j < t.len() ==> t[j] <= 1,
    decreases t.len(),
{
    let q = choose|q: int| 1 <= q < t.len() && t[q] >= 2;
    assert(t.len() >= 2);
    if t[t.len() - 1] >= 2 {
        t.len() - 1
    } else {
        let d = t.drop_last();
        assert(1 <= q < d.len() && d[q] >= 2);
        let i = last_big_index(d);
        assert(t[i] == d[i]);
        assert forall|j: int| i < j < t.len() implies t[j] <= 1 by {
            if j < t.len() - 1 {
                assert(d[j] <= 1);
                assert(t[j] == d[j]);
            }
        }
        i
    }
}

/// A partition of `sum` into `terms` parts that is not the seed holds at
/// least two somewhere past its first position.
proof fn lemma_not_seed_has_big(sum: int, terms: int, t: Seq<usize>)
    requires
        2 <= terms <= sum <= usize::MAX,
        is_partition(t),
        t.len() == terms,
        sum_of(t) == sum,
        t != seed_seq(sum, terms),
    ensures
        exists|q: int| 1 <= q < t.len() && t[q] >= 2,
{
    if forall|q: int| 1 <= q < t.len() ==> #[trigger] t[q] <= 1 {
        assert(forall|q: int| 1 <= q < t.len() ==> #[trigger] t[q] == 1);
        lemma_ones_suffix_sum(t);
        assert(t[0] == sum - (terms - 1));
        assert(t =~= seed_seq(sum, terms));
    }
}

/// Any non-seed partition has a predecessor one transfer before it: move
/// one unit from the last position holding at least two back to the front.
proof fn lemma_predecessor(sum: int, terms: int, t: Seq<usize>) -> (r: (Seq<usize>, int))
    requires
        2 <= terms <= sum <= usize::MAX,
        is_partition(t),
        t.len() == terms,
        sum_of(t) == sum,
        t != seed_seq(sum, terms),
    ensures
        is_partition(r.0),
        r.0.len() == terms,
        sum_of(r.0) == sum,
        0 < r.1 < terms,
        is_partition(transfer(r.0, 0, r.1)),
        transfer(r.0, 0, r.1) == t,
        weight(r.0) < weight(t),
{
    lemma_not_seed_has_big(sum, terms, t);
    let i = last_big_index(t);
    lemma_pair_le_sum(t, 0, i);
    let u1 = t.update(0, (t[0] + 1) as usize);
    let p = u1.update(i, (t[i] - 1) as usize);
    assert(forall|j: int| 0 <= j < p.len() ==> p[j] > 0);
    assert forall|j: int| 0 < j < p.len() implies p[j - 1] >= #[trigger] p[j] by {
        if j == i + 1 && j < p.len() {
            assert(t[j] <= 1);
        }
    }
    assert(is_partition(p));
    lemma_sum_of_update(t, 0, (t[0] + 1) as usize);
    assert(u1[i] == t[i]);
    lemma_sum_of_update(u1, i, (t[i] - 1) as usize);
    assert(sum_of(p) == sum);
    assert(transfer(p, 0, i) =~= t);
    lemma_weight_transfer(p, 0, i);
    (p, i)
}

/// Completeness of the search: every partition of `sum` into `terms`
/// parts is reachable from the seed, because any other partition has a
/// predecessor one transfer closer to it.
proof fn lemma_reachable_from_seed(sum: int, terms: int, t: Seq<usize>)
    requires
        2 <= terms <= sum <= usize::MAX,
        is_partition(t),
        t.len() == terms,
        sum_of(t) == sum,
    ensures
        reachable(seed_seq(sum, terms), t),
    decreases weight(t),
{
    let seedv = seed_seq(sum, terms);
    if t == seedv {
        assert(reaches(seedv, t, 0));
        assert(reachable(seedv, t));
    } else {
        let (p, i) = lemma_predecessor(sum, terms, t);
        lemma_weight_nonneg(p);
        lemma_reachable_from_seed(sum, terms, p);
        lemma_reachable_step(seedv, p, 0, i);
    }
}

/// Law: the frontier search is complete as well as sound — for an arity,
/// the term sequences reachable from its seed are exactly the partitions
/// of `sum` with that many parts.
pub proof fn lemma_search_exact(sum: int, terms: int)
    requires
        2 <= terms <= sum <= usize::MAX,
    ensures
        forall|t: Seq<usize>|
            reachable(seed_seq(sum, terms), t) <==> (is_partition(t) && t.len() == terms
                && sum_of(t) == sum),
{
    lemma_seed_partition(sum, terms);
    assert forall|t: Seq<usize>|
        reachable(seed_seq(sum, terms), t) <==> (is_partition(t) && t.len() == terms && sum_of(t)
            == sum) by {
        if reachable(seed_seq(sum, terms), t) {
            lemma_reachable_props(seed_seq(sum, terms), t);
        }
        if is_partition(t) && t.len() == terms && sum_of(t) == sum {
            lemma_reachable_from_seed(sum, terms, t);
        }
    }
}

/// Law: the arity-by-arity union that the total enumerator counts is the
/// whole set of partitions of `sum` with at least two parts.
pub proof fn lemma_all_partitions_exact(sum: int)
    requires
        0 <= sum <= usize::MAX,
    ensures
        all_partitions(sum) == partitions_of(sum),
{
    assert forall|t: Seq<usize>|
        all_partitions(sum).contains(t) == partitions_of(sum).contains(t) by {
        if all_partitions(sum).contains(t) {
            let k = choose|k: int| 2 <= k <= sum && reachable(#[trigger] seed_seq(sum, k), t);
            lemma_search_exact(sum, k);
        }
        if partitions_of(sum).contains(t) {
            crate::partition::lemma_len_le_sum(t);
            let k = t.len() as int;
            lemma_search_exact(sum, k);
            assert(reachable(seed_seq(sum, k), t));
            assert(all_partitions(sum).contains(t));
        }
    }
    assert(all_partitions(sum) =~= partitions_of(sum));
}

/// The set of all partitions of `sum` with exactly `terms` parts that the
/// unit-transfer search reaches from the seed: the frontier worklist is
/// expanded round by round, deduplicated globally, until a round adds
/// nothing new.
#[verifier::rlimit(100)]
pub fn find_sums_restrict_terms(sum: usize, terms: usize) -> (r: PartSet)
    requires
        2 <= terms <= sum,
    ensures
        r.wf(),
        forall|t: Seq<usize>|
            r.contains_view(t) <==> reachable(seed_seq(sum as int, terms as int), t),
        forall|t: Seq<usize>|
            #[trigger] r.contains_view(t) <==> is_partition(t) && t.len() == terms && sum_of(t)
                == sum,
{
    proof {
        lemma_search_exact(sum as int, terms as int);
    }
    let ghost seedv = seed_seq(sum as int, terms as int);
    proof {
        lemma_seed_partition(sum as int, terms as int);
    }
    let mut sv: Vec<usize> = Vec::new();
    sv.push(sum - (terms - 1));
    let mut j: usize = 1;
    while j < terms
        invariant
            2 <= terms <= sum,
            1 <= j <= terms,
            sv@.len() == j,
            seedv == seed_seq(sum as int, terms as int),
            forall|q: int| 0 <= q < j ==> sv@[q] == seedv[q],
        decreases terms - j,
    {
        sv.push(1);
        j += 1;
    }
    proof {
        assert(sv@ =~= seedv);
    }
    let seed = match NonincSum::new(sv) {
        Ok(p) => p,
        Err(_) => vstd::pervasive::unreached(),
    };
    let seed2 = seed.clone();
    let mut unique = PartSet::new();
    let _ = unique.insert(seed);
    let mut frontier: Vec<NonincSum> = Vec::new();
    frontier.push(seed2);
    let ghost mut round: int = 0;
    proof {
        assert(seed2.wf());
        assert(reaches(seedv, seedv, 0));
        assert(reachable(seedv, seedv));
        lemma_weight_nonneg(seedv);
        assert(views_of(frontier@)[0] == seedv);
        assert(views_of(frontier@).contains(seedv));
    }
    while frontier.len() > 0
        invariant
            2 <= terms <= sum,
            seedv == seed_seq(sum as int, terms as int),
            is_partition(seedv),
            seedv.len() == terms,
            sum_of(seedv) == sum,
            unique.wf(),
            unique.contains_view(seedv),
            forall|t: Seq<usize>| unique.contains_view(t) ==> reachable(seedv, t),
            forall|j2: int|
                0 <= j2 < frontier@.len() ==> {
                    &&& (#[trigger] frontier@[j2]).wf()
                    &&& unique.contains_view(frontier@[j2]@)
                    &&& weight(frontier@[j2]@) >= round
                    &&& frontier@[j2]@.len() == terms
                },
            forall|t: Seq<usize>, d: int, i: int|
                unique.contains_view(t) && !views_of(frontier@).contains(t) && 0 <= d < i < t.len()
                    && is_partition(transfer(t, d, i)) ==> unique.contains_view(
                    #[trigger] transfer(t, d, i),
                ),
            round >= 0,
        decreases (terms as int - 1) * (sum as int) + 1 - round,
    {
        proof {
            let f0 = frontier@[0];
            lemma_weight_le(f0@);
            lemma_reachable_props(seedv, f0@);
        }
        let n = frontier.len();
        let ghost u_start = unique;
        let mut next: Vec<NonincSum> = Vec::new();
        let mut j: usize = 0;
        proof {
            assert(frontier@.skip(0) =~= frontier@);
        }
        while j < n
            invariant
                2 <= terms <= sum,
                seedv == seed_seq(sum as int, terms as int),
                is_partition(seedv),
                seedv.len() == terms,
                sum_of(seedv) == sum,
                n == frontier@.len(),
                j <= n,
                unique.wf(),
                unique.contains_view(seedv),
                forall|t: Seq<usize>| u_start.contains_view(t) ==> unique.contains_view(t),
                forall|t: Seq<usize>| unique.contains_view(t) ==> reachable(seedv, t),
                forall|j2: int|
                    0 <= j2 < frontier@.len() ==> {
                        &&& (#[trigger] frontier@[j2]).wf()
                        &&& unique.contains_view(frontier@[j2]@)
                        &&& weight(frontier@[j2]@) >= round
                        &&& frontier@[j2]@.len() == terms
                    },
                forall|j2: int|
                    0 <= j2 < next@.len() ==> {
                        &&& (#[trigger] next@[j2]).wf()
                        &&& unique.contains_view(next@[j2]@)
                        &&& weight(next@[j2]@) >= round + 1
                        &&& next@[j2]@.len() == terms
                    },
                forall|t: Seq<usize>|
                    unique.contains_view(t) && !u_start.contains_view(t) ==> views_of(
                        next@,
                    ).contains(t),
                forall|t: Seq<usize>, d: int, i: int|
                    unique.contains_view(t) && !views_of(frontier@.skip(j as int)).contains(t)
                        && !views_of(next@).contains(t) && 0 <= d < i < t.len() && is_partition(
                        transfer(t, d, i),
                    ) ==> unique.contains_view(#[trigger] transfer(t, d, i)),
                round >= 0,
            decreases n - j,
        {
            let ghost u_pre = unique;
            let ghost next_pre = next@;
            let p = &frontier[j];
            expand_one(p, terms, &mut unique, &mut next, Ghost(seedv), Ghost(round));
            proof {
                assert forall|t: Seq<usize>, d: int, i: int|
                    unique.contains_view(t) && !views_of(frontier@.skip(j + 1)).contains(t)
                        && !views_of(next@).contains(t) && 0 <= d < i < t.len() && is_partition(
                        transfer(t, d, i),
                    ) implies unique.contains_view(#[trigger] transfer(t, d, i)) by {
                    if t == frontier@[j as int]@ {
                        assert(unique.contains_view(transfer(t, d, i)));
                    } else {
                        if u_pre.contains_view(t) {
                            if views_of(frontier@.skip(j as int)).contains(t) {
                                let q = choose|q: int|
                                    0 <= q < frontier@.skip(j as int).len() && views_of(
                                        frontier@.skip(j as int),
                                    )[q] == t;
                                if q == 0 {
                                    assert(t == frontier@[j as int]@);
                                } else {
                                    assert(frontier@.skip(j as int)[q] == frontier@.skip(
                                        j + 1,
                                    )[q - 1]);
                                    assert(views_of(frontier@.skip(j + 1))[q - 1] == t);
                                }
                            }
                            if views_of(next_pre).contains(t) {
                                let q = choose|q: int|
                                    0 <= q < next_pre.len() && views_of(next_pre)[q] == t;
                                assert(views_of(next@).contains(t));
                            }
                            assert(u_pre.contains_view(transfer(t, d, i)));
                        } else {
                            assert(views_of(next@).contains(t));
                        }
                    }
                }
            }
            j += 1;
        }
        proof {
            assert(frontier@.skip(n as int) =~= Seq::<NonincSum>::empty());
            assert(views_of(Seq::<NonincSum>::empty()) =~= Seq::<Seq<usize>>::empty());
        }
        frontier = next;
        proof {
            round = round + 1;
        }
    }
    proof {
        assert forall|t: Seq<usize>| reachable(seedv, t) implies unique.contains_view(t) by {
            assert(views_of(frontier@).len() == 0);
            let nn = choose|nn: nat| reaches(seedv, t, nn);
            lemma_reaches_in_closed(&unique, seedv, t, nn);
        };
        assert forall|t: Seq<usize>| #[trigger]
            unique.contains_view(t) implies is_partition(t) && t.len() == terms && sum_of(t)
            == sum by {
            lemma_reachable_props(seedv, t);
        };
    }
    unique
}

/// The term sequences of every partition of `sum` with two or more parts
/// that some arity's search reaches.
pub open spec fn all_partitions(sum: int) -> Set<Seq<usize>> {
    Set::new(
        |t: Seq<usize>|
            exists|k: int| 2 <= k <= sum && reachable(#[trigger] seed_seq(sum, k), t),
    )
}

/// The total count of partitions of `sum` over every arity from two up to
/// `sum`, found by driving the frontier search once per arity and merging
/// the results: exactly the number of partitions of `sum` with at least
/// two parts.
pub fn find_sums(sum: usize) -> (r: usize)
    ensures
        partitions_of(sum as int).finite(),
        r == partitions_of(sum as int).len(),
        all_partitions(sum as int) == partitions_of(sum as int),
{
    proof {
        lemma_all_partitions_exact(sum as int);
    }
    let mut merged = PartSet::new();
    let mut arity: usize = 1;
    while arity < sum
        invariant
            1 <= arity,
            arity <= sum || arity == 1,
            merged.wf(),
            forall|t: Seq<usize>|
                merged.contains_view(t) <==> exists|k: int|
                    2 <= k <= arity && reachable(#[trigger] seed_seq(sum as int, k), t),
        decreases sum - arity,
    {
        arity += 1;
        let ghost prev = merged;
        let ps = find_sums_restrict_terms(sum, arity);
        let n = ps.len();
        let mut i: usize = 0;
        while i < n
            invariant
                2 <= arity <= sum,
                merged.wf(),
                ps.wf(),
                n == ps.views().len(),
                i <= n,
                forall|t: Seq<usize>|
                    ps.contains_view(t) <==> reachable(seed_seq(sum as int, arity as int), t),
                forall|t: Seq<usize>|
                    prev.contains_view(t) <==> exists|k: int|
                        2 <= k < arity && reachable(#[trigger] seed_seq(sum as int, k), t),
                forall|t: Seq<usize>|
                    merged.contains_view(t) <==> prev.contains_view(t) || exists|q: int|
                        0 <= q < i && ps.views()[q] == t,
            decreases n - i,
        {
            let p = ps.get(i);
            let p2 = p.clone();
            proof {
                assert(p2.wf());
            }
            let _ = merged.insert(p2);
            i += 1;
        }
        proof {
            assert forall|t: Seq<usize>|
                merged.contains_view(t) <==> exists|k: int|
                    2 <= k <= arity && reachable(#[trigger] seed_seq(sum as int, k), t) by {
                if merged.contains_view(t) {
                    if !prev.contains_view(t) {
                        let q = choose|q: int| 0 <= q < n && ps.views()[q] == t;
                        assert(ps.contains_view(t));
                        assert(reachable(seed_seq(sum as int, arity as int), t));
                    }
                }
                if exists|k: int|
                    2 <= k <= arity && reachable(#[trigger] seed_seq(sum as int, k), t) {
                    let k = choose|k: int|
                        2 <= k <= arity && reachable(#[trigger] seed_seq(sum as int, k), t);
                    if k < arity {
                        assert(prev.contains_view(t));
                    } else {
                        assert(ps.contains_view(t));
                        let q = choose|q: int|
                            0 <= q < ps.views().len() && ps.views()[q] == t;
                    }
                }
            }
        }
    }
    proof {
        merged.lemma_view_set_card();
        assert forall|t: Seq<usize>|
            merged.views().to_set().contains(t) == all_partitions(sum as int).contains(t) by {
            if merged.views().to_set().contains(t) {
                assert(merged.contains_view(t));
                let k = choose|k: int|
                    2 <= k <= arity && reachable(#[trigger] seed_seq(sum as int, k), t);
                assert(2 <= k <= sum && reachable(seed_seq(sum as int, k), t));
                assert(all_partitions(sum as int).contains(t));
            }
            if all_partitions(sum as int).contains(t) {
                let k = choose|k: int|
                    2 <= k <= sum && reachable(#[trigger] seed_seq(sum as int, k), t);
                assert(2 <= k <= arity && reachable(seed_seq(sum as int, k), t));
                assert(merged.contains_view(t));
                assert(merged.views().to_set().contains(t));
            }
        }
        assert(merged.views().to_set() =~= all_partitions(sum as int));
    }
    merged.len()
}

} // verus!
