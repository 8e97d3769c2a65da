//! Dynamic-programming enumeration: the complete solution set for a total
//! is built from the complete set for the total one below it, by appending
//! a trailing one or growing the last term.  The construction is proved
//! sound and complete, so its count agrees with the brute-force search on
//! every input.

use vstd::prelude::*;
use crate::partition::NonincSum;
use crate::partition::is_partition;
use crate::partition::lemma_sum_of_update;
use crate::partition::partitions_of;
use crate::partition::sum_of;
use crate::part_set::PartSet;

verus! {

/// The two-part extreme partition of `sum`: `[sum - 1, 1]`.
pub open spec fn two_part_seed(sum: int) -> Seq<usize> {
    seq![(sum - 1) as usize, 1usize]
}

/// The last term grown by one.
pub open spec fn grown_last(s: Seq<usize>) -> Seq<usize> {
    s.update(s.len() - 1, (s.last() + 1) as usize)
}

/// One layer extension: the seed for the new total, every previous
/// partition with a one appended, and every previous partition whose last
/// term could grow without breaking the order.
pub open spec fn extend_layer(prev: Set<Seq<usize>>, sum: int) -> Set<Seq<usize>> {
    Set::new(
        |t: Seq<usize>|
            t == two_part_seed(sum) || (exists|s: Seq<usize>|
                prev.contains(s) && t == #[trigger] s.push(1usize)) || (exists|s: Seq<usize>|
                prev.contains(s) && is_partition(#[trigger] grown_last(s)) && t == grown_last(s)),
    )
}

/// The complete layer for a total: empty below two, else the extension of
/// the layer one total below.
pub open spec fn layer_set(sum: int) -> Set<Seq<usize>>
    decreases sum,
{
    if sum < 2 {
        Set::<Seq<usize>>::empty()
    } else {
        extend_layer(layer_set(sum - 1), sum)
    }
}

/// Builds the solution set for `sum` from the complete solution set for
/// `sum - 1`: exactly the layer extension, deduplicated.
pub fn next_layer(sum: usize, previous: PartSet) -> (r: PartSet)
    requires
        sum >= 2,
        previous.wf(),
        forall|t: Seq<usize>|
            #[trigger] previous.contains_view(t) ==> is_partition(t) && sum_of(t) == sum - 1,
    ensures
        r.wf(),
        forall|t: Seq<usize>|
            r.contains_view(t) <==> extend_layer(
                previous.views().to_set(),
                sum as int,
            ).contains(t),
{
    let ghost seedv = two_part_seed(sum as int);
    let mut sv: Vec<usize> = Vec::new();
    sv.push(sum - 1);
    sv.push(1);
    proof {
        assert(sv@ =~= seedv);
        assert(seedv.drop_last() =~= seq![(sum - 1) as usize]);
        assert(seq![(sum - 1) as usize].drop_last() =~= Seq::<usize>::empty());
        assert(sum_of(Seq::<usize>::empty()) == 0);
        assert(seq![(sum - 1) as usize].last() == (sum - 1) as usize);
        assert(sum_of(seq![(sum - 1) as usize]) == sum - 1);
        assert(seedv.last() == 1);
        assert(sum_of(seedv) == sum);
        assert(forall|i: int| 0 < i < seedv.len() ==> seedv[i - 1] >= #[trigger] seedv[i]);
        assert(is_partition(seedv));
    }
    let seed = match NonincSum::new(sv) {
        Ok(p) => p,
        Err(_) => vstd::pervasive::unreached(),
    };
    let mut r = PartSet::new();
    let _ = r.insert(seed);
    let n = previous.len();
    let mut i: usize = 0;
    while i < n
        invariant
            sum >= 2,
            previous.wf(),
            forall|t: Seq<usize>|
                #[trigger] previous.contains_view(t) ==> is_partition(t) && sum_of(t) == sum - 1,
            seedv == two_part_seed(sum as int),
            n == previous.views().len(),
            i <= n,
            r.wf(),
            forall|t: Seq<usize>|
                r.contains_view(t) <==> t == seedv || (exists|q: int|
                    0 <= q < i && t == #[trigger] previous.views()[q].push(1usize)) || (exists|
                    q: int,
                |
                    0 <= q < i && is_partition(grown_last(previous.views()[q])) && t
                        == #[trigger] grown_last(previous.views()[q])),
        decreases n - i,
    {
        let p = previous.get(i);
        proof {
            assert(previous.contains_view(p@));
        }
        let a = p.append_at_end();
        let _ = r.insert(a);
        match p.inc_last() {
            Some(g) => {
                proof {
                    assert(g@ == grown_last(previous.views()[i as int]));
                }
                let _ = r.insert(g);
            },
            None => {
                proof {
                    assert(!is_partition(grown_last(previous.views()[i as int])));
                }
            },
        }
        i += 1;
    }
    proof {
        let prevset = previous.views().to_set();
        assert forall|t: Seq<usize>|
            r.contains_view(t) == extend_layer(prevset, sum as int).contains(t) by {
            if r.contains_view(t) {
                if t != seedv {
                    if exists|q: int|
                        0 <= q < n && t == #[trigger] previous.views()[q].push(1usize) {
                        let q = choose|q: int|
                            0 <= q < n && t == #[trigger] previous.views()[q].push(1usize);
                        assert(prevset.contains(previous.views()[q]));
                    } else {
                        let q = choose|q: int|
                            0 <= q < n && is_partition(grown_last(previous.views()[q])) && t
                                == #[trigger] grown_last(previous.views()[q]);
                        assert(prevset.contains(previous.views()[q]));
                    }
                }
            }
            if extend_layer(prevset, sum as int).contains(t) && t != seedv {
                if exists|s: Seq<usize>| prevset.contains(s) && t == #[trigger] s.push(1usize) {
                    let s = choose|s: Seq<usize>|
                        prevset.contains(s) && t == #[trigger] s.push(1usize);
                    let q = choose|q: int|
                        0 <= q < previous.views().len() && previous.views()[q] == s;
                    assert(t == previous.views()[q].push(1usize));
                } else {
                    let s = choose|s: Seq<usize>|
                        prevset.contains(s) && is_partition(#[trigger] grown_last(s)) && t
                            == grown_last(s);
                    let q = choose|q: int|
                        0 <= q < previous.views().len() && previous.views()[q] == s;
                    assert(is_partition(grown_last(previous.views()[q])) && t == grown_last(
                        previous.views()[q],
                    ));
                }
            }
        }
    }
    r
}

/// Soundness of one layer extension: when the previous layer holds only
/// partitions of `k - 1`, everything in the extension is a partition of
/// `k`.
proof fn lemma_extend_sound(prev: Set<Seq<usize>>, k: int, t: Seq<usize>)
    requires
        2 <= k <= usize::MAX,
        forall|x: Seq<usize>| prev.contains(x) ==> is_partition(x) && sum_of(x) == k - 1,
        extend_layer(prev, k).contains(t),
    ensures
        is_partition(t),
        sum_of(t) == k,
{
    if t == two_part_seed(k) {
        assert(t.drop_last() =~= seq![(k - 1) as usize]);
        assert(seq![(k - 1) as usize].drop_last() =~= Seq::<usize>::empty());
        assert(sum_of(Seq::<usize>::empty()) == 0);
        assert(sum_of(seq![(k - 1) as usize]) == k - 1);
        assert(t.last() == 1);
        assert(sum_of(t) == k);
        assert(forall|j: int| 0 < j < t.len() ==> t[j - 1] >= #[trigger] t[j]);
    } else if exists|x: Seq<usize>| prev.contains(x) && t == #[trigger] x.push(1usize) {
        let x = choose|x: Seq<usize>| prev.contains(x) && t == #[trigger] x.push(1usize);
        assert(prev.contains(x));
        assert(is_partition(x) && sum_of(x) == k - 1);
        assert(t.drop_last() =~= x);
        assert(t.last() == 1);
        assert(sum_of(t) == k);
        assert(forall|j: int| 0 < j < t.len() ==> t[j - 1] >= #[trigger] t[j]);
    } else {
        let x = choose|x: Seq<usize>|
            prev.contains(x) && is_partition(#[trigger] grown_last(x)) && t == grown_last(x);
        assert(prev.contains(x));
        assert(is_partition(x) && sum_of(x) == k - 1);
        crate::partition::lemma_element_le_sum(x, x.len() - 1);
        lemma_sum_of_update(x, x.len() - 1, (x.last() + 1) as usize);
        assert(sum_of(t) == k);
    }
}

/// Completeness of one layer extension: every partition of `k` arises
/// from the seed, or from a partition of `k - 1` by one of the two moves.
#[verifier::rlimit(100)]
proof fn lemma_extend_complete(prev: Set<Seq<usize>>, k: int, t: Seq<usize>)
    requires
        2 <= k <= usize::MAX,
        forall|x: Seq<usize>| #[trigger]
            prev.contains(x) <==> is_partition(x) && sum_of(x) == k - 1,
        is_partition(t),
        sum_of(t) == k,
    ensures
        extend_layer(prev, k).contains(t),
{
    if t.last() == 1 {
        if t.len() == 2 {
            assert(t.drop_last() =~= seq![t[0]]);
            assert(seq![t[0]].drop_last() =~= Seq::<usize>::empty());
            assert(sum_of(Seq::<usize>::empty()) == 0);
            assert(sum_of(seq![t[0]]) == t[0]);
            assert(t[0] == k - 1);
            assert(t =~= two_part_seed(k));
        } else {
            let x = t.drop_last();
            assert(forall|j: int| 0 < j < x.len() ==> x[j - 1] >= #[trigger] x[j]);
            assert(is_partition(x));
            assert(sum_of(x) == k - 1);
            assert(prev.contains(x));
            assert(t =~= x.push(1usize));
            assert(t == x.push(1usize));
        }
    } else {
        crate::partition::lemma_element_le_sum(t, t.len() - 1);
        let x = t.update(t.len() - 1, (t.last() - 1) as usize);
        assert(x.last() == t.last() - 1);
        assert(forall|j: int| 0 <= j < x.len() ==> x[j] > 0);
        assert(forall|j: int| 0 < j < x.len() ==> x[j - 1] >= #[trigger] x[j]);
        assert(is_partition(x));
        lemma_sum_of_update(t, t.len() - 1, (t.last() - 1) as usize);
        assert(sum_of(x) == k - 1);
        assert(prev.contains(x));
        assert(grown_last(x) =~= t);
        assert(is_partition(grown_last(x)) && t == grown_last(x));
    }
}

/// Law: the layer construction is complete as well as sound — the layer
/// for a total holds exactly the partitions of that total with at least
/// two parts.
pub proof fn lemma_layers_exact(k: int)
    requires
        0 <= k <= usize::MAX,
    ensures
        layer_set(k) == partitions_of(k),
    decreases k,
{
    if k < 2 {
        assert forall|t: Seq<usize>|
            layer_set(k).contains(t) == partitions_of(k).contains(t) by {
            if is_partition(t) && sum_of(t) == k {
                crate::partition::lemma_len_le_sum(t);
            }
        }
        assert(layer_set(k) =~= partitions_of(k));
    } else {
        lemma_layers_exact(k - 1);
        assert forall|t: Seq<usize>|
            layer_set(k).contains(t) == partitions_of(k).contains(t) by {
            if layer_set(k).contains(t) {
                lemma_extend_sound(layer_set(k - 1), k, t);
            }
            if is_partition(t) && sum_of(t) == k {
                lemma_extend_complete(layer_set(k - 1), k, t);
            }
        }
        assert(layer_set(k) =~= partitions_of(k));
    }
}

/// Law: the two enumeration algorithms agree — the arity-by-arity union
/// that the frontier search counts and the final layer of the dynamic
/// programme are the same set, namely all partitions of `sum` with at
/// least two parts.
pub proof fn lemma_algorithms_agree(sum: int)
    requires
        0 <= sum <= usize::MAX,
    ensures
        crate::frontier::all_partitions(sum) == layer_set(sum),
        layer_set(sum) == partitions_of(sum),
{
    crate::frontier::lemma_all_partitions_exact(sum);
    lemma_layers_exact(sum);
}

/// The complete, deduplicated solution set for `sum`: the layers are
/// built total by total, each from the one below it.
pub fn layer_partitions(sum: usize) -> (r: PartSet)
    ensures
        r.wf(),
        forall|t: Seq<usize>| r.contains_view(t) <==> layer_set(sum as int).contains(t),
        forall|t: Seq<usize>|
            #[trigger] r.contains_view(t) <==> is_partition(t) && sum_of(t) == sum,
{
    proof {
        lemma_layers_exact(sum as int);
    }
    let mut working = PartSet::new();
    if sum < 2 {
        proof {
            assert(layer_set(sum as int) =~= Set::<Seq<usize>>::empty());
            assert forall|t: Seq<usize>| !(is_partition(t) && sum_of(t) == sum as int) by {
                if is_partition(t) && sum_of(t) == sum as int {
                    crate::partition::lemma_len_le_sum(t);
                }
            }
        }
        return working;
    }
    let mut s: usize = 1;
    proof {
        assert(layer_set(1) =~= Set::<Seq<usize>>::empty());
    }
    while s < sum
        invariant
            2 <= sum,
            1 <= s <= sum,
            working.wf(),
            forall|t: Seq<usize>| working.contains_view(t) <==> layer_set(s as int).contains(t),
            forall|t: Seq<usize>|
                #[trigger] working.contains_view(t) ==> is_partition(t) && sum_of(t) == s,
        decreases sum - s,
    {
        s += 1;
        let ghost prev = working;
        working = next_layer(s, working);
        proof {
            let prevset = prev.views().to_set();
            assert forall|t: Seq<usize>|
                prevset.contains(t) == layer_set(s - 1).contains(t) by {
                assert(prevset.contains(t) == prev.contains_view(t));
            }
            assert(prevset =~= layer_set(s - 1));
            assert(extend_layer(prevset, s as int) == layer_set(s as int));
            assert forall|t: Seq<usize>| #[trigger]
                working.contains_view(t) implies is_partition(t) && sum_of(t) == s by {
                assert(extend_layer(prevset, s as int).contains(t));
                if t == two_part_seed(s as int) {
                    assert(t.drop_last() =~= seq![(s - 1) as usize]);
                    assert(seq![(s - 1) as usize].drop_last() =~= Seq::<usize>::empty());
                    assert(sum_of(Seq::<usize>::empty()) == 0);
                    assert(sum_of(seq![(s - 1) as usize]) == s - 1);
                    assert(t.last() == 1);
                    assert(sum_of(t) == s);
                    assert(forall|j: int| 0 < j < t.len() ==> t[j - 1] >= #[trigger] t[j]);
                    assert(is_partition(t));
                } else if exists|x: Seq<usize>| prevset.contains(x) && t == #[trigger] x.push(
                    1usize,
                ) {
                    let x = choose|x: Seq<usize>|
                        prevset.contains(x) && t == #[trigger] x.push(1usize);
                    assert(prev.contains_view(x));
                    assert(is_partition(x) && sum_of(x) == s - 1);
                    assert(t.drop_last() =~= x);
                    assert(t.last() == 1);
                    assert(sum_of(t) == s);
                    assert(forall|j: int| 0 < j < t.len() ==> t[j - 1] >= #[trigger] t[j]);
                    assert(is_partition(t));
                } else {
                    let x = choose|x: Seq<usize>|
                        prevset.contains(x) && is_partition(#[trigger] grown_last(x)) && t
                            == grown_last(x);
                    assert(prev.contains_view(x));
                    assert(is_partition(x) && sum_of(x) == s - 1);
                    crate::partition::lemma_element_le_sum(x, x.len() - 1);
                    lemma_sum_of_update(x, x.len() - 1, (x.last() + 1) as usize);
                    assert(sum_of(t) == s);
                }
            }
        }
    }
    working
}

/// The total count of partitions of `sum` with at least two parts, found
/// by the layer method: the same quantity that the frontier search counts.
pub fn find_sums_alt(sum: usize) -> (r: usize)
    ensures
        partitions_of(sum as int).finite(),
        r == partitions_of(sum as int).len(),
        layer_set(sum as int) == partitions_of(sum as int),
{
    proof {
        lemma_layers_exact(sum as int);
    }
    let all = layer_partitions(sum);
    proof {
        all.lemma_view_set_card();
        assert forall|t: Seq<usize>|
            all.views().to_set().contains(t) == layer_set(sum as int).contains(t) by {
            assert(all.views().to_set().contains(t) == all.contains_view(t));
        }
        assert(all.views().to_set() =~= layer_set(sum as int));
    }
    all.len()
}

} // verus!
