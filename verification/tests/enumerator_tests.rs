use noninc_sums::frontier::find_sums;
use noninc_sums::frontier::find_sums_restrict_terms;
use noninc_sums::layers::find_sums_alt;
use noninc_sums::layers::layer_partitions;
use noninc_sums::part_set::PartSet;
use noninc_sums::partition::NonincSum;
use noninc_sums::rle::compress;
use noninc_sums::rle::expand;

fn collected_terms(ps: &PartSet) -> Vec<Vec<usize>> {
    let mut out: Vec<Vec<usize>> = Vec::new();
    for i in 0..ps.len() {
        out.push(ps.get(i).terms().clone());
    }
    out.sort();
    out
}

#[test]
fn known_values_four() {
    assert_eq!(find_sums(4), 4);
    assert_eq!(find_sums_alt(4), 4);
    let all = layer_partitions(4);
    let expect: Vec<Vec<usize>> = {
        let mut e = vec![vec![3, 1], vec![2, 2], vec![2, 1, 1], vec![1, 1, 1, 1]];
        e.sort();
        e
    };
    assert_eq!(collected_terms(&all), expect);
}

#[test]
fn known_values_ten_two_terms() {
    let ps = find_sums_restrict_terms(10, 2);
    let expect: Vec<Vec<usize>> = {
        let mut e = vec![vec![9, 1], vec![8, 2], vec![7, 3], vec![6, 4], vec![5, 5]];
        e.sort();
        e
    };
    assert_eq!(collected_terms(&ps), expect);
}

#[test]
fn known_value_ten_total() {
    // p(10) = 42 partitions in all; 41 once the one-part partition is left out
    assert_eq!(find_sums(10), 41);
    assert_eq!(find_sums_alt(10), 41);
}

#[test]
fn cross_algorithm_agreement() {
    for n in 2..=12usize {
        assert_eq!(find_sums(n), find_sums_alt(n), "counts differ at {}", n);
    }
}

#[test]
fn cross_algorithm_same_sets() {
    for n in 2..=9usize {
        let mut brute: Vec<Vec<usize>> = Vec::new();
        for terms in 2..=n {
            let ps = find_sums_restrict_terms(n, terms);
            for i in 0..ps.len() {
                brute.push(ps.get(i).terms().clone());
            }
        }
        brute.sort();
        let layered = collected_terms(&layer_partitions(n));
        assert_eq!(brute, layered, "sets differ at {}", n);
    }
}

#[test]
fn empty_below_two() {
    assert_eq!(find_sums(0), 0);
    assert_eq!(find_sums(1), 0);
    assert_eq!(find_sums_alt(0), 0);
    assert_eq!(find_sums_alt(1), 0);
}

#[test]
fn sorted_output_order() {
    let sorted = layer_partitions(5).to_sorted_vec();
    let listed: Vec<Vec<usize>> = sorted.iter().map(|p| p.terms().clone()).collect();
    let expect = vec![
        vec![1, 1, 1, 1, 1],
        vec![2, 1, 1, 1],
        vec![2, 2, 1],
        vec![3, 1, 1],
        vec![3, 2],
        vec![4, 1],
    ];
    assert_eq!(listed, expect);
}

#[test]
fn format_reparse_round_trip() {
    let p = NonincSum::new(vec![5, 5, 5, 4, 4, 2, 2, 2, 2]).unwrap();
    let runs = compress(p.terms());
    let reparsed = expand(&runs);
    assert_eq!(&reparsed, p.terms());
    let rebuilt = NonincSum::new(reparsed).expect("reparsed terms stay valid");
    assert_eq!(rebuilt, p);
}

#[test]
fn part_set_deduplicates() {
    let mut set = PartSet::new();
    let a = NonincSum::new(vec![2, 1]).unwrap();
    let b = NonincSum::new(vec![2, 1]).unwrap();
    assert!(set.insert(a));
    assert!(!set.insert(b));
    assert_eq!(set.len(), 1);
}
