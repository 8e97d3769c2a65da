use noninc_sums::partition::NonincSum;
use noninc_sums::partition::PartitionError;

fn new_should_fail(v: Vec<usize>, desc: &'static str) {
    match NonincSum::new(v) {
        Ok(_) => panic!("{} should fail", desc),
        Err(_) => (),
    }
}

fn expect_display(v: Vec<usize>, disp: &'static str) {
    let sum = NonincSum::new(v).expect("valid args");
    assert_eq!(sum.to_display_string(), disp);
}

fn expect_generate(u: Vec<usize>, i: usize, k: usize, v: Vec<usize>) {
    let sum = NonincSum::new(u).expect("valid args");
    let g = sum.generate(i, k).expect("valid indices");
    let e = NonincSum::new(v).expect("valid args");
    assert_eq!(g, e);
}

fn expect_generate_nothing(u: Vec<usize>, i: usize, k: usize) {
    let sum = NonincSum::new(u).expect("valid args");
    match sum.generate(i, k) {
        Some(_) => panic!(
            "Generating from {} at index {} and {} should yield nothing",
            sum.to_display_string(),
            i,
            k
        ),
        None => (),
    }
}

#[test]
fn empty_fails() {
    new_should_fail([].to_vec(), "empty");
}

#[test]
fn single_element_fails() {
    new_should_fail([1].to_vec(), "single element");
}

#[test]
fn zero_fails() {
    new_should_fail([1, 0].to_vec(), "zero");
}

#[test]
fn increase_fails() {
    new_should_fail([1, 2, 3].to_vec(), "increasing elements");
}

#[test]
fn two_element_display() {
    expect_display([1, 1].to_vec(), "<1, 1>");
}

#[test]
fn three_same_display() {
    expect_display([1, 1, 1].to_vec(), "<3(1)>");
}

#[test]
fn complex_display() {
    expect_display([5, 5, 5, 4, 4, 2, 2, 2, 2].to_vec(), "<3(5), 4, 4, 4(2)>");
}

#[test]
fn generate_basic() {
    let v = [7, 3, 1].to_vec();
    expect_generate(v.clone(), 0, 1, [6, 4, 1].to_vec());
    expect_generate(v.clone(), 1, 2, [7, 2, 2].to_vec());
    expect_generate(v.clone(), 0, 2, [6, 3, 2].to_vec());
}

#[test]
fn generate_nothing() {
    expect_generate_nothing([1, 1].to_vec(), 0, 1);
    expect_generate_nothing([4, 3, 2].to_vec(), 0, 1);
}

#[test]
fn append_at_end_basic() {
    let ns = NonincSum::new([6, 4, 1].to_vec()).unwrap();
    let next = ns.append_at_end();
    let expect = NonincSum::new([6, 4, 1, 1].to_vec()).unwrap();
    assert_eq!(next, expect);
}

#[test]
fn inc_last_basic() {
    let ns = NonincSum::new([5, 5, 3].to_vec()).unwrap();
    let next = ns.inc_last().unwrap(); // Should have a result.
    let expect = NonincSum::new([5, 5, 4].to_vec()).unwrap();
    assert_eq!(next, expect);
}

#[test]
fn inc_last_at_plateau_fails() {
    let ns = NonincSum::new([5, 5, 5].to_vec()).unwrap();
    assert!(ns.inc_last().is_none());
}

#[test]
fn error_kinds() {
    assert_eq!(NonincSum::new([].to_vec()).unwrap_err(), PartitionError::InvalidArity);
    assert_eq!(NonincSum::new([7].to_vec()).unwrap_err(), PartitionError::InvalidArity);
    assert_eq!(NonincSum::new([1, 0].to_vec()).unwrap_err(), PartitionError::NonPositiveTerm);
    assert_eq!(NonincSum::new([0, 0].to_vec()).unwrap_err(), PartitionError::NonPositiveTerm);
    assert_eq!(NonincSum::new([1, 2, 3].to_vec()).unwrap_err(), PartitionError::NotNonIncreasing);
}

#[test]
fn generate_then_inverse_returns_original() {
    let original = NonincSum::new([3, 2, 1].to_vec()).unwrap();
    let moved = original.generate(0, 2).expect("valid move");
    let mut v = moved.terms().clone();
    v[2] -= 1;
    v[0] += 1;
    let back = NonincSum::new(v).expect("inverse stays valid");
    assert_eq!(back, original);
}

#[test]
fn multi_digit_display() {
    expect_display([12, 10].to_vec(), "<12, 10>");
    expect_display([100, 100, 100, 3].to_vec(), "<3(100), 3>");
}

#[test]
fn totals_are_cached_sums() {
    let ns = NonincSum::new([6, 4, 1].to_vec()).unwrap();
    assert_eq!(ns.total(), 11);
    assert_eq!(ns.append_at_end().total(), 12);
}
