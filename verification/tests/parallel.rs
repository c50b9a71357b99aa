use algoprims::parallel::parallel_sum;

#[test]
fn sums_small_lists() {
    assert_eq!(parallel_sum(&vec![1, 2, 3]), 6);
    assert_eq!(parallel_sum(&vec![]), 0);
    assert_eq!(parallel_sum(&vec![-5, 5, 10]), 10);
}

#[test]
fn sums_larger_list() {
    let items: Vec<i64> = (1..=1000).collect();
    assert_eq!(parallel_sum(&items), 500500);
}
