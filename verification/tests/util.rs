use solve24::util::{cartesian_product, permutations, CartesianProduct, Permutations};

fn all_orderings(mut orderings: Permutations) -> Vec<Vec<usize>> {
    let mut out = Vec::new();
    while let Some(order) = orderings.next() {
        out.push(order);
    }
    out
}

fn all_tuples(mut product: CartesianProduct) -> Vec<Vec<usize>> {
    let mut out = Vec::new();
    while let Some(tuple) = product.next() {
        out.push(tuple);
    }
    out
}

#[test]
fn test_permutations_empty() {
    let perms = all_orderings(permutations(0));
    assert_eq!(perms, vec![vec![]] as Vec<Vec<usize>>)
}

#[test]
fn test_permutations_nonempty() {
    let perms = all_orderings(permutations(3));
    assert_eq!(
        perms,
        vec![
            vec![0, 1, 2],
            vec![1, 0, 2],
            vec![2, 0, 1],
            vec![0, 2, 1],
            vec![1, 2, 0],
            vec![2, 1, 0],
        ]
    )
}

#[test]
fn test_cartesian_product_empty() {
    let prod = all_tuples(cartesian_product(&[1, 0]));
    assert_eq!(prod, vec![] as Vec<Vec<usize>>);
}

#[test]
fn test_cartesian_product_nonempty() {
    let prod = all_tuples(cartesian_product(&[2, 3]));
    assert_eq!(
        prod,
        vec![
            vec![0, 0],
            vec![0, 1],
            vec![0, 2],
            vec![1, 0],
            vec![1, 1],
            vec![1, 2],
        ]
    );
}

fn factorial(n: usize) -> usize {
    (1..=n).product()
}

#[test]
fn test_permutations_one() {
    assert_eq!(all_orderings(permutations(1)), vec![vec![0]]);
}

#[test]
fn test_permutations_two() {
    assert_eq!(all_orderings(permutations(2)), vec![vec![0, 1], vec![1, 0]]);
}

#[test]
fn test_permutations_count_and_distinct() {
    for n in 0..=6 {
        let perms = all_orderings(permutations(n));
        assert_eq!(perms.len(), factorial(n));
        let mut sorted = perms.clone();
        sorted.sort();
        sorted.dedup();
        assert_eq!(sorted.len(), perms.len());
        for order in perms {
            let mut entries = order.clone();
            entries.sort();
            assert_eq!(entries, (0..n).collect::<Vec<_>>());
        }
    }
}

#[test]
fn test_permutations_one_exchange_apart() {
    let perms = all_orderings(permutations(5));
    for pair in perms.windows(2) {
        let moved = (0..5).filter(|k| pair[0][*k] != pair[1][*k]).count();
        assert_eq!(moved, 2);
    }
}

#[test]
fn test_permutations_stay_exhausted() {
    let mut orderings = permutations(2);
    assert_eq!(orderings.next(), Some(vec![0, 1]));
    assert_eq!(orderings.next(), Some(vec![1, 0]));
    assert_eq!(orderings.next(), None);
    assert_eq!(orderings.next(), None);
    let mut none = permutations(0);
    assert_eq!(none.next(), Some(vec![]));
    assert_eq!(none.next(), None);
    assert_eq!(none.next(), None);
}

#[test]
fn test_cartesian_product_no_dimension() {
    assert_eq!(all_tuples(cartesian_product(&[])), vec![vec![]] as Vec<Vec<usize>>);
}

#[test]
fn test_cartesian_product_zero_first() {
    assert_eq!(all_tuples(cartesian_product(&[0, 3])), vec![] as Vec<Vec<usize>>);
}

#[test]
fn test_cartesian_product_operators() {
    let prod = all_tuples(cartesian_product(&[4, 4, 4]));
    assert_eq!(prod.len(), 64);
    assert_eq!(prod[0], vec![0, 0, 0]);
    assert_eq!(prod[1], vec![0, 0, 1]);
    assert_eq!(prod[4], vec![0, 1, 0]);
    assert_eq!(prod[27], vec![1, 2, 3]);
    assert_eq!(prod[63], vec![3, 3, 3]);
    let mut sorted = prod.clone();
    sorted.sort();
    assert_eq!(sorted, prod);
    sorted.dedup();
    assert_eq!(sorted.len(), 64);
}

#[test]
fn test_cartesian_product_large_sizes() {
    let mut product = cartesian_product(&[usize::MAX, usize::MAX]);
    assert_eq!(product.next(), Some(vec![0, 0]));
    assert_eq!(product.next(), Some(vec![0, 1]));
}

#[test]
fn test_cartesian_product_stays_exhausted() {
    let mut product = cartesian_product(&[1, 2]);
    assert_eq!(product.next(), Some(vec![0, 0]));
    assert_eq!(product.next(), Some(vec![0, 1]));
    assert_eq!(product.next(), None);
    assert_eq!(product.next(), None);
}
