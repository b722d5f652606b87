use solve24::shapes::{merge, reduce_all};
use solve24::{BoundOp, Op, Ops};

type Val = f64;
type OpFn = fn(Val, Val) -> Val;
type Expr = BoundOp<Val, OpFn>;

fn named(names: &[&str]) -> Ops<OpFn> {
    let first: OpFn = |a, _| a;
    Ops(names.iter().map(|name| Op::new(*name, first)).collect())
}

fn row(numbers: &[Val]) -> Vec<Expr> {
    numbers.iter().map(|n| BoundOp::Val(*n)).collect()
}

fn infix(found: &[Expr]) -> Vec<String> {
    found.iter().map(|e| e.to_infix_notation()).collect()
}

#[test]
fn test_merge_middle() {
    let ops = named(&["+"]);
    let before = row(&[1., 2., 3., 4.]);
    let after = merge(&before, 1, &ops.0[0]);
    assert_eq!(infix(&after), vec!["1", "(2+3)", "4"]);
    assert_eq!(infix(&before), vec!["1", "2", "3", "4"]);
}

#[test]
fn test_merge_ends() {
    let ops = named(&["+"]);
    let before = row(&[1., 2., 3.]);
    assert_eq!(infix(&merge(&before, 0, &ops.0[0])), vec!["(1+2)", "3"]);
    assert_eq!(infix(&merge(&before, 1, &ops.0[0])), vec!["1", "(2+3)"]);
}

#[test]
fn test_reduce_nothing() {
    let found = reduce_all(row(&[]), &named(&[]));
    assert_eq!(found, vec![]);
}

#[test]
fn test_reduce_one_number() {
    let found = reduce_all(row(&[7.]), &named(&[]));
    assert_eq!(infix(&found), vec!["7"]);
}

#[test]
fn test_reduce_two_numbers() {
    let found = reduce_all(row(&[1., 2.]), &named(&["a"]));
    assert_eq!(infix(&found), vec!["(1a2)"]);
}

#[test]
fn test_reduce_three_numbers_takes_operators_from_the_end() {
    let found = reduce_all(row(&[1., 2., 3.]), &named(&["a", "b"]));
    assert_eq!(infix(&found), vec!["((1b2)a3)", "(1a(2b3))"]);
}

#[test]
fn test_reduce_four_numbers() {
    let found = reduce_all(row(&[1., 2., 3., 4.]), &named(&["a", "b", "c"]));
    assert_eq!(
        infix(&found),
        vec![
            "(((1c2)b3)a4)",
            "((1c2)a(3b4))",
            "((1b(2c3))a4)",
            "(1a((2c3)b4))",
            "((1b2)a(3c4))",
            "(1a(2b(3c4)))",
        ]
    );
}

#[test]
fn test_reduce_counts() {
    let ops = named(&["a", "b", "c", "d", "e"]);
    let expected = [0, 1, 1, 2, 6, 24, 120];
    for n in 0..=6 {
        let numbers = (0..n).map(|k| k as Val).collect::<Vec<_>>();
        assert_eq!(reduce_all(row(&numbers), &ops).len(), expected[n]);
    }
}

#[test]
fn test_reduce_keeps_the_numbers_in_order() {
    let ops = named(&["a", "b", "c"]);
    for e in reduce_all(row(&[4., 3., 2., 1.]), &ops) {
        let digits = e
            .to_infix_notation()
            .chars()
            .filter(|c| c.is_ascii_digit())
            .collect::<String>();
        assert_eq!(digits, "4321");
    }
}
