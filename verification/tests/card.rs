use solve24::{BoundOp, Card, Ops, Solutions};
use std::cell::Cell;

type Val = f64;
type OpFn = fn(Val, Val) -> Val;

const EPSILON: Val = std::f32::EPSILON as Val;
const DEFAULT_SOLUTION: Val = 24.;

fn eq(a: Val, b: Val) -> bool {
    (a - b).abs() < EPSILON
}

fn ops() -> Ops<OpFn> {
    Ops::arithmetic(|a, b| a + b, |a, b| a - b, |a, b| a * b, |a, b| a / b)
}

fn card(numbers: Vec<Val>) -> Card<Val, OpFn> {
    Card::new(numbers, ops(), DEFAULT_SOLUTION)
}

fn collect<E: Fn(Val, Val) -> bool>(mut solutions: Solutions<Val, OpFn, E>) -> Vec<BoundOp<Val, OpFn>> {
    let mut found = Vec::new();
    while let Some(bop) = solutions.next() {
        found.push(bop);
    }
    found
}

fn solve(numbers: Vec<Val>) -> Vec<BoundOp<Val, OpFn>> {
    collect(card(numbers).solve(eq))
}

#[test]
fn test_solve_empty() {
    assert_eq!(solve(vec![]), vec![]);
}

#[test]
fn test_solve_works() {
    let tests = vec![vec![1., 2., 3., 4.], vec![1., 1., 4., 6.]];
    for numbers in tests {
        let solution = DEFAULT_SOLUTION;
        let mut count = 0;
        assert!(solve(numbers).iter().all(|bop| {
            count += 1;
            bop.eval() == solution
        }));
        assert!(count > 20);
    }
}

#[test]
fn test_solve_difficult() {
    let tests = vec![
        (vec![1., 3., 4., 6.], vec!["(6/(1-(3/4)))"]),
        (vec![1., 4., 5., 6.], vec!["(4/(1-(5/6)))", "(6/((5/4)-1))"]),
    ];
    for (numbers, expected) in tests {
        let actual = solve(numbers)
            .iter()
            .map(|bop| bop.to_infix_notation())
            .collect::<Vec<_>>();
        assert_eq!(actual, expected);
    }
}

fn sorted(mut numbers: Vec<Val>) -> Vec<Val> {
    numbers.sort_by(|a, b| a.partial_cmp(b).unwrap());
    numbers
}

fn leaves(bop: &BoundOp<Val, OpFn>) -> Vec<Val> {
    match bop {
        BoundOp::Val(n) => vec![*n],
        BoundOp::BoundOp { l, r, .. } => {
            let mut all = leaves(l);
            all.extend(leaves(r));
            all
        }
    }
}

#[test]
fn test_solve_one_number() {
    let found = solve(vec![24.]);
    assert_eq!(found, vec![BoundOp::Val(24.)]);
    assert_eq!(solve(vec![23.]), vec![]);
}

#[test]
fn test_solve_two_numbers() {
    let found = solve(vec![4., 6.])
        .iter()
        .map(|bop| bop.to_infix_notation())
        .collect::<Vec<_>>();
    assert_eq!(found, vec!["(4*6)", "(6*4)"]);
}

#[test]
fn test_solve_no_solution() {
    assert_eq!(solve(vec![1., 1., 1., 1.]), vec![]);
}

#[test]
fn test_solve_other_target() {
    let found = collect(Card::new(vec![2., 5.], ops(), 10.).solve(eq))
        .iter()
        .map(|bop| bop.to_infix_notation())
        .collect::<Vec<_>>();
    assert_eq!(found, vec!["(2*5)", "(5*2)"]);
}

#[test]
fn test_solve_needs_tolerance() {
    let found = solve(vec![3., 3., 8., 8.])
        .iter()
        .map(|bop| bop.to_infix_notation())
        .collect::<Vec<_>>();
    assert_eq!(found, vec!["(8/(3-(8/3)))"; 4]);
    let exact = |a: Val, b: Val| a == b;
    assert_eq!(collect(card(vec![3., 3., 8., 8.]).solve(exact)), vec![]);
}

#[test]
fn test_solve_division_by_zero() {
    let found = solve(vec![0., 0., 24., 1.]);
    assert!(!found.is_empty());
    assert!(found.iter().all(|bop| eq(bop.eval(), 24.)));
    assert!(found.iter().all(|bop| bop.eval().is_finite()));
}

#[test]
fn test_solve_keeps_the_numbers() {
    for numbers in [vec![1., 2., 3., 4.], vec![1., 1., 4., 6.], vec![3., 3., 8., 8.]] {
        for bop in solve(numbers.clone()) {
            assert_eq!(sorted(leaves(&bop)), sorted(numbers.clone()));
        }
    }
}

#[test]
fn test_solve_explains_every_solution() {
    for bop in solve(vec![1., 2., 3., 4.]) {
        let (value, steps) = bop.explain();
        assert!(eq(value, bop.eval()));
        assert_eq!(steps.len(), 3);
        let text = bop.to_infix_notation();
        assert_eq!(text.chars().filter(|c| *c == '(').count(), 3);
        assert_eq!(text.chars().filter(|c| *c == ')').count(), 3);
    }
}

#[test]
fn test_solve_follows_the_operators_first() {
    let found = solve(vec![4., 6., 1., 1.])
        .iter()
        .map(|bop| bop.to_infix_notation())
        .collect::<Vec<_>>();
    let plus = found.iter().position(|text| text.contains('+'));
    let first_without = found.iter().position(|text| !text.contains('+'));
    assert!(plus.is_some() && first_without.is_some());
}

#[test]
fn test_numbers_permutations() {
    let orders = card(vec![1., 2., 3.]).numbers_permutations();
    assert_eq!(
        orders,
        vec![
            vec![1., 2., 3.],
            vec![2., 1., 3.],
            vec![3., 1., 2.],
            vec![1., 3., 2.],
            vec![2., 3., 1.],
            vec![3., 2., 1.],
        ]
    );
    assert_eq!(card(vec![]).numbers_permutations(), vec![vec![]] as Vec<Vec<Val>>);
}

#[test]
fn test_op_product() {
    let names = |numbers: Vec<Val>| {
        card(numbers)
            .op_product()
            .iter()
            .map(|ops| ops.0.iter().map(|op| op.name.clone()).collect::<String>())
            .collect::<Vec<_>>()
    };
    assert_eq!(names(vec![]), vec![""]);
    assert_eq!(names(vec![1.]), vec![""]);
    assert_eq!(names(vec![1., 2.]), vec!["+", "-", "*", "/"]);
    let three = names(vec![1., 2., 3.]);
    assert_eq!(three.len(), 16);
    assert_eq!(three[0], "++");
    assert_eq!(three[1], "+-");
    assert_eq!(three[4], "-+");
    assert_eq!(three[15], "//");
    assert_eq!(names(vec![1., 2., 3., 4.]).len(), 64);
}

#[test]
fn test_op_product_without_operators() {
    let none: Ops<OpFn> = Ops(vec![]);
    let lonely = Card::new(vec![1., 2.], none, 3.);
    assert_eq!(lonely.op_product().len(), 0);
    assert_eq!(collect(lonely.solve(eq)), vec![]);
    let nothing: Ops<OpFn> = Ops(vec![]);
    let single = Card::new(vec![3.], nothing, 3.);
    assert_eq!(single.op_product().len(), 1);
    assert_eq!(collect(single.solve(eq)), vec![BoundOp::Val(3.)]);
    let bare: Ops<OpFn> = Ops(vec![]);
    let empty = Card::new(vec![], bare, 3.);
    assert_eq!(empty.op_product().len(), 1);
    assert_eq!(empty.op_product()[0].0.len(), 0);
    assert_eq!(collect(empty.solve(eq)), vec![]);
}

#[test]
fn test_solve_is_lazy() {
    let calls = Cell::new(0);
    let counting = |a: Val, b: Val| {
        calls.set(calls.get() + 1);
        eq(a, b)
    };
    let mut solutions = card(vec![4., 6.]).solve(counting);
    assert_eq!(calls.get(), 0);
    let first = solutions.next().map(|bop| bop.to_infix_notation());
    assert_eq!(first, Some(String::from("(4*6)")));
    assert_eq!(calls.get(), 5);
    let second = solutions.next().map(|bop| bop.to_infix_notation());
    assert_eq!(second, Some(String::from("(6*4)")));
    assert_eq!(calls.get(), 6);
    assert_eq!(solutions.next(), None);
    assert_eq!(calls.get(), 8);
    assert_eq!(solutions.next(), None);
    assert_eq!(calls.get(), 8);
}

#[test]
fn test_solve_judges_every_candidate_once() {
    let calls = Cell::new(0);
    let counting = |a: Val, b: Val| {
        calls.set(calls.get() + 1);
        eq(a, b)
    };
    let found = collect(card(vec![1., 2., 3., 4.]).solve(counting));
    assert!(found.len() > 20);
    assert_eq!(calls.get(), 64 * 24 * 6);
}

#[test]
fn test_card_clone() {
    let first = card(vec![1., 3., 4., 6.]);
    let second = first.clone();
    let texts = |found: Vec<BoundOp<Val, OpFn>>| {
        found.iter().map(|bop| bop.to_infix_notation()).collect::<Vec<_>>()
    };
    assert_eq!(texts(collect(second.solve(eq))), vec!["(6/(1-(3/4)))"]);
    assert_eq!(texts(collect(first.solve(eq))), vec!["(6/(1-(3/4)))"]);
}

fn always(_: Val, _: Val) -> bool {
    true
}

#[test]
fn test_solve_tries_every_expression_once() {
    let all = collect(card(vec![1., 2., 3.]).solve(always))
        .iter()
        .map(|bop| bop.to_infix_notation())
        .collect::<Vec<_>>();
    assert_eq!(all.len(), 16 * 6 * 2);
    assert_eq!(all[0], "((1+2)+3)");
    assert_eq!(all[1], "(1+(2+3))");
    assert_eq!(all[2], "((2+1)+3)");
    assert_eq!(all[12], "((1-2)+3)");
    assert_eq!(all[191], "(3/(2/1))");
    for text in ["((3-1)*2)", "(2/(3-1))", "((1/3)/2)", "(3*(2*1))"] {
        assert_eq!(all.iter().filter(|found| *found == text).count(), 1);
    }
    let mut distinct = all.clone();
    distinct.sort();
    distinct.dedup();
    assert_eq!(distinct.len(), all.len());
}

#[test]
fn test_solve_finds_every_bracketing() {
    let found = collect(Card::new(vec![1., 2., 3., 4.], ops(), 10.).solve(eq))
        .iter()
        .map(|bop| bop.to_infix_notation())
        .collect::<Vec<_>>();
    for text in [
        "(((1+2)+3)+4)",
        "((1+2)+(3+4))",
        "((1+(2+3))+4)",
        "(1+((2+3)+4))",
        "(1+(2+(3+4)))",
    ] {
        assert!(found.iter().any(|other| other == text));
    }
}

#[test]
fn test_solve_counts_the_candidates() {
    assert_eq!(collect(card(vec![]).solve(always)).len(), 0);
    assert_eq!(collect(card(vec![5.]).solve(always)).len(), 1);
    assert_eq!(collect(card(vec![5., 6.]).solve(always)).len(), 4 * 2);
    assert_eq!(collect(card(vec![1., 2., 3., 4.]).solve(always)).len(), 64 * 24 * 6);
}

#[test]
fn test_solve_empty_judges_nothing() {
    let calls = Cell::new(0);
    let counting = |a: Val, b: Val| {
        calls.set(calls.get() + 1);
        eq(a, b)
    };
    let mut solutions = card(vec![]).solve(counting);
    assert_eq!(solutions.next(), None);
    assert_eq!(solutions.next(), None);
    assert_eq!(calls.get(), 0);
}
