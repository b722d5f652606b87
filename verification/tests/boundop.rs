use solve24::{BoundOp, Notation, Op, Ops};

type Val = f64;
type OpFn = fn(Val, Val) -> Val;
type Expr = BoundOp<Val, OpFn>;

fn registry() -> Ops<OpFn> {
    Ops::arithmetic(|a, b| a + b, |a, b| a - b, |a, b| a * b, |a, b| a / b)
}

fn val(n: Val) -> Expr {
    BoundOp::Val(n)
}

fn bind(op: usize, l: Expr, r: Expr) -> Expr {
    BoundOp::BoundOp {
        op: registry().0[op].clone(),
        l: Box::new(l),
        r: Box::new(r),
    }
}

/// 6 / (1 - (3 / 4))
fn difficult() -> Expr {
    bind(3, val(6.), bind(1, val(1.), bind(3, val(3.), val(4.))))
}

/// (1 + 2) * (3 - 4)
fn balanced() -> Expr {
    bind(2, bind(0, val(1.), val(2.)), bind(1, val(3.), val(4.)))
}

fn count(text: &str, c: char) -> usize {
    text.chars().filter(|x| *x == c).count()
}

#[test]
fn test_registry_order() {
    let ops = registry();
    let names = ops.0.iter().map(|op| op.name.clone()).collect::<Vec<_>>();
    assert_eq!(names, vec!["+", "-", "*", "/"]);
    assert_eq!((ops.0[0].f)(8., 2.), 10.);
    assert_eq!((ops.0[1].f)(8., 2.), 6.);
    assert_eq!((ops.0[2].f)(8., 2.), 16.);
    assert_eq!((ops.0[3].f)(8., 2.), 4.);
}

#[test]
fn test_op_new() {
    let add: OpFn = |a, b| a + b;
    let op = Op::new("plus", add);
    assert_eq!(op.name, "plus");
    assert_eq!((op.f)(1., 2.), 3.);
    let named = Op::new(String::from("sum"), add);
    assert_eq!(named.name, "sum");
}

#[test]
fn test_op_clone() {
    let op = registry().0[3].clone();
    assert_eq!(op.name, "/");
    assert_eq!((op.f)(9., 3.), 3.);
}

#[test]
fn test_eval_leaf() {
    assert_eq!(val(7.5).eval(), 7.5);
}

#[test]
fn test_eval_tree() {
    assert_eq!(difficult().eval(), 24.);
    assert_eq!(balanced().eval(), -3.);
}

#[test]
fn test_eval_division_by_zero() {
    let inf = bind(3, val(1.), val(0.));
    assert!(inf.eval().is_infinite());
    let nan = bind(3, val(0.), val(0.));
    assert!(nan.eval().is_nan());
    let back = bind(0, val(24.), bind(3, val(5.), bind(3, val(1.), val(0.))));
    assert_eq!(back.eval(), 24.);
}

#[test]
fn test_notations_leaf() {
    assert_eq!(val(6.).to_prefix_notation(), "6");
    assert_eq!(val(6.).to_infix_notation(), "6");
    assert_eq!(val(6.).to_postfix_notation(), "6");
    assert_eq!(val(0.75).to_infix_notation(), "0.75");
}

#[test]
fn test_notations_tree() {
    assert_eq!(difficult().to_prefix_notation(), "(/6(-1(/34)))");
    assert_eq!(difficult().to_infix_notation(), "(6/(1-(3/4)))");
    assert_eq!(difficult().to_postfix_notation(), "(6(1(34/)-)/)");
    assert_eq!(balanced().to_prefix_notation(), "(*(+12)(-34))");
    assert_eq!(balanced().to_infix_notation(), "((1+2)*(3-4))");
    assert_eq!(balanced().to_postfix_notation(), "((12+)(34-)*)");
}

#[test]
fn test_to_notation_agrees() {
    let e = balanced();
    assert_eq!(e.to_notation(Notation::Prefix), e.to_prefix_notation());
    assert_eq!(e.to_notation(Notation::Infix), e.to_infix_notation());
    assert_eq!(e.to_notation(Notation::Postfix), e.to_postfix_notation());
}

#[test]
fn test_brackets_one_pair_for_each_operator() {
    for e in [difficult(), balanced(), val(3.), bind(0, val(1.), val(2.))] {
        let operators = match &e {
            BoundOp::Val(_) => 0,
            _ => e.explain().1.len(),
        };
        for text in [
            e.to_prefix_notation(),
            e.to_infix_notation(),
            e.to_postfix_notation(),
        ] {
            assert_eq!(count(&text, '('), operators);
            assert_eq!(count(&text, ')'), operators);
        }
    }
}

#[test]
fn test_explain_leaf() {
    let (value, steps) = val(5.).explain();
    assert_eq!(value, 5.);
    assert_eq!(steps, Vec::<String>::new());
}

#[test]
fn test_explain_tree() {
    let (value, steps) = difficult().explain();
    assert_eq!(value, 24.);
    assert_eq!(steps, vec!["(3/4) = 0.75", "(1-0.75) = 0.25", "(6/0.25) = 24"]);
}

#[test]
fn test_explain_left_before_right() {
    let (value, steps) = balanced().explain();
    assert_eq!(value, -3.);
    assert_eq!(steps, vec!["(1+2) = 3", "(3-4) = -1", "(3*-1) = -3"]);
}

#[test]
fn test_explain_matches_eval() {
    for e in [difficult(), balanced(), val(3.)] {
        let (value, _) = e.explain();
        assert_eq!(value, e.eval());
    }
}

#[test]
fn test_clone_is_equal() {
    let e = difficult();
    let copy = e.clone();
    assert_eq!(copy, e);
    assert_eq!(copy.to_infix_notation(), "(6/(1-(3/4)))");
}

#[test]
fn test_ops_clone() {
    let ops = registry();
    let copy = ops.clone();
    let names = copy.0.iter().map(|op| op.name.clone()).collect::<Vec<_>>();
    assert_eq!(names, vec!["+", "-", "*", "/"]);
    assert_eq!(copy.0.len(), ops.0.len());
}
