//! Expression trees over numbers and operators: their value, their written
//! forms and the steps that lead to the value.

use crate::op::Op;
use core::fmt::Display;
use vstd::prelude::*;
use vstd::string::to_string_from_display_ensures;

verus! {

/// An expression: a number, or an operator bound to two expressions.
#[derive(PartialEq, Debug)]
pub enum BoundOp<V, F> {
    Val(V),
    BoundOp { op: Op<F>, l: Box<BoundOp<V, F>>, r: Box<BoundOp<V, F>> },
}

/// Where the operator stands among its operands.
#[derive(Clone, Copy, PartialEq, Eq, Debug)]
pub enum Notation {
    Prefix,
    Infix,
    Postfix,
}

/// An operator and its two written operands between brackets, in the order
/// of `notation`.
pub open spec fn bracketed(
    notation: Notation,
    name: Seq<char>,
    left: Seq<char>,
    right: Seq<char>,
) -> Seq<char> {
    match notation {
        Notation::Prefix => seq!['('] + name + left + right + seq![')'],
        Notation::Infix => seq!['('] + left + name + right + seq![')'],
        Notation::Postfix => seq!['('] + left + right + name + seq![')'],
    }
}

/// `text` is a way of writing the number `v`.
pub open spec fn writes<V: Display>(v: V, text: Seq<char>) -> bool {
    exists|s: String| s@ == text && #[trigger] to_string_from_display_ensures::<V>(&v, s)
}

/// The line of an explanation: an operation on two numbers in infix
/// notation, ` = `, and the result.
pub open spec fn step_line(operation: Seq<char>, result: Seq<char>) -> Seq<char> {
    operation + seq![' ', '=', ' '] + result
}

impl<V, F> BoundOp<V, F> {
    /// The numbers of the expression from left to right.
    pub open spec fn leaves(&self) -> Seq<V>
        decreases self,
    {
        match self {
            BoundOp::Val(n) => seq![*n],
            BoundOp::BoundOp { op, l, r } => l.leaves() + r.leaves(),
        }
    }

    /// The number of operators in the expression.
    pub open spec fn size(&self) -> nat
        decreases self,
    {
        match self {
            BoundOp::Val(n) => 0,
            BoundOp::BoundOp { op, l, r } => l.size() + r.size() + 1,
        }
    }

    /// Every operator of the expression is one of `registry`.
    pub open spec fn uses_only(&self, registry: Seq<Op<F>>) -> bool
        decreases self,
    {
        match self {
            BoundOp::Val(n) => true,
            BoundOp::BoundOp { op, l, r } => registry.contains(*op) && l.uses_only(registry)
                && r.uses_only(registry),
        }
    }

    /// An expression has one number more than it has operators.
    pub proof fn lemma_leaves_len(&self)
        ensures
            self.leaves().len() == self.size() + 1,
        decreases self,
    {
        match self {
            BoundOp::Val(n) => {},
            BoundOp::BoundOp { op, l, r } => {
                l.lemma_leaves_len();
                r.lemma_leaves_len();
            },
        }
    }
}

impl<V, F: Fn(V, V) -> V> BoundOp<V, F> {
    /// Every operator of the expression can be applied to any two numbers.
    pub open spec fn total(&self) -> bool
        decreases self,
    {
        match self {
            BoundOp::Val(n) => true,
            BoundOp::BoundOp { op, l, r } => l.total() && r.total() && forall|a: V, b: V|
                call_requires(op.f, (a, b)),
        }
    }

    /// Every operator of the expression gives one result for two numbers.
    pub open spec fn functional(&self) -> bool
        decreases self,
    {
        match self {
            BoundOp::Val(n) => true,
            BoundOp::BoundOp { op, l, r } => l.functional() && r.functional() && forall|
                a: V,
                b: V,
                x: V,
                y: V,
            |
                call_ensures(op.f, (a, b), x) && call_ensures(op.f, (a, b), y) ==> x == y,
        }
    }

    /// `v` is a value of the expression: the number itself, or what the
    /// operator's function can return for a value of the left and a value of
    /// the right operand.
    pub open spec fn evaluates_to(&self, v: V) -> bool
        decreases self,
    {
        match self {
            BoundOp::Val(n) => v == *n,
            BoundOp::BoundOp { op, l, r } => exists|a: V, b: V|
                l.evaluates_to(a) && r.evaluates_to(b) && call_ensures(op.f, (a, b), v),
        }
    }

    /// Where every operator is a function, an expression has one value.
    pub proof fn lemma_value_unique(&self, x: V, y: V)
        requires
            self.functional(),
            self.evaluates_to(x),
            self.evaluates_to(y),
        ensures
            x == y,
        decreases self,
    {
        match self {
            BoundOp::Val(n) => {},
            BoundOp::BoundOp { op, l, r } => {
                let (a, b) = choose|a: V, b: V|
                        l.evaluates_to(a) && r.evaluates_to(b) && call_ensures(op.f, (a, b), x);
                let (c, d) = choose|c: V, d: V|
                    l.evaluates_to(c) && r.evaluates_to(d) && call_ensures(op.f, (c, d), y);
                l.lemma_value_unique(a, c);
                r.lemma_value_unique(b, d);
            },
        }
    }
}

impl<V: Copy, F: Fn(V, V) -> V> BoundOp<V, F> {
    /// The value of the expression: a number's own value, an operator's
    /// function applied to the values of its operands.
    pub fn eval(&self) -> (v: V)
        requires
            self.total(),
        ensures
            self.evaluates_to(v),
        decreases self,
    {
        match self {
            BoundOp::Val(n) => *n,
            BoundOp::BoundOp { op, l, r } => {
                let a = l.eval();
                let b = r.eval();
                (op.f)(a, b)
            },
        }
    }
}

impl<V: Copy, F: Copy> Clone for BoundOp<V, F> {
    /// A second expression equal to this one, sharing nothing with it.
    fn clone(&self) -> (copy: Self)
        ensures
            copy == *self,
        decreases self,
    {
        match self {
            BoundOp::Val(n) => BoundOp::Val(*n),
            BoundOp::BoundOp { op, l, r } => BoundOp::BoundOp {
                op: op.clone(),
                l: Box::new((**l).clone()),
                r: Box::new((**r).clone()),
            },
        }
    }
}

impl<V: Display, F> BoundOp<V, F> {
    /// `text` is a way of writing the expression in `notation`: a number as
    /// it displays itself, an operator with its written operands between
    /// brackets.
    pub open spec fn written(&self, notation: Notation, text: Seq<char>) -> bool
        decreases self,
    {
        match self {
            BoundOp::Val(n) => writes(*n, text),
            BoundOp::BoundOp { op, l, r } => exists|left: Seq<char>, right: Seq<char>|
                l.written(notation, left) && r.written(notation, right) && #[trigger] bracketed(
                    notation,
                    op.name@,
                    left,
                    right,
                ) == text,
        }
    }

    /// The expression written in `notation`, with brackets round every
    /// operator and its operands.
    pub fn to_notation(&self, notation: Notation) -> (text: String)
        ensures
            self.written(notation, text@),
        decreases self,
    {
        match self {
            BoundOp::Val(n) => n.to_string(),
            BoundOp::BoundOp { op, l, r } => {
                let left = l.to_notation(notation);
                let right = r.to_notation(notation);
                proof {
                    reveal_strlit("(");
                    reveal_strlit(")");
                    assert("("@ =~= seq!['(']);
                    assert(")"@ =~= seq![')']);
                }
                let mut text = String::from_str("(");
                match notation {
                    Notation::Prefix => {
                        text.append(op.name.as_str());
                        text.append(left.as_str());
                        text.append(right.as_str());
                    },
                    Notation::Infix => {
                        text.append(left.as_str());
                        text.append(op.name.as_str());
                        text.append(right.as_str());
                    },
                    Notation::Postfix => {
                        text.append(left.as_str());
                        text.append(right.as_str());
                        text.append(op.name.as_str());
                    },
                }
                text.append(")");
                proof {
                    assert(text@ == bracketed(notation, op.name@, left@, right@));
                }
                text
            },
        }
    }

    /// The expression with each operator before its operands: `(op left
    /// right)`, written without spaces.
    pub fn to_prefix_notation(&self) -> (text: String)
        ensures
            self.written(Notation::Prefix, text@),
    {
        self.to_notation(Notation::Prefix)
    }

    /// The expression with each operator between its operands: `(left op
    /// right)`, written without spaces.
    pub fn to_infix_notation(&self) -> (text: String)
        ensures
            self.written(Notation::Infix, text@),
    {
        self.to_notation(Notation::Infix)
    }

    /// The expression with each operator after its operands: `(left right
    /// op)`, written without spaces.
    pub fn to_postfix_notation(&self) -> (text: String)
        ensures
            self.written(Notation::Postfix, text@),
    {
        self.to_notation(Notation::Postfix)
    }
}

/// The texts of a list of strings.
pub open spec fn texts(lines: Seq<String>) -> Seq<Seq<char>> {
    lines.map_values(|line: String| line@)
}

impl<V: Display, F: Fn(V, V) -> V> BoundOp<V, F> {
    /// `line` is a step that applies `op` to the numbers `a` and `b` with
    /// the result `value`: the operation on the two numbers in infix
    /// notation, ` = `, and the result.
    pub open spec fn is_step(op: Op<F>, a: V, b: V, value: V, line: Seq<char>) -> bool {
        &&& call_ensures(op.f, (a, b), value)
        &&& exists|operation: Seq<char>, result: Seq<char>|
            (BoundOp::BoundOp {
                op,
                l: Box::new(BoundOp::Val(a)),
                r: Box::new(BoundOp::Val(b)),
            }).written(Notation::Infix, operation) && writes(value, result) && #[trigger] step_line(
                operation,
                result,
            ) == line
    }

    /// `steps` explains how the expression comes to `value`: the steps of
    /// the left operand, then those of the right operand, then the step
    /// that applies the operator to the two values reached. A number needs
    /// no step.
    pub open spec fn explained(&self, value: V, steps: Seq<Seq<char>>) -> bool
        decreases self,
    {
        match self {
            BoundOp::Val(n) => value == *n && steps == Seq::<Seq<char>>::empty(),
            BoundOp::BoundOp { op, l, r } => exists|
                a: V,
                b: V,
                before: Seq<Seq<char>>,
                after: Seq<Seq<char>>,
                line: Seq<char>,
            |
                l.explained(a, before) && r.explained(b, after) && Self::is_step(
                    *op,
                    a,
                    b,
                    value,
                    line,
                ) && steps == before + after + seq![line],
        }
    }

    /// An explanation ends with a value of the expression and has one step
    /// for each operator.
    pub proof fn lemma_explained(&self, value: V, steps: Seq<Seq<char>>)
        requires
            self.explained(value, steps),
        ensures
            self.evaluates_to(value),
            steps.len() == self.size(),
        decreases self,
    {
        match self {
            BoundOp::Val(n) => {},
            BoundOp::BoundOp { op, l, r } => {
                let (a, b, before, after, line) = choose|
                    a: V,
                    b: V,
                    before: Seq<Seq<char>>,
                    after: Seq<Seq<char>>,
                    line: Seq<char>,
                |
                    l.explained(a, before) && r.explained(b, after) && Self::is_step(
                        *op,
                        a,
                        b,
                        value,
                        line,
                    ) && steps == before + after + seq![line];
                l.lemma_explained(a, before);
                r.lemma_explained(b, after);
            },
        }
    }

    /// Where every operator is a function, an explanation ends with the
    /// value of the expression, and it has one step fewer than the
    /// expression has numbers.
    pub proof fn lemma_explanation_agrees(&self, value: V, steps: Seq<Seq<char>>, v: V)
        requires
            self.functional(),
            self.explained(value, steps),
            self.evaluates_to(v),
        ensures
            value == v,
            steps.len() + 1 == self.leaves().len(),
    {
        self.lemma_explained(value, steps);
        self.lemma_value_unique(value, v);
        self.lemma_leaves_len();
    }
}

impl<V: Copy + Display, F: Copy + Fn(V, V) -> V> BoundOp<V, F> {
    /// The value of the expression and the steps that lead to it, each an
    /// operation on two numbers with its result, in the order in which a
    /// reader can follow them: left operand first.
    pub fn explain(&self) -> (explanation: (V, Vec<String>))
        requires
            self.total(),
        ensures
            self.explained(explanation.0, texts(explanation.1@)),
            self.evaluates_to(explanation.0),
            explanation.1@.len() == self.size(),
        decreases self,
    {
        let mut explanation: Vec<String> = Vec::new();
        match self {
            BoundOp::Val(val) => {
                proof {
                    assert(texts(explanation@) =~= Seq::<Seq<char>>::empty());
                }
                (*val, explanation)
            },
            BoundOp::BoundOp { op, l, r } => {
                let (lv, mut le) = l.explain();
                let ghost before = texts(le@);
                explanation.append(&mut le);
                let (rv, mut re) = r.explain();
                let ghost after = texts(re@);
                explanation.append(&mut re);
                let val = (op.f)(lv, rv);
                let flat_bop = BoundOp::BoundOp {
                    op: op.clone(),
                    l: Box::new(BoundOp::Val(lv)),
                    r: Box::new(BoundOp::Val(rv)),
                };
                let mut line = flat_bop.to_infix_notation();
                let ghost operation = line@;
                let result = val.to_string();
                proof {
                    reveal_strlit(" = ");
                    assert(" = "@ =~= seq![' ', '=', ' ']);
                }
                line.append(" = ");
                line.append(result.as_str());
                explanation.push(line);
                proof {
                    assert(writes(val, result@));
                    assert(line@ == step_line(operation, result@));
                    assert(Self::is_step(*op, lv, rv, val, line@));
                    assert(texts(explanation@) =~= before + after + seq![line@]);
                    self.lemma_explained(val, texts(explanation@));
                }
                (val, explanation)
            },
        }
    }
}

/// How often the character `c` occurs in `text`.
pub open spec fn occurrences(text: Seq<char>, c: char) -> nat
    decreases text.len(),
{
    if text.len() == 0 {
        0
    } else {
        occurrences(text.drop_last(), c) + if text.last() == c {
            1nat
        } else {
            0nat
        }
    }
}

/// `text` holds no bracket.
pub open spec fn bracket_free(text: Seq<char>) -> bool {
    occurrences(text, '(') == 0 && occurrences(text, ')') == 0
}

/// A character occurs in two joined texts as often as in both together.
pub proof fn lemma_occurrences_add(a: Seq<char>, b: Seq<char>, c: char)
    ensures
        occurrences(a + b, c) == occurrences(a, c) + occurrences(b, c),
    decreases b.len(),
{
    if b.len() == 0 {
        assert(a + b =~= a);
    } else {
        lemma_occurrences_add(a, b.drop_last(), c);
        assert((a + b).drop_last() =~= a + b.drop_last());
    }
}

/// In a bracketed operation each bracket occurs once more than in its three
/// parts together.
pub proof fn lemma_occurrences_bracketed(
    notation: Notation,
    name: Seq<char>,
    left: Seq<char>,
    right: Seq<char>,
    c: char,
)
    ensures
        occurrences(bracketed(notation, name, left, right), c) == occurrences(name, c)
            + occurrences(left, c) + occurrences(right, c) + if c == '(' || c == ')' {
            1nat
        } else {
            0nat
        },
{
    let open = seq!['('];
    let close = seq![')'];
    assert(occurrences(open, c) == if c == '(' {
        1nat
    } else {
        0nat
    }) by {
        assert(open.drop_last() =~= Seq::<char>::empty());
        reveal_with_fuel(occurrences, 2);
    }
    assert(occurrences(close, c) == if c == ')' {
        1nat
    } else {
        0nat
    }) by {
        assert(close.drop_last() =~= Seq::<char>::empty());
        reveal_with_fuel(occurrences, 2);
    }
    match notation {
        Notation::Prefix => {
            lemma_occurrences_add(open, name, c);
            lemma_occurrences_add(open + name, left, c);
            lemma_occurrences_add(open + name + left, right, c);
            lemma_occurrences_add(open + name + left + right, close, c);
        },
        Notation::Infix => {
            lemma_occurrences_add(open, left, c);
            lemma_occurrences_add(open + left, name, c);
            lemma_occurrences_add(open + left + name, right, c);
            lemma_occurrences_add(open + left + name + right, close, c);
        },
        Notation::Postfix => {
            lemma_occurrences_add(open, left, c);
            lemma_occurrences_add(open + left, right, c);
            lemma_occurrences_add(open + left + right, name, c);
            lemma_occurrences_add(open + left + right + name, close, c);
        },
    }
}

impl<V: Display, F> BoundOp<V, F> {
    /// Neither the name of an operator nor any way of writing a number of
    /// the expression holds a bracket.
    pub open spec fn plain(&self) -> bool
        decreases self,
    {
        match self {
            BoundOp::Val(n) => forall|text: Seq<char>| #[trigger]
                writes(*n, text) ==> bracket_free(text),
            BoundOp::BoundOp { op, l, r } => bracket_free(op.name@) && l.plain() && r.plain(),
        }
    }

    /// Every written form is fully bracketed: it holds one opening and one
    /// closing bracket for each operator, so one pair fewer than the
    /// expression has numbers.
    pub proof fn lemma_written_brackets(&self, notation: Notation, text: Seq<char>)
        requires
            self.plain(),
            self.written(notation, text),
        ensures
            occurrences(text, '(') == self.size(),
            occurrences(text, ')') == self.size(),
            self.size() + 1 == self.leaves().len(),
        decreases self,
    {
        self.lemma_leaves_len();
        match self {
            BoundOp::Val(n) => {},
            BoundOp::BoundOp { op, l, r } => {
                let (left, right) = choose|left: Seq<char>, right: Seq<char>|
                    l.written(notation, left) && r.written(notation, right) && #[trigger] bracketed(
                        notation,
                        op.name@,
                        left,
                        right,
                    ) == text;
                l.lemma_written_brackets(notation, left);
                r.lemma_written_brackets(notation, right);
                lemma_occurrences_bracketed(notation, op.name@, left, right, '(');
                lemma_occurrences_bracketed(notation, op.name@, left, right, ')');
            },
        }
    }
}

} // verus!
