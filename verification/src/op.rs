//! Operators: a name to write and a function to apply.

use vstd::prelude::*;

verus! {

/// A binary operator: the name that renderings show and the function that
/// evaluation calls.
#[derive(PartialEq, Debug)]
pub struct Op<F> {
    pub name: String,
    pub f: F,
}

impl<F> Op<F> {
    /// An operator called `name` that applies `f`.
    pub fn new<S: Into<String>>(name: S, f: F) -> (op: Self)
        ensures
            call_ensures(S::into, (name,), op.name),
            op.f == f,
    {
        Self { name: name.into(), f }
    }
}

impl<F: Copy> Clone for Op<F> {
    /// A second operator with the same name and the same function.
    fn clone(&self) -> (op: Self)
        ensures
            op == *self,
    {
        Self { name: self.name.clone(), f: self.f }
    }
}

/// An ordered list of operators.
pub struct Ops<F>(pub Vec<Op<F>>);

impl<F: Copy> Ops<F> {
    /// The four operators of arithmetic in their fixed order: `+`, `-`, `*`
    /// and `/`, each with the function that the caller gives for it.
    pub fn arithmetic(add: F, sub: F, mul: F, div: F) -> (ops: Self)
        ensures
            ops.0@.len() == 4,
            ops.0@[0].name@ == seq!['+'],
            ops.0@[0].f == add,
            ops.0@[1].name@ == seq!['-'],
            ops.0@[1].f == sub,
            ops.0@[2].name@ == seq!['*'],
            ops.0@[2].f == mul,
            ops.0@[3].name@ == seq!['/'],
            ops.0@[3].f == div,
    {
        proof {
            reveal_strlit("+");
            reveal_strlit("-");
            reveal_strlit("*");
            reveal_strlit("/");
            assert("+"@ =~= seq!['+']);
            assert("-"@ =~= seq!['-']);
            assert("*"@ =~= seq!['*']);
            assert("/"@ =~= seq!['/']);
        }
        let mut list: Vec<Op<F>> = Vec::new();
        list.push(Op { name: String::from_str("+"), f: add });
        list.push(Op { name: String::from_str("-"), f: sub });
        list.push(Op { name: String::from_str("*"), f: mul });
        list.push(Op { name: String::from_str("/"), f: div });
        Ops(list)
    }
}

impl<F: Copy> Clone for Ops<F> {
    /// A second list of the same operators in the same order.
    fn clone(&self) -> (ops: Self)
        ensures
            ops.0@ == self.0@,
    {
        let mut list: Vec<Op<F>> = Vec::new();
        let mut k: usize = 0;
        while k < self.0.len()
            invariant
                0 <= k <= self.0@.len(),
                list@ == self.0@.take(k as int),
            decreases self.0@.len() - k,
        {
            list.push(self.0[k].clone());
            proof {
                assert(list@ =~= self.0@.take(k + 1));
            }
            k += 1;
        }
        proof {
            assert(self.0@.take(k as int) =~= self.0@);
        }
        Ops(list)
    }
}

} // verus!
