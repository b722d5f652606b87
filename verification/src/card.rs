//! The puzzle: a list of numbers, the operators that may combine them and
//! the value to reach, with the search for every expression that reaches it.

use crate::boundop::BoundOp;
use crate::heap::lemma_orderings_complete;
use crate::op::{Op, Ops};
use crate::shapes::{
    all_total, as_leaves, drawn_from, lemma_as_leaves, lemma_recipe, lemma_reductions,
    lemma_reductions_complete, recipe, reduce_all, reductions, row_uses_only,
};
use crate::util::{
    cartesian_product, factorial, is_ordering, is_tuple, lemma_state_at, lemma_tuple_at_rank,
    lemma_tuple_rank_at, lemma_tuple_rank_bound, lemma_turned, open_place, ordering_at, partner,
    permutations, state_at, tuple_at, tuple_count, tuple_rank,
};
use vstd::prelude::*;

verus! {

/// The numbers in the order that `order` gives: at each place the number
/// whose index `order` holds there.
pub open spec fn arranged<V>(numbers: Seq<V>, order: Seq<usize>) -> Seq<V> {
    Seq::new(order.len(), |k: int| numbers[order[k] as int])
}

/// The operators that `tuple` picks from `ops`, one for each of its places.
pub open spec fn picked<F>(ops: Seq<Op<F>>, tuple: Seq<usize>) -> Seq<Op<F>> {
    Seq::new(tuple.len(), |k: int| ops[tuple[k] as int])
}

/// The sizes of the operator choices for `count` numbers: one choice among
/// `choices` operators for each binding. `count` numbers take `count - 1`
/// bindings; one number and no numbers take none.
pub open spec fn slots(count: nat, choices: usize) -> Seq<usize> {
    Seq::new(
        if count == 0 {
            0
        } else {
            (count - 1) as nat
        },
        |k: int| choices,
    )
}

/// The expressions over `numbers` in their order `p`, with the operators
/// that the assignment `a` picks from `ops`.
pub open spec fn candidates_at<V, F>(numbers: Seq<V>, ops: Seq<Op<F>>, a: int, p: int) -> Seq<
    BoundOp<V, F>,
> {
    reductions(
        as_leaves(arranged(numbers, ordering_at(numbers.len(), p as nat))),
        picked(ops, tuple_at(slots(numbers.len(), ops.len() as usize), a as nat)),
    )
}

/// The expressions with the operators of the assignment `a`, for the first
/// `orders` orders of the numbers.
pub open spec fn candidates_with<V, F>(numbers: Seq<V>, ops: Seq<Op<F>>, a: int, orders: nat) -> Seq<
    BoundOp<V, F>,
> {
    Seq::new(orders, |p: int| candidates_at(numbers, ops, a, p)).flatten()
}

/// The expressions of the first `assignments` assignments of operators.
pub open spec fn candidates_before<V, F>(
    numbers: Seq<V>,
    ops: Seq<Op<F>>,
    assignments: nat,
) -> Seq<BoundOp<V, F>> {
    Seq::new(
        assignments,
        |a: int| candidates_with(numbers, ops, a, factorial(numbers.len())),
    ).flatten()
}

/// The number of assignments of operators to the bindings of the numbers:
/// one for each tuple that picks an operator for every binding. Where there
/// is no binding, for one number and for no numbers, that is the one empty
/// assignment.
pub open spec fn assignment_count(count: nat, choices: usize) -> nat {
    tuple_count(slots(count, choices))
}

/// Every expression that the search tries, in the order in which it tries
/// them: for each assignment of operators to the bindings, for each order
/// of the numbers, every reduction of the numbers to one expression. No
/// numbers give no expression: their one assignment and their one order
/// meet in an empty row, which reduces to nothing.
pub open spec fn candidates<V, F>(numbers: Seq<V>, ops: Seq<Op<F>>) -> Seq<BoundOp<V, F>> {
    candidates_before(numbers, ops, assignment_count(numbers.len(), ops.len() as usize))
}

/// `verdict` is what the comparison `near` can say of a value of
/// `candidate` and the target.
pub open spec fn judged<V, F: Fn(V, V) -> V, E: Fn(V, V) -> bool>(
    candidate: BoundOp<V, F>,
    target: V,
    near: E,
    verdict: bool,
) -> bool {
    exists|v: V| candidate.evaluates_to(v) && call_ensures(near, (v, target), verdict)
}

/// `leaves` holds the numbers in one of their orderings.
pub open spec fn is_rearrangement<V>(numbers: Seq<V>, leaves: Seq<V>) -> bool {
    exists|p: nat|
        p < factorial(numbers.len()) && leaves == #[trigger] arranged(
            numbers,
            ordering_at(numbers.len(), p),
        )
}

/// A puzzle: the numbers to combine, the operators to combine them with,
/// and the value to reach.
pub struct Card<V, F> {
    numbers: Vec<V>,
    ops: Ops<F>,
    solution: V,
}

impl<V, F> Card<V, F> {
    /// The numbers of the puzzle.
    pub closed spec fn numbers(&self) -> Seq<V> {
        self.numbers@
    }

    /// The operators of the puzzle.
    pub closed spec fn ops(&self) -> Seq<Op<F>> {
        self.ops.0@
    }

    /// The value to reach.
    pub closed spec fn solution(&self) -> V {
        self.solution
    }

    /// The puzzle of combining `numbers` with `ops` to reach `solution`.
    pub fn new(numbers: Vec<V>, ops: Ops<F>, solution: V) -> (card: Self)
        ensures
            card.numbers() == numbers@,
            card.ops() == ops.0@,
            card.solution() == solution,
    {
        Self { numbers, ops, solution }
    }
}

impl<V: Copy, F: Copy> Clone for Card<V, F> {
    /// A second puzzle with the same numbers, operators and target.
    fn clone(&self) -> (card: Self)
        ensures
            card.numbers() == self.numbers(),
            card.ops() == self.ops(),
            card.solution() == self.solution(),
    {
        let mut numbers: Vec<V> = Vec::new();
        let mut k: usize = 0;
        while k < self.numbers.len()
            invariant
                0 <= k <= self.numbers@.len(),
                numbers@ == self.numbers@.take(k as int),
            decreases self.numbers@.len() - k,
        {
            numbers.push(self.numbers[k]);
            proof {
                assert(numbers@ =~= self.numbers@.take(k + 1));
            }
            k += 1;
        }
        proof {
            assert(self.numbers@.take(k as int) =~= self.numbers@);
        }
        Self { numbers, ops: self.ops.clone(), solution: self.solution }
    }
}

impl<V: Copy, F: Copy> Card<V, F> {
    /// Every order of the numbers, each as a list of its own.
    pub fn numbers_permutations(&self) -> (orders: Vec<Vec<V>>)
        ensures
            orders@.len() == factorial(self.numbers().len()),
            forall|p: int|
                0 <= p < orders@.len() ==> (#[trigger] orders@[p])@ == arranged(
                    self.numbers(),
                    ordering_at(self.numbers().len(), p as nat),
                ),
    {
        let n = self.numbers.len();
        let mut orders: Vec<Vec<V>> = Vec::new();
        let mut generator = permutations(n);
        loop
            invariant
                n == self.numbers@.len(),
                generator.wf(),
                generator.size() == n,
                generator.position() == orders@.len(),
                forall|p: int|
                    0 <= p < orders@.len() ==> (#[trigger] orders@[p])@ == arranged(
                        self.numbers@,
                        ordering_at(n as nat, p as nat),
                    ),
            ensures
                orders@.len() == factorial(n as nat),
            decreases generator.remaining(),
        {
            proof {
                generator.lemma_position_bound();
            }
            match generator.next() {
                None => {
                    break ;
                },
                Some(idxs) => {
                    proof {
                        lemma_state_at(n as nat, orders@.len() as nat);
                    }
                    let mut order: Vec<V> = Vec::new();
                    let mut k: usize = 0;
                    while k < idxs.len()
                        invariant
                            0 <= k <= idxs@.len(),
                            idxs@.len() == n,
                            n == self.numbers@.len(),
                            is_ordering(idxs@),
                            order@.len() == k,
                            forall|j: int|
                                0 <= j < k ==> order@[j] == self.numbers@[idxs@[j] as int],
                        decreases idxs@.len() - k,
                    {
                        order.push(self.numbers[idxs[k]]);
                        k += 1;
                    }
                    proof {
                        assert(order@ =~= arranged(self.numbers@, idxs@));
                    }
                    orders.push(order);
                },
            }
        }
        orders
    }

    /// Every assignment of operators to the bindings of the numbers: for `n`
    /// numbers, each list of `n - 1` operators of the puzzle, in
    /// lexicographic order of their places among the operators. One number
    /// and no numbers have nothing to bind, and so exactly one assignment,
    /// the empty one. Without operators, two numbers or more have none.
    pub fn op_product(&self) -> (assignments: Vec<Ops<F>>)
        ensures
            assignments@.len() == assignment_count(
                self.numbers().len(),
                self.ops().len() as usize,
            ),
            forall|a: int|
                0 <= a < assignments@.len() ==> (#[trigger] assignments@[a]).0@ == picked(
                    self.ops(),
                    tuple_at(slots(self.numbers().len(), self.ops().len() as usize), a as nat),
                ),
    {
        let mut assignments: Vec<Ops<F>> = Vec::new();
        let numbers_len = self.numbers.len();
        let bindings = if numbers_len < 1 {
            0
        } else {
            numbers_len - 1
        };
        let choices = self.ops.0.len();
        let mut sizes: Vec<usize> = Vec::new();
        let mut k: usize = 0;
        while k < bindings
            invariant
                0 <= k <= bindings,
                sizes@.len() == k,
                forall|j: int| 0 <= j < sizes@.len() ==> sizes@[j] == choices,
            decreases bindings - k,
        {
            sizes.push(choices);
            k += 1;
        }
        let ghost dims = slots(numbers_len as nat, choices);
        proof {
            assert(sizes@ =~= dims);
        }
        let mut generator = cartesian_product(sizes.as_slice());
        loop
            invariant
                choices == self.ops.0@.len(),
                numbers_len == self.numbers@.len(),
                dims == slots(numbers_len as nat, choices),
                generator.wf(),
                generator.sizes() == dims,
                generator.position() == assignments@.len(),
                forall|a: int|
                    0 <= a < assignments@.len() ==> (#[trigger] assignments@[a]).0@ == picked(
                        self.ops.0@,
                        tuple_at(dims, a as nat),
                    ),
            ensures
                assignments@.len() == tuple_count(dims),
            decreases generator.remaining(),
        {
            proof {
                generator.lemma_position_bound();
            }
            match generator.next() {
                None => {
                    break ;
                },
                Some(idxs) => {
                    proof {
                        lemma_tuple_rank_at(dims, assignments@.len() as nat);
                    }
                    let mut chosen: Vec<Op<F>> = Vec::new();
                    let mut k: usize = 0;
                    while k < idxs.len()
                        invariant
                            0 <= k <= idxs@.len(),
                            is_tuple(dims, idxs@),
                            dims == slots(numbers_len as nat, choices),
                            choices == self.ops.0@.len(),
                            chosen@.len() == k,
                            forall|j: int|
                                0 <= j < k ==> chosen@[j] == self.ops.0@[idxs@[j] as int],
                        decreases idxs@.len() - k,
                    {
                        assert(idxs@[k as int] < dims[k as int]);
                        chosen.push(self.ops.0[idxs[k]].clone());
                        k += 1;
                    }
                    proof {
                        assert(chosen@ =~= picked(self.ops.0@, idxs@));
                    }
                    assignments.push(Ops(chosen));
                },
            }
        }
        assignments
    }
}

/// Where every operator of an expression is one of a registry of total
/// operators, the expression can be evaluated.
pub proof fn lemma_uses_total<V, F: Fn(V, V) -> V>(e: BoundOp<V, F>, registry: Seq<Op<F>>)
    requires
        e.uses_only(registry),
        all_total::<V, F>(registry),
    ensures
        e.total(),
    decreases e,
{
    match e {
        BoundOp::Val(n) => {},
        BoundOp::BoundOp { op, l, r } => {
            lemma_uses_total(*l, registry);
            lemma_uses_total(*r, registry);
            let k = choose|k: int| 0 <= k < registry.len() && registry[k] == op;
            assert forall|a: V, b: V| call_requires(op.f, (a, b)) by {
                assert(call_requires(registry[k].f, (a, b)));
            }
        },
    }
}

/// What holds of each expression that the search tries for one assignment
/// of operators and one order of the numbers: its numbers are the numbers
/// in that order, it has one operator fewer than numbers, and its operators
/// are operators of the puzzle.
pub proof fn lemma_candidates_at<V, F>(numbers: Seq<V>, ops: Seq<Op<F>>, a: int, p: int, j: int)
    requires
        1 <= numbers.len() <= usize::MAX,
        ops.len() <= usize::MAX,
        0 <= a < tuple_count(slots(numbers.len(), ops.len() as usize)),
        0 <= p < factorial(numbers.len()),
        0 <= j < candidates_at(numbers, ops, a, p).len(),
    ensures
        candidates_at(numbers, ops, a, p)[j].leaves() == arranged(
            numbers,
            ordering_at(numbers.len(), p as nat),
        ),
        candidates_at(numbers, ops, a, p)[j].size() + 1 == numbers.len(),
        candidates_at(numbers, ops, a, p)[j].uses_only(ops),
{
    let n = numbers.len();
    let dims = slots(n, ops.len() as usize);
    let tuple = tuple_at(dims, a as nat);
    let order = arranged(numbers, ordering_at(n, p as nat));
    let row = as_leaves::<V, F>(order);
    let chosen = picked(ops, tuple);
    lemma_tuple_rank_at(dims, a as nat);
    lemma_state_at(n, p as nat);
    lemma_as_leaves::<V, F>(order);
    assert forall|k: int| 0 <= k < chosen.len() implies ops.contains(#[trigger] chosen[k]) by {
        assert(tuple[k] < dims[k]);
        assert(chosen[k] == ops[tuple[k] as int]);
    }
    assert(drawn_from(chosen, ops));
    assert(row_uses_only(row, ops));
    lemma_reductions(row, chosen, j);
}

/// The expression at a place of a flattened list stands in one of the
/// lists.
pub proof fn lemma_flatten_member<T>(lists: Seq<Seq<T>>, i: int)
    requires
        0 <= i < lists.flatten().len(),
    ensures
        exists|a: int, j: int|
            0 <= a < lists.len() && 0 <= j < lists[a].len() && lists.flatten()[i]
                == #[trigger] lists[a][j],
    decreases lists.len(),
{
    lists.lemma_flatten_and_flatten_alt_are_equivalent();
    if lists.len() > 0 {
        let front = lists.drop_last();
        front.lemma_flatten_and_flatten_alt_are_equivalent();
        assert(lists.flatten() =~= front.flatten() + lists.last());
        if i < front.flatten().len() {
            lemma_flatten_member(front, i);
            let (a, j) = choose|a: int, j: int|
                0 <= a < front.len() && 0 <= j < front[a].len() && front.flatten()[i]
                    == #[trigger] front[a][j];
            assert(lists[a][j] == lists.flatten()[i]);
        } else {
            let a = lists.len() - 1;
            let j = i - front.flatten().len();
            assert(lists[a][j] == lists.flatten()[i]);
        }
    }
}

/// What holds of every expression that the search tries: its numbers are
/// the numbers of the puzzle in one of their orderings, it has one operator
/// fewer than numbers, and its operators are operators of the puzzle.
pub proof fn lemma_candidates<V, F>(numbers: Seq<V>, ops: Seq<Op<F>>, i: int)
    requires
        numbers.len() <= usize::MAX,
        ops.len() <= usize::MAX,
        0 <= i < candidates(numbers, ops).len(),
    ensures
        is_rearrangement(numbers, candidates(numbers, ops)[i].leaves()),
        candidates(numbers, ops)[i].size() + 1 == numbers.len(),
        candidates(numbers, ops)[i].uses_only(ops),
{
    let n = numbers.len();
    let count = assignment_count(n, ops.len() as usize);
    let rounds = Seq::new(count, |a: int| candidates_with(numbers, ops, a, factorial(n)));
    lemma_flatten_member(rounds, i);
    let (a, k) = choose|a: int, k: int|
        0 <= a < rounds.len() && 0 <= k < rounds[a].len() && rounds.flatten()[i]
            == #[trigger] rounds[a][k];
    let batches = Seq::new(factorial(n), |p: int| candidates_at(numbers, ops, a, p));
    lemma_flatten_member(batches, k);
    let (p, j) = choose|p: int, j: int|
        0 <= p < batches.len() && 0 <= j < batches[p].len() && batches.flatten()[k]
            == #[trigger] batches[p][j];
    lemma_candidates_at(numbers, ops, a, p, j);
    assert(arranged(numbers, ordering_at(n, p as nat)) == candidates(numbers, ops)[i].leaves());
}

/// An ordering of the numbers holds as many numbers, and each number as
/// often, as the list it was made from.
pub proof fn lemma_rearrangement<V>(numbers: Seq<V>, leaves: Seq<V>)
    requires
        numbers.len() <= usize::MAX,
        is_rearrangement(numbers, leaves),
    ensures
        leaves.len() == numbers.len(),
        leaves.to_multiset() == numbers.to_multiset(),
{
    let p = choose|p: nat|
        p < factorial(numbers.len()) && leaves == #[trigger] arranged(
            numbers,
            ordering_at(numbers.len(), p),
        );
    lemma_arranged(numbers, p);
}

/// Exchanging two entries of a list leaves each entry as often in it as
/// before.
pub proof fn lemma_exchange_multiset<T>(row: Seq<T>, a: int, b: int)
    requires
        0 <= a < row.len(),
        0 <= b < row.len(),
    ensures
        row.update(a, row[b]).update(b, row[a]).to_multiset() == row.to_multiset(),
{
    broadcast use vstd::multiset::group_multiset_axioms;

    let half = row.update(a, row[b]);
    vstd::seq_lib::to_multiset_update(row, a, row[b]);
    vstd::seq_lib::to_multiset_update(half, b, row[a]);
    vstd::seq_lib::to_multiset_contains(row, row[a]);
    vstd::seq_lib::to_multiset_contains(row, row[b]);
    assert(row.contains(row[a]));
    assert(row.contains(row[b]));
    if a == b {
        assert(half =~= row);
        assert(half.update(b, row[a]) =~= row);
    } else {
        assert(half[b] == row[b]);
        assert(half.update(b, row[a]).to_multiset() =~= row.to_multiset());
    }
}

/// The numbers in the ordering at any place below the factorial are the
/// same numbers, each as often as before.
pub proof fn lemma_arranged<V>(numbers: Seq<V>, p: nat)
    requires
        numbers.len() <= usize::MAX,
        p < factorial(numbers.len()),
    ensures
        arranged(numbers, ordering_at(numbers.len(), p)).len() == numbers.len(),
        arranged(numbers, ordering_at(numbers.len(), p)).to_multiset() == numbers.to_multiset(),
    decreases p,
{
    let n = numbers.len();
    lemma_state_at(n, p);
    if p == 0 {
        assert(arranged(numbers, ordering_at(n, p)) =~= numbers);
    } else {
        let before = state_at(n, (p - 1) as nat);
        lemma_state_at(n, (p - 1) as nat);
        lemma_arranged(numbers, (p - 1) as nat);
        lemma_turned(before.0, before.1);
        let place = open_place(before.1, 1);
        let with = partner(before.1, place);
        let old_row = arranged(numbers, before.0);
        let new_row = arranged(numbers, ordering_at(n, p));
        assert(before.1[place] <= place);
        assert(new_row =~= old_row.update(place, old_row[with]).update(with, old_row[place]));
        lemma_exchange_multiset(old_row, place, with);
    }
}

/// A flattened list is the flattened first `k` lists followed by the
/// flattened rest.
pub proof fn lemma_flatten_split<T>(lists: Seq<Seq<T>>, k: int)
    requires
        0 <= k <= lists.len(),
    ensures
        lists.flatten() == lists.take(k).flatten() + lists.skip(k).flatten(),
{
    assert(lists =~= lists.take(k) + lists.skip(k));
    vstd::seq_lib::lemma_flatten_concat(lists.take(k), lists.skip(k));
}

/// The expressions of one more order of the numbers follow those of the
/// orders before.
pub proof fn lemma_candidates_with_step<V, F>(numbers: Seq<V>, ops: Seq<Op<F>>, a: int, p: nat)
    ensures
        candidates_with(numbers, ops, a, p + 1) == candidates_with(numbers, ops, a, p)
            + candidates_at(numbers, ops, a, p as int),
{
    let batches = Seq::new(p, |q: int| candidates_at(numbers, ops, a, q));
    let more = Seq::new(p + 1, |q: int| candidates_at(numbers, ops, a, q));
    let batch = candidates_at(numbers, ops, a, p as int);
    assert(more =~= batches.push(batch));
    batches.lemma_flatten_push(batch);
}

/// The expressions of one more assignment of operators follow those of the
/// assignments before.
pub proof fn lemma_candidates_before_step<V, F>(numbers: Seq<V>, ops: Seq<Op<F>>, a: nat)
    ensures
        candidates_before(numbers, ops, a + 1) == candidates_before(numbers, ops, a)
            + candidates_with(numbers, ops, a as int, factorial(numbers.len())),
{
    let n = numbers.len();
    let rounds = Seq::new(a, |b: int| candidates_with(numbers, ops, b, factorial(n)));
    let more = Seq::new(a + 1, |b: int| candidates_with(numbers, ops, b, factorial(n)));
    let round = candidates_with(numbers, ops, a as int, factorial(n));
    assert(more =~= rounds.push(round));
    rounds.lemma_flatten_push(round);
}

/// The expressions that the search has tried when it has gone through `a`
/// assignments of operators and through `p` orders of the numbers with the
/// next assignment.
pub open spec fn tried<V, F>(numbers: Seq<V>, ops: Seq<Op<F>>, a: nat, p: nat) -> Seq<
    BoundOp<V, F>,
> {
    candidates_before(numbers, ops, a) + candidates_with(numbers, ops, a as int, p)
}

/// What the search has tried at any point is the beginning of all that it
/// tries.
pub proof fn lemma_tried_prefix<V, F>(numbers: Seq<V>, ops: Seq<Op<F>>, a: nat, p: nat)
    requires
        a < assignment_count(numbers.len(), ops.len() as usize) && p <= factorial(numbers.len())
            || a == assignment_count(numbers.len(), ops.len() as usize) && p == 0,
    ensures
        tried(numbers, ops, a, p).len() <= candidates(numbers, ops).len(),
        candidates(numbers, ops).take(tried(numbers, ops, a, p).len() as int) == tried(
            numbers,
            ops,
            a,
            p,
        ),
{
    let n = numbers.len();
    let count = assignment_count(n, ops.len() as usize);
    let all = candidates(numbers, ops);
    let so_far = tried(numbers, ops, a, p);
    let rounds = Seq::new(count, |b: int| candidates_with(numbers, ops, b, factorial(n)));
    lemma_flatten_split(rounds, a as int);
    assert(rounds.take(a as int) =~= Seq::new(
        a,
        |b: int| candidates_with(numbers, ops, b, factorial(n)),
    ));
    if a == count {
        assert(candidates_with(numbers, ops, a as int, 0) =~= Seq::<BoundOp<V, F>>::empty());
        assert(rounds.skip(a as int) =~= Seq::<Seq<BoundOp<V, F>>>::empty());
        assert(all =~= so_far);
    } else {
        let later = rounds.skip(a as int);
        lemma_flatten_split(later, 1);
        assert(later.take(1) =~= seq![rounds[a as int]]);
        later.take(1).lemma_flatten_one_element();
        let batches = Seq::new(factorial(n), |q: int| candidates_at(numbers, ops, a as int, q));
        lemma_flatten_split(batches, p as int);
        assert(batches.take(p as int) =~= Seq::new(
            p,
            |q: int| candidates_at(numbers, ops, a as int, q),
        ));
        let rest = batches.skip(p as int).flatten() + later.skip(1).flatten();
        assert(all =~= so_far + rest);
        assert(all.take(so_far.len() as int) =~= so_far);
    }
}

/// A flattened list holds every entry of every list.
pub proof fn lemma_flatten_contains<T>(lists: Seq<Seq<T>>, a: int, j: int)
    requires
        0 <= a < lists.len(),
        0 <= j < lists[a].len(),
    ensures
        lists.flatten().contains(lists[a][j]),
{
    lemma_flatten_split(lists, a);
    let later = lists.skip(a);
    lemma_flatten_split(later, 1);
    assert(later.take(1) =~= seq![lists[a]]);
    later.take(1).lemma_flatten_one_element();
    let place = lists.take(a).flatten().len() + j;
    assert(lists.flatten()[place] == lists[a][j]);
}

/// The search leaves nothing out: every expression over the numbers of the
/// puzzle, taken in any order and each once, with operators of the puzzle
/// is among the expressions that the search tries.
pub proof fn lemma_search_complete<V, F>(
    numbers: Seq<V>,
    ops: Seq<Op<F>>,
    order: Seq<usize>,
    e: BoundOp<V, F>,
)
    requires
        numbers.len() <= usize::MAX,
        ops.len() <= usize::MAX,
        order.len() == numbers.len(),
        is_ordering(order),
        e.leaves() == arranged(numbers, order),
        e.uses_only(ops),
    ensures
        candidates(numbers, ops).contains(e),
{
    let n = numbers.len();
    let dims = slots(n, ops.len() as usize);
    e.lemma_leaves_len();
    lemma_orderings_complete(n, order);
    let p = choose|k: nat| k < factorial(n) && #[trigger] ordering_at(n, k) == order;
    lemma_recipe(e);
    let chosen = recipe(e);
    assert(drawn_from(chosen, ops));
    let tuple = Seq::new(
        chosen.len(),
        |k: int| (choose|i: int| 0 <= i < ops.len() && ops[i] == chosen[k]) as usize,
    );
    assert forall|k: int| 0 <= k < tuple.len() implies tuple[k] < dims[k] && ops[tuple[k] as int]
        == chosen[k] by {
        assert(ops.contains(chosen[k]));
    }
    assert(is_tuple(dims, tuple));
    assert(picked(ops, tuple) =~= chosen);
    lemma_tuple_rank_bound(dims, tuple);
    lemma_tuple_at_rank(dims, tuple);
    let a = tuple_rank(dims, tuple);
    lemma_reductions_complete(e);
    let batch = candidates_at(numbers, ops, a as int, p as int);
    assert(batch.contains(e));
    let j = choose|j: int| 0 <= j < batch.len() && batch[j] == e;
    let batches = Seq::new(factorial(n), |q: int| candidates_at(numbers, ops, a as int, q));
    lemma_flatten_contains(batches, p as int, j);
    let round = candidates_with(numbers, ops, a as int, factorial(n));
    let k = choose|k: int| 0 <= k < round.len() && round[k] == e;
    let rounds = Seq::new(
        assignment_count(n, ops.len() as usize),
        |b: int| candidates_with(numbers, ops, b, factorial(n)),
    );
    lemma_flatten_contains(rounds, a as int, k);
}

/// The expressions over the numbers of a puzzle that reach its target, one
/// at a time, in the order in which the search tries them.
pub struct Solutions<V, F, E> {
    card: Card<V, F>,
    near: E,
    orders: Vec<Vec<V>>,
    assignments: Vec<Ops<F>>,
    a: usize,
    p: usize,
    batch: Vec<BoundOp<V, F>>,
    cursor: usize,
}

impl<V, F: Fn(V, V) -> V, E: Fn(V, V) -> bool> Solutions<V, F, E> {
    /// The numbers of the puzzle.
    pub closed spec fn numbers(&self) -> Seq<V> {
        self.card.numbers@
    }

    /// The operators of the puzzle.
    pub closed spec fn ops(&self) -> Seq<Op<F>> {
        self.card.ops.0@
    }

    /// The value to reach.
    pub closed spec fn solution(&self) -> V {
        self.card.solution
    }

    /// The comparison that says whether a value reaches the target.
    pub closed spec fn near(&self) -> E {
        self.near
    }

    /// Every expression that the search tries, in its order.
    pub open spec fn candidates(&self) -> Seq<BoundOp<V, F>> {
        candidates(self.numbers(), self.ops())
    }

    /// How many of the candidates the search has judged.
    pub closed spec fn judged_count(&self) -> nat {
        (tried(self.card.numbers@, self.card.ops.0@, self.a as nat, self.p as nat).len() - (
        self.batch@.len() - self.cursor)) as nat
    }

    /// The search holds every order of the numbers and every assignment of
    /// operators, the expressions of the order and assignment in turn, and
    /// its place among them. The operators and the comparison accept any
    /// numbers.
    pub closed spec fn wf(&self) -> bool {
        let numbers = self.card.numbers@;
        let ops = self.card.ops.0@;
        &&& numbers.len() <= usize::MAX
        &&& ops.len() <= usize::MAX
        &&& all_total::<V, F>(ops)
        &&& forall|a: V, b: V| call_requires(self.near, (a, b))
        &&& self.orders@.len() == factorial(numbers.len())
        &&& forall|p: int|
            0 <= p < self.orders@.len() ==> (#[trigger] self.orders@[p])@ == arranged(
                numbers,
                ordering_at(numbers.len(), p as nat),
            )
        &&& self.assignments@.len() == assignment_count(numbers.len(), ops.len() as usize)
        &&& forall|a: int|
            0 <= a < self.assignments@.len() ==> (#[trigger] self.assignments@[a]).0@ == picked(
                ops,
                tuple_at(slots(numbers.len(), ops.len() as usize), a as nat),
            )
        &&& self.a <= self.assignments@.len()
        &&& self.p <= self.orders@.len()
        &&& self.cursor <= self.batch@.len()
        &&& self.a == self.assignments@.len() ==> self.p == 0
        &&& self.p == 0 ==> self.cursor == self.batch@.len()
        &&& self.p > 0 ==> self.batch@ == candidates_at(numbers, ops, self.a as int, self.p - 1)
    }

    /// The search never stands beyond the last candidate.
    pub proof fn lemma_judged_count_bound(&self)
        requires
            self.wf(),
        ensures
            self.judged_count() <= self.candidates().len(),
    {
        self.lemma_place();
    }

    /// Where the search stands: what it has tried is the beginning of the
    /// candidates and ends with the expressions in turn, of which those
    /// from the cursor on are not yet judged.
    proof fn lemma_place(&self)
        requires
            self.wf(),
        ensures
            self.judged_count() + (self.batch@.len() - self.cursor) == tried(
                self.card.numbers@,
                self.card.ops.0@,
                self.a as nat,
                self.p as nat,
            ).len(),
            self.judged_count() + (self.batch@.len() - self.cursor) <= candidates(
                self.card.numbers@,
                self.card.ops.0@,
            ).len(),
            forall|c: int|
                self.cursor <= c < self.batch@.len() ==> candidates(
                    self.card.numbers@,
                    self.card.ops.0@,
                )[self.judged_count() + c - self.cursor] == #[trigger] self.batch@[c],
    {
        let numbers = self.card.numbers@;
        let ops = self.card.ops.0@;
        let all = candidates(numbers, ops);
        let so_far = tried(numbers, ops, self.a as nat, self.p as nat);
        lemma_tried_prefix(numbers, ops, self.a as nat, self.p as nat);
        if self.p > 0 {
            lemma_candidates_with_step(numbers, ops, self.a as int, (self.p - 1) as nat);
            assert forall|c: int| self.cursor <= c < self.batch@.len() implies all[self.judged_count()
                + c - self.cursor] == #[trigger] self.batch@[c] by {
                let place = self.judged_count() + c - self.cursor;
                assert(so_far[place] == self.batch@[c]);
                assert(all.take(so_far.len() as int)[place] == all[place]);
            }
        }
    }
}

impl<V: Copy, F: Copy + Fn(V, V) -> V> Card<V, F> {
    /// The search for every expression over the numbers of the puzzle that
    /// `near` accepts as reaching the target. Nothing is tried before the
    /// first solution is asked for.
    pub fn solve<E: Fn(V, V) -> bool>(self, near: E) -> (solutions: Solutions<V, F, E>)
        requires
            all_total::<V, F>(self.ops()),
            forall|a: V, b: V| call_requires(near, (a, b)),
        ensures
            solutions.wf(),
            solutions.numbers() == self.numbers(),
            solutions.ops() == self.ops(),
            solutions.solution() == self.solution(),
            solutions.near() == near,
            solutions.judged_count() == 0,
    {
        let orders = self.numbers_permutations();
        let assignments = self.op_product();
        proof {
            let numbers = self.numbers@;
            let ops = self.ops.0@;
            assert(numbers.len() == self.numbers.len());
            assert(ops.len() == self.ops.0.len());
            assert(candidates_before(numbers, ops, 0) =~= Seq::<BoundOp<V, F>>::empty());
            assert(candidates_with(numbers, ops, 0, 0) =~= Seq::<BoundOp<V, F>>::empty());
        }
        Solutions {
            card: self,
            near,
            orders,
            assignments,
            a: 0,
            p: 0,
            batch: Vec::new(),
            cursor: 0,
        }
    }
}

impl<V: Copy, F: Copy + Fn(V, V) -> V, E: Fn(V, V) -> bool> Solutions<V, F, E> {
    /// The next expression that reaches the target, or `None` when every
    /// candidate has been judged. The candidates are taken in their order;
    /// each is built, evaluated once and judged once by the value of the
    /// whole expression, and the first that the comparison accepts is
    /// handed out.
    pub fn next(&mut self) -> (item: Option<BoundOp<V, F>>)
        requires
            old(self).wf(),
        ensures
            final(self).wf(),
            final(self).numbers() == old(self).numbers(),
            final(self).ops() == old(self).ops(),
            final(self).solution() == old(self).solution(),
            final(self).near() == old(self).near(),
            old(self).judged_count() <= final(self).judged_count() <= old(self).candidates().len(),
            old(self).numbers().len() == 0 ==> item.is_none(),
            match item {
                Some(found) => {
                    &&& final(self).judged_count() > old(self).judged_count()
                    &&& found == old(self).candidates()[final(self).judged_count() - 1]
                    &&& judged(found, old(self).solution(), old(self).near(), true)
                    &&& forall|i: int|
                        old(self).judged_count() <= i < final(self).judged_count() - 1 ==> judged(
                            #[trigger] old(self).candidates()[i],
                            old(self).solution(),
                            old(self).near(),
                            false,
                        )
                    &&& is_rearrangement(old(self).numbers(), found.leaves())
                    &&& found.leaves().len() == old(self).numbers().len()
                    &&& found.leaves().to_multiset() == old(self).numbers().to_multiset()
                    &&& found.size() + 1 == old(self).numbers().len()
                    &&& found.uses_only(old(self).ops())
                },
                None => {
                    &&& final(self).judged_count() == old(self).candidates().len()
                    &&& forall|i: int|
                        old(self).judged_count() <= i < old(self).candidates().len() ==> judged(
                            #[trigger] old(self).candidates()[i],
                            old(self).solution(),
                            old(self).near(),
                            false,
                        )
                },
            },
    {
        let ghost numbers = self.card.numbers@;
        let ghost ops = self.card.ops.0@;
        let ghost n = numbers.len();
        let ghost all = candidates(numbers, ops);
        let ghost begun = self.judged_count();
        proof {
            self.lemma_judged_count_bound();
        }
        loop
            invariant
                self.wf(),
                self.card == old(self).card,
                self.near == old(self).near,
                numbers == self.card.numbers@,
                ops == self.card.ops.0@,
                n == numbers.len(),
                all == candidates(numbers, ops),
                begun == old(self).judged_count(),
                begun <= self.judged_count() <= all.len(),
                forall|i: int|
                    begun <= i < self.judged_count() ==> judged(
                        #[trigger] all[i],
                        self.card.solution,
                        self.near,
                        false,
                    ),
            decreases
                    self.assignments@.len() - self.a,
                    self.orders@.len() - self.p,
                    self.batch@.len() - self.cursor,
        {
            if self.cursor < self.batch.len() {
                let ghost place = self.judged_count() as int;
                proof {
                    self.lemma_place();
                    assert(all[place] == self.batch@[self.cursor as int]);
                    lemma_candidates(numbers, ops, place);
                    lemma_uses_total(all[place], ops);
                }
                let value = self.batch[self.cursor].eval();
                let verdict = (self.near)(value, self.card.solution);
                assert(judged(all[place], self.card.solution, self.near, verdict));
                if verdict {
                    let found = self.batch[self.cursor].clone();
                    self.cursor += 1;
                    proof {
                        self.lemma_place();
                        lemma_rearrangement(numbers, found.leaves());
                    }
                    return Some(found);
                }
                self.cursor += 1;
                proof {
                    self.lemma_place();
                }
            } else if self.a < self.assignments.len() {
                if self.p < self.orders.len() {
                    let order = &self.orders[self.p];
                    let mut row: Vec<BoundOp<V, F>> = Vec::new();
                    let mut k: usize = 0;
                    while k < order.len()
                        invariant
                            0 <= k <= order@.len(),
                            row@.len() == k,
                            forall|j: int|
                                0 <= j < k ==> row@[j] == BoundOp::<V, F>::Val(order@[j]),
                        decreases order@.len() - k,
                    {
                        row.push(BoundOp::Val(order[k]));
                        k += 1;
                    }
                    proof {
                        assert(row@ =~= as_leaves::<V, F>(order@));
                        lemma_state_at(n, self.p as nat);
                        lemma_tuple_rank_at(slots(n, ops.len() as usize), self.a as nat);
                        lemma_candidates_with_step(numbers, ops, self.a as int, self.p as nat);
                    }
                    let batch = reduce_all(row, &self.assignments[self.a]);
                    self.batch = batch;
                    self.cursor = 0;
                    self.p += 1;
                } else {
                    proof {
                        lemma_candidates_before_step(numbers, ops, self.a as nat);
                        assert(candidates_with(numbers, ops, self.a + 1, 0) =~= Seq::<
                            BoundOp<V, F>,
                        >::empty());
                    }
                    self.a += 1;
                    self.p = 0;
                    proof {
                        lemma_tried_prefix(numbers, ops, self.a as nat, 0);
                    }
                }
            } else {
                proof {
                    lemma_tried_prefix(numbers, ops, self.a as nat, 0);
                    assert(candidates_with(numbers, ops, self.a as int, 0) =~= Seq::<
                        BoundOp<V, F>,
                    >::empty());
                }
                return None;
            }
        }
    }
}

} // verus!
