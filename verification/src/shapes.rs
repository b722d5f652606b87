//! Bracketings: every way of reducing a row of expressions to one expression
//! by binding two neighbours at a time.

use crate::boundop::BoundOp;
use crate::op::{Op, Ops};
use crate::util::factorial;
use std::collections::VecDeque;
use vstd::prelude::*;

verus! {

/// `row` with the expressions at `i` and `i + 1` bound by `op` into one.
pub open spec fn merged<V, F>(row: Seq<BoundOp<V, F>>, i: int, op: Op<F>) -> Seq<BoundOp<V, F>> {
    row.take(i).push(BoundOp::BoundOp { op, l: Box::new(row[i]), r: Box::new(row[i + 1]) })
        + row.skip(i + 2)
}

/// Every expression that `row` can be reduced to by binding two neighbours
/// at a time until one expression is left. A row of `k` expressions binds
/// with the operator at place `k - 2` of `ops`. The reductions that begin
/// at the leftmost pair come first.
pub open spec fn reductions<V, F>(row: Seq<BoundOp<V, F>>, ops: Seq<Op<F>>) -> Seq<BoundOp<V, F>>
    decreases row.len(), 1int, 0int,
{
    if row.len() <= 1 {
        row
    } else {
        reductions_before(row, ops, row.len() - 1)
    }
}

/// The reductions of `row` that begin with a pair at a place before `end`.
pub open spec fn reductions_before<V, F>(
    row: Seq<BoundOp<V, F>>,
    ops: Seq<Op<F>>,
    end: int,
) -> Seq<BoundOp<V, F>>
    decreases row.len(), 0int, end,
{
    if end <= 0 || row.len() < 2 || end >= row.len() {
        Seq::empty()
    } else {
        reductions_before(row, ops, end - 1) + reductions(
            merged(row, end - 1, ops[row.len() - 2]),
            ops,
        )
    }
}

/// The reductions of every row of `rows`, in the order of the rows.
pub open spec fn reductions_of_all<V, F>(
    rows: Seq<Seq<BoundOp<V, F>>>,
    ops: Seq<Op<F>>,
) -> Seq<BoundOp<V, F>>
    decreases rows.len(),
{
    if rows.len() == 0 {
        Seq::empty()
    } else {
        reductions_of_all(rows.drop_last(), ops) + reductions(rows.last(), ops)
    }
}

/// The reductions of two lists of rows, one after the other, are those of
/// the first list followed by those of the second.
pub proof fn lemma_reductions_of_all_add<V, F>(
    a: Seq<Seq<BoundOp<V, F>>>,
    b: Seq<Seq<BoundOp<V, F>>>,
    ops: Seq<Op<F>>,
)
    ensures
        reductions_of_all(a + b, ops) == reductions_of_all(a, ops) + reductions_of_all(b, ops),
    decreases b.len(),
{
    if b.len() == 0 {
        assert(a + b =~= a);
        assert(reductions_of_all(a, ops) + reductions_of_all(b, ops) =~= reductions_of_all(
            a,
            ops,
        ));
    } else {
        lemma_reductions_of_all_add(a, b.drop_last(), ops);
        assert((a + b).drop_last() =~= a + b.drop_last());
        assert((a + b).last() == b.last());
        assert(reductions_of_all(a + b, ops) =~= reductions_of_all(a, ops) + reductions_of_all(
            b,
            ops,
        ));
    }
}

/// The rows as the lists of a work queue hold them.
pub open spec fn rows_of<V, F>(queue: Seq<Vec<BoundOp<V, F>>>) -> Seq<Seq<BoundOp<V, F>>> {
    queue.map_values(|row: Vec<BoundOp<V, F>>| row@)
}

/// `row` with the two expressions at `i` and `i + 1` replaced by `op` bound
/// to copies of them. `row` itself stays as it is.
pub fn merge<V: Copy, F: Copy>(row: &Vec<BoundOp<V, F>>, i: usize, op: &Op<F>) -> (out: Vec<
    BoundOp<V, F>,
>)
    requires
        i + 1 < row@.len(),
    ensures
        out@ == merged(row@, i as int, *op),
{
    let n = row.len();
    let mut out: Vec<BoundOp<V, F>> = Vec::new();
    let mut k: usize = 0;
    while k < i
        invariant
            0 <= k <= i,
            i + 1 < n,
            n == row@.len(),
            out@ == row@.take(k as int),
        decreases i - k,
    {
        out.push(row[k].clone());
        proof {
            assert(out@ =~= row@.take(k + 1));
        }
        k += 1;
    }
    out.push(
        BoundOp::BoundOp {
            op: op.clone(),
            l: Box::new(row[i].clone()),
            r: Box::new(row[i + 1].clone()),
        },
    );
    let ghost head = out@;
    k = i + 2;
    while k < n
        invariant
            i + 2 <= k <= n,
            n == row@.len(),
            out@ == head + row@.subrange(i + 2, k as int),
        decreases n - k,
    {
        out.push(row[k].clone());
        proof {
            assert(out@ =~= head + row@.subrange(i + 2, k + 1));
        }
        k += 1;
    }
    proof {
        assert(row@.subrange(i + 2, row@.len() as int) =~= row@.skip(i + 2));
        assert(head =~= head + row@.subrange(i + 2, i + 2));
    }
    out
}

/// The reductions of a list that holds one row are those of the row.
pub proof fn lemma_reductions_of_one<V, F>(row: Seq<BoundOp<V, F>>, ops: Seq<Op<F>>)
    ensures
        reductions_of_all(seq![row], ops) == reductions(row, ops),
{
    let rows = seq![row];
    assert(rows.drop_last() =~= Seq::<Seq<BoundOp<V, F>>>::empty());
    assert(reductions_of_all(rows.drop_last(), ops) =~= Seq::<BoundOp<V, F>>::empty());
    assert(reductions_of_all(rows, ops) =~= reductions(row, ops));
}

/// Every expression that `row` can be reduced to: a work queue takes one
/// row at a time, records it when it holds one expression, and otherwise
/// adds to the queue, for each pair of neighbours, a copy of the row with
/// that pair bound into one.
pub fn reduce_all<V: Copy, F: Copy>(row: Vec<BoundOp<V, F>>, ops: &Ops<F>) -> (found: Vec<
    BoundOp<V, F>,
>)
    requires
        row@.len() <= ops.0@.len() + 1,
    ensures
        found@ == reductions(row@, ops.0@),
{
    let ghost target = reductions(row@, ops.0@);
    let ghost mut level: nat = row@.len();
    let ghost mut front: nat = 1;
    let mut found: Vec<BoundOp<V, F>> = Vec::new();
    let mut queue: VecDeque<Vec<BoundOp<V, F>>> = VecDeque::new();
    queue.push_back(row);
    proof {
        assert(queue@.take(1) =~= seq![row]);
        assert(rows_of(queue@.take(1)) =~= seq![row@]);
        assert(rows_of(queue@.skip(1)) =~= Seq::<Seq<BoundOp<V, F>>>::empty());
        lemma_reductions_of_one(row@, ops.0@);
        assert(found@ + reductions_of_all(rows_of(queue@.skip(1)), ops.0@) + reductions(
            row@,
            ops.0@,
        ) =~= target);
    }
    loop
        invariant
            front <= queue@.len(),
            forall|k: int| 0 <= k < front ==> (#[trigger] queue@[k])@.len() == level,
            forall|k: int| front <= k < queue@.len() ==> (#[trigger] queue@[k])@.len() + 1 == level,
            level <= ops.0@.len() + 1,
            level >= 2 ==> found@.len() == 0,
            level <= 1 ==> front == queue@.len(),
            found@ + reductions_of_all(rows_of(queue@.skip(front as int)), ops.0@)
                + reductions_of_all(rows_of(queue@.take(front as int)), ops.0@) == target,
        ensures
            found@ == target,
        decreases level, front,
    {
        let ghost before = queue@;
        let ghost was_found = found@;
        match queue.pop_front() {
            None => {
                proof {
                    assert(rows_of(queue@.skip(front as int)) =~= Seq::<
                        Seq<BoundOp<V, F>>,
                    >::empty());
                    assert(rows_of(queue@.take(front as int)) =~= Seq::<
                        Seq<BoundOp<V, F>>,
                    >::empty());
                    assert(found@ + Seq::<BoundOp<V, F>>::empty() + Seq::<BoundOp<V, F>>::empty()
                        =~= found@);
                }
                break ;
            },
            Some(bops) => {
                proof {
                    if front == 0 {
                        assert(before[0]@.len() + 1 == level);
                        assert(before.skip(0) =~= before);
                        assert(before.take(before.len() as int) =~= before);
                        assert(rows_of(before.take(0)) =~= Seq::<Seq<BoundOp<V, F>>>::empty());
                        assert(rows_of(before.skip(before.len() as int)) =~= Seq::<
                            Seq<BoundOp<V, F>>,
                        >::empty());
                        assert(found@ + Seq::<BoundOp<V, F>>::empty() + reductions_of_all(
                            rows_of(before),
                            ops.0@,
                        ) =~= found@ + reductions_of_all(rows_of(before), ops.0@) + Seq::<
                            BoundOp<V, F>,
                        >::empty());
                        level = (level - 1) as nat;
                        front = before.len();
                    }
                    assert(before[0]@.len() == level);
                    let head = before.take(front as int);
                    assert(rows_of(head) =~= seq![bops@] + rows_of(
                        queue@.take(front as int - 1),
                    ));
                    lemma_reductions_of_all_add(
                        seq![bops@],
                        rows_of(queue@.take(front as int - 1)),
                        ops.0@,
                    );
                    lemma_reductions_of_one(bops@, ops.0@);
                    assert(queue@.skip(front as int - 1) =~= before.skip(front as int));
                }
                let ghost back = reductions_of_all(rows_of(before.skip(front as int)), ops.0@);
                let ghost rest = reductions_of_all(
                    rows_of(queue@.take(front as int - 1)),
                    ops.0@,
                );
                assert(was_found + back + (reductions(bops@, ops.0@) + rest) == target);
                let ghost popped = queue@;
                assert(forall|k: int| 0 <= k < front ==> (#[trigger] before[k])@.len() == level);
                assert(forall|k: int|
                    front <= k < before.len() ==> (#[trigger] before[k])@.len() + 1 == level);
                let bops_len = bops.len();
                if bops_len == 1 {
                    found.push(bops[0].clone());
                    proof {
                        assert(bops@ =~= seq![bops@[0]]);
                        assert(rows_of(queue@.skip(front as int - 1)) =~= Seq::<
                            Seq<BoundOp<V, F>>,
                        >::empty());
                        assert(found@ + reductions_of_all(
                            rows_of(queue@.skip(front as int - 1)),
                            ops.0@,
                        ) + rest =~= was_found + back + (reductions(bops@, ops.0@) + rest));
                    }
                } else if bops_len > 1 {
                    let op = &ops.0[bops_len - 2];
                    let mut i: usize = 0;
                    while i < bops_len - 1
                        invariant
                            0 <= i <= bops_len - 1,
                            bops_len == bops@.len(),
                            bops_len >= 2,
                            bops_len == level,
                            *op == ops.0@[bops_len - 2],
                            1 <= front <= popped.len() + 1,
                            queue@.len() == popped.len() + i,
                            queue@.take(front as int - 1) == popped.take(front as int - 1),
                            forall|k: int|
                                front - 1 <= k < queue@.len() ==> (#[trigger] queue@[k])@.len() + 1
                                    == level,
                            reductions_of_all(rows_of(queue@.skip(front as int - 1)), ops.0@)
                                == back + reductions_before(bops@, ops.0@, i as int),
                        decreases bops_len - 1 - i,
                    {
                        let ghost grown = queue@;
                        let next = merge(&bops, i, op);
                        queue.push_back(next);
                        proof {
                            let tail = rows_of(queue@.skip(front as int - 1));
                            assert(tail.drop_last() =~= rows_of(grown.skip(front as int - 1)));
                            assert(tail.last() == next@);
                            assert(queue@.take(front as int - 1) =~= grown.take(
                                front as int - 1,
                            ));
                            assert(back + reductions_before(bops@, ops.0@, i as int) + reductions(
                                next@,
                                ops.0@,
                            ) =~= back + reductions_before(bops@, ops.0@, i + 1));
                        }
                        i += 1;
                    }
                    proof {
                        assert(found@ + (back + reductions(bops@, ops.0@)) + rest =~= was_found
                            + back + (reductions(bops@, ops.0@) + rest));
                    }
                } else {
                    proof {
                        assert(found@ + back + rest =~= was_found + back + (reductions(
                            bops@,
                            ops.0@,
                        ) + rest));
                    }
                }
                proof {
                    front = (front - 1) as nat;
                    assert forall|k: int| 0 <= k < front implies (#[trigger] queue@[k])@.len()
                        == level by {
                        assert(queue@[k] == queue@.take(front as int)[k]);
                        assert(popped.take(front as int)[k] == popped[k]);
                        assert(popped[k] == before[k + 1]);
                    }
                    assert forall|k: int| front <= k < queue@.len() implies (
                    #[trigger] queue@[k])@.len() + 1 == level by {
                        if bops_len <= 1 {
                            assert(popped[k] == before[k + 1]);
                        }
                    }
                }
            },
        }
    }
    found
}

/// The numbers of all expressions of a row, from left to right.
pub open spec fn row_leaves<V, F>(row: Seq<BoundOp<V, F>>) -> Seq<V>
    decreases row.len(),
{
    if row.len() == 0 {
        Seq::empty()
    } else {
        row_leaves(row.drop_last()) + row.last().leaves()
    }
}

/// The number of operators in all expressions of a row.
pub open spec fn row_size<V, F>(row: Seq<BoundOp<V, F>>) -> nat
    decreases row.len(),
{
    if row.len() == 0 {
        0
    } else {
        row_size(row.drop_last()) + row.last().size()
    }
}

/// Every operator in the expressions of `row` is one of `registry`.
pub open spec fn row_uses_only<V, F>(row: Seq<BoundOp<V, F>>, registry: Seq<Op<F>>) -> bool {
    forall|k: int| 0 <= k < row.len() ==> (#[trigger] row[k]).uses_only(registry)
}

/// Every operator of `ops` is one of `registry`.
pub open spec fn drawn_from<F>(ops: Seq<Op<F>>, registry: Seq<Op<F>>) -> bool {
    forall|k: int| 0 <= k < ops.len() ==> registry.contains(#[trigger] ops[k])
}

/// Every operator of `registry` can be applied to any two numbers.
pub open spec fn all_total<V, F: Fn(V, V) -> V>(registry: Seq<Op<F>>) -> bool {
    forall|k: int, a: V, b: V|
        0 <= k < registry.len() ==> #[trigger] call_requires(registry[k].f, (a, b))
}

/// The numbers and the operators of two joined rows are those of both.
pub proof fn lemma_row_add<V, F>(a: Seq<BoundOp<V, F>>, b: Seq<BoundOp<V, F>>)
    ensures
        row_leaves(a + b) == row_leaves(a) + row_leaves(b),
        row_size(a + b) == row_size(a) + row_size(b),
    decreases b.len(),
{
    if b.len() == 0 {
        assert(a + b =~= a);
        assert(row_leaves(a) + row_leaves(b) =~= row_leaves(a));
    } else {
        lemma_row_add(a, b.drop_last());
        assert((a + b).drop_last() =~= a + b.drop_last());
        assert((a + b).last() == b.last());
        assert(row_leaves(a + b) =~= row_leaves(a) + row_leaves(b));
    }
}

/// A row of one expression has the numbers and the operators of that
/// expression.
pub proof fn lemma_row_of_one<V, F>(e: BoundOp<V, F>)
    ensures
        row_leaves(seq![e]) == e.leaves(),
        row_size(seq![e]) == e.size(),
{
    let row = seq![e];
    assert(row.drop_last() =~= Seq::<BoundOp<V, F>>::empty());
    assert(row_leaves(row.drop_last()) =~= Seq::<V>::empty());
    assert(row_leaves(row) =~= e.leaves());
    assert(row_size(row.drop_last()) == 0);
}

/// Binding two neighbours keeps the numbers of a row in their order, adds
/// one operator and leaves one expression fewer.
pub proof fn lemma_merged<V, F>(row: Seq<BoundOp<V, F>>, i: int, op: Op<F>)
    requires
        0 <= i,
        i + 1 < row.len(),
    ensures
        merged(row, i, op).len() == row.len() - 1,
        row_leaves(merged(row, i, op)) == row_leaves(row),
        row_size(merged(row, i, op)) == row_size(row) + 1,
        forall|registry: Seq<Op<F>>|
            row_uses_only(row, registry) && registry.contains(op) ==> #[trigger] row_uses_only(
                merged(row, i, op),
                registry,
            ),
{
    let node = BoundOp::BoundOp { op, l: Box::new(row[i]), r: Box::new(row[i + 1]) };
    let head = row.take(i);
    let tail = row.skip(i + 2);
    let pair = seq![row[i]] + seq![row[i + 1]];
    assert(row =~= head + pair + tail);
    assert(merged(row, i, op) =~= head + seq![node] + tail);
    lemma_row_add(head + pair, tail);
    lemma_row_add(head, pair);
    lemma_row_add(seq![row[i]], seq![row[i + 1]]);
    lemma_row_of_one(row[i]);
    lemma_row_of_one(row[i + 1]);
    lemma_row_add(head + seq![node], tail);
    lemma_row_add(head, seq![node]);
    lemma_row_of_one(node);
    assert(row_leaves(head) + (row[i].leaves() + row[i + 1].leaves()) + row_leaves(tail)
        =~= row_leaves(head) + node.leaves() + row_leaves(tail));
    assert forall|registry: Seq<Op<F>>|
        row_uses_only(row, registry) && registry.contains(op) implies #[trigger] row_uses_only(
        merged(row, i, op),
        registry,
    ) by {
        let after = merged(row, i, op);
        assert forall|k: int| 0 <= k < after.len() implies (#[trigger] after[k]).uses_only(
            registry,
        ) by {
            if k < i {
                assert(after[k] == row[k]);
            } else if k == i {
                assert(after[k] == node);
                assert(row[i].uses_only(registry));
                assert(row[i + 1].uses_only(registry));
            } else {
                assert(after[k] == row[k + 1]);
            }
        }
    }
}

/// What holds of every reduction of a row: it has the numbers of the row
/// in their order, and one operator more for each expression of the row
/// but one. Its operators are those of the row and of `ops`.
pub proof fn lemma_reductions<V, F>(row: Seq<BoundOp<V, F>>, ops: Seq<Op<F>>, j: int)
    requires
        row.len() <= ops.len() + 1,
        0 <= j < reductions(row, ops).len(),
    ensures
        row.len() >= 1,
        reductions(row, ops)[j].leaves() == row_leaves(row),
        reductions(row, ops)[j].size() == row_size(row) + row.len() - 1,
        forall|registry: Seq<Op<F>>|
            row_uses_only(row, registry) && drawn_from(ops, registry) ==> (
            #[trigger] reductions(row, ops)[j].uses_only(registry)),
    decreases row.len(), 1int, 0int,
{
    if row.len() == 1 {
        assert(row =~= seq![row[0]]);
        lemma_row_of_one(row[0]);
    } else {
        lemma_reductions_before(row, ops, row.len() - 1, j);
    }
}

/// The same of the reductions that begin with a pair before `end`.
pub proof fn lemma_reductions_before<V, F>(
    row: Seq<BoundOp<V, F>>,
    ops: Seq<Op<F>>,
    end: int,
    j: int,
)
    requires
        2 <= row.len() <= ops.len() + 1,
        0 <= end < row.len(),
        0 <= j < reductions_before(row, ops, end).len(),
    ensures
        reductions_before(row, ops, end)[j].leaves() == row_leaves(row),
        reductions_before(row, ops, end)[j].size() == row_size(row) + row.len() - 1,
        forall|registry: Seq<Op<F>>|
            row_uses_only(row, registry) && drawn_from(ops, registry) ==> (
            #[trigger] reductions_before(row, ops, end)[j].uses_only(registry)),
    decreases row.len(), 0int, end,
{
    let op = ops[row.len() - 2];
    let earlier = reductions_before(row, ops, end - 1);
    if j < earlier.len() {
        lemma_reductions_before(row, ops, end - 1, j);
    } else {
        lemma_merged(row, end - 1, op);
        lemma_reductions(merged(row, end - 1, op), ops, j - earlier.len());
        assert forall|registry: Seq<Op<F>>|
            row_uses_only(row, registry) && drawn_from(ops, registry) implies (
        #[trigger] reductions_before(row, ops, end)[j].uses_only(registry)) by {
            assert(registry.contains(op));
            assert(row_uses_only(merged(row, end - 1, op), registry));
        }
    }
}

/// A row of `k` expressions, `k` at least one, has `(k - 1)!` reductions:
/// one for each order in which its pairs can be bound.
pub proof fn lemma_reductions_len<V, F>(row: Seq<BoundOp<V, F>>, ops: Seq<Op<F>>)
    requires
        1 <= row.len(),
    ensures
        reductions(row, ops).len() == factorial((row.len() - 1) as nat),
    decreases row.len(), 1int, 0int,
{
    if row.len() == 1 {
        assert(factorial(0) == 1);
    } else {
        lemma_reductions_before_len(row, ops, row.len() - 1);
        let m = (row.len() - 1) as nat;
        assert(factorial(m) == m * factorial((m - 1) as nat));
    }
}

/// The reductions that begin with a pair before `end` are `end` times as
/// many as those of a row with one expression fewer.
pub proof fn lemma_reductions_before_len<V, F>(row: Seq<BoundOp<V, F>>, ops: Seq<Op<F>>, end: int)
    requires
        2 <= row.len(),
        0 <= end < row.len(),
    ensures
        reductions_before(row, ops, end).len() == end * factorial((row.len() - 2) as nat),
    decreases row.len(), 0int, end,
{
    let f = factorial((row.len() - 2) as nat);
    if end > 0 {
        let op = ops[row.len() - 2];
        lemma_reductions_before_len(row, ops, end - 1);
        lemma_merged(row, end - 1, op);
        lemma_reductions_len(merged(row, end - 1, op), ops);
        assert((end - 1) * f + f == end * f) by (nonlinear_arith);
    } else {
        assert(0 * f == 0) by (nonlinear_arith);
    }
}

/// Each number as an expression of its own.
pub open spec fn as_leaves<V, F>(numbers: Seq<V>) -> Seq<BoundOp<V, F>> {
    Seq::new(numbers.len(), |k: int| BoundOp::Val(numbers[k]))
}

/// A row of numbers has those numbers and no operator.
pub proof fn lemma_as_leaves<V, F>(numbers: Seq<V>)
    ensures
        row_leaves(as_leaves::<V, F>(numbers)) == numbers,
        row_size(as_leaves::<V, F>(numbers)) == 0,
        forall|registry: Seq<Op<F>>| #[trigger]
            row_uses_only(as_leaves::<V, F>(numbers), registry),
    decreases numbers.len(),
{
    let row = as_leaves::<V, F>(numbers);
    if numbers.len() > 0 {
        lemma_as_leaves::<V, F>(numbers.drop_last());
        assert(row.drop_last() =~= as_leaves::<V, F>(numbers.drop_last()));
        assert(row.last().leaves() =~= seq![numbers.last()]);
        assert(row_leaves(row) =~= numbers);
    } else {
        assert(row_leaves(row) =~= numbers);
    }
    assert forall|registry: Seq<Op<F>>| #[trigger] row_uses_only(row, registry) by {
        assert forall|k: int| 0 <= k < row.len() implies (#[trigger] row[k]).uses_only(
            registry,
        ) by {}
    }
}

/// `to` can be made of `from` by binding two neighbours at a time, a row of
/// `k` expressions binding with the operator at place `k - 2` of `ops`.
pub open spec fn reaches<V, F>(
    from: Seq<BoundOp<V, F>>,
    ops: Seq<Op<F>>,
    to: Seq<BoundOp<V, F>>,
) -> bool
    decreases from.len(),
{
    from == to || (from.len() >= 2 && exists|i: int|
        0 <= i < from.len() - 1 && reaches(
            #[trigger] merged(from, i, ops[from.len() - 2]),
            ops,
            to,
        ))
}

/// The reductions that begin with a pair before `end` hold those that
/// begin with any one pair before `end`.
pub proof fn lemma_reductions_before_contains<V, F>(
    row: Seq<BoundOp<V, F>>,
    ops: Seq<Op<F>>,
    end: int,
    i: int,
    e: BoundOp<V, F>,
)
    requires
        2 <= row.len(),
        0 <= i < end < row.len(),
        reductions(merged(row, i, ops[row.len() - 2]), ops).contains(e),
    ensures
        reductions_before(row, ops, end).contains(e),
    decreases end,
{
    let earlier = reductions_before(row, ops, end - 1);
    let last = reductions(merged(row, end - 1, ops[row.len() - 2]), ops);
    if i < end - 1 {
        lemma_reductions_before_contains(row, ops, end - 1, i, e);
        let j = choose|j: int| 0 <= j < earlier.len() && earlier[j] == e;
        assert((earlier + last)[j] == e);
    } else {
        let j = choose|j: int| 0 <= j < last.len() && last[j] == e;
        assert((earlier + last)[earlier.len() + j] == e);
    }
}

/// An expression that a row can be made into is one of its reductions.
pub proof fn lemma_reaches_is_reduction<V, F>(
    row: Seq<BoundOp<V, F>>,
    ops: Seq<Op<F>>,
    e: BoundOp<V, F>,
)
    requires
        reaches(row, ops, seq![e]),
    ensures
        reductions(row, ops).contains(e),
    decreases row.len(),
{
    if row == seq![e] {
        assert(row[0] == e);
    } else {
        let i = choose|i: int|
            0 <= i < row.len() - 1 && reaches(
                #[trigger] merged(row, i, ops[row.len() - 2]),
                ops,
                seq![e],
            );
        let next = merged(row, i, ops[row.len() - 2]);
        lemma_merged(row, i, ops[row.len() - 2]);
        lemma_reaches_is_reduction(next, ops, e);
        lemma_reductions_before_contains(row, ops, row.len() - 1, i, e);
    }
}

/// What can be made of a row that can be made of another can be made of
/// that other row.
pub proof fn lemma_reaches_on<V, F>(
    from: Seq<BoundOp<V, F>>,
    ops: Seq<Op<F>>,
    via: Seq<BoundOp<V, F>>,
    to: Seq<BoundOp<V, F>>,
)
    requires
        reaches(from, ops, via),
        reaches(via, ops, to),
    ensures
        reaches(from, ops, to),
    decreases from.len(),
{
    if from != via {
        let i = choose|i: int|
            0 <= i < from.len() - 1 && reaches(
                #[trigger] merged(from, i, ops[from.len() - 2]),
                ops,
                via,
            );
        let next = merged(from, i, ops[from.len() - 2]);
        lemma_merged(from, i, ops[from.len() - 2]);
        lemma_reaches_on(next, ops, via, to);
        assert(reaches(next, ops, to));
    }
}

/// Binding inside a part of a row: what a part of a row can be made into
/// on its own, it can be made into where it stands, when the operators
/// that the longer row uses for it are those that the part uses alone.
pub proof fn lemma_reaches_inside<V, F>(
    before: Seq<BoundOp<V, F>>,
    part: Seq<BoundOp<V, F>>,
    after: Seq<BoundOp<V, F>>,
    alone: Seq<Op<F>>,
    ops: Seq<Op<F>>,
    to: Seq<BoundOp<V, F>>,
)
    requires
        reaches(part, alone, to),
        forall|j: int|
            0 <= j < part.len() - 1 ==> ops[j + before.len() + after.len()] == #[trigger] alone[j],
    ensures
        reaches(before + part + after, ops, before + to + after),
    decreases part.len(),
{
    if part != to {
        let i = choose|i: int|
            0 <= i < part.len() - 1 && reaches(
                #[trigger] merged(part, i, alone[part.len() - 2]),
                alone,
                to,
            );
        let op = alone[part.len() - 2];
        let next = merged(part, i, op);
        lemma_merged(part, i, op);
        lemma_reaches_inside(before, next, after, alone, ops, to);
        let row = before + part + after;
        let place = before.len() + i;
        assert(ops[row.len() - 2] == op);
        assert(merged(row, place, op) =~= before + next + after);
        assert(reaches(merged(row, place, ops[row.len() - 2]), ops, before + to + after));
    }
}

/// The operators of an expression in the order in which the search binds
/// them: the operator of the whole expression, which is bound last, comes
/// first, then the operators of the right operand, then those of the left.
pub open spec fn recipe<V, F>(e: BoundOp<V, F>) -> Seq<Op<F>>
    decreases e,
{
    match e {
        BoundOp::Val(n) => Seq::empty(),
        BoundOp::BoundOp { op, l, r } => seq![op] + recipe(*r) + recipe(*l),
    }
}

/// Every expression can be made of its numbers: the row of its numbers
/// reaches it with its operators in the order of its recipe. The recipe
/// holds one operator for each operator of the expression, and none that is
/// not in it.
pub proof fn lemma_recipe<V, F>(e: BoundOp<V, F>)
    ensures
        recipe(e).len() == e.size(),
        reaches(as_leaves(e.leaves()), recipe(e), seq![e]),
        forall|registry: Seq<Op<F>>| e.uses_only(registry) ==> #[trigger] drawn_from(recipe(e), registry),
    decreases e,
{
    match e {
        BoundOp::Val(n) => {
            assert(as_leaves::<V, F>(e.leaves()) =~= seq![e]);
        },
        BoundOp::BoundOp { op, l, r } => {
            lemma_recipe(*l);
            lemma_recipe(*r);
            l.lemma_leaves_len();
            r.lemma_leaves_len();
            let left = as_leaves::<V, F>(l.leaves());
            let right = as_leaves::<V, F>(r.leaves());
            let row = as_leaves::<V, F>(e.leaves());
            let ops = recipe(e);
            let none = Seq::<BoundOp<V, F>>::empty();
            assert(row =~= none + left + right);
            lemma_reaches_inside(none, left, right, recipe(*l), ops, seq![*l]);
            let half = none + seq![*l] + right;
            assert(half =~= seq![*l] + right + none);
            lemma_reaches_inside(seq![*l], right, none, recipe(*r), ops, seq![*r]);
            let pair = seq![*l] + seq![*r] + none;
            assert(merged(pair, 0, ops[0]) =~= seq![e]);
            assert(reaches(seq![e], ops, seq![e]));
            assert(reaches(merged(pair, 0, ops[pair.len() - 2]), ops, seq![e]));
            lemma_reaches_on(half, ops, pair, seq![e]);
            lemma_reaches_on(row, ops, half, seq![e]);
            assert forall|registry: Seq<Op<F>>| e.uses_only(registry) implies #[trigger] drawn_from(
                ops,
                registry,
            ) by {
                assert(drawn_from(recipe(*l), registry));
                assert(drawn_from(recipe(*r), registry));
                assert forall|k: int| 0 <= k < ops.len() implies registry.contains(
                    #[trigger] ops[k],
                ) by {
                    if k == 0 {
                    } else if k < 1 + recipe(*r).len() {
                        assert(ops[k] == recipe(*r)[k - 1]);
                    } else {
                        assert(ops[k] == recipe(*l)[k - 1 - recipe(*r).len()]);
                    }
                }
            }
        },
    }
}

/// No bracketing is left out: every expression is among the reductions of
/// the row of its numbers, when the row binds with the operators of the
/// expression's recipe.
pub proof fn lemma_reductions_complete<V, F>(e: BoundOp<V, F>)
    ensures
        reductions(as_leaves(e.leaves()), recipe(e)).contains(e),
{
    lemma_recipe(e);
    lemma_reaches_is_reduction(as_leaves(e.leaves()), recipe(e), e);
}

} // verus!
