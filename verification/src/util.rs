//! Generators of index tuples: every tuple of a Cartesian product, and every
//! ordering of a range of indices.

use vstd::prelude::*;

verus! {

/// The number of tuples that pick one index below each of `sizes`.
pub open spec fn tuple_count(sizes: Seq<usize>) -> nat
    decreases sizes.len(),
{
    if sizes.len() == 0 {
        1
    } else {
        tuple_count(sizes.drop_last()) * (sizes.last() as nat)
    }
}

/// `t` picks one index below the size of every dimension.
pub open spec fn is_tuple(sizes: Seq<usize>, t: Seq<usize>) -> bool {
    &&& t.len() == sizes.len()
    &&& forall|i: int| 0 <= i < t.len() ==> t[i] < sizes[i]
}

/// The place of the tuple `t` in lexicographic order, the last coordinate
/// counting least.
pub open spec fn tuple_rank(sizes: Seq<usize>, t: Seq<usize>) -> nat
    decreases sizes.len(),
{
    if sizes.len() == 0 || t.len() != sizes.len() {
        0
    } else {
        tuple_rank(sizes.drop_last(), t.drop_last()) * (sizes.last() as nat) + (t.last() as nat)
    }
}

/// The tuple at place `k` of the lexicographic order.
pub open spec fn tuple_at(sizes: Seq<usize>, k: nat) -> Seq<usize>
    decreases sizes.len(),
{
    if sizes.len() == 0 {
        Seq::empty()
    } else {
        tuple_at(sizes.drop_last(), k / (sizes.last() as nat)).push(
            (k % (sizes.last() as nat)) as usize,
        )
    }
}

/// A product of sizes is zero exactly when one of the sizes is.
pub proof fn lemma_tuple_count_zero(sizes: Seq<usize>)
    ensures
        tuple_count(sizes) == 0 <==> exists|i: int| 0 <= i < sizes.len() && sizes[i] == 0,
    decreases sizes.len(),
{
    if sizes.len() > 0 {
        let front = sizes.drop_last();
        lemma_tuple_count_zero(front);
        let a = tuple_count(front);
        let b = sizes.last() as nat;
        assert(a * b == 0 <==> (a == 0 || b == 0)) by (nonlinear_arith);
        if exists|i: int| 0 <= i < front.len() && front[i] == 0 {
            let i = choose|i: int| 0 <= i < front.len() && front[i] == 0;
            assert(sizes[i] == 0);
        }
        if sizes.last() == 0 {
            assert(sizes[sizes.len() - 1] == 0);
        }
        if exists|i: int| 0 <= i < sizes.len() && sizes[i] == 0 {
            let i = choose|i: int| 0 <= i < sizes.len() && sizes[i] == 0;
            if i < front.len() {
                assert(front[i] == 0);
            }
        }
    }
}

/// A tuple's place is below the number of tuples.
pub proof fn lemma_tuple_rank_bound(sizes: Seq<usize>, t: Seq<usize>)
    requires
        is_tuple(sizes, t),
    ensures
        tuple_rank(sizes, t) < tuple_count(sizes),
    decreases sizes.len(),
{
    if sizes.len() > 0 {
        lemma_tuple_rank_bound(sizes.drop_last(), t.drop_last());
        let r = tuple_rank(sizes.drop_last(), t.drop_last());
        let c = tuple_count(sizes.drop_last());
        let s = sizes.last() as nat;
        let d = t.last() as nat;
        assert(t[t.len() - 1] < sizes[t.len() - 1]);
        assert(r * s + d < c * s) by (nonlinear_arith)
            requires
                r < c,
                d < s,
        ;
    }
}

/// The tuple found at a tuple's place is that tuple.
pub proof fn lemma_tuple_at_rank(sizes: Seq<usize>, t: Seq<usize>)
    requires
        is_tuple(sizes, t),
    ensures
        tuple_at(sizes, tuple_rank(sizes, t)) == t,
    decreases sizes.len(),
{
    if sizes.len() > 0 {
        lemma_tuple_at_rank(sizes.drop_last(), t.drop_last());
        let r = tuple_rank(sizes.drop_last(), t.drop_last());
        let s = sizes.last() as nat;
        let d = t.last() as nat;
        assert(t[t.len() - 1] < sizes[t.len() - 1]);
        assert((r * s + d) / s == r && (r * s + d) % s == d) by (nonlinear_arith)
            requires
                d < s,
        ;
        assert(tuple_at(sizes, tuple_rank(sizes, t)) =~= t);
    } else {
        assert(tuple_at(sizes, tuple_rank(sizes, t)) =~= t);
    }
}

/// Below the number of tuples, every place holds a tuple, and that tuple's
/// place is the one it was found at.
pub proof fn lemma_tuple_rank_at(sizes: Seq<usize>, k: nat)
    requires
        k < tuple_count(sizes),
    ensures
        is_tuple(sizes, tuple_at(sizes, k)),
        tuple_rank(sizes, tuple_at(sizes, k)) == k,
    decreases sizes.len(),
{
    if sizes.len() > 0 {
        let front = sizes.drop_last();
        let s = sizes.last() as nat;
        let c = tuple_count(front);
        assert(s > 0 && k / s < c && k % s < s && (k / s) * s + k % s == k) by (nonlinear_arith)
            requires
                k < c * s,
        ;
        lemma_tuple_rank_at(front, k / s);
        let t = tuple_at(sizes, k);
        assert(t.drop_last() =~= tuple_at(front, k / s));
        assert forall|i: int| 0 <= i < t.len() implies t[i] < sizes[i] by {
            if i < front.len() {
                assert(t[i] == tuple_at(front, k / s)[i]);
                assert(sizes[i] == front[i]);
            }
        }
    }
}

/// No tuple comes twice: below the number of tuples, two places hold two
/// tuples.
pub proof fn lemma_tuples_distinct(sizes: Seq<usize>, j: nat, k: nat)
    requires
        j < k < tuple_count(sizes),
    ensures
        tuple_at(sizes, j) != tuple_at(sizes, k),
{
    lemma_tuple_rank_at(sizes, j);
    lemma_tuple_rank_at(sizes, k);
}

/// Every tuple comes: each tuple stands at a place below the number of
/// tuples.
pub proof fn lemma_tuples_complete(sizes: Seq<usize>, t: Seq<usize>)
    requires
        is_tuple(sizes, t),
    ensures
        exists|k: nat| k < tuple_count(sizes) && #[trigger] tuple_at(sizes, k) == t,
{
    lemma_tuple_rank_bound(sizes, t);
    lemma_tuple_at_rank(sizes, t);
}

/// One step of the odometer: `after` is `before` with the coordinate at
/// `place` raised by one and every later coordinate, each at its maximum
/// before, back at zero.
pub open spec fn is_successor(
    sizes: Seq<usize>,
    before: Seq<usize>,
    after: Seq<usize>,
    place: int,
) -> bool {
    &&& 0 <= place < sizes.len()
    &&& before.len() == sizes.len()
    &&& after.len() == sizes.len()
    &&& after[place] == before[place] + 1
    &&& forall|j: int| 0 <= j < place ==> after[j] == before[j]
    &&& forall|j: int| place < j < sizes.len() ==> after[j] == 0 && before[j] + 1 == sizes[j]
}

/// A step of the odometer moves one place on in lexicographic order.
pub proof fn lemma_successor_rank(
    sizes: Seq<usize>,
    before: Seq<usize>,
    after: Seq<usize>,
    place: int,
)
    requires
        is_successor(sizes, before, after, place),
    ensures
        tuple_rank(sizes, after) == tuple_rank(sizes, before) + 1,
    decreases sizes.len(),
{
    let last = sizes.len() - 1;
    let s = sizes.last() as nat;
    if place == last {
        assert(after.drop_last() =~= before.drop_last());
    } else {
        lemma_successor_rank(sizes.drop_last(), before.drop_last(), after.drop_last(), place);
        let r = tuple_rank(sizes.drop_last(), before.drop_last());
        assert(after[last] == 0 && before[last] + 1 == sizes[last]);
        assert((r + 1) * s == r * s + s) by (nonlinear_arith);
    }
}

/// The tuple with every coordinate at its maximum is the last one.
pub proof fn lemma_last_tuple_rank(sizes: Seq<usize>, t: Seq<usize>)
    requires
        t.len() == sizes.len(),
        forall|j: int| 0 <= j < sizes.len() ==> t[j] + 1 == sizes[j],
    ensures
        tuple_rank(sizes, t) + 1 == tuple_count(sizes),
    decreases sizes.len(),
{
    if sizes.len() > 0 {
        lemma_last_tuple_rank(sizes.drop_last(), t.drop_last());
        let r = tuple_rank(sizes.drop_last(), t.drop_last());
        let s = sizes.last() as nat;
        assert(t[sizes.len() - 1] + 1 == sizes[sizes.len() - 1]);
        assert(r * s + s == (r + 1) * s) by (nonlinear_arith);
    }
}

/// The tuple of zeros is the first one.
pub proof fn lemma_first_tuple_rank(sizes: Seq<usize>, t: Seq<usize>)
    requires
        t.len() == sizes.len(),
        forall|j: int| 0 <= j < sizes.len() ==> t[j] == 0,
    ensures
        tuple_rank(sizes, t) == 0,
    decreases sizes.len(),
{
    if sizes.len() > 0 {
        lemma_first_tuple_rank(sizes.drop_last(), t.drop_last());
        assert(t[sizes.len() - 1] == 0);
        assert(0 * (sizes.last() as nat) == 0) by (nonlinear_arith);
    }
}

/// Whether no tuple exists: whether one of the sizes is zero.
fn has_empty_dimension(sizes: &Vec<usize>) -> (b: bool)
    ensures
        b == (tuple_count(sizes@) == 0),
{
    let mut i: usize = 0;
    while i < sizes.len()
        invariant
            0 <= i <= sizes.len(),
            forall|j: int| 0 <= j < i ==> sizes@[j] != 0,
        decreases sizes.len() - i,
    {
        if sizes[i] == 0 {
            proof {
                lemma_tuple_count_zero(sizes@);
            }
            return true;
        }
        i += 1;
    }
    proof {
        lemma_tuple_count_zero(sizes@);
    }
    false
}

/// The tuples of a Cartesian product, one at a time, in lexicographic order.
/// Every tuple comes exactly once (`lemma_tuples_distinct` and
/// `lemma_tuples_complete`).
pub struct CartesianProduct {
    sizes: Vec<usize>,
    idxs: Vec<usize>,
    done: bool,
}

/// A generator of every tuple that picks one index below each of `sizes`.
pub fn cartesian_product(sizes: &[usize]) -> (product: CartesianProduct)
    ensures
        product.wf(),
        product.sizes() == sizes@,
        product.position() == 0,
{
    let mut own: Vec<usize> = Vec::new();
    let mut idxs: Vec<usize> = Vec::new();
    let mut i: usize = 0;
    while i < sizes.len()
        invariant
            0 <= i <= sizes.len(),
            own@ == sizes@.take(i as int),
            idxs@.len() == i,
            forall|j: int| 0 <= j < i ==> idxs@[j] == 0,
        decreases sizes.len() - i,
    {
        own.push(sizes[i]);
        idxs.push(0);
        proof {
            assert(own@ =~= sizes@.take(i + 1));
        }
        i += 1;
    }
    proof {
        assert(sizes@.take(i as int) =~= sizes@);
        lemma_first_tuple_rank(own@, idxs@);
        lemma_tuple_count_zero(own@);
    }
    CartesianProduct { sizes: own, idxs, done: false }
}

impl CartesianProduct {
    /// The generator holds one index for each dimension, and until it has
    /// run out of tuples these indices form the tuple that comes next.
    pub closed spec fn wf(&self) -> bool {
        &&& self.idxs@.len() == self.sizes@.len()
        &&& !self.done && tuple_count(self.sizes@) > 0 ==> is_tuple(self.sizes@, self.idxs@)
    }

    /// The sizes of the dimensions.
    pub closed spec fn sizes(&self) -> Seq<usize> {
        self.sizes@
    }

    /// How many tuples the generator has handed out.
    pub closed spec fn position(&self) -> nat {
        if self.done || tuple_count(self.sizes@) == 0 {
            tuple_count(self.sizes@)
        } else {
            tuple_rank(self.sizes@, self.idxs@)
        }
    }

    /// How many tuples are still to come.
    pub open spec fn remaining(&self) -> nat {
        (tuple_count(self.sizes()) - self.position()) as nat
    }

    /// A well-formed generator never stands beyond the last tuple.
    pub proof fn lemma_position_bound(&self)
        requires
            self.wf(),
        ensures
            self.position() <= tuple_count(self.sizes()),
    {
        if !self.done && tuple_count(self.sizes@) > 0 {
            lemma_tuple_rank_bound(self.sizes@, self.idxs@);
        }
    }

    /// The next tuple in lexicographic order, or `None` once all
    /// `tuple_count` of them have been handed out.
    pub fn next(&mut self) -> (item: Option<Vec<usize>>)
        requires
            old(self).wf(),
        ensures
            final(self).wf(),
            final(self).sizes() == old(self).sizes(),
            old(self).position() < tuple_count(old(self).sizes()) ==> item.is_some()
                && item.unwrap()@ == tuple_at(old(self).sizes(), old(self).position())
                && final(self).position() == old(self).position() + 1,
            old(self).position() >= tuple_count(old(self).sizes()) ==> item.is_none()
                && final(self).position() == old(self).position(),
            item.is_some() ==> is_tuple(old(self).sizes(), item.unwrap()@),
    {
        if self.done || has_empty_dimension(&self.sizes) {
            return None;
        }
        let res = self.idxs.clone();
        let ghost before = self.idxs@;
        proof {
            assert(res@ =~= before);
            lemma_tuple_at_rank(self.sizes@, before);
            lemma_tuple_rank_bound(self.sizes@, before);
        }
        self.done = true;
        let mut i: usize = self.idxs.len();
        while i > 0
            invariant_except_break
                self.done,
                forall|j: int| 0 <= j < i ==> self.idxs@[j] == before[j],
                forall|j: int|
                    i <= j < self.sizes@.len() ==> self.idxs@[j] == 0 && before[j] + 1
                        == self.sizes@[j],
            invariant
                0 <= i <= self.idxs@.len(),
                self.sizes@ == old(self).sizes@,
                self.idxs@.len() == self.sizes@.len(),
                before.len() == self.sizes@.len(),
                is_tuple(self.sizes@, before),
            ensures
                self.sizes@ == old(self).sizes@,
                self.idxs@.len() == self.sizes@.len(),
                self.done ==> forall|j: int|
                    0 <= j < self.sizes@.len() ==> before[j] + 1 == self.sizes@[j],
                !self.done ==> is_successor(self.sizes@, before, self.idxs@, i as int)
                    && self.idxs@[i as int] < self.sizes@[i as int],
            decreases i,
        {
            i -= 1;
            assert(before[i as int] < self.sizes@[i as int]);
            let raised = self.idxs[i] + 1;
            if raised >= self.sizes[i] {
                self.idxs.set(i, 0);
            } else {
                self.idxs.set(i, raised);
                self.done = false;
                break ;
            }
        }
        proof {
            if self.done {
                lemma_last_tuple_rank(self.sizes@, before);
            } else {
                lemma_successor_rank(self.sizes@, before, self.idxs@, i as int);
                assert(is_tuple(self.sizes@, self.idxs@));
            }
        }
        Some(res)
    }
}

/// The number of orderings of `n` things.
pub open spec fn factorial(n: nat) -> nat
    decreases n,
{
    if n == 0 {
        1
    } else {
        n * factorial((n - 1) as nat)
    }
}

/// A factorial is never zero.
pub proof fn lemma_factorial_positive(n: nat)
    ensures
        factorial(n) >= 1,
    decreases n,
{
    if n > 0 {
        lemma_factorial_positive((n - 1) as nat);
        assert(n * factorial((n - 1) as nat) >= 1) by (nonlinear_arith)
            requires
                n >= 1,
                factorial((n - 1) as nat) >= 1,
        ;
    }
}

/// The indices below `n` in rising order.
pub open spec fn rising(n: nat) -> Seq<usize> {
    Seq::new(n, |i: int| i as usize)
}

/// `order` holds every index below its length exactly once.
pub open spec fn is_ordering(order: Seq<usize>) -> bool {
    &&& forall|i: int| 0 <= i < order.len() ==> order[i] < order.len()
    &&& forall|i: int, j: int| 0 <= i < j < order.len() ==> order[i] != order[j]
}

/// `order` with the entries at `a` and `b` exchanged.
pub open spec fn exchanged(order: Seq<usize>, a: int, b: int) -> Seq<usize> {
    order.update(a, order[b]).update(b, order[a])
}

/// Counters as the generator keeps them: the one at place `j` counts the
/// exchanges made at `j` since it last started over, at most `j` of them.
pub open spec fn are_counters(counters: Seq<usize>) -> bool {
    forall|j: int| 0 <= j < counters.len() ==> counters[j] <= j
}

/// The lowest place from `from` on whose counter is not used up, or the
/// number of places if there is none.
pub open spec fn open_place(counters: Seq<usize>, from: int) -> int
    decreases counters.len() - from,
{
    if from >= counters.len() {
        counters.len() as int
    } else if counters[from] < from {
        from
    } else {
        open_place(counters, from + 1)
    }
}

/// The counters read as one number: the one at place `j` weighs `j!`.
pub open spec fn counter_rank(counters: Seq<usize>) -> nat
    decreases counters.len(),
{
    if counters.len() == 0 {
        0
    } else {
        counter_rank(counters.drop_last()) + (counters.last() as nat) * factorial(
            (counters.len() - 1) as nat,
        )
    }
}

/// The entry that is exchanged with the one at `place`: the first entry at
/// an even place, the one that the counter points to at an odd place.
pub open spec fn partner(counters: Seq<usize>, place: int) -> int {
    if place % 2 == 1 {
        counters[place] as int
    } else {
        0
    }
}

/// One move of the generator: at the lowest open place the entry is
/// exchanged with its partner and the counter raised, and the counters
/// below start over.
pub open spec fn turned(order: Seq<usize>, counters: Seq<usize>) -> (Seq<usize>, Seq<usize>) {
    let place = open_place(counters, 1);
    (
        exchanged(order, place, partner(counters, place)),
        Seq::new(
            counters.len(),
            |k: int|
                if k < place {
                    0usize
                } else if k == place {
                    (counters[k] + 1) as usize
                } else {
                    counters[k]
                },
        ),
    )
}

/// The generator's ordering and counters after `k` moves from the rising
/// order.
pub open spec fn state_at(n: nat, k: nat) -> (Seq<usize>, Seq<usize>)
    decreases k,
{
    if k == 0 {
        (rising(n), Seq::new(n, |i: int| 0usize))
    } else {
        let before = state_at(n, (k - 1) as nat);
        turned(before.0, before.1)
    }
}

/// The ordering of the indices below `n` that comes at place `k`.
pub open spec fn ordering_at(n: nat, k: nat) -> Seq<usize> {
    state_at(n, k).0
}

/// What `open_place` finds: a place in range whose counter is not used up,
/// with only used-up counters between `from` and it.
pub proof fn lemma_open_place(counters: Seq<usize>, from: int)
    requires
        0 <= from <= counters.len(),
    ensures
        from <= open_place(counters, from) <= counters.len(),
        open_place(counters, from) < counters.len() ==> counters[open_place(counters, from)]
            < open_place(counters, from),
        forall|j: int| from <= j < open_place(counters, from) && j < counters.len() ==> counters[j] >= j,
    decreases counters.len() - from,
{
    if from < counters.len() && counters[from] >= from {
        lemma_open_place(counters, from + 1);
    }
}

/// Counters that are all used up stand for the last place but one short of
/// the factorial.
pub proof fn lemma_rank_used_up(counters: Seq<usize>)
    requires
        forall|j: int| 0 <= j < counters.len() ==> counters[j] == j,
    ensures
        counter_rank(counters) + 1 == factorial(counters.len()),
    decreases counters.len(),
{
    if counters.len() > 0 {
        let m = (counters.len() - 1) as nat;
        lemma_rank_used_up(counters.drop_last());
        assert(counters[m as int] == m);
        assert(factorial(m) + m * factorial(m) == (m + 1) * factorial(m)) by (nonlinear_arith);
    }
}

/// Counters that all stand at zero stand for the first place.
pub proof fn lemma_rank_fresh(counters: Seq<usize>)
    requires
        forall|j: int| 0 <= j < counters.len() ==> counters[j] == 0,
    ensures
        counter_rank(counters) == 0,
    decreases counters.len(),
{
    if counters.len() > 0 {
        lemma_rank_fresh(counters.drop_last());
        assert(counters[counters.len() - 1] == 0);
        assert(0 * factorial((counters.len() - 1) as nat) == 0) by (nonlinear_arith);
    }
}

/// Counters stand for a place below the factorial of their number.
pub proof fn lemma_rank_bound(counters: Seq<usize>)
    requires
        are_counters(counters),
    ensures
        counter_rank(counters) < factorial(counters.len()),
    decreases counters.len(),
{
    if counters.len() > 0 {
        let m = (counters.len() - 1) as nat;
        lemma_rank_bound(counters.drop_last());
        let c = counters.last() as nat;
        let f = factorial(m);
        assert(counters[m as int] <= m);
        assert(c * f <= m * f) by (nonlinear_arith)
            requires
                c <= m,
        ;
        assert(f + m * f == (m + 1) * f) by (nonlinear_arith);
    }
}

/// A move raises the number that the counters stand for by one.
pub proof fn lemma_rank_turned(before: Seq<usize>, after: Seq<usize>, place: int)
    requires
        0 <= place < before.len(),
        after.len() == before.len(),
        after[place] == before[place] + 1,
        forall|j: int| 0 <= j < place ==> after[j] == 0 && before[j] == j,
        forall|j: int| place < j < before.len() ==> after[j] == before[j],
    ensures
        counter_rank(after) == counter_rank(before) + 1,
    decreases before.len(),
{
    let m = (before.len() - 1) as nat;
    if place == m {
        lemma_rank_used_up(before.drop_last());
        lemma_rank_fresh(after.drop_last());
        let b = before.last() as nat;
        let f = factorial(m);
        assert((b + 1) * f == b * f + f) by (nonlinear_arith);
    } else {
        lemma_rank_turned(before.drop_last(), after.drop_last(), place);
        assert(after[m as int] == before[m as int]);
    }
}

/// Exchanging two entries of an ordering gives an ordering.
pub proof fn lemma_exchanged_ordering(order: Seq<usize>, a: int, b: int)
    requires
        is_ordering(order),
        0 <= a < order.len(),
        0 <= b < order.len(),
    ensures
        is_ordering(exchanged(order, a, b)),
        exchanged(order, a, b).len() == order.len(),
{
    let after = exchanged(order, a, b);
    assert forall|i: int, j: int| 0 <= i < j < after.len() implies after[i] != after[j] by {
        let pi = if i == a {
            b
        } else if i == b {
            a
        } else {
            i
        };
        let pj = if j == a {
            b
        } else if j == b {
            a
        } else {
            j
        };
        assert(after[i] == order[pi]);
        assert(after[j] == order[pj]);
        if pi < pj {
            assert(order[pi] != order[pj]);
        } else {
            assert(order[pj] != order[pi]);
        }
    }
}

/// Below the factorial every place holds an ordering of the indices, and
/// the counters there stand for that place.
pub proof fn lemma_state_at(n: nat, k: nat)
    requires
        n <= usize::MAX,
        k < factorial(n),
    ensures
        state_at(n, k).0.len() == n,
        state_at(n, k).1.len() == n,
        is_ordering(state_at(n, k).0),
        are_counters(state_at(n, k).1),
        counter_rank(state_at(n, k).1) == k,
    decreases k,
{
    if k == 0 {
        lemma_rank_fresh(state_at(n, k).1);
    } else {
        lemma_state_at(n, (k - 1) as nat);
        let before = state_at(n, (k - 1) as nat);
        lemma_turned(before.0, before.1);
    }
}

/// A move from an ordering with counters that are not all used up gives an
/// ordering again, with counters that stand for the next place.
pub proof fn lemma_turned(order: Seq<usize>, counters: Seq<usize>)
    requires
        is_ordering(order),
        are_counters(counters),
        order.len() == counters.len(),
        counters.len() <= usize::MAX,
        counter_rank(counters) + 1 < factorial(counters.len()),
    ensures
        1 <= open_place(counters, 1) < counters.len(),
        turned(order, counters).0.len() == order.len(),
        turned(order, counters).1.len() == order.len(),
        is_ordering(turned(order, counters).0),
        are_counters(turned(order, counters).1),
        counter_rank(turned(order, counters).1) == counter_rank(counters) + 1,
{
    let place = open_place(counters, 1);
    if counters.len() == 0 {
        assert(factorial(0) == 1);
    } else if place >= counters.len() {
        lemma_open_place(counters, 1);
        assert(counters[0] == 0);
        assert forall|j: int| 0 <= j < counters.len() implies counters[j] == j by {
            if j >= 1 {
                assert(counters[j] >= j);
            }
        }
        lemma_rank_used_up(counters);
    } else {
        lemma_open_place(counters, 1);
        let after = turned(order, counters).1;
        assert(counters[0] == 0);
        assert(counters[place] < place);
        lemma_rank_turned(counters, after, place);
        lemma_exchanged_ordering(order, place, partner(counters, place));
    }
}

/// Counters that are not all used up do not stand for the last place.
pub proof fn lemma_open_not_last(counters: Seq<usize>)
    requires
        are_counters(counters),
        counters.len() <= usize::MAX,
        1 <= counters.len(),
        open_place(counters, 1) < counters.len(),
    ensures
        counter_rank(counters) + 1 < factorial(counters.len()),
{
    let place = open_place(counters, 1);
    lemma_open_place(counters, 1);
    let after = Seq::new(
        counters.len(),
        |k: int|
            if k < place {
                0usize
            } else if k == place {
                (counters[k] + 1) as usize
            } else {
                counters[k]
            },
    );
    assert(counters[0] == 0);
    assert(counters[place] < place);
    lemma_rank_turned(counters, after, place);
    lemma_rank_bound(after);
}

/// The orderings of the indices below a size, one at a time. Every ordering
/// comes exactly once (`heap::lemma_orderings_distinct` and
/// `heap::lemma_orderings_complete`), in the order of Heap's method, which
/// passes from each ordering to the next by one exchange of two entries.
pub struct Permutations {
    idxs: Vec<usize>,
    swaps: Vec<usize>,
    i: usize,
}

/// A generator of every ordering of the indices below `size`.
pub fn permutations(size: usize) -> (orderings: Permutations)
    ensures
        orderings.wf(),
        orderings.size() == size,
        orderings.position() == 0,
{
    let mut idxs: Vec<usize> = Vec::new();
    let mut swaps: Vec<usize> = Vec::new();
    let mut k: usize = 0;
    while k < size
        invariant
            0 <= k <= size,
            idxs@.len() == k,
            swaps@.len() == k,
            forall|j: int| 0 <= j < k ==> idxs@[j] == j && swaps@[j] == 0,
        decreases size - k,
    {
        idxs.push(k);
        swaps.push(0);
        k += 1;
    }
    proof {
        assert(idxs@ =~= rising(size as nat));
        assert(swaps@ =~= Seq::new(size as nat, |i: int| 0usize));
    }
    Permutations { idxs, swaps, i: 0 }
}

impl Permutations {
    /// The generator holds an ordering and its counters: before the first
    /// call the rising order, afterwards the state that the moves made so
    /// far lead to.
    pub closed spec fn wf(&self) -> bool {
        &&& self.idxs@.len() == self.swaps@.len()
        &&& self.idxs@.len() <= usize::MAX
        &&& self.i == 0 ==> (self.idxs@, self.swaps@) == state_at(self.idxs@.len(), 0)
        &&& 0 < self.i < self.idxs@.len() ==> {
            &&& self.i == 1
            &&& are_counters(self.swaps@)
            &&& (self.idxs@, self.swaps@) == state_at(
                self.idxs@.len(),
                counter_rank(self.swaps@),
            )
        }
    }

    /// The number of indices that are ordered.
    pub closed spec fn size(&self) -> nat {
        self.idxs@.len()
    }

    /// How many orderings the generator has handed out.
    pub closed spec fn position(&self) -> nat {
        if self.i == 0 {
            0
        } else if self.i >= self.idxs@.len() {
            factorial(self.idxs@.len())
        } else {
            counter_rank(self.swaps@) + 1
        }
    }

    /// How many orderings are still to come.
    pub open spec fn remaining(&self) -> nat {
        (factorial(self.size()) - self.position()) as nat
    }

    /// A well-formed generator never stands beyond the last ordering, and
    /// it orders no more indices than the machine can count.
    pub proof fn lemma_position_bound(&self)
        requires
            self.wf(),
        ensures
            self.position() <= factorial(self.size()),
            self.size() <= usize::MAX,
    {
        lemma_factorial_positive(self.idxs@.len());
        if 0 < self.i < self.idxs@.len() {
            lemma_rank_bound(self.swaps@);
        }
    }

    /// The next ordering, or `None` once all `factorial(size)` of them have
    /// been handed out. Each ordering differs from the one before by one
    /// exchange of two entries.
    pub fn next(&mut self) -> (item: Option<Vec<usize>>)
        requires
            old(self).wf(),
        ensures
            final(self).wf(),
            final(self).size() == old(self).size(),
            old(self).position() < factorial(old(self).size()) ==> item.is_some()
                && item.unwrap()@ == ordering_at(old(self).size(), old(self).position())
                && final(self).position() == old(self).position() + 1,
            old(self).position() >= factorial(old(self).size()) ==> item.is_none()
                && final(self).position() == old(self).position(),
            item.is_some() ==> item.unwrap()@.len() == old(self).size() && is_ordering(
                item.unwrap()@,
            ),
    {
        let n = self.swaps.len();
        let ghost order = self.idxs@;
        let ghost counters = self.swaps@;
        if self.i > 0 {
            loop
                invariant
                    n == self.swaps@.len(),
                    n == counters.len(),
                    n == self.idxs@.len(),
                    self.idxs@ == order,
                    1 <= self.i,
                    old(self).wf(),
                    counters == old(self).swaps@,
                    order == old(self).idxs@,
                    1 <= old(self).i <= self.i,
                    old(self).i < n ==> self.i <= n,
                    old(self).i < n ==> are_counters(counters),
                    old(self).i < n ==> forall|j: int| 1 <= j < self.i ==> counters[j] == j,
                    old(self).i < n ==> forall|j: int| 1 <= j < self.i ==> self.swaps@[j] == 0,
                    old(self).i < n ==> forall|j: int|
                        self.i <= j < n || j == 0 ==> self.swaps@[j] == counters[j],
                    old(self).i < n ==> open_place(counters, 1) == open_place(
                        counters,
                        self.i as int,
                    ),
                    old(self).i >= n ==> *self == *old(self),
                ensures
                    self.i < n,
                    old(self).i == 1,
                    self.i == open_place(counters, 1),
                    counters[self.i as int] < self.i,
                    forall|j: int| 1 <= j < self.i ==> self.swaps@[j] == 0,
                    forall|j: int| self.i <= j < n || j == 0 ==> self.swaps@[j] == counters[j],
                decreases n - self.i,
            {
                if self.i >= n {
                    proof {
                        if old(self).i < n {
                            lemma_open_place(counters, 1);
                            assert(counters[0] == 0);
                            assert forall|j: int| 0 <= j < n implies counters[j] == j by {}
                            lemma_rank_used_up(counters);
                        }
                    }
                    return None;
                }
                if self.swaps[self.i] < self.i {
                    break ;
                }
                self.swaps.set(self.i, 0);
                self.i += 1;
            }
            let place = self.i;
            assert(place & 1 == place % 2) by (bit_vector);
            assert((place & 1) * self.swaps@[place as int] <= self.swaps@[place as int])
                by (nonlinear_arith)
                requires
                    place & 1 <= 1,
            ;
            let with = (place & 1) * self.swaps[place];
            assert(with == partner(counters, place as int)) by (nonlinear_arith)
                requires
                    place & 1 == place % 2,
                    with == (place & 1) * counters[place as int],
                    partner(counters, place as int) == if place % 2 == 1 {
                        counters[place as int] as int
                    } else {
                        0
                    },
            ;
            let moved = self.idxs[place];
            let other = self.idxs[with];
            self.idxs.set(place, other);
            self.idxs.set(with, moved);
            let raised = self.swaps[place] + 1;
            self.swaps.set(place, raised);
            proof {
                lemma_rank_bound(counters);
                lemma_state_at(n as nat, counter_rank(counters));
                lemma_open_not_last(counters);
                lemma_turned(order, counters);
                assert(self.idxs@ =~= turned(order, counters).0);
                let after = turned(order, counters).1;
                assert(place as int == open_place(counters, 1));
                assert(self.swaps@.len() == after.len());
                assert forall|k: int| 0 <= k < n implies self.swaps@[k] == after[k] by {
                    if k == 0 {
                        assert(counters[0] == 0);
                    } else if k < place {
                        assert(self.swaps@[k] == 0);
                    } else if k == place {
                        assert(self.swaps@[k] == counters[k] + 1);
                    } else {
                        assert(self.swaps@[k] == counters[k]);
                    }
                }
                assert(self.swaps@ =~= turned(order, counters).1);
            }
        }
        self.i = 1;
        let res = self.idxs.clone();
        proof {
            assert(res@ =~= self.idxs@);
            lemma_factorial_positive(n as nat);
            old(self).lemma_position_bound();
            lemma_state_at(n as nat, old(self).position());
            if old(self).i == 0 {
                lemma_rank_fresh(self.swaps@);
                assert(factorial(1) == 1 && factorial(0) == 1) by {
                    reveal_with_fuel(factorial, 2);
                }
            }
        }
        Some(res)
    }
}

} // verus!
