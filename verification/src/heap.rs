//! Why the generator of orderings visits every ordering exactly once.
//!
//! The generator follows Heap's method: to go through the orderings of the
//! first `len` entries it goes through those of the first `len - 1` entries
//! `len` times, once for each entry that it brings to the last of the `len`
//! places. A run through the orderings of `len` entries is a block, and each
//! of its `len` parts a round. The proof names, for every block and round,
//! the place that each entry comes from.

use crate::util::{
    are_counters, counter_rank, exchanged, factorial, is_ordering, lemma_factorial_positive,
    open_place, ordering_at, partner, rising, state_at, turned,
};
use vstd::prelude::*;

verus! {

/// The place from which the entry at `x` has come when a block of `len`
/// entries ends.
pub open spec fn end_index(len: int, x: int) -> int {
    if len <= 1 || x >= len || x < 0 {
        x
    } else if len == 2 {
        1 - x
    } else if len % 2 == 1 {
        if x == 0 {
            len - 1
        } else if x == len - 1 {
            0
        } else {
            x
        }
    } else {
        if x == 0 {
            len - 3
        } else if x == 1 {
            len - 2
        } else if x == len - 2 {
            len - 1
        } else if x == len - 1 {
            0
        } else {
            x - 1
        }
    }
}

/// For an even place `i`, the rounds move the entries of the first `i + 1`
/// places round one cycle. This is the place that stands at `t` in that
/// cycle.
pub open spec fn cycle_entry(i: int, t: int) -> int {
    if t == 0 {
        i
    } else if t == i {
        0
    } else if t == i - 1 {
        i - 1
    } else if t == i - 2 {
        i - 2
    } else {
        i - 2 - t
    }
}

/// Where the place `x` stands in the cycle of the even place `i`.
pub open spec fn cycle_place(i: int, x: int) -> int {
    if x == i {
        0
    } else if x == 0 {
        i
    } else if x == i - 1 {
        i - 1
    } else if x == i - 2 {
        i - 2
    } else {
        i - 2 - x
    }
}

/// The place from which the entry at `x` has come when round `r` begins in a
/// block of `i + 1` entries.
pub open spec fn round_index(i: int, r: int, x: int) -> int {
    if r <= 0 || x > i || x < 0 {
        x
    } else if i % 2 == 1 {
        if i == 1 {
            1 - x
        } else if x == i {
            if r == 1 {
                i - 1
            } else if r == i {
                0
            } else {
                r - 1
            }
        } else if x == 0 {
            if r % 2 == 1 {
                i
            } else {
                0
            }
        } else if x == i - 1 {
            if r == i {
                i - 2
            } else if r % 2 == 1 {
                0
            } else {
                i
            }
        } else if x < r {
            if x == 1 {
                i - 1
            } else {
                x - 1
            }
        } else {
            x
        }
    } else {
        let s = cycle_place(i, x) + r;
        cycle_entry(
            i,
            if s >= i + 1 {
                s - (i + 1)
            } else {
                s
            },
        )
    }
}

/// The place that `x` names once the places `a` and `b` are exchanged.
pub open spec fn swap_index(a: int, b: int, x: int) -> int {
    if x == a {
        b
    } else if x == b {
        a
    } else {
        x
    }
}

/// The place with which the generator exchanges place `i` at the end of
/// round `r`.
pub open spec fn round_partner(i: int, r: int) -> int {
    if i % 2 == 1 {
        r
    } else {
        0
    }
}

/// From one round to the next: the entries at the start of round `r + 1` are
/// those at the end of round `r` with place `i` and its partner exchanged.
pub proof fn lemma_round_step(i: int, r: int, x: int)
    requires
        1 <= i,
        0 <= r < i,
        0 <= x,
    ensures
        round_index(i, r + 1, x) == round_index(
            i,
            r,
            end_index(i, swap_index(i, round_partner(i, r), x)),
        ),
{
}

/// The end of a block of `i + 1` entries is the end of its last round.
pub proof fn lemma_round_end(i: int, x: int)
    requires
        1 <= i,
        0 <= x,
    ensures
        end_index(i + 1, x) == round_index(i, i, end_index(i, x)),
{
}

/// Round after round another entry stands at the last place of the block.
pub proof fn lemma_round_last(i: int, r: int, s: int)
    requires
        1 <= i,
        0 <= r < s <= i,
    ensures
        round_index(i, r, i) != round_index(i, s, i),
        0 <= round_index(i, r, i) <= i,
        0 <= round_index(i, s, i) <= i,
{
}

/// At the start of a round the entries of the block have changed places
/// among themselves, and no two have come from the same place.
pub proof fn lemma_round_index(i: int, r: int, x: int, y: int)
    requires
        1 <= i,
        0 <= r <= i,
        0 <= x < y,
    ensures
        round_index(i, r, x) != round_index(i, r, y),
        0 <= round_index(i, r, x),
        x <= i ==> round_index(i, r, x) <= i,
        x > i ==> round_index(i, r, x) == x,
        y <= i ==> round_index(i, r, y) <= i,
        y > i ==> round_index(i, r, y) == y,
{
}

/// The entries of `order` as they stand when round `r` begins in a block of
/// `i + 1` entries.
pub open spec fn round_start(order: Seq<usize>, i: int, r: int) -> Seq<usize> {
    Seq::new(order.len(), |x: int| order[round_index(i, r, x)])
}

/// The entries of `order` as they stand when a block of `len` entries ends.
pub open spec fn block_end(order: Seq<usize>, len: int) -> Seq<usize> {
    Seq::new(order.len(), |x: int| order[end_index(len, x)])
}

/// The ordering after `m` moves of a block of `len` entries that began with
/// `order`: move `m` falls into round `m / (len - 1)!`, and is move
/// `m % (len - 1)!` of that round's smaller block.
pub open spec fn block_at(len: nat, order: Seq<usize>, m: nat) -> Seq<usize>
    decreases len,
{
    if len <= 1 {
        order
    } else {
        let f = factorial((len - 1) as nat);
        block_at((len - 1) as nat, round_start(order, len - 1, (m / f) as int), m % f)
    }
}

/// The counters after `m` moves of a block of `len` entries: the counter at
/// each place below `len` holds the round that the move falls into at that
/// place.
pub open spec fn counters_at(len: nat, counters: Seq<usize>, m: nat) -> Seq<usize>
    decreases len,
{
    if len <= 1 {
        counters
    } else {
        let f = factorial((len - 1) as nat);
        counters_at((len - 1) as nat, counters.update(len - 1, (m / f) as usize), m % f)
    }
}

/// No two places of `order` hold the same entry.
pub open spec fn is_injective(order: Seq<usize>) -> bool {
    forall|x: int, y: int| 0 <= x < y < order.len() ==> order[x] != order[y]
}

/// Division of a move's number by the number of moves of a round, for the
/// move and for the one after it.
pub proof fn lemma_round_of_move(m: nat, f: nat, len: nat)
    requires
        f >= 1,
        m < len * f,
    ensures
        m / f < len,
        m % f < f,
        m == (m / f) * f + m % f,
        m % f + 1 < f ==> (m + 1) / f == m / f && (m + 1) % f == m % f + 1,
        m % f + 1 == f ==> (m + 1) / f == m / f + 1 && (m + 1) % f == 0,
        m == 0 ==> m / f == 0 && m % f == 0,
        m + 1 == len * f ==> m / f + 1 == len && m % f + 1 == f,
{
    vstd::arithmetic::div_mod::lemma_fundamental_div_mod(m as int, f as int);
    vstd::arithmetic::div_mod::lemma_mod_bound(m as int, f as int);
    vstd::arithmetic::div_mod::lemma_div_pos_is_pos(m as int, f as int);
    let q = (m / f) as int;
    let r = (m % f) as int;
    assert(m == f * q + r);
    assert(q < len) by (nonlinear_arith)
        requires
            m == f * q + r,
            0 <= r,
            m < len * f,
            f >= 1,
    ;
    assert(f * q == q * f) by (nonlinear_arith);
    if r + 1 < f {
        vstd::arithmetic::div_mod::lemma_fundamental_div_mod_converse(
            (m + 1) as int,
            f as int,
            q,
            r + 1,
        );
    } else {
        assert(f * (q + 1) == f * q + f) by (nonlinear_arith);
        vstd::arithmetic::div_mod::lemma_fundamental_div_mod_converse(
            (m + 1) as int,
            f as int,
            q + 1,
            0,
        );
    }
    if m == 0 {
        vstd::arithmetic::div_mod::lemma_fundamental_div_mod_converse(0, f as int, 0, 0);
    }
    if m + 1 == len * f {
        assert(q + 1 == len) by (nonlinear_arith)
            requires
                m == f * q + r,
                0 <= r < f,
                m + 1 == len * f,
                q < len,
        ;
        assert(r + 1 == f) by (nonlinear_arith)
            requires
                m == f * q + r,
                m + 1 == len * f,
                q + 1 == len,
        ;
    }
}

/// The factorials of zero and one are one.
pub proof fn lemma_factorial_small(len: nat)
    requires
        len <= 1,
    ensures
        factorial(len) == 1,
{
    reveal_with_fuel(factorial, 2);
    if len == 1 {
        assert(factorial(1) == 1 * factorial(0));
    }
}

/// Of two moves the later falls into no earlier round, and into a later
/// place of the same round if into the same.
pub proof fn lemma_rounds_ordered(a: nat, b: nat, f: nat)
    requires
        f >= 1,
        a < b,
    ensures
        a / f <= b / f,
        a / f == b / f ==> a % f < b % f,
{
    vstd::arithmetic::div_mod::lemma_div_is_ordered(a as int, b as int, f as int);
    vstd::arithmetic::div_mod::lemma_fundamental_div_mod(a as int, f as int);
    vstd::arithmetic::div_mod::lemma_fundamental_div_mod(b as int, f as int);
}

/// A factorial is the number below it times the factorial of that number.
pub proof fn lemma_factorial_unfold(len: nat)
    requires
        len >= 1,
    ensures
        factorial(len) == len * factorial((len - 1) as nat),
        factorial((len - 1) as nat) >= 1,
{
    lemma_factorial_positive((len - 1) as nat);
}

/// What the counters of a block hold: outside the block and at place zero
/// what they held before, inside a number up to the place. Before the first
/// move the counters inside are zero, after the last each has reached its
/// place, and the counter at the last place of the block is the round.
pub proof fn lemma_counters_at(len: nat, counters: Seq<usize>, m: nat)
    requires
        len <= counters.len() <= usize::MAX,
        m < factorial(len),
    ensures
        counters_at(len, counters, m).len() == counters.len(),
        forall|j: int|
            0 <= j < counters.len() && (j == 0 || j >= len) ==> counters_at(len, counters, m)[j]
                == counters[j],
        forall|j: int| 1 <= j < len ==> counters_at(len, counters, m)[j] <= j,
        m == 0 ==> forall|j: int| 1 <= j < len ==> counters_at(len, counters, m)[j] == 0,
        m + 1 == factorial(len) ==> forall|j: int|
            1 <= j < len ==> counters_at(len, counters, m)[j] == j,
        len >= 2 ==> counters_at(len, counters, m)[len - 1] == m / factorial((len - 1) as nat),
    decreases len,
{
    if len >= 2 {
        let f = factorial((len - 1) as nat);
        lemma_factorial_unfold(len);
        lemma_round_of_move(m, f, len);
        let inner = counters.update(len - 1, (m / f) as usize);
        let low = counters_at((len - 1) as nat, inner, m % f);
        lemma_counters_at((len - 1) as nat, inner, m % f);
        assert(counters_at(len, counters, m) == low);
        assert(low[len - 1] == inner[len - 1]);
        assert forall|j: int|
            0 <= j < counters.len() && (j == 0 || j >= len) implies low[j] == counters[j] by {
            assert(low[j] == inner[j]);
        }
        assert forall|j: int| 1 <= j < len implies low[j] <= j by {
            if j == len - 1 {
                assert(low[j] == inner[j]);
            }
        }
        if m == 0 {
            assert forall|j: int| 1 <= j < len implies low[j] == 0 by {
                if j == len - 1 {
                    assert(low[j] == inner[j]);
                }
            }
        }
        if m + 1 == factorial(len) {
            assert forall|j: int| 1 <= j < len implies low[j] == j by {
                if j == len - 1 {
                    assert(low[j] == inner[j]);
                }
            }
        }
    }
}

/// A block begins with the ordering it was given.
pub proof fn lemma_block_start(len: nat, order: Seq<usize>)
    ensures
        block_at(len, order, 0) == order,
    decreases len,
{
    if len >= 2 {
        let f = factorial((len - 1) as nat);
        lemma_factorial_unfold(len);
        lemma_factorial_positive(len);
        lemma_round_of_move(0, f, len);
        assert(round_start(order, len - 1, 0) =~= order);
        lemma_block_start((len - 1) as nat, order);
    }
}

/// A block leaves the entries from place `len` on where they are, and keeps
/// the number of entries.
pub proof fn lemma_block_keeps(len: nat, order: Seq<usize>, m: nat)
    requires
        m < factorial(len),
    ensures
        block_at(len, order, m).len() == order.len(),
        forall|x: int| len <= x < order.len() ==> block_at(len, order, m)[x] == order[x],
    decreases len,
{
    if len >= 2 {
        let f = factorial((len - 1) as nat);
        lemma_factorial_unfold(len);
        lemma_round_of_move(m, f, len);
        let start = round_start(order, len - 1, (m / f) as int);
        lemma_block_keeps((len - 1) as nat, start, m % f);
        assert forall|x: int| len <= x < order.len() implies block_at(len, order, m)[x]
            == order[x] by {
            assert(start[x] == order[round_index(len - 1, (m / f) as int, x)]);
        }
    }
}

/// A block ends with each entry at the place that `end_index` names.
pub proof fn lemma_block_end(len: nat, order: Seq<usize>)
    requires
        len <= order.len(),
    ensures
        block_at(len, order, (factorial(len) - 1) as nat) == block_end(order, len as int),
    decreases len,
{
    lemma_factorial_positive(len);
    if len >= 2 {
        let f = factorial((len - 1) as nat);
        let m = (factorial(len) - 1) as nat;
        lemma_factorial_unfold(len);
        lemma_round_of_move(m, f, len);
        let start = round_start(order, len - 1, len - 1);
        lemma_block_end((len - 1) as nat, start);
        let end = block_end(start, len - 1);
        assert forall|x: int| 0 <= x < order.len() implies end[x] == block_end(
            order,
            len as int,
        )[x] by {
            lemma_round_end(len - 1, x);
            let y = end_index(len - 1, x);
            assert(0 <= y < order.len());
            assert(start[y] == order[round_index(len - 1, len - 1, y)]);
        }
        assert(end =~= block_end(order, len as int));
    } else {
        assert(block_end(order, len as int) =~= order);
    }
}

/// The lowest open place is the first place whose counter has not reached
/// it, when every counter before has.
pub proof fn lemma_open_place_is(counters: Seq<usize>, from: int, place: int)
    requires
        0 <= from <= place < counters.len(),
        forall|j: int| from <= j < place ==> counters[j] >= j,
        counters[place] < place,
    ensures
        open_place(counters, from) == place,
    decreases place - from,
{
    if from < place {
        lemma_open_place_is(counters, from + 1, place);
    }
}

/// A move of the generator takes a block from one of its orderings to the
/// next: what `turned` makes of the ordering and the counters after `m`
/// moves is the ordering and the counters after `m + 1`.
pub proof fn lemma_block_move(len: nat, order: Seq<usize>, counters: Seq<usize>, m: nat)
    requires
        len <= order.len(),
        order.len() == counters.len(),
        counters.len() <= usize::MAX,
        counters.len() > 0 ==> counters[0] == 0,
        m + 1 < factorial(len),
    ensures
        turned(block_at(len, order, m), counters_at(len, counters, m)) == (
            block_at(len, order, m + 1),
            counters_at(len, counters, m + 1),
        ),
    decreases len,
{
    if len <= 1 {
        lemma_factorial_small(len);
    } else {
        let n = order.len();
        let i = len - 1;
        let f = factorial((len - 1) as nat);
        lemma_factorial_unfold(len);
        lemma_round_of_move(m, f, len);
        let r = (m / f) as int;
        let inner = counters.update(i, r as usize);
        let start = round_start(order, i, r);
        if m % f + 1 < f {
            lemma_block_move((len - 1) as nat, start, inner, m % f);
        } else {
            let before = block_at(len, order, m);
            let held = counters_at(len, counters, m);
            lemma_block_end((len - 1) as nat, start);
            assert(before == block_end(start, i));
            lemma_counters_at((len - 1) as nat, inner, m % f);
            assert(held == counters_at((len - 1) as nat, inner, m % f));
            assert(held[i] == inner[i]);
            assert(held[i] == r);
            lemma_round_of_move((m + 1) as nat, f, len);
            assert(r + 1 < len);
            assert forall|j: int| 1 <= j < i implies held[j] >= j by {}
            lemma_open_place_is(held, 1, i);
            let next = round_start(order, i, r + 1);
            let raised = counters.update(i, (r + 1) as usize);
            lemma_block_start((len - 1) as nat, next);
            lemma_factorial_positive((len - 1) as nat);
            lemma_counters_at((len - 1) as nat, raised, 0);
            let after = turned(before, held);
            assert(partner(held, i) == round_partner(i, r));
            assert forall|x: int| 0 <= x < n implies after.0[x] == next[x] by {
                lemma_round_step(i, r, x);
                let y = swap_index(i, round_partner(i, r), x);
                assert(after.0[x] == before[y]);
                let z = end_index(i, y);
                assert(0 <= z < n);
                assert(before[y] == start[z]);
                assert(start[z] == order[round_index(i, r, z)]);
            }
            assert(after.0 =~= next);
            let reset = counters_at((len - 1) as nat, raised, 0);
            assert(after.1.len() == reset.len());
            assert forall|j: int| 0 <= j < n implies after.1[j] == reset[j] by {
                if j == 0 {
                    assert(reset[j] == raised[j]);
                } else if j < i {
                    assert(reset[j] == 0);
                } else if j == i {
                    assert(reset[j] == raised[j]);
                    assert(after.1[j] == held[j] + 1);
                } else {
                    assert(reset[j] == raised[j]);
                    assert(held[j] == inner[j]);
                }
            }
            assert(after.1 =~= reset);
        }
    }
}

/// The generator's state after `k` moves from the rising order is that of
/// the block of all entries after `k` moves.
pub proof fn lemma_state_is_block(n: nat, k: nat)
    requires
        n <= usize::MAX,
        k < factorial(n),
    ensures
        state_at(n, k) == (
            block_at(n, rising(n), k),
            counters_at(n, Seq::new(n, |i: int| 0usize), k),
        ),
    decreases k,
{
    let fresh = Seq::new(n, |i: int| 0usize);
    if k == 0 {
        lemma_block_start(n, rising(n));
        lemma_counters_at(n, fresh, 0);
        assert(counters_at(n, fresh, 0) =~= fresh);
    } else {
        lemma_state_is_block(n, (k - 1) as nat);
        lemma_block_move(n, rising(n), fresh, (k - 1) as nat);
    }
}

/// The entries at the start of a round are those of the ordering, each
/// once.
pub proof fn lemma_round_start_injective(order: Seq<usize>, i: int, r: int)
    requires
        is_injective(order),
        1 <= i < order.len(),
        0 <= r <= i,
    ensures
        is_injective(round_start(order, i, r)),
        round_start(order, i, r).len() == order.len(),
{
    let start = round_start(order, i, r);
    assert forall|x: int, y: int| 0 <= x < y < start.len() implies start[x] != start[y] by {
        lemma_round_index(i, r, x, y);
        let a = round_index(i, r, x);
        let b = round_index(i, r, y);
        if a < b {
            assert(order[a] != order[b]);
        } else {
            assert(order[b] != order[a]);
        }
    }
}

/// Two moves of a block never lead to the same ordering.
pub proof fn lemma_block_distinct(len: nat, order: Seq<usize>, a: nat, b: nat)
    requires
        is_injective(order),
        len <= order.len(),
        a < b < factorial(len),
    ensures
        block_at(len, order, a) != block_at(len, order, b),
    decreases len,
{
    if len <= 1 {
        lemma_factorial_small(len);
    } else {
        let i = len - 1;
        let f = factorial((len - 1) as nat);
        lemma_factorial_unfold(len);
        lemma_round_of_move(a, f, len);
        lemma_round_of_move(b, f, len);
        let ra = (a / f) as int;
        let rb = (b / f) as int;
        let start_a = round_start(order, i, ra);
        let start_b = round_start(order, i, rb);
        if ra == rb {
            lemma_round_start_injective(order, i, ra);
            lemma_rounds_ordered(a, b, f);
            lemma_block_distinct((len - 1) as nat, start_a, a % f, b % f);
        } else {
            lemma_block_keeps((len - 1) as nat, start_a, a % f);
            lemma_block_keeps((len - 1) as nat, start_b, b % f);
            lemma_rounds_ordered(a, b, f);
            assert(ra < rb);
            lemma_round_last(i, ra, rb);
            let x = round_index(i, ra, i);
            let y = round_index(i, rb, i);
            assert(block_at(len, order, a)[i] == start_a[i]);
            assert(block_at(len, order, b)[i] == start_b[i]);
            assert(start_a[i] == order[x]);
            assert(start_b[i] == order[y]);
            if x < y {
                assert(order[x] != order[y]);
            } else {
                assert(order[y] != order[x]);
            }
        }
    }
}

/// No ordering comes twice: below the factorial, two places hold two
/// orderings.
pub proof fn lemma_orderings_distinct(n: nat, j: nat, k: nat)
    requires
        n <= usize::MAX,
        j < k < factorial(n),
    ensures
        ordering_at(n, j) != ordering_at(n, k),
{
    lemma_state_is_block(n, j);
    lemma_state_is_block(n, k);
    lemma_block_distinct(n, rising(n), j, k);
}

/// The round of a block of `i + 1` entries in which the entry that began at
/// place `y` stands at the last place.
pub open spec fn round_bringing(i: int, y: int) -> int {
    if i % 2 == 1 {
        if i == 1 {
            1 - y
        } else if y == i {
            0
        } else if y == i - 1 {
            1
        } else if y == 0 {
            i
        } else {
            y + 1
        }
    } else {
        cycle_place(i, y)
    }
}

/// The place at which the entry that began at place `y` stands when round
/// `r` begins in a block of `i + 1` entries.
pub open spec fn round_source(i: int, r: int, y: int) -> int {
    if r <= 0 {
        y
    } else if i % 2 == 1 {
        if i == 1 {
            1 - y
        } else if y == i {
            if r % 2 == 1 {
                0
            } else {
                i - 1
            }
        } else if y == 0 {
            if r == i {
                i
            } else if r % 2 == 0 {
                0
            } else {
                i - 1
            }
        } else if y == i - 1 {
            if r == 1 {
                i
            } else {
                1
            }
        } else if y >= r {
            y
        } else if y == r - 1 {
            i
        } else {
            y + 1
        }
    } else {
        let s = cycle_place(i, y) - r;
        cycle_entry(
            i,
            if s < 0 {
                s + i + 1
            } else {
                s
            },
        )
    }
}

/// Every entry of a block stands at its last place in one of the rounds.
pub proof fn lemma_round_bringing(i: int, y: int)
    requires
        1 <= i,
        0 <= y <= i,
    ensures
        0 <= round_bringing(i, y) <= i,
        round_index(i, round_bringing(i, y), i) == y,
{
}

/// At the start of every round every entry of the block stands at one of
/// its places.
pub proof fn lemma_round_source(i: int, r: int, y: int)
    requires
        1 <= i,
        0 <= r <= i,
        0 <= y <= i,
    ensures
        0 <= round_source(i, r, y) <= i,
        round_index(i, r, round_source(i, r, y)) == y,
{
}

/// One of the first `len` places of `order` holds `entry`.
pub open spec fn holds_early(order: Seq<usize>, len: nat, entry: usize) -> bool {
    exists|y: int| 0 <= y < len && #[trigger] order[y] == entry
}

/// `other` holds in its first `len` places the entries that `order` holds
/// there, each once, and from there on what `order` holds.
pub open spec fn rearranges(order: Seq<usize>, other: Seq<usize>, len: nat) -> bool {
    &&& other.len() == order.len()
    &&& is_injective(other)
    &&& forall|x: int| len <= x < order.len() ==> other[x] == order[x]
    &&& forall|x: int| 0 <= x < len ==> holds_early(order, len, #[trigger] other[x])
}

/// A block comes to every ordering of its entries.
pub proof fn lemma_block_complete(len: nat, order: Seq<usize>, other: Seq<usize>)
    requires
        is_injective(order),
        len <= order.len(),
        rearranges(order, other, len),
    ensures
        exists|m: nat| m < factorial(len) && #[trigger] block_at(len, order, m) == other,
    decreases len,
{
    if len <= 1 {
        lemma_factorial_small(len);
        lemma_block_start(len, order);
        if len == 1 {
            assert(holds_early(order, len, other[0]));
            assert(other[0] == order[0]);
        }
        assert(other =~= order);
        assert(block_at(len, order, 0) == other);
    } else {
        let i = len - 1;
        let f = factorial((len - 1) as nat);
        lemma_factorial_unfold(len);
        assert(holds_early(order, len, other[i]));
        let last = choose|y: int| 0 <= y < len && #[trigger] order[y] == other[i];
        let r = round_bringing(i, last);
        lemma_round_bringing(i, last);
        let start = round_start(order, i, r);
        lemma_round_start_injective(order, i, r);
        assert(start[i] == order[round_index(i, r, i)]);
        assert forall|x: int| len - 1 <= x < start.len() implies other[x] == start[x] by {
            if x > i {
                assert(start[x] == order[round_index(i, r, x)]);
            }
        }
        assert forall|x: int| 0 <= x < len - 1 implies holds_early(
            start,
            (len - 1) as nat,
            #[trigger] other[x],
        ) by {
            assert(holds_early(order, len, other[x]));
            let y = choose|y: int| 0 <= y < len && #[trigger] order[y] == other[x];
            assert(other[x] != other[i]);
            let z = round_source(i, r, y);
            lemma_round_source(i, r, y);
            assert(start[z] == order[round_index(i, r, z)]);
            assert(z != i);
        }
        assert(rearranges(start, other, (len - 1) as nat));
        lemma_block_complete((len - 1) as nat, start, other);
        let inner = choose|m: nat|
            m < f && #[trigger] block_at((len - 1) as nat, start, m) == other;
        let m = (r * f + inner) as nat;
        assert(r * f >= 0 && r * f + f <= len * f) by (nonlinear_arith)
            requires
                0 <= r <= len - 1,
                f >= 1,
        ;
        assert(f * r == r * f) by (nonlinear_arith);
        vstd::arithmetic::div_mod::lemma_fundamental_div_mod_converse(
            m as int,
            f as int,
            r,
            inner as int,
        );
        assert(block_at(len, order, m) == other);
    }
}

/// Every ordering comes: each ordering of the indices below `n` stands at a
/// place below the factorial.
pub proof fn lemma_orderings_complete(n: nat, order: Seq<usize>)
    requires
        n <= usize::MAX,
        order.len() == n,
        is_ordering(order),
    ensures
        exists|k: nat| k < factorial(n) && #[trigger] ordering_at(n, k) == order,
{
    let first = rising(n);
    assert forall|x: int| 0 <= x < n implies holds_early(first, n, #[trigger] order[x]) by {
        let y = order[x] as int;
        assert(first[y] == order[x]);
    }
    lemma_block_complete(n, first, order);
    let k = choose|m: nat| m < factorial(n) && #[trigger] block_at(n, first, m) == order;
    lemma_state_is_block(n, k);
    assert(ordering_at(n, k) == order);
}

} // verus!
