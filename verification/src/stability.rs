//! Stability of resolved cells: once a cell is down to a single candidate,
//! the deduction rules leave it alone.
//!
//! For the hidden-single/pair rule this holds outright. For the naked-subset
//! and intersection rules it holds on every board that still admits a
//! solution; on a contradictory board those rules may clear a resolved
//! cell's last candidate, which is the expected signal of the contradiction.

use crate::board::{entropy_spec, wf_values};
use crate::solver::{
    canonical_group, evolve_board, evolve_partition_to, evolve_partitions_to,
    lemma_canonical_group_wf, lemma_evolve_board_props, lemma_step_shrinks, prolif_blocks_to,
    prolif_lines_to, solve_rec, step_result,
};
use crate::mask::{popcount9, popcount_to, submask};
use crate::rules::{
    bit_mask, count_bit, count_bit_to, count_eq_to, count_pair, count_pair_to, elim_to,
    evolve_result, first_with_bit, group_masks, hidden_result, in_symmetric_difference,
    intersection_allowed, lemma_first_with_bit_props, lemma_no_bit_no_count, locked, naked_elim,
    naked_result, or_outside, or_outside_to, pair_step, pairs_inner_to, pairs_outer_to,
    proliferate_result, single_step, singles_to,
};
use vstd::prelude::*;

verus! {


/// Plain identities of AND and OR on masks.
proof fn lemma_and_zero(v: u16)
    by (bit_vector)
    ensures
        v & 0 == 0,
        v & v == v,
        v | 0 == v,
        0u16 & v == 0,
{
}

/// The empty mask has no candidates.
proof fn lemma_popcount_zero()
    by (bit_vector)
    ensures
        popcount_to(0u16, 9) == 0,
{
}

/// A bit found in an OR but not in its left part is in its right part.
proof fn lemma_or_split(v: u16, acc: u16, t: u16)
    by (bit_vector)
    requires
        v & acc == 0,
        v & (acc | t) != 0,
    ensures
        v & t != 0,
{
}

/// OR keeps masks within the nine candidate bits.
proof fn lemma_or_range(acc: u16, v: u16)
    by (bit_vector)
    requires
        acc <= 0x1FF,
        v <= 0x1FF,
    ensures
        (acc | v) <= 0x1FF,
{
}

/// OR of two submasks of `m` is a submask of `m`.
proof fn lemma_or_in_mask(acc: u16, v: u16, m: u16)
    by (bit_vector)
    requires
        acc & m == acc,
        v & m == v,
    ensures
        (acc | v) & m == (acc | v),
{
}

/// The cell a solution digit sits in still offers that digit.
proof fn lemma_singleton_in_mask(sk: u16, mk: u16, b: u16)
    by (bit_vector)
    requires
        sk & mk == sk,
        sk == 1u16 << b,
    ensures
        mk & (1u16 << b) == 1u16 << b,
{
}

/// A mask with all nine candidate counts set is the full mask.
proof fn lemma_full_mask(full: u16)
    by (bit_vector)
    requires
        popcount_to(full, 9) == 9,
        full <= 0x1FF,
    ensures
        full == 0x1FF,
{
}

/// A singleton inside another singleton equals it.
proof fn lemma_singleton_submask_equal(x: u16, y: u16)
    by (bit_vector)
    requires
        x & y == x,
        x <= 0x1FF,
        y <= 0x1FF,
        popcount_to(x, 9) == 1,
        popcount_to(y, 9) == 1,
    ensures
        x == y,
{
}

/// Nine masks within the nine candidate bits.
pub open spec fn wf_group_masks(ms: Seq<u16>) -> bool {
    &&& ms.len() == 9
    &&& forall|k: int| 0 <= k < 9 ==> (#[trigger] ms[k]) <= 0x1FF
}

/// A solved assignment for one group: nine singleton masks, one per cell,
/// pairwise distinct, each drawn from its cell's candidates.
pub open spec fn group_solution(ms: Seq<u16>, sol: Seq<u16>) -> bool {
    &&& ms.len() == 9
    &&& sol.len() == 9
    &&& forall|k: int|
        0 <= k < 9 ==> (#[trigger] sol[k]) <= 0x1FF && popcount9(sol[k]) == 1 && sol[k] & ms[k]
            == sol[k]
    &&& forall|k1: int, k2: int|
        0 <= k1 < 9 && 0 <= k2 < 9 && k1 != k2 ==> sol[k1] != sol[k2]
}

/// A resolved mask that contains candidate bit `b` is exactly that bit.
proof fn lemma_resolved_with_bit(x: u16, b: u16)
    by (bit_vector)
    requires
        b < 9,
        x <= 0x1FF,
        popcount_to(x, 9) == 1,
        x & (1u16 << b) == 1u16 << b,
    ensures
        x == 1u16 << b,
{
}

/// A resolved mask cannot contain both bits of a two-bit pair.
proof fn lemma_resolved_no_pair(x: u16, a: u16, b: u16)
    by (bit_vector)
    requires
        a < 9,
        b < 9,
        a != b,
        popcount_to(x, 9) == 1,
    ensures
        x & ((1u16 << a) | (1u16 << b)) != ((1u16 << a) | (1u16 << b)),
{
}

/// A hidden-single step leaves a resolved cell's mask unchanged.
proof fn lemma_single_step_resolved(ms: Seq<u16>, b: u16, j: int)
    requires
        ms.len() == 9,
        0 <= j < 9,
        ms[j] <= 0x1FF,
        popcount9(ms[j]) == 1,
        b < 9,
    ensures
        single_step(ms, b)[j] == ms[j],
{
    if count_bit(ms, b) == 1 {
        let f = first_with_bit(ms, b);
        lemma_first_with_bit_props(ms, b, 0);
        if f == 9 {
            lemma_no_bit_no_count(ms, b, 9);
        }
        if f == j {
            lemma_resolved_with_bit(ms[j], b);
        }
    }
}

/// All hidden-single steps leave a resolved cell's mask unchanged.
proof fn lemma_singles_to_resolved(ms: Seq<u16>, n: int, j: int)
    requires
        ms.len() == 9,
        0 <= n <= 9,
        0 <= j < 9,
        ms[j] <= 0x1FF,
        popcount9(ms[j]) == 1,
    ensures
        singles_to(ms, n).len() == 9,
        singles_to(ms, n)[j] == ms[j],
    decreases n,
{
    if n > 0 {
        lemma_singles_to_resolved(ms, n - 1, j);
        let cur = singles_to(ms, n - 1);
        let b = (n - 1) as u16;
        if count_bit(cur, b) == 1 {
            lemma_first_with_bit_props(cur, b, 0);
            if first_with_bit(cur, b) == 9 {
                lemma_no_bit_no_count(cur, b, 9);
            }
        }
        lemma_single_step_resolved(cur, b, j);
    }
}

/// A hidden-pair step leaves a resolved cell's mask unchanged.
proof fn lemma_pair_step_resolved(ms: Seq<u16>, a: u16, b: u16, j: int)
    requires
        ms.len() == 9,
        0 <= j < 9,
        a < 9,
        b < 9,
        a != b,
        popcount9(ms[j]) == 1,
    ensures
        pair_step(ms, a, b).len() == 9,
        pair_step(ms, a, b)[j] == ms[j],
{
    lemma_resolved_no_pair(ms[j], a, b);
}

/// Hidden-pair steps for one leading bit leave a resolved cell unchanged.
proof fn lemma_pairs_inner_resolved(ms: Seq<u16>, a: u16, n: int, j: int)
    requires
        ms.len() == 9,
        a < 9,
        n <= 9,
        0 <= j < 9,
        popcount9(ms[j]) == 1,
    ensures
        pairs_inner_to(ms, a, n).len() == 9,
        pairs_inner_to(ms, a, n)[j] == ms[j],
    decreases n,
{
    if n > a + 1 {
        lemma_pairs_inner_resolved(ms, a, n - 1, j);
        lemma_pair_step_resolved(pairs_inner_to(ms, a, n - 1), a, (n - 1) as u16, j);
    }
}

/// All hidden-pair steps leave a resolved cell unchanged.
proof fn lemma_pairs_outer_resolved(ms: Seq<u16>, n: int, j: int)
    requires
        ms.len() == 9,
        0 <= n <= 9,
        0 <= j < 9,
        popcount9(ms[j]) == 1,
    ensures
        pairs_outer_to(ms, n).len() == 9,
        pairs_outer_to(ms, n)[j] == ms[j],
    decreases n,
{
    if n > 0 {
        lemma_pairs_outer_resolved(ms, n - 1, j);
        lemma_pairs_inner_resolved(pairs_outer_to(ms, n - 1), (n - 1) as u16, 9, j);
    }
}

/// The hidden-single/pair rule never changes a resolved cell's mask,
/// on any board.
pub proof fn lemma_hidden_result_resolved(ms: Seq<u16>, j: int)
    requires
        ms.len() == 9,
        0 <= j < 9,
        ms[j] <= 0x1FF,
        popcount9(ms[j]) == 1,
    ensures
        hidden_result(ms)[j] == ms[j],
{
    lemma_singles_to_resolved(ms, 9, j);
    lemma_pairs_outer_resolved(singles_to(ms, 9), 9, j);
}


/// OR of the solution digits of the first `n` cells whose mask equals `m`.
pub open spec fn or_sols_to(ms: Seq<u16>, sol: Seq<u16>, m: u16, n: int) -> u16
    decreases n,
{
    if n <= 0 {
        0
    } else {
        or_sols_to(ms, sol, m, n - 1) | (if ms[n - 1] == m {
            sol[n - 1]
        } else {
            0u16
        })
    }
}

/// Distinct singleton masks share no bit.
proof fn lemma_distinct_singletons_disjoint(x: u16, y: u16)
    by (bit_vector)
    requires
        x <= 0x1FF,
        y <= 0x1FF,
        popcount_to(x, 9) == 1,
        popcount_to(y, 9) == 1,
        x != y,
    ensures
        x & y == 0,
{
}

/// Singleton masks sharing a bit are equal.
proof fn lemma_singletons_sharing_bit_equal(x: u16, y: u16)
    by (bit_vector)
    requires
        x <= 0x1FF,
        y <= 0x1FF,
        popcount_to(x, 9) == 1,
        popcount_to(y, 9) == 1,
        x & y != 0,
    ensures
        x == y,
{
}

/// OR with a disjoint singleton adds exactly one bit.
proof fn lemma_or_disjoint_singleton(acc: u16, v: u16)
    by (bit_vector)
    requires
        v <= 0x1FF,
        popcount_to(v, 9) == 1,
        v & acc == 0,
    ensures
        popcount_to(acc | v, 9) == popcount_to(acc, 9) + 1,
{
}

/// Disjointness distributes over OR.
proof fn lemma_disjoint_or(x: u16, a: u16, b: u16)
    by (bit_vector)
    requires
        x & a == 0,
        x & b == 0,
    ensures
        x & (a | b) == 0,
{
}

/// Submasks accumulate through OR.
proof fn lemma_submask_or(x: u16, a: u16, b: u16)
    by (bit_vector)
    requires
        x & a == x,
    ensures
        x & (a | b) == x,
        x & (b | a) == x,
{
}

/// A singleton not chosen by any counted cell stays disjoint from the
/// accumulated solution digits.
proof fn lemma_or_sols_fresh(ms: Seq<u16>, sol: Seq<u16>, m: u16, n: int, v: u16)
    requires
        group_solution(ms, sol),
        0 <= n <= 9,
        v <= 0x1FF,
        popcount9(v) == 1,
        forall|k: int| 0 <= k < n && ms[k] == m ==> sol[k] != v,
    ensures
        v & or_sols_to(ms, sol, m, n) == 0,
    decreases n,
{
    lemma_and_zero(v);
    if n > 0 {
        lemma_or_sols_fresh(ms, sol, m, n - 1, v);
        if ms[n - 1] == m {
            lemma_distinct_singletons_disjoint(v, sol[n - 1]);
        }
        lemma_disjoint_or(
            v,
            or_sols_to(ms, sol, m, n - 1),
            if ms[n - 1] == m {
                sol[n - 1]
            } else {
                0u16
            },
        );
    }
}

/// The accumulated solution digits of the cells sharing mask `m` hold one
/// bit per such cell and stay within `m`.
proof fn lemma_or_sols_counts(ms: Seq<u16>, sol: Seq<u16>, m: u16, n: int)
    requires
        group_solution(ms, sol),
        0 <= n <= 9,
    ensures
        popcount9(or_sols_to(ms, sol, m, n)) == count_eq_to(ms, m, n),
        or_sols_to(ms, sol, m, n) & m == or_sols_to(ms, sol, m, n),
        or_sols_to(ms, sol, m, n) <= 0x1FF,
    decreases n,
{
    if n <= 0 {
        lemma_popcount_zero();
        lemma_and_zero(m);
    } else {
        lemma_or_sols_counts(ms, sol, m, n - 1);
        let acc = or_sols_to(ms, sol, m, n - 1);
        if ms[n - 1] == m {
            let v = sol[n - 1];
            lemma_or_sols_fresh(ms, sol, m, n - 1, v);
            lemma_or_disjoint_singleton(acc, v);
            lemma_or_in_mask(acc, v, m);
            lemma_or_range(acc, v);
        } else {
            lemma_and_zero(acc);
        }
    }
}

/// A singleton found inside the accumulated digits names one of the
/// counted cells.
proof fn lemma_or_sols_witness(ms: Seq<u16>, sol: Seq<u16>, m: u16, n: int, v: u16)
    requires
        group_solution(ms, sol),
        0 <= n <= 9,
        v <= 0x1FF,
        popcount9(v) == 1,
        v & or_sols_to(ms, sol, m, n) != 0,
    ensures
        exists|k: int| 0 <= k < n && ms[k] == m && sol[k] == v,
    decreases n,
{
    lemma_and_zero(v);
    if n > 0 {
        let acc = or_sols_to(ms, sol, m, n - 1);
        let t: u16 = if ms[n - 1] == m {
            sol[n - 1]
        } else {
            0u16
        };
        if v & acc != 0 {
            lemma_or_sols_witness(ms, sol, m, n - 1, v);
            let k = choose|k: int| 0 <= k < n - 1 && ms[k] == m && sol[k] == v;
            assert(0 <= k < n && ms[k] == m && sol[k] == v);
        } else {
            if v & (acc | t) != 0 {
                lemma_or_split(v, acc, t);
            }
            lemma_singletons_sharing_bit_equal(v, sol[n - 1]);
            assert(ms[n - 1] == m && sol[n - 1] == v);
        }
    }
}

/// On a board with a solution, a locked signature other than a cell's own
/// mask cannot contain that cell's solution digit: the cells sharing the
/// signature already use all of its digits.
proof fn lemma_locked_excludes(ms: Seq<u16>, sol: Seq<u16>, m: u16, j: int)
    requires
        group_solution(ms, sol),
        wf_group_masks(ms),
        0 <= j < 9,
        m <= 0x1FF,
        m != ms[j],
        locked(ms, m),
    ensures
        sol[j] & m == 0,
{
    lemma_or_sols_counts(ms, sol, m, 9);
    let or9 = or_sols_to(ms, sol, m, 9);
    assert(or9 == m) by {
        assert(or9 & m == or9 && popcount_to(or9, 9) == popcount_to(m, 9) && m <= 0x1FF && or9
            <= 0x1FF ==> or9 == m) by (bit_vector);
    }
    if sol[j] & m != 0 {
        lemma_or_sols_witness(ms, sol, m, 9, sol[j]);
        let k = choose|k: int| 0 <= k < 9 && ms[k] == m && sol[k] == sol[j];
        assert(k != j);
        assert(false);
    }
}

/// On a board with a solution, a cell's solution digit survives the whole
/// set of candidates the naked-subset rule clears from that cell.
proof fn lemma_sol_free_of_elim(ms: Seq<u16>, sol: Seq<u16>, j: int, n: int)
    requires
        group_solution(ms, sol),
        wf_group_masks(ms),
        0 <= j < 9,
        0 <= n <= 9,
    ensures
        sol[j] & elim_to(ms, ms[j], n) == 0,
    decreases n,
{
    let sj = sol[j];
    lemma_and_zero(sj);
    if n > 0 {
        lemma_sol_free_of_elim(ms, sol, j, n - 1);
        let t: u16 = if ms[n - 1] != ms[j] && locked(ms, ms[n - 1]) {
            ms[n - 1]
        } else {
            0u16
        };
        if ms[n - 1] != ms[j] && locked(ms, ms[n - 1]) {
            lemma_locked_excludes(ms, sol, ms[n - 1], j);
        }
        lemma_disjoint_or(sol[j], elim_to(ms, ms[j], n - 1), t);
    }
}

/// On a group that still admits a solution, the naked-subset rule keeps
/// every cell's solution digit.
pub proof fn lemma_naked_result_keeps_solution(ms: Seq<u16>, sol: Seq<u16>, j: int)
    requires
        group_solution(ms, sol),
        wf_group_masks(ms),
        0 <= j < 9,
    ensures
        sol[j] & naked_result(ms)[j] == sol[j],
{
    lemma_sol_free_of_elim(ms, sol, j, 9);
    let sj = sol[j];
    let mj = ms[j];
    let e = naked_elim(ms, ms[j]);
    assert(sj & mj == sj && sj & e == 0 ==> sj & (mj & !e) == sj) by (bit_vector);
}

/// On a group that still admits a solution, the naked-subset rule never
/// changes a resolved cell's mask.
pub proof fn lemma_naked_result_resolved(ms: Seq<u16>, sol: Seq<u16>, j: int)
    requires
        group_solution(ms, sol),
        wf_group_masks(ms),
        0 <= j < 9,
        popcount9(ms[j]) == 1,
    ensures
        naked_result(ms)[j] == ms[j],
{
    lemma_singleton_submask_equal(sol[j], ms[j]);
    lemma_sol_free_of_elim(ms, sol, j, 9);
    let mj = ms[j];
    let e = naked_elim(ms, ms[j]);
    assert(mj & e == 0 ==> mj & !e == mj) by (bit_vector);
}

/// On a group that still admits a solution, one full per-group rule
/// application never changes a resolved cell's mask.
pub proof fn lemma_evolve_result_resolved(ms: Seq<u16>, sol: Seq<u16>, j: int)
    requires
        group_solution(ms, sol),
        wf_group_masks(ms),
        0 <= j < 9,
        popcount9(ms[j]) == 1,
    ensures
        evolve_result(ms)[j] == ms[j],
{
    lemma_naked_result_resolved(ms, sol, j);
    crate::rules::lemma_and_submask();
    assert(wf_group_masks(naked_result(ms))) by {
        assert forall|k: int| 0 <= k < 9 implies (#[trigger] naked_result(ms)[k]) <= 0x1FF by {
            assert(submask(naked_result(ms)[k], ms[k]));
        }
    }
    lemma_hidden_result_resolved(naked_result(ms), j);
}

/// A solved assignment for the whole board: one digit per cell, drawn from
/// that cell's candidates.
pub open spec fn cell_solution(vals: Seq<u16>, sol: Seq<u16>) -> bool {
    &&& vals.len() == 81
    &&& sol.len() == 81
    &&& forall|c: int|
        0 <= c < 81 ==> (#[trigger] sol[c]) <= 0x1FF && popcount9(sol[c]) == 1 && sol[c] & vals[c]
            == sol[c]
}

/// No two cells of the group take the same solution digit.
pub open spec fn distinct_in_group(sol: Seq<u16>, g: Seq<usize>) -> bool {
    forall|k1: int, k2: int|
        0 <= k1 < 9 && 0 <= k2 < 9 && k1 != k2 ==> sol[g[k1] as int] != sol[g[k2] as int]
}

/// A well-formed group of cell indexes: nine distinct cells of the board.
pub open spec fn wf_indexes(g: Seq<usize>) -> bool {
    &&& g.len() == 9
    &&& forall|k: int| 0 <= k < 9 ==> (#[trigger] g[k]) < 81
    &&& forall|k1: int, k2: int| 0 <= k1 < 9 && 0 <= k2 < 9 && k1 != k2 ==> g[k1] != g[k2]
}

/// OR of the solution digits of the first `n` cells of group `g`.
pub open spec fn or_picked_to(sol: Seq<u16>, g: Seq<usize>, n: int) -> u16
    decreases n,
{
    if n <= 0 {
        0
    } else {
        or_picked_to(sol, g, n - 1) | sol[g[n - 1] as int]
    }
}

/// A singleton digit used by none of the first `n` cells stays disjoint
/// from their accumulated digits.
proof fn lemma_or_picked_fresh(sol: Seq<u16>, vals: Seq<u16>, g: Seq<usize>, n: int, v: u16)
    requires
        cell_solution(vals, sol),
        wf_indexes(g),
        0 <= n <= 9,
        v <= 0x1FF,
        popcount9(v) == 1,
        forall|k: int| 0 <= k < n ==> sol[g[k] as int] != v,
    ensures
        v & or_picked_to(sol, g, n) == 0,
    decreases n,
{
    lemma_and_zero(v);
    if n > 0 {
        lemma_or_picked_fresh(sol, vals, g, n - 1, v);
        lemma_distinct_singletons_disjoint(v, sol[g[n - 1] as int]);
        lemma_disjoint_or(v, or_picked_to(sol, g, n - 1), sol[g[n - 1] as int]);
    }
}

/// Nine distinct solution digits accumulate to all nine candidate bits.
proof fn lemma_group_digits_cover(sol: Seq<u16>, vals: Seq<u16>, g: Seq<usize>, n: int)
    requires
        cell_solution(vals, sol),
        wf_indexes(g),
        distinct_in_group(sol, g),
        0 <= n <= 9,
    ensures
        popcount9(or_picked_to(sol, g, n)) == n,
        or_picked_to(sol, g, n) <= 0x1FF,
        n == 9 ==> or_picked_to(sol, g, n) == 0x1FF,
    decreases n,
{
    if n <= 0 {
        lemma_popcount_zero();
    } else {
        lemma_group_digits_cover(sol, vals, g, n - 1);
        let acc = or_picked_to(sol, g, n - 1);
        let v = sol[g[n - 1] as int];
        lemma_or_picked_fresh(sol, vals, g, n - 1, v);
        lemma_or_disjoint_singleton(acc, v);
        lemma_or_range(acc, v);
        let full = or_picked_to(sol, g, n);
        if popcount_to(full, 9) == 9 {
            lemma_full_mask(full);
        }
    }
}

/// A singleton found inside the accumulated digits names one of the cells.
proof fn lemma_or_picked_witness(sol: Seq<u16>, vals: Seq<u16>, g: Seq<usize>, n: int, v: u16)
    requires
        cell_solution(vals, sol),
        wf_indexes(g),
        0 <= n <= 9,
        v <= 0x1FF,
        popcount9(v) == 1,
        v & or_picked_to(sol, g, n) != 0,
    ensures
        exists|k: int| 0 <= k < n && sol[g[k] as int] == v,
    decreases n,
{
    lemma_and_zero(v);
    if n > 0 {
        let acc = or_picked_to(sol, g, n - 1);
        let t = sol[g[n - 1] as int];
        if v & acc != 0 {
            lemma_or_picked_witness(sol, vals, g, n - 1, v);
            let k = choose|k: int| 0 <= k < n - 1 && sol[g[k] as int] == v;
            assert(0 <= k < n && sol[g[k] as int] == v);
        } else {
            if v & (acc | t) != 0 {
                lemma_or_split(v, acc, t);
            }
            lemma_singletons_sharing_bit_equal(v, t);
            assert(sol[g[n - 1] as int] == v);
        }
    }
}

/// The mask of a counted non-shared cell is inside the accumulated OR.
proof fn lemma_or_outside_contains(vals: Seq<u16>, ga: Seq<usize>, gb: Seq<usize>, k: int, n: int)
    requires
        vals.len() == 81,
        wf_indexes(ga),
        0 <= k < n <= 9,
        !gb.contains(ga[k]),
    ensures
        vals[ga[k] as int] & or_outside_to(vals, ga, gb, n) == vals[ga[k] as int],
    decreases n,
{
    let x = vals[ga[k] as int];
    if k == n - 1 {
        let acc = or_outside_to(vals, ga, gb, n - 1);
        assert(x & (acc | x) == x) by (bit_vector);
    } else {
        lemma_or_outside_contains(vals, ga, gb, k, n - 1);
        lemma_submask_or(
            x,
            or_outside_to(vals, ga, gb, n - 1),
            if !gb.contains(ga[n - 1]) {
                vals[ga[n - 1] as int]
            } else {
                0u16
            },
        );
    }
}

/// A cell of exactly one group keeps its solution digit: the digit is alive
/// outside the shared cells on both sides, so the intersection rule's bound
/// contains it.
proof fn lemma_sol_in_allowed(
    vals: Seq<u16>,
    sol: Seq<u16>,
    ga: Seq<usize>,
    gb: Seq<usize>,
    c: int,
)
    requires
        cell_solution(vals, sol),
        wf_indexes(ga),
        wf_indexes(gb),
        distinct_in_group(sol, ga),
        distinct_in_group(sol, gb),
        0 <= c < 81,
        ga.contains(c as usize),
        !gb.contains(c as usize),
    ensures
        sol[c] & intersection_allowed(vals, ga, gb) == sol[c],
        sol[c] & intersection_allowed(vals, gb, ga) == sol[c],
{
    let d = sol[c];
    // Alive on `ga`'s side: through the cell itself.
    let ka = choose|k: int| 0 <= k < 9 && ga[k] == c as usize;
    lemma_or_outside_contains(vals, ga, gb, ka, 9);
    let ora = or_outside(vals, ga, gb);
    let x = vals[c];
    crate::rules::lemma_submask_trans(d, x, ora);
    // Alive on `gb`'s side: the digit sits somewhere in `gb`, and that cell
    // cannot be in `ga`, since `ga` already uses the digit at `c`.
    lemma_group_digits_cover(sol, vals, gb, 9);
    assert(d & 0x1FF == d && popcount_to(d, 9) == 1 && d <= 0x1FF ==> d & 0x1FF != 0)
        by (bit_vector);
    assert(d <= 0x1FF ==> d & 0x1FF == d) by (bit_vector);
    lemma_or_picked_witness(sol, vals, gb, 9, d);
    let kb = choose|k: int| 0 <= k < 9 && sol[gb[k] as int] == d;
    let cb = gb[kb] as int;
    assert(!ga.contains(gb[kb])) by {
        if ga.contains(gb[kb]) {
            let ka2 = choose|k: int| 0 <= k < 9 && ga[k] == gb[kb];
            assert(sol[ga[ka2] as int] == d && sol[ga[ka] as int] == d);
            assert(ka2 == ka);
            assert(gb.contains(gb[kb]));
        }
    }
    lemma_or_outside_contains(vals, gb, ga, kb, 9);
    let orb = or_outside(vals, gb, ga);
    let y = vals[cb];
    crate::rules::lemma_submask_trans(d, y, orb);
    let oa = ora;
    let ob = orb;
    assert(d & oa == d && d & ob == d ==> (d & (oa & ob) == d && d & (ob & oa) == d))
        by (bit_vector);
}

/// On a board that still admits a solution, the intersection rule never
/// changes a resolved cell's mask.
pub proof fn lemma_proliferate_resolved(
    vals: Seq<u16>,
    sol: Seq<u16>,
    ga: Seq<usize>,
    gb: Seq<usize>,
    c: int,
)
    requires
        cell_solution(vals, sol),
        wf_values(vals),
        wf_indexes(ga),
        wf_indexes(gb),
        distinct_in_group(sol, ga),
        distinct_in_group(sol, gb),
        0 <= c < 81,
        popcount9(vals[c]) == 1,
    ensures
        proliferate_result(vals, ga, gb)[c] == vals[c],
{
    if in_symmetric_difference(ga, gb, c as usize) {
        if ga.contains(c as usize) {
            lemma_sol_in_allowed(vals, sol, ga, gb, c);
        } else {
            lemma_sol_in_allowed(vals, sol, gb, ga, c);
        }
        let d = sol[c];
        let x = vals[c];
        let al = intersection_allowed(vals, ga, gb);
        lemma_singleton_submask_equal(d, x);
        assert(x & al == x);
    }
}

/// OR of the first `n` solution digits of a group.
pub open spec fn or_all_to(sol: Seq<u16>, n: int) -> u16
    decreases n,
{
    if n <= 0 {
        0
    } else {
        or_all_to(sol, n - 1) | sol[n - 1]
    }
}

/// A singleton digit used by none of the first `n` cells stays disjoint
/// from their accumulated digits.
proof fn lemma_or_all_fresh(ms: Seq<u16>, sol: Seq<u16>, n: int, v: u16)
    requires
        group_solution(ms, sol),
        0 <= n <= 9,
        v <= 0x1FF,
        popcount9(v) == 1,
        forall|k: int| 0 <= k < n ==> sol[k] != v,
    ensures
        v & or_all_to(sol, n) == 0,
    decreases n,
{
    lemma_and_zero(v);
    if n > 0 {
        lemma_or_all_fresh(ms, sol, n - 1, v);
        lemma_distinct_singletons_disjoint(v, sol[n - 1]);
        lemma_disjoint_or(v, or_all_to(sol, n - 1), sol[n - 1]);
    }
}

/// Nine pairwise-distinct solution digits cover all nine candidate bits.
proof fn lemma_group_solution_covers(ms: Seq<u16>, sol: Seq<u16>, n: int)
    requires
        group_solution(ms, sol),
        0 <= n <= 9,
    ensures
        popcount9(or_all_to(sol, n)) == n,
        or_all_to(sol, n) <= 0x1FF,
        n == 9 ==> or_all_to(sol, n) == 0x1FF,
    decreases n,
{
    if n <= 0 {
        lemma_popcount_zero();
    } else {
        lemma_group_solution_covers(ms, sol, n - 1);
        let acc = or_all_to(sol, n - 1);
        let v = sol[n - 1];
        lemma_or_all_fresh(ms, sol, n - 1, v);
        lemma_or_disjoint_singleton(acc, v);
        lemma_or_range(acc, v);
        let full = or_all_to(sol, n);
        if popcount_to(full, 9) == 9 {
            lemma_full_mask(full);
        }
    }
}

/// A singleton found inside the accumulated digits names a cell that uses
/// it.
proof fn lemma_or_all_witness(ms: Seq<u16>, sol: Seq<u16>, n: int, v: u16)
    requires
        group_solution(ms, sol),
        0 <= n <= 9,
        v <= 0x1FF,
        popcount9(v) == 1,
        v & or_all_to(sol, n) != 0,
    ensures
        exists|k: int| 0 <= k < n && sol[k] == v,
    decreases n,
{
    lemma_and_zero(v);
    if n > 0 {
        let acc = or_all_to(sol, n - 1);
        let t = sol[n - 1];
        if v & acc != 0 {
            lemma_or_all_witness(ms, sol, n - 1, v);
            let k = choose|k: int| 0 <= k < n - 1 && sol[k] == v;
            assert(0 <= k < n && sol[k] == v);
        } else {
            if v & (acc | t) != 0 {
                lemma_or_split(v, acc, t);
            }
            lemma_singletons_sharing_bit_equal(v, t);
            assert(sol[n - 1] == v);
        }
    }
}

/// Every digit is used somewhere in a solved group.
proof fn lemma_digit_has_cell(ms: Seq<u16>, sol: Seq<u16>, b: u16)
    requires
        group_solution(ms, sol),
        b < 9,
    ensures
        exists|k: int| 0 <= k < 9 && sol[k] == bit_mask(b),
{
    lemma_group_solution_covers(ms, sol, 9);
    let v = bit_mask(b);
    crate::mask::lemma_single_bit_popcount();
    assert(b < 9 ==> (1u16 << b) <= 0x1FF && (1u16 << b) & 0x1FF != 0) by (bit_vector);
    lemma_or_all_witness(ms, sol, 9, v);
}

/// A cell holding candidate bit `b` is counted at least once.
proof fn lemma_count_bit_at_least_one(ms: Seq<u16>, b: u16, k: int, n: int)
    requires
        0 <= k < n <= 9,
        ms[k] & bit_mask(b) == bit_mask(b),
    ensures
        count_bit_to(ms, b, n) >= 1,
    decreases n,
{
    crate::mask::lemma_popcount_to_bounds(0, 0);
    if k < n - 1 {
        lemma_count_bit_at_least_one(ms, b, k, n - 1);
        lemma_count_bit_nonneg(ms, b, n - 1);
    } else {
        lemma_count_bit_nonneg(ms, b, n - 1);
    }
}

/// The per-bit count is never negative.
proof fn lemma_count_bit_nonneg(ms: Seq<u16>, b: u16, n: int)
    ensures
        count_bit_to(ms, b, n) >= 0,
    decreases n,
{
    if n > 0 {
        lemma_count_bit_nonneg(ms, b, n - 1);
    }
}

/// Two distinct cells holding candidate bit `b` are counted at least twice.
proof fn lemma_count_bit_at_least_two(ms: Seq<u16>, b: u16, k1: int, k2: int, n: int)
    requires
        0 <= k1 < k2 < n <= 9,
        ms[k1] & bit_mask(b) == bit_mask(b),
        ms[k2] & bit_mask(b) == bit_mask(b),
    ensures
        count_bit_to(ms, b, n) >= 2,
    decreases n,
{
    if k2 < n - 1 {
        lemma_count_bit_at_least_two(ms, b, k1, k2, n - 1);
    } else {
        lemma_count_bit_at_least_one(ms, b, k1, n - 1);
    }
}

/// Three distinct cells holding candidate bit `b` are counted at least
/// three times.
proof fn lemma_count_bit_at_least_three(ms: Seq<u16>, b: u16, k1: int, k2: int, k3: int, n: int)
    requires
        0 <= k1 < k2 < k3 < n <= 9,
        ms[k1] & bit_mask(b) == bit_mask(b),
        ms[k2] & bit_mask(b) == bit_mask(b),
        ms[k3] & bit_mask(b) == bit_mask(b),
    ensures
        count_bit_to(ms, b, n) >= 3,
    decreases n,
{
    if k3 < n - 1 {
        lemma_count_bit_at_least_three(ms, b, k1, k2, k3, n - 1);
    } else {
        lemma_count_bit_at_least_two(ms, b, k1, k2, n - 1);
    }
}

/// A hidden-single step keeps every cell's solution digit: the one cell
/// still holding the digit is exactly the cell the solution gives it to.
proof fn lemma_single_step_keeps_solution(ms: Seq<u16>, sol: Seq<u16>, b: u16)
    requires
        group_solution(ms, sol),
        b < 9,
    ensures
        group_solution(single_step(ms, b), sol),
{
    if count_bit(ms, b) == 1 {
        let f = first_with_bit(ms, b);
        lemma_first_with_bit_props(ms, b, 0);
        if f == 9 {
            lemma_no_bit_no_count(ms, b, 9);
        }
        lemma_digit_has_cell(ms, sol, b);
        let k = choose|k: int| 0 <= k < 9 && sol[k] == bit_mask(b);
        assert(ms[k] & bit_mask(b) == bit_mask(b)) by {
            lemma_singleton_in_mask(sol[k], ms[k], b);
        }
        if k != f {
            if k < f {
                lemma_count_bit_at_least_two(ms, b, k, f, 9);
            } else {
                lemma_count_bit_at_least_two(ms, b, f, k, 9);
            }
        }
        assert(sol[f] == bit_mask(b));
        let v = bit_mask(b);
        lemma_and_zero(v);
    }
}

/// The pair count is never negative.
proof fn lemma_count_pair_nonneg(ms: Seq<u16>, pair: u16, n: int)
    ensures
        count_pair_to(ms, pair, n) >= 0,
    decreases n,
{
    if n > 0 {
        lemma_count_pair_nonneg(ms, pair, n - 1);
    }
}

/// A positive pair count names a cell carrying the whole pair.
proof fn lemma_count_pair_witness(ms: Seq<u16>, pair: u16, n: int)
    requires
        0 <= n <= 9,
        count_pair_to(ms, pair, n) >= 1,
    ensures
        exists|k: int| 0 <= k < n && ms[k] & pair == pair,
    decreases n,
{
    if n > 0 {
        if ms[n - 1] & pair == pair {
            assert(0 <= n - 1 < n && ms[n - 1] & pair == pair);
        } else {
            lemma_count_pair_witness(ms, pair, n - 1);
            let k = choose|k: int| 0 <= k < n - 1 && ms[k] & pair == pair;
            assert(0 <= k < n && ms[k] & pair == pair);
        }
    }
}

/// A pair count of two names two distinct cells carrying the whole pair.
proof fn lemma_count_pair_two_witnesses(ms: Seq<u16>, pair: u16, n: int)
    requires
        0 <= n <= 9,
        count_pair_to(ms, pair, n) >= 2,
    ensures
        exists|x: int, z: int|
            0 <= x < z < n && ms[x] & pair == pair && ms[z] & pair == pair,
    decreases n,
{
    if n > 0 {
        if ms[n - 1] & pair == pair {
            lemma_count_pair_nonneg(ms, pair, n - 1);
            lemma_count_pair_witness(ms, pair, n - 1);
            let x = choose|k: int| 0 <= k < n - 1 && ms[k] & pair == pair;
            assert(0 <= x < n - 1 < n && ms[x] & pair == pair && ms[n - 1] & pair == pair);
        } else {
            lemma_count_pair_two_witnesses(ms, pair, n - 1);
            let (x, z) = choose|x: int, z: int|
                0 <= x < z < n - 1 && ms[x] & pair == pair && ms[z] & pair == pair;
            assert(0 <= x < z < n && ms[x] & pair == pair && ms[z] & pair == pair);
        }
    }
}

/// Three distinct cells holding a bit push its count to at least three,
/// whatever their order.
proof fn lemma_three_holders(ms: Seq<u16>, b: u16, k1: int, k2: int, k3: int)
    requires
        0 <= k1 < 9,
        0 <= k2 < 9,
        0 <= k3 < 9,
        k1 != k2 && k1 != k3 && k2 != k3,
        ms[k1] & bit_mask(b) == bit_mask(b),
        ms[k2] & bit_mask(b) == bit_mask(b),
        ms[k3] & bit_mask(b) == bit_mask(b),
    ensures
        count_bit(ms, b) >= 3,
{
    let lo = if k1 < k2 && k1 < k3 {
        k1
    } else if k2 < k3 {
        k2
    } else {
        k3
    };
    let hi = if k1 > k2 && k1 > k3 {
        k1
    } else if k2 > k3 {
        k2
    } else {
        k3
    };
    let mid = k1 + k2 + k3 - lo - hi;
    lemma_count_bit_at_least_three(ms, b, lo, mid, hi, 9);
}

/// A mask carrying a whole pair carries each of its bits.
proof fn lemma_pair_carries_bits(m: u16, a: u16, b: u16)
    by (bit_vector)
    requires
        m & ((1u16 << a) | (1u16 << b)) == ((1u16 << a) | (1u16 << b)),
    ensures
        m & (1u16 << a) == (1u16 << a),
        m & (1u16 << b) == (1u16 << b),
{
}

/// A hidden-pair step keeps every cell's solution digit: the two cells
/// carrying both digits are exactly the cells the solution gives them to.
proof fn lemma_pair_step_keeps_solution(ms: Seq<u16>, sol: Seq<u16>, a: u16, b: u16)
    requires
        group_solution(ms, sol),
        a < b < 9,
    ensures
        group_solution(pair_step(ms, a, b), sol),
{
    let pair = bit_mask(a) | bit_mask(b);
    if count_bit(ms, a) == 2 && count_bit(ms, b) == 2 && count_pair(ms, pair) == 2 {
        lemma_count_pair_two_witnesses(ms, pair, 9);
        let (x, z) = choose|x: int, z: int|
            0 <= x < z < 9 && ms[x] & pair == pair && ms[z] & pair == pair;
        lemma_pair_carries_bits(ms[x], a, b);
        lemma_pair_carries_bits(ms[z], a, b);
        lemma_digit_has_cell(ms, sol, a);
        let ka = choose|k: int| 0 <= k < 9 && sol[k] == bit_mask(a);
        lemma_digit_has_cell(ms, sol, b);
        let kb = choose|k: int| 0 <= k < 9 && sol[k] == bit_mask(b);
        assert(ms[ka] & bit_mask(a) == bit_mask(a)) by {
            lemma_singleton_in_mask(sol[ka], ms[ka], a);
        }
        assert(ms[kb] & bit_mask(b) == bit_mask(b)) by {
            lemma_singleton_in_mask(sol[kb], ms[kb], b);
        }
        if ka != x && ka != z {
            lemma_three_holders(ms, a, ka, x, z);
        }
        if kb != x && kb != z {
            lemma_three_holders(ms, b, kb, x, z);
        }
        assert(ka != kb) by {
            assert(a < b < 9 ==> (1u16 << a) != (1u16 << b)) by (bit_vector);
        }
        assert forall|k: int| 0 <= k < 9 implies sol[k] & pair_step(ms, a, b)[k] == sol[k] by {
            if ms[k] & pair == pair {
                lemma_pair_carries_bits(ms[k], a, b);
                if k != x && k != z {
                    lemma_three_holders(ms, a, k, x, z);
                }
                assert(sol[k] == bit_mask(a) || sol[k] == bit_mask(b));
                assert((1u16 << a) & ((1u16 << a) | (1u16 << b)) == (1u16 << a) && (1u16 << b) & ((
                1u16 << a) | (1u16 << b)) == (1u16 << b)) by (bit_vector);
            }
        }
    }
}

/// The naked-subset rule keeps a whole group's solution.
proof fn lemma_naked_result_keeps_group(ms: Seq<u16>, sol: Seq<u16>)
    requires
        group_solution(ms, sol),
        wf_group_masks(ms),
    ensures
        group_solution(naked_result(ms), sol),
{
    assert forall|j: int| 0 <= j < 9 implies sol[j] & naked_result(ms)[j] == sol[j] by {
        lemma_naked_result_keeps_solution(ms, sol, j);
    }
}

/// All hidden-single steps keep a group's solution.
proof fn lemma_singles_to_keeps(ms: Seq<u16>, sol: Seq<u16>, n: int)
    requires
        group_solution(ms, sol),
        0 <= n <= 9,
    ensures
        group_solution(singles_to(ms, n), sol),
    decreases n,
{
    if n > 0 {
        lemma_singles_to_keeps(ms, sol, n - 1);
        lemma_single_step_keeps_solution(singles_to(ms, n - 1), sol, (n - 1) as u16);
    }
}

/// Hidden-pair steps for one leading bit keep a group's solution.
proof fn lemma_pairs_inner_keeps(ms: Seq<u16>, sol: Seq<u16>, a: u16, n: int)
    requires
        group_solution(ms, sol),
        a < 9,
        n <= 9,
    ensures
        group_solution(pairs_inner_to(ms, a, n), sol),
    decreases n,
{
    if n > a + 1 {
        lemma_pairs_inner_keeps(ms, sol, a, n - 1);
        lemma_pair_step_keeps_solution(pairs_inner_to(ms, a, n - 1), sol, a, (n - 1) as u16);
    }
}

/// All hidden-pair steps keep a group's solution.
proof fn lemma_pairs_outer_keeps(ms: Seq<u16>, sol: Seq<u16>, n: int)
    requires
        group_solution(ms, sol),
        0 <= n <= 9,
    ensures
        group_solution(pairs_outer_to(ms, n), sol),
    decreases n,
{
    if n > 0 {
        lemma_pairs_outer_keeps(ms, sol, n - 1);
        lemma_pairs_inner_keeps(pairs_outer_to(ms, n - 1), sol, (n - 1) as u16, 9);
    }
}

/// One full per-group rule application keeps the group's solution.
proof fn lemma_evolve_result_keeps(ms: Seq<u16>, sol: Seq<u16>)
    requires
        group_solution(ms, sol),
        wf_group_masks(ms),
    ensures
        group_solution(evolve_result(ms), sol),
{
    lemma_naked_result_keeps_group(ms, sol);
    lemma_singles_to_keeps(naked_result(ms), sol, 9);
    lemma_pairs_outer_keeps(singles_to(naked_result(ms), 9), sol, 9);
}

/// A solved assignment for the whole board that respects every group of the
/// three standard partitions.
pub open spec fn board_solution(vals: Seq<u16>, sol: Seq<u16>) -> bool {
    &&& cell_solution(vals, sol)
    &&& forall|p: int, i: int|
        0 <= p < 3 && 0 <= i < 9 ==> distinct_in_group(sol, #[trigger] canonical_group(p, i))
}

/// `evolve` on one group keeps the board's solution and every resolved cell.
proof fn lemma_evolve_board_keeps(vals: Seq<u16>, sol: Seq<u16>, g: Seq<usize>)
    requires
        cell_solution(vals, sol),
        wf_values(vals),
        wf_indexes(g),
        distinct_in_group(sol, g),
    ensures
        cell_solution(evolve_board(vals, g), sol),
        wf_values(evolve_board(vals, g)),
        forall|c: int|
            0 <= c < 81 && popcount9(vals[c]) == 1 ==> evolve_board(vals, g)[c] == vals[c],
{
    let gm = group_masks(vals, g);
    let gsol = Seq::new(9, |k: int| sol[g[k] as int]);
    assert(group_solution(gm, gsol));
    lemma_evolve_board_props(vals, g);
    lemma_evolve_result_keeps(gm, gsol);
    let post = evolve_board(vals, g);
    assert forall|c: int| 0 <= c < 81 implies (#[trigger] post[c]) <= 0x1FF && sol[c] & post[c]
        == sol[c] && (popcount9(vals[c]) == 1 ==> post[c] == vals[c]) by {
        crate::rules::lemma_and_submask();
        assert(submask(post[c], vals[c]));
        if g.contains(c as usize) {
            let j = choose|j: int| 0 <= j < 9 && g[j] == c as usize;
            assert(post[g[j] as int] == evolve_result(gm)[j]);
            assert(gsol[j] == sol[c]);
            if popcount9(vals[c]) == 1 {
                lemma_evolve_result_resolved(gm, gsol, j);
            }
        }
    }
}

/// The intersection rule keeps the board's solution and every resolved cell.
proof fn lemma_proliferate_keeps(vals: Seq<u16>, sol: Seq<u16>, ga: Seq<usize>, gb: Seq<usize>)
    requires
        cell_solution(vals, sol),
        wf_values(vals),
        wf_indexes(ga),
        wf_indexes(gb),
        distinct_in_group(sol, ga),
        distinct_in_group(sol, gb),
    ensures
        cell_solution(proliferate_result(vals, ga, gb), sol),
        wf_values(proliferate_result(vals, ga, gb)),
        forall|c: int|
            0 <= c < 81 && popcount9(vals[c]) == 1 ==> proliferate_result(vals, ga, gb)[c]
                == vals[c],
{
    let post = proliferate_result(vals, ga, gb);
    assert forall|c: int| 0 <= c < 81 implies (#[trigger] post[c]) <= 0x1FF && sol[c] & post[c]
        == sol[c] && (popcount9(vals[c]) == 1 ==> post[c] == vals[c]) by {
        crate::rules::lemma_and_submask();
        assert(submask(post[c], vals[c]));
        if in_symmetric_difference(ga, gb, c as usize) {
            if ga.contains(c as usize) {
                lemma_sol_in_allowed(vals, sol, ga, gb, c);
            } else {
                lemma_sol_in_allowed(vals, sol, gb, ga, c);
            }
            let d = sol[c];
            let x = vals[c];
            let al = intersection_allowed(vals, ga, gb);
            assert(d & x == d && d & al == d ==> d & (x & al) == d) by (bit_vector);
            if popcount9(vals[c]) == 1 {
                lemma_proliferate_resolved(vals, sol, ga, gb, c);
            }
        }
    }
}

/// `evolve` over a partition's first `i` groups keeps the board's solution
/// and every cell that was already resolved.
proof fn lemma_evolve_partition_keeps(vals: Seq<u16>, sol: Seq<u16>, p: int, i: int)
    requires
        board_solution(vals, sol),
        wf_values(vals),
        0 <= p < 3,
        0 <= i <= 9,
    ensures
        board_solution(evolve_partition_to(vals, p, i), sol),
        wf_values(evolve_partition_to(vals, p, i)),
        forall|c: int|
            0 <= c < 81 && popcount9(vals[c]) == 1 ==> evolve_partition_to(vals, p, i)[c]
                == vals[c],
    decreases i,
{
    if i > 0 {
        lemma_evolve_partition_keeps(vals, sol, p, i - 1);
        let prev = evolve_partition_to(vals, p, i - 1);
        lemma_canonical_group_wf(p, i - 1);
        lemma_evolve_board_keeps(prev, sol, canonical_group(p, i - 1));
        assert forall|c: int|
            0 <= c < 81 && popcount9(vals[c]) == 1 implies evolve_partition_to(vals, p, i)[c]
            == vals[c] by {
            assert(prev[c] == vals[c]);
        }
    }
}

/// `evolve` over whole partitions keeps the board's solution and every cell
/// that was already resolved.
proof fn lemma_evolve_partitions_keeps(vals: Seq<u16>, sol: Seq<u16>, p: int)
    requires
        board_solution(vals, sol),
        wf_values(vals),
        0 <= p <= 3,
    ensures
        board_solution(evolve_partitions_to(vals, p), sol),
        wf_values(evolve_partitions_to(vals, p)),
        forall|c: int|
            0 <= c < 81 && popcount9(vals[c]) == 1 ==> evolve_partitions_to(vals, p)[c] == vals[c],
    decreases p,
{
    if p > 0 {
        lemma_evolve_partitions_keeps(vals, sol, p - 1);
        let prev = evolve_partitions_to(vals, p - 1);
        lemma_evolve_partition_keeps(prev, sol, p - 1, 9);
        assert forall|c: int|
            0 <= c < 81 && popcount9(vals[c]) == 1 implies evolve_partitions_to(vals, p)[c]
            == vals[c] by {
            assert(prev[c] == vals[c]);
        }
    }
}

/// The intersection rule between one block and the first `li` lines keeps
/// the board's solution and every cell that was already resolved.
proof fn lemma_prolif_lines_keeps(vals: Seq<u16>, sol: Seq<u16>, bi: int, lp: int, li: int)
    requires
        board_solution(vals, sol),
        wf_values(vals),
        0 <= bi < 9,
        0 <= lp < 2,
        0 <= li <= 9,
    ensures
        board_solution(prolif_lines_to(vals, bi, lp, li), sol),
        wf_values(prolif_lines_to(vals, bi, lp, li)),
        forall|c: int|
            0 <= c < 81 && popcount9(vals[c]) == 1 ==> prolif_lines_to(vals, bi, lp, li)[c]
                == vals[c],
    decreases li,
{
    if li > 0 {
        lemma_prolif_lines_keeps(vals, sol, bi, lp, li - 1);
        let prev = prolif_lines_to(vals, bi, lp, li - 1);
        lemma_canonical_group_wf(2, bi);
        lemma_canonical_group_wf(lp, li - 1);
        lemma_proliferate_keeps(prev, sol, canonical_group(2, bi), canonical_group(lp, li - 1));
        assert forall|c: int|
            0 <= c < 81 && popcount9(vals[c]) == 1 implies prolif_lines_to(vals, bi, lp, li)[c]
            == vals[c] by {
            assert(prev[c] == vals[c]);
        }
    }
}

/// The intersection rule over the first `bi` blocks keeps the board's
/// solution and every cell that was already resolved.
proof fn lemma_prolif_blocks_keeps(vals: Seq<u16>, sol: Seq<u16>, bi: int)
    requires
        board_solution(vals, sol),
        wf_values(vals),
        0 <= bi <= 9,
    ensures
        board_solution(prolif_blocks_to(vals, bi), sol),
        wf_values(prolif_blocks_to(vals, bi)),
        forall|c: int|
            0 <= c < 81 && popcount9(vals[c]) == 1 ==> prolif_blocks_to(vals, bi)[c] == vals[c],
    decreases bi,
{
    if bi > 0 {
        lemma_prolif_blocks_keeps(vals, sol, bi - 1);
        let prev = prolif_blocks_to(vals, bi - 1);
        lemma_prolif_lines_keeps(prev, sol, bi - 1, 0, 9);
        let rows_done = prolif_lines_to(prev, bi - 1, 0, 9);
        lemma_prolif_lines_keeps(rows_done, sol, bi - 1, 1, 9);
        assert forall|c: int|
            0 <= c < 81 && popcount9(vals[c]) == 1 implies prolif_blocks_to(vals, bi)[c]
            == vals[c] by {
            assert(prev[c] == vals[c] && rows_done[c] == vals[c]);
        }
    }
}

/// On a board that still admits a solution, one full solver step keeps the
/// solution, and no resolved cell's mask ever changes.
pub proof fn lemma_step_keeps_solution(vals: Seq<u16>, sol: Seq<u16>)
    requires
        board_solution(vals, sol),
        wf_values(vals),
    ensures
        board_solution(step_result(vals), sol),
        wf_values(step_result(vals)),
        forall|c: int|
            0 <= c < 81 && popcount9(vals[c]) == 1 ==> step_result(vals)[c] == vals[c],
{
    lemma_evolve_partitions_keeps(vals, sol, 3);
    let mid = evolve_partitions_to(vals, 3);
    lemma_prolif_blocks_keeps(mid, sol, 9);
    assert forall|c: int|
        0 <= c < 81 && popcount9(vals[c]) == 1 implies step_result(vals)[c] == vals[c] by {
        assert(mid[c] == vals[c]);
    }
}

/// On a board that still admits a solution, a cell resolved to a single
/// candidate keeps that mask for the whole remainder of the solver loop.
pub proof fn lemma_solve_keeps_resolved(vals: Seq<u16>, sol: Seq<u16>)
    requires
        board_solution(vals, sol),
        wf_values(vals),
    ensures
        forall|c: int|
            0 <= c < 81 && popcount9(vals[c]) == 1 ==> solve_rec(vals).0[c] == vals[c],
    decreases entropy_spec(vals),
{
    if entropy_spec(vals) != 81 {
        let next = step_result(vals);
        lemma_step_keeps_solution(vals, sol);
        lemma_step_shrinks(vals);
        if entropy_spec(next) != 81 && entropy_spec(next) != entropy_spec(vals) {
            crate::board::lemma_entropy_nonneg(next, 81);
            lemma_solve_keeps_resolved(next, sol);
            assert forall|c: int|
                0 <= c < 81 && popcount9(vals[c]) == 1 implies solve_rec(vals).0[c]
                == vals[c] by {
                assert(next[c] == vals[c]);
            }
        }
    }
}
} // verus!
