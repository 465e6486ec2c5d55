//! The solver loop: apply every rule over every group until the board is
//! solved or a full pass no longer lowers the entropy.

use crate::board::{
    entropy_spec, lemma_entropy_nonneg, lemma_entropy_pointwise_le, wf_values, Game,
};
use crate::group::{canonical_index, lemma_partition_coverage};
use crate::mask::submask;
use crate::rules::{
    evolve, evolve_result, group_masks, lemma_and_submask, lemma_hidden_result_shrinks,
    lemma_shrinks_trans, naked_result, proliferate_from_intersection, proliferate_result, shrinks,
};
use vstd::prelude::*;

verus! {

/// The index sequence of group `i` of standard partition `p`.
pub open spec fn canonical_group(p: int, i: int) -> Seq<usize> {
    Seq::new(9, |j: int| canonical_index(p, i, j) as usize)
}

/// A canonical group is a well-formed group: 9 distinct in-range indexes.
pub proof fn lemma_canonical_group_wf(p: int, i: int)
    requires
        0 <= p < 3,
        0 <= i < 9,
    ensures
        canonical_group(p, i).len() == 9,
        forall|j: int| 0 <= j < 9 ==> (#[trigger] canonical_group(p, i)[j]) < 81,
        forall|j1: int, j2: int|
            0 <= j1 < 9 && 0 <= j2 < 9 && j1 != j2 ==> canonical_group(p, i)[j1]
                != canonical_group(p, i)[j2],
{
    lemma_partition_coverage(p);
}

/// The first position at or after `m` where the group holds cell `c`, or 9.
pub open spec fn pos_in_group_from(g: Seq<usize>, c: int, m: int) -> int
    decreases 9 - m,
{
    if m < 0 || m >= 9 {
        9
    } else if g[m] as int == c {
        m
    } else {
        pos_in_group_from(g, c, m + 1)
    }
}

/// What the position search returns: a position in `[m, 9]`; below 9 it
/// names cell `c` and nothing before it does; at 9, no position at or
/// after `m` names `c`.
proof fn lemma_pos_props(g: Seq<usize>, c: int, m: int)
    requires
        0 <= m <= 9,
    ensures
        m <= pos_in_group_from(g, c, m) <= 9,
        pos_in_group_from(g, c, m) < 9 ==> g[pos_in_group_from(g, c, m)] as int == c,
        forall|i: int| m <= i < pos_in_group_from(g, c, m) && i < 9 ==> g[i] as int != c,
    decreases 9 - m,
{
    if m < 9 && g[m] as int != c {
        lemma_pos_props(g, c, m + 1);
    }
}

/// The board after one `evolve` application on group `g`: the group's cells
/// take the evolved masks, every other cell is untouched.
pub open spec fn evolve_board(vals: Seq<u16>, g: Seq<usize>) -> Seq<u16> {
    Seq::new(
        81,
        |c: int|
            if g.contains(c as usize) {
                evolve_result(group_masks(vals, g))[pos_in_group_from(g, c, 0)]
            } else {
                vals[c]
            },
    )
}

/// One full per-group rule application only narrows the group's masks.
pub proof fn lemma_evolve_result_shrinks(ms: Seq<u16>)
    requires
        ms.len() == 9,
    ensures
        shrinks(evolve_result(ms), ms),
{
    lemma_and_submask();
    assert(shrinks(naked_result(ms), ms));
    lemma_hidden_result_shrinks(naked_result(ms));
    lemma_shrinks_trans(evolve_result(ms), naked_result(ms), ms);
}

/// How `evolve_board` relates to the board it came from: the group's cells
/// carry the evolved masks in group order, the rest is unchanged, and every
/// cell's mask shrank.
pub proof fn lemma_evolve_board_props(vals: Seq<u16>, g: Seq<usize>)
    requires
        vals.len() == 81,
        g.len() == 9,
        forall|j: int| 0 <= j < 9 ==> (#[trigger] g[j]) < 81,
        forall|j1: int, j2: int| 0 <= j1 < 9 && 0 <= j2 < 9 && j1 != j2 ==> g[j1] != g[j2],
    ensures
        evolve_board(vals, g).len() == 81,
        forall|j: int|
            0 <= j < 9 ==> evolve_board(vals, g)[g[j] as int] == evolve_result(
                group_masks(vals, g),
            )[j],
        forall|c: int| 0 <= c < 81 && !g.contains(c as usize) ==> evolve_board(vals, g)[c]
            == vals[c],
        shrinks(evolve_board(vals, g), vals),
{
    lemma_evolve_result_shrinks(group_masks(vals, g));
    assert forall|j: int| 0 <= j < 9 implies evolve_board(vals, g)[g[j] as int] == evolve_result(
        group_masks(vals, g),
    )[j] by {
        let c = g[j] as int;
        assert(g.contains(g[j]));
        lemma_pos_props(g, c, 0);
        let pos = pos_in_group_from(g, c, 0);
        if pos == 9 {
            assert(g[j] as int != c);
        }
        assert(pos == j);
    }
    assert forall|c: int| 0 <= c < 81 implies submask(evolve_board(vals, g)[c], vals[c]) by {
        lemma_and_submask();
        if g.contains(c as usize) {
            lemma_pos_props(g, c, 0);
            let pos = pos_in_group_from(g, c, 0);
            if pos == 9 {
                let w = choose|w: int| 0 <= w < 9 && g[w] == c as usize;
                assert(g[w] as int != c);
            }
            assert(group_masks(vals, g)[pos] == vals[c]);
        }
    }
}

/// The intersection rule only narrows masks.
pub proof fn lemma_proliferate_shrinks(vals: Seq<u16>, ga: Seq<usize>, gb: Seq<usize>)
    requires
        vals.len() == 81,
    ensures
        shrinks(proliferate_result(vals, ga, gb), vals),
{
    lemma_and_submask();
}

/// Boards after `evolve` on groups `0 .. i` of partition `p`.
pub open spec fn evolve_partition_to(vals: Seq<u16>, p: int, i: int) -> Seq<u16>
    decreases i,
{
    if i <= 0 {
        vals
    } else {
        evolve_board(evolve_partition_to(vals, p, i - 1), canonical_group(p, i - 1))
    }
}

/// Boards after `evolve` on every group of partitions `0 .. p`.
pub open spec fn evolve_partitions_to(vals: Seq<u16>, p: int) -> Seq<u16>
    decreases p,
{
    if p <= 0 {
        vals
    } else {
        evolve_partition_to(evolve_partitions_to(vals, p - 1), p - 1, 9)
    }
}

/// Board after the intersection rule between block `bi` and the first `li`
/// groups of line partition `lp` (0 = rows, 1 = columns).
pub open spec fn prolif_lines_to(vals: Seq<u16>, bi: int, lp: int, li: int) -> Seq<u16>
    decreases li,
{
    if li <= 0 {
        vals
    } else {
        proliferate_result(
            prolif_lines_to(vals, bi, lp, li - 1),
            canonical_group(2, bi),
            canonical_group(lp, li - 1),
        )
    }
}

/// Board after the intersection rule for blocks `0 .. bi`, each against all
/// rows and then all columns.
pub open spec fn prolif_blocks_to(vals: Seq<u16>, bi: int) -> Seq<u16>
    decreases bi,
{
    if bi <= 0 {
        vals
    } else {
        prolif_lines_to(
            prolif_lines_to(prolif_blocks_to(vals, bi - 1), bi - 1, 0, 9),
            bi - 1,
            1,
            9,
        )
    }
}

/// One full solver step: `evolve` over every group of the three partitions,
/// then the intersection rule over every block-row and block-column pair.
pub open spec fn step_result(vals: Seq<u16>) -> Seq<u16> {
    prolif_blocks_to(evolve_partitions_to(vals, 3), 9)
}

proof fn lemma_evolve_partition_to_shrinks(vals: Seq<u16>, p: int, i: int)
    requires
        vals.len() == 81,
        0 <= p < 3,
        0 <= i <= 9,
    ensures
        shrinks(evolve_partition_to(vals, p, i), vals),
    decreases i,
{
    lemma_and_submask();
    if i > 0 {
        lemma_evolve_partition_to_shrinks(vals, p, i - 1);
        lemma_canonical_group_wf(p, i - 1);
        lemma_evolve_board_props(evolve_partition_to(vals, p, i - 1), canonical_group(p, i - 1));
        lemma_shrinks_trans(
            evolve_partition_to(vals, p, i),
            evolve_partition_to(vals, p, i - 1),
            vals,
        );
    }
}

proof fn lemma_evolve_partitions_to_shrinks(vals: Seq<u16>, p: int)
    requires
        vals.len() == 81,
        0 <= p <= 3,
    ensures
        shrinks(evolve_partitions_to(vals, p), vals),
    decreases p,
{
    lemma_and_submask();
    if p > 0 {
        lemma_evolve_partitions_to_shrinks(vals, p - 1);
        lemma_evolve_partition_to_shrinks(evolve_partitions_to(vals, p - 1), p - 1, 9);
        lemma_shrinks_trans(evolve_partitions_to(vals, p), evolve_partitions_to(vals, p - 1), vals);
    }
}

proof fn lemma_prolif_lines_to_shrinks(vals: Seq<u16>, bi: int, lp: int, li: int)
    requires
        vals.len() == 81,
        0 <= li <= 9,
    ensures
        shrinks(prolif_lines_to(vals, bi, lp, li), vals),
    decreases li,
{
    lemma_and_submask();
    if li > 0 {
        lemma_prolif_lines_to_shrinks(vals, bi, lp, li - 1);
        lemma_proliferate_shrinks(
            prolif_lines_to(vals, bi, lp, li - 1),
            canonical_group(2, bi),
            canonical_group(lp, li - 1),
        );
        lemma_shrinks_trans(
            prolif_lines_to(vals, bi, lp, li),
            prolif_lines_to(vals, bi, lp, li - 1),
            vals,
        );
    }
}

proof fn lemma_prolif_blocks_to_shrinks(vals: Seq<u16>, bi: int)
    requires
        vals.len() == 81,
        0 <= bi <= 9,
    ensures
        shrinks(prolif_blocks_to(vals, bi), vals),
    decreases bi,
{
    lemma_and_submask();
    if bi > 0 {
        let prev = prolif_blocks_to(vals, bi - 1);
        lemma_prolif_blocks_to_shrinks(vals, bi - 1);
        lemma_prolif_lines_to_shrinks(prev, bi - 1, 0, 9);
        lemma_prolif_lines_to_shrinks(prolif_lines_to(prev, bi - 1, 0, 9), bi - 1, 1, 9);
        lemma_shrinks_trans(
            prolif_blocks_to(vals, bi),
            prolif_lines_to(prev, bi - 1, 0, 9),
            prev,
        );
        lemma_shrinks_trans(prolif_blocks_to(vals, bi), prev, vals);
    }
}

/// A full solver step only narrows masks, so the board's entropy never
/// increases across a step.
pub proof fn lemma_step_shrinks(vals: Seq<u16>)
    requires
        vals.len() == 81,
    ensures
        shrinks(step_result(vals), vals),
        entropy_spec(step_result(vals)) <= entropy_spec(vals),
{
    lemma_evolve_partitions_to_shrinks(vals, 3);
    lemma_prolif_blocks_to_shrinks(evolve_partitions_to(vals, 3), 9);
    lemma_shrinks_trans(step_result(vals), evolve_partitions_to(vals, 3), vals);
    lemma_entropy_pointwise_le(step_result(vals), vals, 81);
}


/// The state of the solver loop.
#[derive(Debug, PartialEq, Eq, Structural, Clone, Copy)]
pub enum SolveState {
    /// The loop is still lowering the board's entropy.
    Running,
    /// Every cell is down to a single candidate.
    Solved,
    /// A full step no longer changed the entropy, and the board is not
    /// solved: propagation alone cannot finish this puzzle.
    Stalled,
}

/// The solver loop as a function of the starting board: the final board,
/// the terminal state, and how many full steps were taken.
pub open spec fn solve_rec(vals: Seq<u16>) -> (Seq<u16>, SolveState, int)
    decreases entropy_spec(vals),
        when vals.len() == 81
        via solve_rec_decreases
{
    if entropy_spec(vals) == 81 {
        (vals, SolveState::Solved, 0)
    } else {
        let next = step_result(vals);
        if entropy_spec(next) == 81 {
            (next, SolveState::Solved, 1)
        } else if entropy_spec(next) == entropy_spec(vals) {
            (next, SolveState::Stalled, 1)
        } else {
            let rest = solve_rec(next);
            (rest.0, rest.1, rest.2 + 1)
        }
    }
}

#[via_fn]
proof fn solve_rec_decreases(vals: Seq<u16>) {
    if vals.len() == 81 && entropy_spec(vals) != 81 {
        lemma_step_shrinks(vals);
        lemma_entropy_nonneg(step_result(vals), 81);
    }
}

impl Game {
    /// One full solver step: `evolve` on every group of every partition,
    /// then the intersection rule on every block-row and block-column pair.
    /// Entropy never increases, and no cell ever gains a candidate.
    #[verifier::loop_isolation(false)]
    pub fn step(&mut self)
        requires
            old(self).wf(),
        ensures
            final(self).wf(),
            final(self).partitions@ == old(self).partitions@,
            final(self).values@ == step_result(old(self).values@),
            entropy_spec(final(self).values@) <= entropy_spec(old(self).values@),
            forall|c: int|
                0 <= c < 81 ==> submask(final(self).values@[c], old(self).values@[c]),
    {
        let ghost vals0 = self.values@;
        let mut values: Vec<u16> = Vec::new();
        core::mem::swap(&mut values, &mut self.values);
        let mut p: usize = 0;
        while p < 3
            invariant
                p <= 3,
                wf_values(values@),
                values@ == evolve_partitions_to(vals0, p as int),
                self.partitions@ == old(self).partitions@,
            decreases 3 - p,
        {
            let mut i: usize = 0;
            while i < 9
                invariant
                    p < 3,
                    i <= 9,
                    wf_values(values@),
                    values@ == evolve_partition_to(
                        evolve_partitions_to(vals0, p as int),
                        p as int,
                        i as int,
                    ),
                    self.partitions@ == old(self).partitions@,
                decreases 9 - i,
            {
                let ghost prev = values@;
                let group = &self.partitions[p].groups[i];
                proof {
                    assert(group.indexes@ =~= canonical_group(p as int, i as int));
                    lemma_canonical_group_wf(p as int, i as int);
                }
                evolve(&mut values, group);
                proof {
                    lemma_evolve_board_props(prev, canonical_group(p as int, i as int));
                    assert forall|c: int| 0 <= c < 81 implies values@[c] == evolve_board(
                        prev,
                        canonical_group(p as int, i as int),
                    )[c] by {
                        let g = canonical_group(p as int, i as int);
                        if g.contains(c as usize) {
                            let w = choose|w: int| 0 <= w < 9 && g[w] == c as usize;
                            assert(values@[g[w] as int] == evolve_result(group_masks(prev, g))[w]);
                        }
                    }
                    assert(values@ =~= evolve_board(prev, canonical_group(p as int, i as int)));
                }
                i = i + 1;
            }
            p = p + 1;
        }
        let ghost mid = values@;
        let mut bi: usize = 0;
        while bi < 9
            invariant
                bi <= 9,
                wf_values(values@),
                values@ == prolif_blocks_to(mid, bi as int),
                self.partitions@ == old(self).partitions@,
            decreases 9 - bi,
        {
            let ghost base = values@;
            let mut li: usize = 0;
            while li < 9
                invariant
                    bi < 9,
                    li <= 9,
                    wf_values(values@),
                    values@ == prolif_lines_to(base, bi as int, 0, li as int),
                    self.partitions@ == old(self).partitions@,
                decreases 9 - li,
            {
                let block = &self.partitions[2].groups[bi];
                let line = &self.partitions[0].groups[li];
                proof {
                    assert(block.indexes@ =~= canonical_group(2, bi as int));
                    assert(line.indexes@ =~= canonical_group(0, li as int));
                }
                values = proliferate_from_intersection(values, block, line);
                li = li + 1;
            }
            let ghost rows_done = values@;
            let mut li: usize = 0;
            while li < 9
                invariant
                    bi < 9,
                    li <= 9,
                    wf_values(values@),
                    values@ == prolif_lines_to(rows_done, bi as int, 1, li as int),
                    self.partitions@ == old(self).partitions@,
                decreases 9 - li,
            {
                let block = &self.partitions[2].groups[bi];
                let line = &self.partitions[1].groups[li];
                proof {
                    assert(block.indexes@ =~= canonical_group(2, bi as int));
                    assert(line.indexes@ =~= canonical_group(1, li as int));
                }
                values = proliferate_from_intersection(values, block, line);
                li = li + 1;
            }
            bi = bi + 1;
        }
        self.values = values;
        proof {
            lemma_step_shrinks(vals0);
        }
    }

    /// Run full solver steps until the board is solved (entropy 81) or a
    /// step leaves the entropy unchanged (stalled). Returns the terminal
    /// state and the number of steps taken. A board that starts solved
    /// takes zero steps.
    #[verifier::loop_isolation(false)]
    pub fn solve(&mut self) -> (r: (SolveState, usize))
        requires
            old(self).wf(),
        ensures
            final(self).wf(),
            final(self).partitions@ == old(self).partitions@,
            final(self).values@ == solve_rec(old(self).values@).0,
            r.0 == solve_rec(old(self).values@).1,
            r.1 as int == solve_rec(old(self).values@).2,
            r.0 == SolveState::Solved <==> entropy_spec(final(self).values@) == 81,
            r.0 == SolveState::Solved || r.0 == SolveState::Stalled,
            entropy_spec(final(self).values@) <= entropy_spec(old(self).values@),
            entropy_spec(old(self).values@) == 81 ==> r.0 == SolveState::Solved && r.1 == 0
                && final(self).values@ == old(self).values@,
    {
        let ghost vals0 = self.values@;
        let mut entropy = self.measure_entropy();
        if entropy == 81 {
            return (SolveState::Solved, 0);
        }
        let mut steps: usize = 0;
        loop
            invariant
                self.wf(),
                self.partitions@ == old(self).partitions@,
                entropy as int == entropy_spec(self.values@),
                entropy != 81,
                steps + entropy <= 729,
                solve_rec(vals0).0 == solve_rec(self.values@).0,
                solve_rec(vals0).1 == solve_rec(self.values@).1,
                solve_rec(vals0).2 == steps + solve_rec(self.values@).2,
                entropy_spec(self.values@) <= entropy_spec(vals0),
            decreases entropy,
        {
            self.step();
            steps = steps + 1;
            let e2 = self.measure_entropy();
            if e2 == 81 {
                return (SolveState::Solved, steps);
            }
            if e2 == entropy {
                return (SolveState::Stalled, steps);
            }
            entropy = e2;
        }
    }
}

} // verus!
