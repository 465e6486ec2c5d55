//! The deduction rules: pure transformations of the board's masks.
//!
//! Every rule only clears candidates: each resulting mask is a bitwise
//! subset of the mask the cell held when the rule was invoked.

use crate::board::wf_values;
use crate::group::Group;
use crate::mask::{count_bits, popcount9, submask};
use vstd::prelude::*;

verus! {

/// The 9 masks a group currently selects from the board.
pub open spec fn group_masks(vals: Seq<u16>, g: Seq<usize>) -> Seq<u16> {
    Seq::new(9, |j: int| vals[g[j] as int])
}

/// How many of the first `n` masks equal `m`.
pub open spec fn count_eq_to(ms: Seq<u16>, m: u16, n: int) -> int
    decreases n,
{
    if n <= 0 {
        0
    } else {
        count_eq_to(ms, m, n - 1) + if ms[n - 1] == m {
            1int
        } else {
            0int
        }
    }
}

/// How many of the group's 9 masks equal `m`.
pub open spec fn count_eq(ms: Seq<u16>, m: u16) -> int {
    count_eq_to(ms, m, 9)
}

/// `m` is a naked subset signature: exactly as many cells share the mask `m`
/// as `m` has candidates, so those cells lock `m`'s digits.
pub open spec fn locked(ms: Seq<u16>, m: u16) -> bool {
    count_eq(ms, m) == popcount9(m)
}

/// OR of the locked signatures among the first `n` masks that differ
/// from `x`.
pub open spec fn elim_to(ms: Seq<u16>, x: u16, n: int) -> u16
    decreases n,
{
    if n <= 0 {
        0
    } else {
        elim_to(ms, x, n - 1) | (if ms[n - 1] != x && locked(ms, ms[n - 1]) {
            ms[n - 1]
        } else {
            0u16
        })
    }
}

/// The candidates the naked-subset rule clears from a cell whose mask
/// is `x`: all digits locked by a signature other than `x` itself.
pub open spec fn naked_elim(ms: Seq<u16>, x: u16) -> u16 {
    elim_to(ms, x, 9)
}

/// The group's masks after the naked-subset rule.
pub open spec fn naked_result(ms: Seq<u16>) -> Seq<u16> {
    Seq::new(9, |j: int| ms[j] & !naked_elim(ms, ms[j]))
}

/// Bitwise facts the rules lean on: masking with `&` yields a submask, the
/// submask relation is transitive and keeps a value within the nine
/// candidate bits, and OR with the empty mask changes nothing.
pub proof fn lemma_and_submask()
    by (bit_vector)
    ensures
        forall|a: u16, b: u16| (#[trigger] (a & b)) & a == a & b,
        forall|a: u16, b: u16| a & b == a && b <= 0x1FF ==> a <= 0x1FF,
        forall|a: u16, b: u16, c: u16| a & b == a && b & c == b ==> a & c == a,
        forall|a: u16| #[trigger] (a & a) == a,
        forall|a: u16| #[trigger] (a | 0) == a,
{
}

/// How many of the group's masks equal `m`.
fn count_eq_exec(snap: &Vec<u16>, m: u16) -> (r: u8)
    requires
        snap@.len() == 9,
    ensures
        r as int == count_eq(snap@, m),
{
    let mut count: u8 = 0;
    let mut k: usize = 0;
    while k < 9
        invariant
            snap@.len() == 9,
            k <= 9,
            count as int == count_eq_to(snap@, m, k as int),
            count <= k,
        decreases 9 - k,
    {
        if snap[k] == m {
            count = count + 1;
        }
        k = k + 1;
    }
    count
}

/// Naked-subset elimination over one group.
///
/// Each set of `k` cells sharing an identical `k`-candidate mask locks those
/// candidates: they are cleared from every other cell of the group. Cells
/// outside the group are untouched, and no cell ever gains a candidate.
#[verifier::loop_isolation(false)]
pub fn naked_subsets(values: &mut Vec<u16>, group: &Group)
    requires
        wf_values(old(values)@),
        group.wf(),
    ensures
        wf_values(final(values)@),
        forall|j: int|
            0 <= j < 9 ==> final(values)@[group.indexes@[j] as int] == naked_result(
                group_masks(old(values)@, group.indexes@),
            )[j],
        forall|c: int|
            0 <= c < 81 && !group.indexes@.contains(c as usize) ==> final(values)@[c] == old(
                values,
            )@[c],
        forall|c: int| 0 <= c < 81 ==> submask(final(values)@[c], old(values)@[c]),
{
    proof {
        lemma_and_submask();
    }
    let ghost vals0 = values@;
    let ghost ms = group_masks(vals0, group.indexes@);
    let mut snap: Vec<u16> = Vec::new();
    let mut j: usize = 0;
    while j < 9
        invariant
            j <= 9,
            snap@.len() == j,
            values@ == vals0,
            forall|k: int| 0 <= k < j ==> snap@[k] == ms[k],
        decreases 9 - j,
    {
        snap.push(values[group.indexes[j]]);
        j = j + 1;
    }
    proof {
        assert(snap@ =~= ms);
    }
    let mut j: usize = 0;
    while j < 9
        invariant
            j <= 9,
            values@.len() == 81,
            forall|jj: int|
                0 <= jj < j ==> values@[group.indexes@[jj] as int] == naked_result(ms)[jj],
            forall|jj: int| j <= jj < 9 ==> values@[group.indexes@[jj] as int] == ms[jj],
            forall|c: int|
                0 <= c < 81 && !group.indexes@.contains(c as usize) ==> values@[c] == vals0[c],
            forall|c: int| 0 <= c < 81 ==> submask(values@[c], vals0[c]),
        decreases 9 - j,
    {
        let m = snap[j];
        let mut e: u16 = 0;
        let mut k: usize = 0;
        while k < 9
            invariant
                k <= 9,
                e == elim_to(ms, m, k as int),
            decreases 9 - k,
        {
            let cand = snap[k];
            if cand != m && count_eq_exec(&snap, cand) == count_bits(cand) {
                e = e | cand;
            }
            k = k + 1;
        }
        let idx = group.indexes[j];
        proof {
            assert(group.indexes@.contains(idx)) by {
                assert(group.indexes@[j as int] == idx);
            }
            assert(submask(ms[j as int] & !e, ms[j as int]));
            assert(ms[j as int] == vals0[idx as int]);
        }
        values.set(idx, m & !e);
        j = j + 1;
    }
    proof {
        assert forall|c: int| 0 <= c < 81 implies values@[c] <= 0x1FF by {
            assert(submask(values@[c], vals0[c]));
            assert(vals0[c] <= 0x1FF);
        }
    }
}


/// The candidate bit for digit `b + 1`.
pub open spec fn bit_mask(b: u16) -> u16 {
    1u16 << b
}

/// How many of the first `n` masks contain candidate bit `b`.
pub open spec fn count_bit_to(ms: Seq<u16>, b: u16, n: int) -> int
    decreases n,
{
    if n <= 0 {
        0
    } else {
        count_bit_to(ms, b, n - 1) + if ms[n - 1] & bit_mask(b) == bit_mask(b) {
            1int
        } else {
            0int
        }
    }
}

/// How many of the group's 9 masks contain candidate bit `b`.
pub open spec fn count_bit(ms: Seq<u16>, b: u16) -> int {
    count_bit_to(ms, b, 9)
}

/// The first position at or after `m` whose mask contains bit `b`, or 9.
pub open spec fn first_with_bit_from(ms: Seq<u16>, b: u16, m: int) -> int
    decreases 9 - m,
{
    if m < 0 || m >= 9 {
        9
    } else if ms[m] & bit_mask(b) == bit_mask(b) {
        m
    } else {
        first_with_bit_from(ms, b, m + 1)
    }
}

/// The first position whose mask contains bit `b`, or 9.
pub open spec fn first_with_bit(ms: Seq<u16>, b: u16) -> int {
    first_with_bit_from(ms, b, 0)
}

/// One hidden-single step: if bit `b` survives in exactly one cell, that
/// cell is forced to exactly that digit.
pub open spec fn single_step(ms: Seq<u16>, b: u16) -> Seq<u16> {
    if count_bit(ms, b) == 1 {
        ms.update(first_with_bit(ms, b), bit_mask(b))
    } else {
        ms
    }
}

/// Hidden-single steps applied for bits `0 .. n`, in order.
pub open spec fn singles_to(ms: Seq<u16>, n: int) -> Seq<u16>
    decreases n,
{
    if n <= 0 {
        ms
    } else {
        single_step(singles_to(ms, n - 1), (n - 1) as u16)
    }
}

/// How many of the first `n` masks contain all bits of `pair`.
pub open spec fn count_pair_to(ms: Seq<u16>, pair: u16, n: int) -> int
    decreases n,
{
    if n <= 0 {
        0
    } else {
        count_pair_to(ms, pair, n - 1) + if ms[n - 1] & pair == pair {
            1int
        } else {
            0int
        }
    }
}

/// How many of the group's 9 masks contain all bits of `pair`.
pub open spec fn count_pair(ms: Seq<u16>, pair: u16) -> int {
    count_pair_to(ms, pair, 9)
}

/// One hidden-pair step for bits `a` and `b`: when each bit survives in
/// exactly 2 cells and exactly 2 cells carry both, those 2 cells are
/// restricted to exactly the pair.
pub open spec fn pair_step(ms: Seq<u16>, a: u16, b: u16) -> Seq<u16> {
    let pair = bit_mask(a) | bit_mask(b);
    if count_bit(ms, a) == 2 && count_bit(ms, b) == 2 && count_pair(ms, pair) == 2 {
        Seq::new(9, |j: int| if ms[j] & pair == pair {
            pair
        } else {
            ms[j]
        })
    } else {
        ms
    }
}

/// Hidden-pair steps for bit `a` against bits `a + 1 .. n`, in order.
pub open spec fn pairs_inner_to(ms: Seq<u16>, a: u16, n: int) -> Seq<u16>
    decreases n,
{
    if n <= a + 1 {
        ms
    } else {
        pair_step(pairs_inner_to(ms, a, n - 1), a, (n - 1) as u16)
    }
}

/// Hidden-pair steps for all unordered bit pairs drawn from `0 .. n`.
pub open spec fn pairs_outer_to(ms: Seq<u16>, n: int) -> Seq<u16>
    decreases n,
{
    if n <= 0 {
        ms
    } else {
        pairs_inner_to(pairs_outer_to(ms, n - 1), (n - 1) as u16, 9)
    }
}

/// The group's masks after the hidden-single/pair rule: all hidden singles,
/// then all hidden pairs.
pub open spec fn hidden_result(ms: Seq<u16>) -> Seq<u16> {
    pairs_outer_to(singles_to(ms, 9), 9)
}

/// The group's masks after one full per-group rule application:
/// naked subsets first, then hidden singles and pairs.
pub open spec fn evolve_result(ms: Seq<u16>) -> Seq<u16> {
    hidden_result(naked_result(ms))
}

/// Every mask of `post` is a bitwise subset of the same cell's mask
/// in `pre`.
pub open spec fn shrinks(post: Seq<u16>, pre: Seq<u16>) -> bool {
    &&& post.len() == pre.len()
    &&& forall|j: int| 0 <= j < post.len() ==> submask(post[j], pre[j])
}

/// The submask relation is transitive.
pub proof fn lemma_submask_trans(a: u16, b: u16, c: u16)
    by (bit_vector)
    requires
        a & b == a,
        b & c == b,
    ensures
        a & c == a,
{
}

/// `shrinks` composes.
pub proof fn lemma_shrinks_trans(a: Seq<u16>, b: Seq<u16>, c: Seq<u16>)
    requires
        shrinks(a, b),
        shrinks(b, c),
    ensures
        shrinks(a, c),
{
    assert forall|j: int| 0 <= j < a.len() implies submask(a[j], c[j]) by {
        lemma_submask_trans(a[j], b[j], c[j]);
    }
}

/// A mask containing `p` has `p` as a submask.
pub proof fn lemma_contains_submask(x: u16, p: u16)
    by (bit_vector)
    requires
        x & p == p,
    ensures
        p & x == p,
{
}

/// If no mask before `n` holds bit `b`, none is counted.
pub proof fn lemma_no_bit_no_count(ms: Seq<u16>, b: u16, n: int)
    requires
        forall|i: int| 0 <= i < n ==> ms[i] & bit_mask(b) != bit_mask(b),
    ensures
        count_bit_to(ms, b, n) == 0,
    decreases n,
{
    if n > 0 {
        lemma_no_bit_no_count(ms, b, n - 1);
    }
}

/// What the first-bit search returns: a position in `[m, 9]`; when it is
/// below 9 it holds the bit and nothing before it (at or after `m`) does;
/// when it is 9, no position at or after `m` holds the bit.
pub proof fn lemma_first_with_bit_props(ms: Seq<u16>, b: u16, m: int)
    requires
        0 <= m <= 9,
    ensures
        m <= first_with_bit_from(ms, b, m) <= 9,
        first_with_bit_from(ms, b, m) < 9 ==> ms[first_with_bit_from(ms, b, m)] & bit_mask(b)
            == bit_mask(b),
        forall|i: int|
            m <= i < first_with_bit_from(ms, b, m) && i < 9 ==> ms[i] & bit_mask(b) != bit_mask(
                b,
            ),
    decreases 9 - m,
{
    if m < 9 && !(ms[m] & bit_mask(b) == bit_mask(b)) {
        lemma_first_with_bit_props(ms, b, m + 1);
    }
}

/// A skipped prefix without the bit does not move the first-bit search.
proof fn lemma_first_with_bit_skip(ms: Seq<u16>, b: u16, m: int, n: int)
    requires
        0 <= m <= n <= 9,
        forall|i: int| m <= i < n ==> ms[i] & bit_mask(b) != bit_mask(b),
    ensures
        first_with_bit_from(ms, b, m) == first_with_bit_from(ms, b, n),
    decreases n - m,
{
    if m < n {
        lemma_first_with_bit_skip(ms, b, m + 1, n);
    }
}

/// A hidden-single step only narrows masks.
proof fn lemma_single_step_shrinks(ms: Seq<u16>, b: u16)
    requires
        ms.len() == 9,
    ensures
        shrinks(single_step(ms, b), ms),
{
    if count_bit(ms, b) == 1 {
        let f = first_with_bit(ms, b);
        lemma_first_with_bit_props(ms, b, 0);
        if f == 9 {
            lemma_no_bit_no_count(ms, b, 9);
        }
        assert(ms[f] & bit_mask(b) == bit_mask(b));
        lemma_contains_submask(ms[f], bit_mask(b));
        lemma_and_submask();
        assert forall|j: int| 0 <= j < 9 implies submask(single_step(ms, b)[j], ms[j]) by {
            if j != f {
                assert(single_step(ms, b)[j] == ms[j]);
            }
        }
    } else {
        lemma_and_submask();
    }
}

/// Hidden-single steps only narrow masks.
proof fn lemma_singles_to_shrinks(ms: Seq<u16>, n: int)
    requires
        ms.len() == 9,
        n <= 9,
    ensures
        shrinks(singles_to(ms, n), ms),
    decreases n,
{
    lemma_and_submask();
    if n > 0 {
        lemma_singles_to_shrinks(ms, n - 1);
        lemma_single_step_shrinks(singles_to(ms, n - 1), (n - 1) as u16);
        lemma_shrinks_trans(singles_to(ms, n), singles_to(ms, n - 1), ms);
    }
}

/// A hidden-pair step only narrows masks.
proof fn lemma_pair_step_shrinks(ms: Seq<u16>, a: u16, b: u16)
    requires
        ms.len() == 9,
    ensures
        shrinks(pair_step(ms, a, b), ms),
{
    lemma_and_submask();
    let pair = bit_mask(a) | bit_mask(b);
    if count_bit(ms, a) == 2 && count_bit(ms, b) == 2 && count_pair(ms, pair) == 2 {
        assert forall|j: int| 0 <= j < 9 implies submask(pair_step(ms, a, b)[j], ms[j]) by {
            if ms[j] & pair == pair {
                lemma_contains_submask(ms[j], pair);
            }
        }
    }
}

/// Hidden-pair steps for one leading bit only narrow masks.
proof fn lemma_pairs_inner_shrinks(ms: Seq<u16>, a: u16, n: int)
    requires
        ms.len() == 9,
        n <= 9,
    ensures
        shrinks(pairs_inner_to(ms, a, n), ms),
    decreases n,
{
    lemma_and_submask();
    if n > a + 1 {
        lemma_pairs_inner_shrinks(ms, a, n - 1);
        lemma_pair_step_shrinks(pairs_inner_to(ms, a, n - 1), a, (n - 1) as u16);
        lemma_shrinks_trans(pairs_inner_to(ms, a, n), pairs_inner_to(ms, a, n - 1), ms);
    }
}

/// All hidden-pair steps only narrow masks.
proof fn lemma_pairs_outer_shrinks(ms: Seq<u16>, n: int)
    requires
        ms.len() == 9,
        n <= 9,
    ensures
        shrinks(pairs_outer_to(ms, n), ms),
    decreases n,
{
    lemma_and_submask();
    if n > 0 {
        lemma_pairs_outer_shrinks(ms, n - 1);
        lemma_pairs_inner_shrinks(pairs_outer_to(ms, n - 1), (n - 1) as u16, 9);
        lemma_shrinks_trans(pairs_outer_to(ms, n), pairs_outer_to(ms, n - 1), ms);
    }
}

/// The whole hidden-single/pair rule only narrows the group's masks.
pub proof fn lemma_hidden_result_shrinks(ms: Seq<u16>)
    requires
        ms.len() == 9,
    ensures
        shrinks(hidden_result(ms), ms),
{
    lemma_singles_to_shrinks(ms, 9);
    lemma_pairs_outer_shrinks(singles_to(ms, 9), 9);
    lemma_shrinks_trans(hidden_result(ms), singles_to(ms, 9), ms);
}

/// How many of the group's masks contain candidate bit `b`.
fn count_bit_exec(work: &Vec<u16>, b: u16) -> (r: u8)
    requires
        work@.len() == 9,
        b < 9,
    ensures
        r as int == count_bit(work@, b),
{
    let bit = 1u16 << b;
    let mut count: u8 = 0;
    let mut k: usize = 0;
    while k < 9
        invariant
            work@.len() == 9,
            b < 9,
            bit == bit_mask(b),
            k <= 9,
            count as int == count_bit_to(work@, b, k as int),
            count <= k,
        decreases 9 - k,
    {
        if work[k] & bit == bit {
            count = count + 1;
        }
        k = k + 1;
    }
    count
}

/// How many of the group's masks contain every bit of `pair`.
fn count_pair_exec(work: &Vec<u16>, pair: u16) -> (r: u8)
    requires
        work@.len() == 9,
    ensures
        r as int == count_pair(work@, pair),
{
    let mut count: u8 = 0;
    let mut k: usize = 0;
    while k < 9
        invariant
            work@.len() == 9,
            k <= 9,
            count as int == count_pair_to(work@, pair, k as int),
            count <= k,
        decreases 9 - k,
    {
        if work[k] & pair == pair {
            count = count + 1;
        }
        k = k + 1;
    }
    count
}

/// Hidden-single and hidden-pair restriction over one group.
///
/// A digit surviving in exactly one cell forces that cell; two digits each
/// surviving in exactly the same two cells force those cells to the pair.
/// Cells outside the group are untouched, and no cell ever gains a
/// candidate it did not hold when the rule was invoked.
#[verifier::loop_isolation(false)]
pub fn hidden_singles_pairs(values: &mut Vec<u16>, group: &Group)
    requires
        wf_values(old(values)@),
        group.wf(),
    ensures
        wf_values(final(values)@),
        forall|j: int|
            0 <= j < 9 ==> final(values)@[group.indexes@[j] as int] == hidden_result(
                group_masks(old(values)@, group.indexes@),
            )[j],
        forall|c: int|
            0 <= c < 81 && !group.indexes@.contains(c as usize) ==> final(values)@[c] == old(
                values,
            )@[c],
        forall|c: int| 0 <= c < 81 ==> submask(final(values)@[c], old(values)@[c]),
{
    proof {
        lemma_and_submask();
    }
    let ghost vals0 = values@;
    let ghost ms = group_masks(vals0, group.indexes@);
    let mut work: Vec<u16> = Vec::new();
    let mut j: usize = 0;
    while j < 9
        invariant
            j <= 9,
            work@.len() == j,
            values@ == vals0,
            forall|k: int| 0 <= k < j ==> work@[k] == ms[k],
        decreases 9 - j,
    {
        work.push(values[group.indexes[j]]);
        j = j + 1;
    }
    proof {
        assert(work@ =~= ms);
    }
    // Hidden singles, one digit bit at a time, re-counting as cells change.
    let mut b: u16 = 0;
    while b < 9
        invariant
            b <= 9,
            work@.len() == 9,
            work@ == singles_to(ms, b as int),
        decreases 9 - b,
    {
        let bit = 1u16 << b;
        let ghost cur = work@;
        let mut cnt: u8 = 0;
        let mut first: usize = 9;
        let mut k: usize = 0;
        while k < 9
            invariant
                k <= 9,
                work@ == cur,
                bit == bit_mask(b),
                cnt as int == count_bit_to(cur, b, k as int),
                cnt <= k,
                cnt > 0 ==> first < k && cur[first as int] & bit_mask(b) == bit_mask(b) && (
                forall|i: int| 0 <= i < first ==> cur[i] & bit_mask(b) != bit_mask(b)),
                cnt == 0 ==> forall|i: int| 0 <= i < k ==> cur[i] & bit_mask(b) != bit_mask(b),
            decreases 9 - k,
        {
            if work[k] & bit == bit {
                if cnt == 0 {
                    first = k;
                }
                cnt = cnt + 1;
            }
            k = k + 1;
        }
        if cnt == 1 {
            proof {
                lemma_first_with_bit_skip(cur, b, 0, first as int);
                assert(first_with_bit(cur, b) == first as int);
            }
            work.set(first, bit);
            proof {
                assert(work@ =~= single_step(cur, b));
            }
        }
        b = b + 1;
    }
    let ghost s9 = singles_to(ms, 9);
    // Hidden pairs, over every unordered pair of digit bits.
    let mut a: u16 = 0;
    while a < 9
        invariant
            a <= 9,
            work@.len() == 9,
            work@ == pairs_outer_to(s9, a as int),
        decreases 9 - a,
    {
        let mut b2: u16 = a + 1;
        while b2 < 9
            invariant
                a < 9,
                a + 1 <= b2 <= 9,
                work@.len() == 9,
                work@ == pairs_inner_to(pairs_outer_to(s9, a as int), a, b2 as int),
            decreases 9 - b2,
        {
            let ghost cur = work@;
            let pair = (1u16 << a) | (1u16 << b2);
            let ca = count_bit_exec(&work, a);
            let cb = count_bit_exec(&work, b2);
            let cp = count_pair_exec(&work, pair);
            if ca == 2 && cb == 2 && cp == 2 {
                let mut k: usize = 0;
                while k < 9
                    invariant
                        k <= 9,
                        work@.len() == 9,
                        forall|i: int|
                            0 <= i < k ==> work@[i] == (if cur[i] & pair == pair {
                                pair
                            } else {
                                cur[i]
                            }),
                        forall|i: int| k <= i < 9 ==> work@[i] == cur[i],
                    decreases 9 - k,
                {
                    if work[k] & pair == pair {
                        work.set(k, pair);
                    }
                    k = k + 1;
                }
                proof {
                    assert(work@ =~= pair_step(cur, a, b2));
                }
            }
            b2 = b2 + 1;
        }
        a = a + 1;
    }
    proof {
        assert(work@ == hidden_result(ms));
        lemma_hidden_result_shrinks(ms);
    }
    // Write the transformed masks back onto the board.
    let mut j: usize = 0;
    while j < 9
        invariant
            j <= 9,
            values@.len() == 81,
            work@ == hidden_result(ms),
            forall|jj: int|
                0 <= jj < j ==> values@[group.indexes@[jj] as int] == hidden_result(ms)[jj],
            forall|jj: int| j <= jj < 9 ==> values@[group.indexes@[jj] as int] == ms[jj],
            forall|c: int|
                0 <= c < 81 && !group.indexes@.contains(c as usize) ==> values@[c] == vals0[c],
            forall|c: int| 0 <= c < 81 ==> submask(values@[c], vals0[c]),
        decreases 9 - j,
    {
        let idx = group.indexes[j];
        proof {
            assert(group.indexes@.contains(idx)) by {
                assert(group.indexes@[j as int] == idx);
            }
            assert(submask(hidden_result(ms)[j as int], ms[j as int]));
            assert(ms[j as int] == vals0[idx as int]);
        }
        values.set(idx, work[j]);
        j = j + 1;
    }
    proof {
        assert forall|c: int| 0 <= c < 81 implies values@[c] <= 0x1FF by {
            assert(submask(values@[c], vals0[c]));
            assert(vals0[c] <= 0x1FF);
        }
    }
}


/// One full per-group rule application: naked subsets, then hidden singles
/// and pairs on the narrowed masks.
pub fn evolve(values: &mut Vec<u16>, group: &Group)
    requires
        wf_values(old(values)@),
        group.wf(),
    ensures
        wf_values(final(values)@),
        forall|j: int|
            0 <= j < 9 ==> final(values)@[group.indexes@[j] as int] == evolve_result(
                group_masks(old(values)@, group.indexes@),
            )[j],
        forall|c: int|
            0 <= c < 81 && !group.indexes@.contains(c as usize) ==> final(values)@[c] == old(
                values,
            )@[c],
        forall|c: int| 0 <= c < 81 ==> submask(final(values)@[c], old(values)@[c]),
{
    let ghost vals0 = values@;
    let ghost ms = group_masks(vals0, group.indexes@);
    naked_subsets(values, group);
    let ghost mid = values@;
    proof {
        assert forall|j: int| 0 <= j < 9 implies group_masks(mid, group.indexes@)[j]
            == naked_result(ms)[j] by {
            assert(group.indexes@.contains(group.indexes@[j])) by {
                assert(group.indexes@[j] == group.indexes@[j]);
            }
        }
        assert(group_masks(mid, group.indexes@) =~= naked_result(ms));
    }
    hidden_singles_pairs(values, group);
    proof {
        assert forall|c: int| 0 <= c < 81 implies submask(values@[c], vals0[c]) by {
            lemma_submask_trans(values@[c], mid[c], vals0[c]);
        }
    }
}

/// OR of the masks among the first `n` cells of `ga` whose index lies
/// outside `gb`: the candidates alive in `ga` away from the shared cells.
pub open spec fn or_outside_to(vals: Seq<u16>, ga: Seq<usize>, gb: Seq<usize>, n: int) -> u16
    decreases n,
{
    if n <= 0 {
        0
    } else {
        or_outside_to(vals, ga, gb, n - 1) | (if !gb.contains(ga[n - 1]) {
            vals[ga[n - 1] as int]
        } else {
            0u16
        })
    }
}

/// OR of the masks of `ga`'s cells that are not shared with `gb`.
pub open spec fn or_outside(vals: Seq<u16>, ga: Seq<usize>, gb: Seq<usize>) -> u16 {
    or_outside_to(vals, ga, gb, 9)
}

/// The candidates that may legitimately be confined to the cells shared by
/// the two groups: those still alive outside the shared cells on both sides.
pub open spec fn intersection_allowed(vals: Seq<u16>, ga: Seq<usize>, gb: Seq<usize>) -> u16 {
    or_outside(vals, ga, gb) & or_outside(vals, gb, ga)
}

/// Whether cell `c` belongs to exactly one of the two groups.
pub open spec fn in_symmetric_difference(ga: Seq<usize>, gb: Seq<usize>, c: usize) -> bool {
    ga.contains(c) != gb.contains(c)
}

/// The board after the intersection rule: every cell in the symmetric
/// difference keeps only the candidates allowed in the intersection.
pub open spec fn proliferate_result(vals: Seq<u16>, ga: Seq<usize>, gb: Seq<usize>) -> Seq<u16> {
    Seq::new(
        81,
        |c: int|
            if in_symmetric_difference(ga, gb, c as usize) {
                vals[c] & intersection_allowed(vals, ga, gb)
            } else {
                vals[c]
            },
    )
}

/// Locked-candidate elimination across the intersection of two groups.
///
/// The candidates alive outside the shared cells, on each side, bound what
/// may be confined to the shared cells; every non-shared cell of either
/// group is restricted to that bound. Shared cells and cells outside both
/// groups are untouched, and no cell ever gains a candidate.
#[verifier::loop_isolation(false)]
pub fn proliferate_from_intersection(game: Vec<u16>, group_a: &Group, group_b: &Group) -> (r: Vec<
    u16,
>)
    requires
        wf_values(game@),
        group_a.wf(),
        group_b.wf(),
    ensures
        r@ == proliferate_result(game@, group_a.indexes@, group_b.indexes@),
        wf_values(r@),
        forall|c: int| 0 <= c < 81 ==> submask(r@[c], game@[c]),
{
    proof {
        lemma_and_submask();
    }
    let ghost vals0 = game@;
    let ghost ga = group_a.indexes@;
    let ghost gb = group_b.indexes@;
    let mut game = game;
    // Which candidates are alive in each group away from the shared cells.
    let mut not_in_a_diff: u16 = 0;
    let mut j: usize = 0;
    while j < 9
        invariant
            j <= 9,
            game@ == vals0,
            not_in_a_diff == or_outside_to(vals0, ga, gb, j as int),
        decreases 9 - j,
    {
        let idx = group_a.indexes[j];
        if !group_b.contains(idx) {
            not_in_a_diff = not_in_a_diff | game[idx];
        }
        j = j + 1;
    }
    let mut not_in_b_diff: u16 = 0;
    let mut j: usize = 0;
    while j < 9
        invariant
            j <= 9,
            game@ == vals0,
            not_in_b_diff == or_outside_to(vals0, gb, ga, j as int),
        decreases 9 - j,
    {
        let idx = group_b.indexes[j];
        if !group_a.contains(idx) {
            not_in_b_diff = not_in_b_diff | game[idx];
        }
        j = j + 1;
    }
    let in_intersec = not_in_a_diff & not_in_b_diff;
    let ghost allowed = intersection_allowed(vals0, ga, gb);
    // Restrict the non-shared cells of each group.
    let mut j: usize = 0;
    while j < 9
        invariant
            j <= 9,
            game@.len() == 81,
            in_intersec == allowed,
            forall|jj: int|
                0 <= jj < j ==> game@[ga[jj] as int] == (if !gb.contains(ga[jj]) {
                    vals0[ga[jj] as int] & allowed
                } else {
                    vals0[ga[jj] as int]
                }),
            forall|jj: int| j <= jj < 9 ==> game@[ga[jj] as int] == vals0[ga[jj] as int],
            forall|c: int| 0 <= c < 81 && !ga.contains(c as usize) ==> game@[c] == vals0[c],
        decreases 9 - j,
    {
        let idx = group_a.indexes[j];
        proof {
            assert(ga.contains(idx)) by {
                assert(ga[j as int] == idx);
            }
        }
        if !group_b.contains(idx) {
            let narrowed = game[idx] & in_intersec;
            game.set(idx, narrowed);
        }
        j = j + 1;
    }
    let ghost vals1 = game@;
    let mut j: usize = 0;
    while j < 9
        invariant
            j <= 9,
            game@.len() == 81,
            in_intersec == allowed,
            forall|jj: int|
                0 <= jj < j ==> game@[gb[jj] as int] == (if !ga.contains(gb[jj]) {
                    vals1[gb[jj] as int] & allowed
                } else {
                    vals1[gb[jj] as int]
                }),
            forall|jj: int| j <= jj < 9 ==> game@[gb[jj] as int] == vals1[gb[jj] as int],
            forall|c: int| 0 <= c < 81 && !gb.contains(c as usize) ==> game@[c] == vals1[c],
        decreases 9 - j,
    {
        let idx = group_b.indexes[j];
        proof {
            assert(gb.contains(idx)) by {
                assert(gb[j as int] == idx);
            }
        }
        if !group_a.contains(idx) {
            let narrowed = game[idx] & in_intersec;
            game.set(idx, narrowed);
        }
        j = j + 1;
    }
    proof {
        assert forall|c: int| 0 <= c < 81 implies game@[c] == proliferate_result(
            vals0,
            ga,
            gb,
        )[c] && submask(game@[c], vals0[c]) && game@[c] <= 0x1FF by {
            if ga.contains(c as usize) {
                let jj = choose|jj: int| 0 <= jj < 9 && ga[jj] == c as usize;
                assert(game@[c] == (if !gb.contains(ga[jj]) {
                    vals0[c] & allowed
                } else {
                    vals0[c]
                }));
            } else if gb.contains(c as usize) {
                let jj = choose|jj: int| 0 <= jj < 9 && gb[jj] == c as usize;
                assert(vals1[c] == vals0[c]);
                assert(game@[c] == vals0[c] & allowed);
            } else {
                assert(game@[c] == vals0[c]);
            }
            assert(submask(game@[c], vals0[c]));
        }
        assert(game@ =~= proliferate_result(vals0, ga, gb));
    }
    game
}

} // verus!
