//! The board: 81 candidate masks, plus the partitions used to solve it.

use crate::group::{canonical_index, lemma_partition_coverage, Group, Partition};
use crate::mask::{count_bits, lemma_popcount_to_bounds, lemma_submask_popcount9_le, popcount9, submask, ALL_CANDIDATES};
use vstd::prelude::*;

verus! {

/// A well-formed board: exactly 81 masks, each within the nine candidate bits.
pub open spec fn wf_values(s: Seq<u16>) -> bool {
    &&& s.len() == 81
    &&& forall|c: int| 0 <= c < 81 ==> s[c] <= ALL_CANDIDATES
}

/// Sum of the candidate counts of the first `i` cells.
pub open spec fn entropy_to(s: Seq<u16>, i: int) -> int
    decreases i,
{
    if i <= 0 {
        0
    } else {
        entropy_to(s, i - 1) + popcount9(s[i - 1])
    }
}

/// Total number of candidates left on the board. A solved board has
/// entropy 81: one candidate in each of the 81 cells.
pub open spec fn entropy_spec(s: Seq<u16>) -> int {
    entropy_to(s, s.len() as int)
}

/// Entropy is never negative.
pub proof fn lemma_entropy_nonneg(s: Seq<u16>, n: int)
    ensures
        0 <= entropy_to(s, n),
    decreases n,
{
    if n > 0 {
        lemma_entropy_nonneg(s, n - 1);
        lemma_popcount_to_bounds(s[n - 1], 9);
    }
}

/// A board whose masks all shrank has no more entropy than before.
pub proof fn lemma_entropy_pointwise_le(s1: Seq<u16>, s2: Seq<u16>, n: int)
    requires
        forall|c: int| 0 <= c < n ==> submask(s1[c], s2[c]),
    ensures
        entropy_to(s1, n) <= entropy_to(s2, n),
    decreases n,
{
    if n > 0 {
        lemma_entropy_pointwise_le(s1, s2, n - 1);
        lemma_submask_popcount9_le(s1[n - 1], s2[n - 1]);
    }
}

/// Why a puzzle descriptor was rejected.
#[derive(Debug, PartialEq, Eq, Structural, Clone, Copy)]
pub enum ParseError {
    /// The descriptor does not hold exactly 81 cells.
    WrongLength,
    /// A pre-filled cell holds a digit outside 1..=9.
    DigitOutOfRange,
}

/// The mask a cell descriptor parses to: a blank keeps all nine candidates,
/// a digit `d` keeps only bit `d - 1`.
pub open spec fn mask_for(cell: Option<u8>) -> u16 {
    match cell {
        Option::None => ALL_CANDIDATES,
        Option::Some(d) => (1u16 << ((d - 1) as u16)),
    }
}

/// A cell descriptor is blank or holds a digit 1..=9.
pub open spec fn cell_ok(cell: Option<u8>) -> bool {
    match cell {
        Option::None => true,
        Option::Some(d) => 1 <= d <= 9,
    }
}

/// A single candidate bit is a positive mask within the nine bits.
pub proof fn lemma_single_bit_in_range()
    by (bit_vector)
    ensures
        forall|s: u16| s < 9 ==> 0 < #[trigger] (1u16 << s) <= 0x1FF,
{
}

/// The solving state: the 81 candidate masks and the partitions the
/// deduction rules run over.
pub struct Game {
    pub values: Vec<u16>,
    pub partitions: Vec<Partition>,
}

impl Game {
    /// The 81 masks are present and well formed.
    pub open spec fn wf_board(&self) -> bool {
        wf_values(self.values@)
    }

    /// The partitions are exactly the standard rows, columns and blocks.
    pub open spec fn wf_partitions(&self) -> bool {
        &&& self.partitions@.len() == 3
        &&& forall|p: int| 0 <= p < 3 ==> (#[trigger] self.partitions@[p]).matches_canonical(p)
    }

    /// A game ready for the solver loop.
    pub open spec fn wf(&self) -> bool {
        &&& self.wf_board()
        &&& self.wf_partitions()
    }

    /// A fully unconstrained board: every cell may hold any digit, and no
    /// partitions are built yet.
    pub fn initialize() -> (r: Game)
        ensures
            r.wf_board(),
            forall|c: int| 0 <= c < 81 ==> r.values@[c] == ALL_CANDIDATES,
            r.partitions@.len() == 0,
    {
        let mut values: Vec<u16> = Vec::new();
        let mut c: usize = 0;
        while c < 81
            invariant
                c <= 81,
                values@.len() == c,
                forall|k: int| 0 <= k < c ==> values@[k] == ALL_CANDIDATES,
            decreases 81 - c,
        {
            values.push(ALL_CANDIDATES);
            c = c + 1;
        }
        Game { values, partitions: Vec::new() }
    }

    /// Turn an 81-cell puzzle descriptor into a board: a blank cell keeps
    /// all nine candidates, a fixed digit `d` keeps only bit `d - 1`.
    ///
    /// Rejects a descriptor whose length is not 81, or one holding a digit
    /// outside 1..=9.
    pub fn parse(cells: &Vec<Option<u8>>) -> (r: Result<Game, ParseError>)
        ensures
            r is Ok <==> cells@.len() == 81 && forall|c: int|
                0 <= c < 81 ==> cell_ok(#[trigger] cells@[c]),
            r matches Ok(g) ==> {
                &&& g.wf_board()
                &&& g.partitions@.len() == 0
                &&& forall|c: int| 0 <= c < 81 ==> g.values@[c] == mask_for(#[trigger] cells@[c])
            },
            r matches Err(e) ==> (e == ParseError::WrongLength <==> cells@.len() != 81),
    {
        if cells.len() != 81 {
            return Err(ParseError::WrongLength);
        }
        let mut values: Vec<u16> = Vec::new();
        let mut c: usize = 0;
        while c < 81
            invariant
                c <= 81,
                cells@.len() == 81,
                values@.len() == c,
                forall|k: int| 0 <= k < c ==> cell_ok(#[trigger] cells@[k]),
                forall|k: int| 0 <= k < c ==> values@[k] == mask_for(#[trigger] cells@[k]),
                forall|k: int| 0 <= k < c ==> values@[k] <= ALL_CANDIDATES,
            decreases 81 - c,
        {
            proof {
                lemma_single_bit_in_range();
            }
            match cells[c] {
                None => values.push(ALL_CANDIDATES),
                Some(d) => {
                    if d < 1 || d > 9 {
                        return Err(ParseError::DigitOutOfRange);
                    }
                    values.push(1u16 << ((d - 1) as u16));
                },
            }
            c = c + 1;
        }
        Ok(Game { values, partitions: Vec::new() })
    }

    /// How many candidates are left on the whole board. The game is solved
    /// when this reaches 81.
    pub fn measure_entropy(&self) -> (r: u16)
        requires
            self.wf_board(),
        ensures
            r as int == entropy_spec(self.values@),
            r <= 729,
    {
        let mut entropy: u16 = 0;
        let mut c: usize = 0;
        while c < 81
            invariant
                self.wf_board(),
                c <= 81,
                entropy as int == entropy_to(self.values@, c as int),
                entropy <= 9 * c,
            decreases 81 - c,
        {
            entropy = entropy + count_bits(self.values[c]) as u16;
            c = c + 1;
        }
        entropy
    }

    /// Build the three standard partitions — rows, columns and blocks — in
    /// that order. The board's masks are untouched.
    pub fn initialize_partitions(&mut self)
        requires
            old(self).partitions@.len() == 0,
        ensures
            final(self).values@ == old(self).values@,
            final(self).wf_partitions(),
    {
        self.partitions.push(build_partition(0));
        self.partitions.push(build_partition(1));
        self.partitions.push(build_partition(2));
    }
}

/// One group of a standard partition: group `i` of rows (`p` = 0),
/// columns (`p` = 1) or blocks (`p` = 2).
fn build_group(p: usize, i: usize) -> (g: Group)
    requires
        p < 3,
        i < 9,
    ensures
        g.wf(),
        forall|j: int| 0 <= j < 9 ==> (#[trigger] g.indexes@[j]) as int == canonical_index(
            p as int,
            i as int,
            j,
        ),
{
    let mut indexes: Vec<usize> = Vec::new();
    let mut j: usize = 0;
    while j < 9
        invariant
            p < 3,
            i < 9,
            j <= 9,
            indexes@.len() == j,
            forall|k: int| 0 <= k < j ==> (#[trigger] indexes@[k]) as int == canonical_index(
                p as int,
                i as int,
                k,
            ),
        decreases 9 - j,
    {
        let idx: usize = if p == 0 {
            9 * i + j
        } else if p == 1 {
            i + 9 * j
        } else {
            3 * i + 18 * (i / 3) + 9 * (j / 3) + j % 3
        };
        indexes.push(idx);
        j = j + 1;
    }
    let g = Group { indexes };
    proof {
        lemma_partition_coverage(p as int);
        assert forall|j1: int, j2: int|
            0 <= j1 < 9 && 0 <= j2 < 9 && j1 != j2 implies g.indexes@[j1] != g.indexes@[j2] by {
            assert(canonical_index(p as int, i as int, j1) != canonical_index(
                p as int,
                i as int,
                j2,
            ));
        }
    }
    g
}

/// Partition `p` of the standard board: its 9 rows, columns or blocks.
fn build_partition(p: usize) -> (r: Partition)
    requires
        p < 3,
    ensures
        r.matches_canonical(p as int),
{
    let mut groups: Vec<Group> = Vec::new();
    let mut i: usize = 0;
    while i < 9
        invariant
            p < 3,
            i <= 9,
            groups@.len() == i,
            forall|ii: int| 0 <= ii < i ==> (#[trigger] groups@[ii]).wf(),
            forall|ii: int, j: int|
                0 <= ii < i && 0 <= j < 9 ==> (#[trigger] groups@[ii].indexes@[j]) as int
                    == canonical_index(p as int, ii, j),
        decreases 9 - i,
    {
        groups.push(build_group(p, i));
        i = i + 1;
    }
    Partition { groups }
}


/// A board whose cells are all resolved has entropy equal to its length.
pub proof fn lemma_resolved_cells_entropy(s: Seq<u16>, n: int)
    requires
        forall|c: int| 0 <= c < n ==> popcount9(#[trigger] s[c]) == 1,
    ensures
        entropy_to(s, n) == if n >= 0 {
            n
        } else {
            0
        },
    decreases n,
{
    if n > 0 {
        lemma_resolved_cells_entropy(s, n - 1);
    }
}

/// A descriptor whose 81 cells are all fixed digits parses to a board of
/// entropy exactly 81: the solver loop is done before its first step.
pub proof fn lemma_all_fixed_entropy(cells: Seq<Option<u8>>, s: Seq<u16>)
    requires
        s.len() == 81,
        forall|c: int| 0 <= c < 81 ==> (#[trigger] cells[c]) is Some && cell_ok(cells[c]),
        forall|c: int| 0 <= c < 81 ==> #[trigger] s[c] == mask_for(cells[c]),
    ensures
        entropy_spec(s) == 81,
{
    crate::mask::lemma_single_bit_popcount();
    assert forall|c: int| 0 <= c < 81 implies popcount9(#[trigger] s[c]) == 1 by {
        let d = cells[c]->0;
        assert(s[c] == 1u16 << ((d - 1) as u16));
    }
    lemma_resolved_cells_entropy(s, 81);
}
} // verus!
