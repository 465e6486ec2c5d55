//! Groups and partitions: the deduction units of the board.
//!
//! A group is a set of 9 distinct cell indexes that must hold each digit
//! exactly once (a row, a column, or a block). A partition is 9 disjoint
//! groups that together cover all 81 cells.

use vstd::prelude::*;

verus! {

/// A collection of 9 cells that must contain the digits 1 to 9 exactly once.
///
/// It is a view over the board: it holds indexes, never candidate data.
pub struct Group {
    pub indexes: Vec<usize>,
}

impl Group {
    /// Exactly 9 distinct in-range indexes.
    pub open spec fn wf(&self) -> bool {
        &&& self.indexes@.len() == 9
        &&& forall|j: int| 0 <= j < 9 ==> self.indexes@[j] < 81
        &&& forall|j1: int, j2: int|
            0 <= j1 < 9 && 0 <= j2 < 9 && j1 != j2 ==> self.indexes@[j1] != self.indexes@[j2]
    }

    /// Whether `idx` is one of this group's cells.
    pub fn contains(&self, idx: usize) -> (r: bool)
        requires
            self.wf(),
        ensures
            r == self.indexes@.contains(idx),
    {
        let mut j: usize = 0;
        while j < 9
            invariant
                self.wf(),
                j <= 9,
                forall|k: int| 0 <= k < j ==> self.indexes@[k] != idx,
            decreases 9 - j,
        {
            if self.indexes[j] == idx {
                return true;
            }
            j = j + 1;
        }
        false
    }
}

/// One way of dividing the board into 9 disjoint groups, such as the rows,
/// the columns, or the blocks.
pub struct Partition {
    pub groups: Vec<Group>,
}

/// The cell index of position `j` in row group `i`.
pub open spec fn row_index(i: int, j: int) -> int {
    9 * i + j
}

/// The cell index of position `j` in column group `i`.
pub open spec fn col_index(i: int, j: int) -> int {
    i + 9 * j
}

/// The cell index of position `j` in block group `i`.
pub open spec fn block_index(i: int, j: int) -> int {
    3 * i + 18 * (i / 3) + 9 * (j / 3) + j % 3
}

/// The cell index of position `j` in group `i` of partition `p`
/// (0 = rows, 1 = columns, 2 = blocks).
pub open spec fn canonical_index(p: int, i: int, j: int) -> int {
    if p == 0 {
        row_index(i, j)
    } else if p == 1 {
        col_index(i, j)
    } else {
        block_index(i, j)
    }
}

impl Partition {
    /// The partition is exactly partition `p` of the standard board.
    pub open spec fn matches_canonical(&self, p: int) -> bool {
        &&& self.groups@.len() == 9
        &&& forall|i: int, j: int|
            0 <= i < 9 && 0 <= j < 9 ==> (#[trigger] self.groups@[i].indexes@[j]) as int
                == canonical_index(p, i, j)
        &&& forall|i: int| 0 <= i < 9 ==> (#[trigger] self.groups@[i]).wf()
    }
}

/// Some position of partition `p` reaches cell `idx`.
pub open spec fn covers_cell(p: int, idx: int) -> bool {
    exists|i: int, j: int| 0 <= i < 9 && 0 <= j < 9 && #[trigger] canonical_index(p, i, j) == idx
}

/// Each of the three standard partitions covers the board exactly once:
/// every group index is in range, every cell index 0..80 is reached, and no
/// two distinct positions reach the same cell.
pub proof fn lemma_partition_coverage(p: int)
    requires
        0 <= p < 3,
    ensures
        forall|i: int, j: int|
            0 <= i < 9 && 0 <= j < 9 ==> 0 <= #[trigger] canonical_index(p, i, j) < 81,
        forall|idx: int| 0 <= idx < 81 ==> #[trigger] covers_cell(p, idx),
        forall|i1: int, j1: int, i2: int, j2: int|
            0 <= i1 < 9 && 0 <= j1 < 9 && 0 <= i2 < 9 && 0 <= j2 < 9
                && #[trigger] canonical_index(p, i1, j1) == #[trigger] canonical_index(p, i2, j2)
                ==> i1 == i2 && j1 == j2,
{
    assert forall|idx: int| 0 <= idx < 81 implies #[trigger] covers_cell(p, idx) by {
        if p == 0 {
            let i = idx / 9;
            let j = idx % 9;
            assert(0 <= i < 9 && 0 <= j < 9 && canonical_index(p, i, j) == idx);
        } else if p == 1 {
            let i = idx % 9;
            let j = idx / 9;
            assert(0 <= i < 9 && 0 <= j < 9 && canonical_index(p, i, j) == idx);
        } else {
            let a = idx / 27;
            let c = (idx % 27) / 9;
            let b = (idx % 9) / 3;
            let d = idx % 3;
            let i = 3 * a + b;
            let j = 3 * c + d;
            assert(idx == 27 * a + 9 * c + 3 * b + d);
            assert(0 <= i < 9 && 0 <= j < 9);
            assert(i / 3 == a && j / 3 == c && j % 3 == d);
            assert(canonical_index(p, i, j) == idx);
        }
    }
    if p == 2 {
        assert forall|i1: int, j1: int, i2: int, j2: int|
            0 <= i1 < 9 && 0 <= j1 < 9 && 0 <= i2 < 9 && 0 <= j2 < 9
                && #[trigger] canonical_index(p, i1, j1) == #[trigger] canonical_index(p, i2, j2)
            implies i1 == i2 && j1 == j2 by {
            let v = canonical_index(2, i1, j1);
            assert(v == 27 * (i1 / 3) + 3 * (i1 % 3) + 9 * (j1 / 3) + j1 % 3);
            assert(v == 27 * (i2 / 3) + 3 * (i2 % 3) + 9 * (j2 / 3) + j2 % 3);
            assert(i1 / 3 == i2 / 3 && i1 % 3 == i2 % 3 && j1 / 3 == j2 / 3 && j1 % 3 == j2 % 3);
        }
    }
}

} // verus!
