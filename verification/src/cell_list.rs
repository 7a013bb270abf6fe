//! Host-side cell lists: particle indices bucketed by the cell that holds them.
use vstd::prelude::*;

use crate::grid::{lemma_reflecting_row_1d_increasing, lemma_reflecting_row_1d_members, reflecting_row_1d};
use crate::grid2d::{lemma_reflecting_row_2d_increasing, lemma_reflecting_row_2d_members, reflecting_row_2d};

verus! {

/// The indices `i < count` with `cell_ids[i] == cell`, in increasing order.
pub open spec fn cell_members(cell_ids: Seq<usize>, cell: int, count: int) -> Seq<usize>
    decreases count,
{
    if count <= 0 {
        Seq::empty()
    } else {
        let earlier = cell_members(cell_ids, cell, count - 1);
        if cell_ids[count - 1] == cell {
            earlier.push((count - 1) as usize)
        } else {
            earlier
        }
    }
}

/// Buckets particle indices by cell: entry `c` lists, in increasing order, the indices
/// of the particles whose cell is `c`.
pub fn bucket_by_cell(cell_ids: &[usize], cell_count: usize) -> (cells: Vec<Vec<usize>>)
    requires
        forall|i: int| 0 <= i < cell_ids@.len() ==> #[trigger] cell_ids@[i] < cell_count,
    ensures
        cells@.len() == cell_count,
        forall|cell: int|
            0 <= cell < cell_count ==> #[trigger] cells@[cell]@ == cell_members(
                cell_ids@,
                cell,
                cell_ids@.len() as int,
            ),
{
    let mut cells: Vec<Vec<usize>> = Vec::new();
    let mut cell: usize = 0;
    while cell < cell_count
        invariant
            cell <= cell_count,
            cells@.len() == cell,
            forall|c: int| 0 <= c < cell ==> #[trigger] cells@[c]@ == Seq::<usize>::empty(),
        decreases cell_count - cell,
    {
        cells.push(Vec::new());
        cell = cell + 1;
    }
    let mut index: usize = 0;
    while index < cell_ids.len()
        invariant
            index <= cell_ids@.len(),
            cells@.len() == cell_count,
            forall|i: int| 0 <= i < cell_ids@.len() ==> #[trigger] cell_ids@[i] < cell_count,
            forall|c: int|
                0 <= c < cell_count ==> #[trigger] cells@[c]@ == cell_members(
                    cell_ids@,
                    c,
                    index as int,
                ),
        decreases cell_ids@.len() - index,
    {
        let target = cell_ids[index];
        cells[target].push(index);
        index = index + 1;
    }
    cells
}

/// The buckets partition the particles: index `i` is listed in the bucket of `cell`
/// exactly when `i` is a particle index and `cell_ids[i] == cell`; within a bucket the
/// indices strictly increase.
pub proof fn lemma_cell_members_partition(cell_ids: Seq<usize>, cell: int, count: int)
    requires
        0 <= count <= cell_ids.len(),
        cell_ids.len() <= usize::MAX,
    ensures
        forall|i: usize| #[trigger]
            cell_members(cell_ids, cell, count).contains(i) <==> (i < count && cell_ids[i as int]
                == cell),
        forall|a: int, b: int|
            0 <= a < b < cell_members(cell_ids, cell, count).len() ==> #[trigger] cell_members(
                cell_ids,
                cell,
                count,
            )[a] < #[trigger] cell_members(cell_ids, cell, count)[b],
        forall|a: int|
            0 <= a < cell_members(cell_ids, cell, count).len() ==> #[trigger] cell_members(
                cell_ids,
                cell,
                count,
            )[a] < count,
    decreases count,
{
    if count > 0 {
        lemma_cell_members_partition(cell_ids, cell, count - 1);
        let earlier = cell_members(cell_ids, cell, count - 1);
        let members = cell_members(cell_ids, cell, count);
        if cell_ids[count - 1] == cell {
            assert(members == earlier.push((count - 1) as usize));
        } else {
            assert(members == earlier);
        }
        assert forall|i: usize| #[trigger] members.contains(i) <==> (i < count && cell_ids[i as int]
            == cell) by {
            if members.contains(i) {
                let k = choose|k: int| 0 <= k < members.len() && members[k] == i;
                if k < earlier.len() {
                    assert(earlier[k] == i);
                    assert(earlier.contains(i));
                }
            }
            if i < count && cell_ids[i as int] == cell {
                if i < count - 1 {
                    assert(earlier.contains(i));
                    let k = choose|k: int| 0 <= k < earlier.len() && earlier[k] == i;
                    assert(members[k] == i);
                } else {
                    assert(members[earlier.len() as int] == i);
                }
            }
        }
        assert forall|a: int, b: int| 0 <= a < b < members.len() implies #[trigger] members[a]
            < #[trigger] members[b] by {
            if b < earlier.len() {
                assert(members[a] == earlier[a] && members[b] == earlier[b]);
            } else {
                assert(members[a] == earlier[a]);
            }
        }
    }
}

/// Candidate search over a 1D cell list: walking the buckets of the cells in the row of
/// `cell` reaches particle `j` exactly when `j` lies in `cell` or in a cell next to it,
/// and then through exactly one row entry, so no particle is visited twice.
pub proof fn lemma_neighbor_candidates_1d(cell_ids: Seq<usize>, cell_count: u32, cell: u32, j: int)
    requires
        cell < cell_count,
        cell_ids.len() <= usize::MAX,
        0 <= j < cell_ids.len(),
        cell_ids[j] < cell_count,
    ensures
        ({
            let row = reflecting_row_1d(cell_count as int, cell as int);
            let members = |k: int| cell_members(cell_ids, row[k] as int, cell_ids.len() as int);
            &&& (exists|k: int| 0 <= k < row.len() && #[trigger] members(k).contains(j as usize))
                <==> (cell_ids[j] + 1 >= cell && cell_ids[j] <= cell + 1)
            &&& forall|k1: int, k2: int|
                0 <= k1 < row.len() && 0 <= k2 < row.len() && #[trigger] members(k1).contains(
                    j as usize,
                ) && #[trigger] members(k2).contains(j as usize) ==> k1 == k2
        }),
{
    let row = reflecting_row_1d(cell_count as int, cell as int);
    let members = |k: int| cell_members(cell_ids, row[k] as int, cell_ids.len() as int);
    let target = cell_ids[j];
    lemma_reflecting_row_1d_members(cell_count, cell);
    lemma_reflecting_row_1d_increasing(cell_count, cell);
    assert forall|k: int| 0 <= k < row.len() implies #[trigger] members(k).contains(j as usize)
        <==> row[k] == target by {
        lemma_cell_members_partition(cell_ids, row[k] as int, cell_ids.len() as int);
    }
    if target + 1 >= cell && target <= cell + 1 {
        assert(row.contains(target as u32));
        let k = choose|k: int| 0 <= k < row.len() && row[k] == target as u32;
        assert(members(k).contains(j as usize));
    }
    if exists|k: int| 0 <= k < row.len() && #[trigger] members(k).contains(j as usize) {
        let k = choose|k: int| 0 <= k < row.len() && #[trigger] members(k).contains(j as usize);
        assert(row.contains(target as u32)) by {
            assert(row[k] == target as u32);
        }
    }
    assert forall|k1: int, k2: int|
        0 <= k1 < row.len() && 0 <= k2 < row.len() && #[trigger] members(k1).contains(j as usize)
            && #[trigger] members(k2).contains(j as usize) implies k1 == k2 by {
        if k1 < k2 {
            assert(row[k1] < row[k2]);
        } else if k2 < k1 {
            assert(row[k2] < row[k1]);
        }
    }
}

/// Candidate search over a 2D cell list: walking the buckets of the cells in the row of
/// `cell` reaches particle `j` exactly when the column and the row of its cell each
/// differ by at most one from those of `cell`, and then through exactly one row entry,
/// so no particle is visited twice.
pub proof fn lemma_neighbor_candidates_2d(
    cell_ids: Seq<usize>,
    width: u32,
    height: u32,
    cell: u32,
    j: int,
)
    requires
        0 < width,
        0 < height,
        width * height <= u32::MAX + 1,
        cell < width * height,
        cell_ids.len() <= usize::MAX,
        0 <= j < cell_ids.len(),
        cell_ids[j] < width * height,
    ensures
        ({
            let row = reflecting_row_2d(width as int, height as int, cell as int);
            let members = |k: int| cell_members(cell_ids, row[k] as int, cell_ids.len() as int);
            let other = cell_ids[j] as u32;
            &&& (exists|k: int| 0 <= k < row.len() && #[trigger] members(k).contains(j as usize))
                <==> {
                &&& other % width + 1 >= cell % width
                &&& other % width <= cell % width + 1
                &&& other / width + 1 >= cell / width
                &&& other / width <= cell / width + 1
            }
            &&& forall|k1: int, k2: int|
                0 <= k1 < row.len() && 0 <= k2 < row.len() && #[trigger] members(k1).contains(
                    j as usize,
                ) && #[trigger] members(k2).contains(j as usize) ==> k1 == k2
        }),
{
    let row = reflecting_row_2d(width as int, height as int, cell as int);
    let members = |k: int| cell_members(cell_ids, row[k] as int, cell_ids.len() as int);
    let target = cell_ids[j];
    let other = target as u32;
    lemma_reflecting_row_2d_members(width, height, cell);
    lemma_reflecting_row_2d_increasing(width, height, cell);
    assert forall|k: int| 0 <= k < row.len() implies #[trigger] members(k).contains(j as usize)
        <==> row[k] == target by {
        lemma_cell_members_partition(cell_ids, row[k] as int, cell_ids.len() as int);
    }
    if other % width + 1 >= cell % width && other % width <= cell % width + 1 && other / width + 1
        >= cell / width && other / width <= cell / width + 1 {
        assert(row.contains(other));
        let k = choose|k: int| 0 <= k < row.len() && row[k] == other;
        assert(members(k).contains(j as usize));
    }
    if exists|k: int| 0 <= k < row.len() && #[trigger] members(k).contains(j as usize) {
        let k = choose|k: int| 0 <= k < row.len() && #[trigger] members(k).contains(j as usize);
        assert(row.contains(other)) by {
            assert(row[k] == other);
        }
    }
    assert forall|k1: int, k2: int|
        0 <= k1 < row.len() && 0 <= k2 < row.len() && #[trigger] members(k1).contains(j as usize)
            && #[trigger] members(k2).contains(j as usize) implies k1 == k2 by {
        if k1 < k2 {
            assert(row[k1] < row[k2]);
        } else if k2 < k1 {
            assert(row[k2] < row[k1]);
        }
    }
}

} // verus!
