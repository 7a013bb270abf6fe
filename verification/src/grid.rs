//! Static CSR topology of a one-dimensional row of cells with reflecting ends.
use vstd::prelude::*;

use crate::csr::{
    csr_len, csr_offset, csr_offsets, lemma_csr_offsets_monotone, lemma_csr_row,
    lemma_take_push_flatten,
};

verus! {

/// First cell in the neighborhood of `cell`: the cell before it, or `0` at the left end.
pub open spec fn row_begin_1d(cell: int) -> int {
    if cell > 0 { cell - 1 } else { 0 }
}

/// Last cell (inclusive) in the neighborhood of `cell` among `cell_count` cells.
pub open spec fn row_end_1d(cell_count: int, cell: int) -> int {
    if cell + 1 < cell_count { cell + 1 } else { cell_count - 1 }
}

/// The neighborhood of `cell`: every cell from `row_begin_1d` to `row_end_1d`, ascending.
pub open spec fn reflecting_row_1d(cell_count: int, cell: int) -> Seq<u32> {
    let begin = row_begin_1d(cell);
    Seq::new(
        (row_end_1d(cell_count, cell) - begin + 1) as nat,
        |i: int| (begin + i) as u32,
    )
}

/// The neighborhoods of all cells `0 .. cell_count`, in cell order.
pub open spec fn reflecting_rows_1d(cell_count: int) -> Seq<Seq<u32>> {
    Seq::new(cell_count as nat, |cell: int| reflecting_row_1d(cell_count, cell))
}

/// Static CSR topology connecting each one-dimensional cell to itself and its neighbors.
#[derive(Debug, PartialEq, Eq)]
pub struct CellGraph1d {
    cell_count: u32,
    offsets: Vec<u32>,
    neighbors: Vec<u32>,
}

impl Clone for CellGraph1d {
    fn clone(&self) -> (copy: Self)
        ensures
            copy.cell_count_view() == self.cell_count_view(),
            copy.offsets_view() == self.offsets_view(),
            copy.neighbors_view() == self.neighbors_view(),
    {
        proof {
            use_type_invariant(self);
        }
        CellGraph1d {
            cell_count: self.cell_count,
            offsets: self.offsets.clone(),
            neighbors: self.neighbors.clone(),
        }
    }
}

impl CellGraph1d {
    /// Number of cells of the graph.
    pub closed spec fn cell_count_view(self) -> nat {
        self.cell_count as nat
    }

    /// The CSR offset array.
    pub closed spec fn offsets_view(self) -> Seq<u32> {
        self.offsets@
    }

    /// The CSR neighbor array.
    pub closed spec fn neighbors_view(self) -> Seq<u32> {
        self.neighbors@
    }

    /// The stored row of `cell`: the neighbors between its two offsets.
    pub open spec fn row_view(self, cell: int) -> Seq<u32> {
        self.neighbors_view().subrange(
            self.offsets_view()[cell] as int,
            self.offsets_view()[cell + 1] as int,
        )
    }

    /// Every graph is the reflecting graph of its cell count, which is positive.
    #[verifier::type_invariant]
    pub closed spec fn well_formed(self) -> bool {
        &&& self.cell_count > 0
        &&& 3 * self.cell_count <= usize::MAX
        &&& self.neighbors@ == reflecting_rows_1d(self.cell_count as int).flatten()
        &&& self.offsets@ == csr_offsets(reflecting_rows_1d(self.cell_count as int))
    }

    /// A well-formed graph is the reflecting graph of its cell count.
    pub proof fn lemma_well_formed_views(self)
        requires
            self.well_formed(),
        ensures
            self.cell_count_view() > 0,
            self.neighbors_view() == reflecting_rows_1d(self.cell_count_view() as int).flatten(),
            self.offsets_view() == csr_offsets(reflecting_rows_1d(self.cell_count_view() as int)),
    {
    }

    /// Builds the graph of `cell_count` cells in which each cell is joined to itself and
    /// to the cells directly left and right of it, where those exist.
    pub fn reflecting(cell_count: u32) -> (graph: Self)
        requires
            cell_count > 0,
            3 * cell_count <= usize::MAX,
        ensures
            graph.cell_count_view() == cell_count,
            graph.neighbors_view() == reflecting_rows_1d(cell_count as int).flatten(),
            graph.offsets_view() == csr_offsets(reflecting_rows_1d(cell_count as int)),
    {
        let ghost n = cell_count as int;
        let ghost rows = reflecting_rows_1d(n);
        let mut offsets: Vec<u32> = Vec::new();
        let mut neighbors: Vec<u32> = Vec::new();
        offsets.push(0);
        assert(rows.take(0) =~= Seq::<Seq<u32>>::empty());
        assert(rows.take(0).flatten() =~= Seq::<u32>::empty());

        let mut cell: u32 = 0;
        while cell < cell_count
            invariant
                n == cell_count as int,
                rows == reflecting_rows_1d(n),
                0 < cell_count,
                3 * cell_count <= usize::MAX,
                cell <= cell_count,
                neighbors@ == rows.take(cell as int).flatten(),
                neighbors@.len() <= 3 * cell,
                offsets@.len() == cell + 1,
                forall|k: int| 0 <= k <= cell ==> offsets@[k] == csr_offset(rows, k) as u32,
            decreases cell_count - cell,
        {
            let begin = cell.saturating_sub(1);
            let end = (cell + 1).min(cell_count - 1);
            assert(begin == row_begin_1d(cell as int));
            assert(end == row_end_1d(n, cell as int));
            let ghost before = neighbors@;
            let mut neighbor: u32 = begin;
            while neighbor <= end
                invariant
                    begin <= neighbor <= end + 1,
                    end < cell_count,
                    end <= cell + 1,
                    begin + 1 >= cell,
                    3 * cell_count <= usize::MAX,
                    cell < cell_count,
                    before.len() <= 3 * cell,
                    neighbors@ == before + Seq::new(
                        (neighbor - begin) as nat,
                        |i: int| (begin + i) as u32,
                    ),
                decreases end + 1 - neighbor,
            {
                neighbors.push(neighbor);
                neighbor = neighbor + 1;
            }
            proof {
                lemma_take_push_flatten(rows, cell as int);
                assert(rows[cell as int] == reflecting_row_1d(n, cell as int));
                assert(neighbors@ =~= rows.take(cell as int + 1).flatten());
            }
            offsets.push(neighbors.len() as u32);
            cell = cell + 1;
        }
        assert(rows.take(n) =~= rows);
        assert(offsets@ =~= csr_offsets(rows));
        CellGraph1d { cell_count, offsets, neighbors }
    }

    /// Number of cells.
    pub fn cell_count(&self) -> (count: u32)
        ensures
            count == self.cell_count_view(),
    {
        self.cell_count
    }

    /// The CSR offset array: `cell_count + 1` entries, row `c` spanning `offsets[c]..offsets[c + 1]`.
    pub fn offsets(&self) -> (offsets: &[u32])
        ensures
            offsets@ == self.offsets_view(),
    {
        self.offsets.as_slice()
    }

    /// The CSR neighbor array: all rows back to back.
    pub fn neighbors(&self) -> (neighbors: &[u32])
        ensures
            neighbors@ == self.neighbors_view(),
    {
        self.neighbors.as_slice()
    }

    /// The neighbors of `cell`: the slice of the neighbor array between its offsets.
    ///
    /// When the neighbor array is short enough for its offsets to fit in `u32`, this is
    /// exactly `reflecting_row_1d(cell_count, cell)`.
    pub fn row(&self, cell: u32) -> (row: &[u32])
        requires
            cell < self.cell_count_view(),
            self.offsets_view()[cell as int] <= self.offsets_view()[cell + 1],
            self.offsets_view()[cell + 1] <= self.neighbors_view().len(),
        ensures
            row@ == self.row_view(cell as int),
            csr_len(reflecting_rows_1d(self.cell_count_view() as int)) <= u32::MAX ==> row@
                == reflecting_row_1d(self.cell_count_view() as int, cell as int),
    {
        proof {
            use_type_invariant(self);
            self.lemma_row_exact(cell as int);
        }
        let (begin, end) = self.row_range(cell);
        &self.neighbors.as_slice()[begin..end]
    }

    /// The index range of the neighbor array holding the row of `cell`.
    fn row_range(&self, cell: u32) -> (range: (usize, usize))
        requires
            cell < self.cell_count_view(),
        ensures
            range.0 == self.offsets_view()[cell as int],
            range.1 == self.offsets_view()[cell + 1],
    {
        proof {
            use_type_invariant(self);
        }
        let cell = cell as usize;
        (self.offsets[cell] as usize, self.offsets[cell + 1] as usize)
    }

    /// Without truncated offsets, the stored row of `cell` is its reflecting row.
    proof fn lemma_row_exact(self, cell: int)
        requires
            self.well_formed(),
            0 <= cell < self.cell_count_view(),
        ensures
            csr_len(reflecting_rows_1d(self.cell_count_view() as int)) <= u32::MAX ==> self.row_view(
                cell,
            ) == reflecting_row_1d(self.cell_count_view() as int, cell),
    {
        let rows = reflecting_rows_1d(self.cell_count_view() as int);
        if csr_len(rows) <= u32::MAX {
            lemma_csr_row(rows, cell);
            lemma_csr_offsets_monotone(rows, cell + 1, rows.len() as int);
        }
    }
}

/// The row of `cell` holds exactly the cells within distance one of it, and in particular
/// `cell` itself; its length is one plus one for each side on which a neighbor exists.
pub proof fn lemma_reflecting_row_1d_members(cell_count: u32, cell: u32)
    requires
        cell < cell_count,
    ensures
        forall|other: u32|
            #![trigger reflecting_row_1d(cell_count as int, cell as int).contains(other)]
            reflecting_row_1d(cell_count as int, cell as int).contains(other) <==> (other
                < cell_count && other + 1 >= cell && other <= cell + 1),
        reflecting_row_1d(cell_count as int, cell as int).contains(cell),
        reflecting_row_1d(cell_count as int, cell as int).len() == 1 + (if cell > 0 {
            1int
        } else {
            0int
        }) + (if cell + 1 < cell_count {
            1int
        } else {
            0int
        }),
{
    let row = reflecting_row_1d(cell_count as int, cell as int);
    let begin = row_begin_1d(cell as int);
    assert forall|other: u32| row.contains(other) <==> (other < cell_count && other + 1 >= cell
        && other <= cell + 1) by {
        if other < cell_count && other + 1 >= cell && other <= cell + 1 {
            assert(row[other - begin] == other);
        }
    }
    assert(row[cell - begin] == cell);
}

/// Within a row the cells are strictly increasing, so no cell is listed twice.
pub proof fn lemma_reflecting_row_1d_increasing(cell_count: u32, cell: u32)
    requires
        cell < cell_count,
    ensures
        forall|i: int, j: int|
            0 <= i < j < reflecting_row_1d(cell_count as int, cell as int).len() ==> #[trigger] reflecting_row_1d(
                cell_count as int,
                cell as int,
            )[i] < #[trigger] reflecting_row_1d(cell_count as int, cell as int)[j],
{
}

/// Adjacency is symmetric: `b` is in the row of `a` exactly when `a` is in the row of `b`.
pub proof fn lemma_reflecting_rows_1d_symmetric(cell_count: u32, a: u32, b: u32)
    requires
        a < cell_count,
        b < cell_count,
    ensures
        reflecting_row_1d(cell_count as int, a as int).contains(b) <==> reflecting_row_1d(
            cell_count as int,
            b as int,
        ).contains(a),
{
    lemma_reflecting_row_1d_members(cell_count, a);
    lemma_reflecting_row_1d_members(cell_count, b);
}

/// The offsets of a graph have one entry per cell plus one and start at zero. When the
/// neighbor array is short enough for its offsets to fit in `u32`, the offsets never
/// decrease, the last one is the length of the neighbor array, and every stored row is
/// the reflecting row of its cell.
pub proof fn lemma_cell_graph_1d_layout(graph: CellGraph1d)
    requires
        graph.well_formed(),
    ensures
        graph.offsets_view().len() == graph.cell_count_view() + 1,
        graph.offsets_view()[0] == 0,
        csr_len(reflecting_rows_1d(graph.cell_count_view() as int)) <= u32::MAX ==> {
            &&& graph.offsets_view()[graph.cell_count_view() as int]
                == graph.neighbors_view().len()
            &&& forall|j: int, m: int|
                0 <= j <= m <= graph.cell_count_view() ==> #[trigger] graph.offsets_view()[j]
                    <= #[trigger] graph.offsets_view()[m]
            &&& forall|cell: int|
                0 <= cell < graph.cell_count_view() ==> #[trigger] graph.row_view(cell)
                    == reflecting_row_1d(graph.cell_count_view() as int, cell)
        },
{
    let n = graph.cell_count_view() as int;
    let rows = reflecting_rows_1d(n);
    assert(rows.take(0) =~= Seq::<Seq<u32>>::empty());
    assert(csr_offset(rows, 0) == 0);
    if csr_len(rows) <= u32::MAX {
        lemma_csr_offsets_monotone(rows, n, n);
        assert forall|j: int, m: int| 0 <= j <= m <= n implies #[trigger] graph.offsets_view()[j]
            <= #[trigger] graph.offsets_view()[m] by {
            lemma_csr_offsets_monotone(rows, j, m);
            lemma_csr_offsets_monotone(rows, m, n);
        }
        assert forall|cell: int| 0 <= cell < n implies #[trigger] graph.row_view(cell)
            == reflecting_row_1d(n, cell) by {
            graph.lemma_row_exact(cell);
        }
    }
}

/// Offset of row `k` in the reflecting graph of `cell_count` cells: the first row has two
/// entries, every later row but the last has three.
proof fn lemma_reflecting_offset_1d(cell_count: int, k: int)
    requires
        1 <= cell_count,
        0 <= k <= cell_count,
    ensures
        csr_offset(reflecting_rows_1d(cell_count), k) == if k == 0 {
            0
        } else if k < cell_count {
            3 * k - 1
        } else if cell_count == 1 {
            1
        } else {
            3 * cell_count - 2
        },
    decreases k,
{
    let rows = reflecting_rows_1d(cell_count);
    if k == 0 {
        assert(rows.take(0) =~= Seq::<Seq<u32>>::empty());
    } else {
        lemma_reflecting_offset_1d(cell_count, k - 1);
        lemma_take_push_flatten(rows, k - 1);
    }
}

/// The reflecting graph of `cell_count` cells stores `3 * cell_count - 2` neighbor
/// entries (one for a single cell), so its offsets fit in `u32` exactly when that
/// number does.
pub proof fn lemma_reflecting_rows_1d_total(cell_count: u32)
    requires
        cell_count > 0,
    ensures
        csr_len(reflecting_rows_1d(cell_count as int)) == if cell_count == 1 {
            1
        } else {
            3 * cell_count - 2
        },
{
    let n = cell_count as int;
    lemma_reflecting_offset_1d(n, n);
    lemma_csr_offsets_monotone(reflecting_rows_1d(n), n, n);
}

} // verus!
