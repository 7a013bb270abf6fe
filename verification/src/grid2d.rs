//! Static CSR topology of a row-major two-dimensional grid of cells with reflecting edges.
use vstd::prelude::*;

use vstd::arithmetic::div_mod::lemma_fundamental_div_mod_converse;

use crate::csr::{
    csr_len, csr_offset, csr_offsets, lemma_csr_offsets_monotone, lemma_csr_row,
    lemma_take_push_flatten,
};
use crate::grid::{lemma_reflecting_rows_1d_total, reflecting_row_1d, reflecting_rows_1d, row_begin_1d, row_end_1d};

verus! {

/// Number of positions within distance one of `coordinate` along an axis of `extent` positions.
pub open spec fn span_1d(extent: int, coordinate: int) -> int {
    row_end_1d(extent, coordinate) - row_begin_1d(coordinate) + 1
}

/// The neighborhood of `cell` (column `cell % width`, row `cell / width`): every cell whose
/// column and row each differ by at most one from those of `cell`, listed row by row and,
/// within a row, column by column. Entry `i` lies in column `x_begin + i % span_x` and in
/// row `y_begin + i / span_x`.
pub open spec fn reflecting_row_2d(width: int, height: int, cell: int) -> Seq<u32> {
    let x = cell % width;
    let y = cell / width;
    let x_begin = row_begin_1d(x);
    let y_begin = row_begin_1d(y);
    let span_x = span_1d(width, x);
    let span_y = span_1d(height, y);
    Seq::new(
        (span_x * span_y) as nat,
        |i: int| (x_begin + i % span_x + width * (y_begin + i / span_x)) as u32,
    )
}

/// The neighborhoods of all `width * height` cells, in cell order.
pub open spec fn reflecting_rows_2d(width: int, height: int) -> Seq<Seq<u32>> {
    Seq::new((width * height) as nat, |cell: int| reflecting_row_2d(width, height, cell))
}

/// Static 2D CSR topology containing each cell and its at most eight neighbors.
#[derive(Debug, PartialEq, Eq)]
pub struct CellGraph2d {
    width: u32,
    height: u32,
    offsets: Vec<u32>,
    neighbors: Vec<u32>,
}

impl Clone for CellGraph2d {
    fn clone(&self) -> (copy: Self)
        ensures
            copy.width_view() == self.width_view(),
            copy.height_view() == self.height_view(),
            copy.offsets_view() == self.offsets_view(),
            copy.neighbors_view() == self.neighbors_view(),
    {
        proof {
            use_type_invariant(self);
        }
        CellGraph2d {
            width: self.width,
            height: self.height,
            offsets: self.offsets.clone(),
            neighbors: self.neighbors.clone(),
        }
    }
}

impl CellGraph2d {
    /// Number of columns.
    pub closed spec fn width_view(self) -> nat {
        self.width as nat
    }

    /// Number of rows.
    pub closed spec fn height_view(self) -> nat {
        self.height as nat
    }

    /// The CSR offset array.
    pub closed spec fn offsets_view(self) -> Seq<u32> {
        self.offsets@
    }

    /// The CSR neighbor array.
    pub closed spec fn neighbors_view(self) -> Seq<u32> {
        self.neighbors@
    }

    /// The stored row of `cell`: the neighbors between its two offsets.
    pub open spec fn row_view(self, cell: int) -> Seq<u32> {
        self.neighbors_view().subrange(
            self.offsets_view()[cell] as int,
            self.offsets_view()[cell + 1] as int,
        )
    }

    /// Every graph is the reflecting graph of its positive dimensions, whose cells are numbered in `u32`.
    #[verifier::type_invariant]
    pub closed spec fn well_formed(self) -> bool {
        &&& self.width > 0
        &&& self.height > 0
        &&& self.width * self.height <= u32::MAX + 1
        &&& 9 * (self.width * self.height) <= usize::MAX
        &&& self.neighbors@ == reflecting_rows_2d(self.width as int, self.height as int).flatten()
        &&& self.offsets@ == csr_offsets(reflecting_rows_2d(self.width as int, self.height as int))
    }

    /// Builds the graph of a `width` by `height` grid in which each cell is joined to itself
    /// and to the up to eight cells around it.
    #[verifier::rlimit(40)]
    pub fn reflecting(width: u32, height: u32) -> (graph: Self)
        requires
            width > 0,
            height > 0,
            width * height <= u32::MAX + 1,
            9 * (width * height) <= usize::MAX,
        ensures
            graph.width_view() == width,
            graph.height_view() == height,
            graph.neighbors_view() == reflecting_rows_2d(width as int, height as int).flatten(),
            graph.offsets_view() == csr_offsets(reflecting_rows_2d(width as int, height as int)),
    {
        let ghost w = width as int;
        let ghost h = height as int;
        let ghost rows = reflecting_rows_2d(w, h);
        let mut offsets: Vec<u32> = Vec::new();
        let mut neighbors: Vec<u32> = Vec::new();
        offsets.push(0);
        assert(rows.take(0) =~= Seq::<Seq<u32>>::empty());
        assert(rows.take(0).flatten() =~= Seq::<u32>::empty());

        let mut y: u32 = 0;
        while y < height
            invariant
                w == width as int,
                h == height as int,
                rows == reflecting_rows_2d(w, h),
                rows.len() == w * h,
                width > 0,
                height > 0,
                width * height <= u32::MAX + 1,
                9 * (width * height) <= usize::MAX,
                y <= height,
                neighbors@ == rows.take(width * y).flatten(),
                neighbors@.len() <= 9 * (width * y),
                offsets@.len() == width * y + 1,
                forall|k: int| 0 <= k <= width * y ==> offsets@[k] == csr_offset(rows, k) as u32,
            decreases height - y,
        {
            proof {
                assert(width * y + width == width * (y + 1)) by (nonlinear_arith);
                assert(width * (y + 1) <= width * height) by (nonlinear_arith)
                    requires
                        y < height,
                ;
            }
            let mut x: u32 = 0;
            while x < width
                invariant
                    w == width as int,
                    h == height as int,
                    rows == reflecting_rows_2d(w, h),
                    rows.len() == w * h,
                    width > 0,
                    height > 0,
                    width * height <= u32::MAX + 1,
                    9 * (width * height) <= usize::MAX,
                    y < height,
                    x <= width,
                    width * (y + 1) <= width * height,
                    width * y + width == width * (y + 1),
                    neighbors@ == rows.take(width * y + x).flatten(),
                    neighbors@.len() <= 9 * (width * y + x),
                    offsets@.len() == width * y + x + 1,
                    forall|k: int|
                        0 <= k <= width * y + x ==> offsets@[k] == csr_offset(rows, k) as u32,
                decreases width - x,
            {
                let ghost cell = width * y + x;
                proof {
                    assert(cell == (y as int) * w + x) by (nonlinear_arith)
                        requires
                            cell == width * y + x,
                            w == width,
                    ;
                    lemma_fundamental_div_mod_converse(cell, w, y as int, x as int);
                    assert(cell < rows.len());
                }
                let y_begin = y.saturating_sub(1);
                let y_end = (y + 1).min(height - 1);
                let x_begin = x.saturating_sub(1);
                let x_end = (x + 1).min(width - 1);
                assert(x_begin == row_begin_1d(x as int));
                assert(y_begin == row_begin_1d(y as int));
                assert(x_end == row_end_1d(w, x as int));
                assert(y_end == row_end_1d(h, y as int));
                let ghost span_x = x_end - x_begin + 1;
                let ghost span_y = y_end - y_begin + 1;
                let ghost entry = |i: int|
                    (x_begin + i % span_x + w * (y_begin + i / span_x)) as u32;
                let ghost before = neighbors@;

                let mut neighbor_y: u32 = y_begin;
                while neighbor_y <= y_end
                    invariant
                        w == width as int,
                        width * height <= u32::MAX + 1,
                        y_begin <= neighbor_y <= y_end + 1,
                        y_end < height,
                        x_end < width,
                        x_begin <= x_end,
                        span_x == x_end - x_begin + 1,
                        1 <= span_x <= 3,
                        entry == (|i: int|
                            (x_begin + i % span_x + w * (y_begin + i / span_x)) as u32),
                        neighbors@ == before + Seq::new(
                            ((neighbor_y - y_begin) * span_x) as nat,
                            entry,
                        ),
                    decreases y_end + 1 - neighbor_y,
                {
                    let mut neighbor_x: u32 = x_begin;
                    while neighbor_x <= x_end
                        invariant
                            w == width as int,
                            width * height <= u32::MAX + 1,
                            y_begin <= neighbor_y <= y_end,
                            x_begin <= neighbor_x <= x_end + 1,
                            y_end < height,
                            x_end < width,
                            span_x == x_end - x_begin + 1,
                            1 <= span_x <= 3,
                            entry == (|i: int|
                                (x_begin + i % span_x + w * (y_begin + i / span_x)) as u32),
                            neighbors@ == before + Seq::new(
                                ((neighbor_y - y_begin) * span_x + (neighbor_x - x_begin)) as nat,
                                entry,
                            ),
                        decreases x_end + 1 - neighbor_x,
                    {
                        let ghost k = (neighbor_y - y_begin) * span_x + (neighbor_x - x_begin);
                        proof {
                            lemma_fundamental_div_mod_converse(
                                k,
                                span_x,
                                neighbor_y - y_begin,
                                neighbor_x - x_begin,
                            );
                            assert(width * neighbor_y <= width * (height - 1)) by (nonlinear_arith)
                                requires
                                    neighbor_y < height,
                            ;
                            assert(width * (height - 1) + width == width * height)
                                by (nonlinear_arith);
                        }
                        let value = neighbor_x + width * neighbor_y;
                        assert(value == entry(k));
                        neighbors.push(value);
                        proof {
                            assert(neighbors@ =~= before + Seq::new((k + 1) as nat, entry));
                        }
                        neighbor_x = neighbor_x + 1;
                    }
                    proof {
                        assert((neighbor_y - y_begin) * span_x + span_x == (neighbor_y + 1
                            - y_begin) * span_x) by (nonlinear_arith);
                    }
                    neighbor_y = neighbor_y + 1;
                }
                proof {
                    assert(span_x * span_y == (neighbor_y - y_begin) * span_x) by (nonlinear_arith)
                        requires
                            neighbor_y == y_end + 1,
                            span_y == y_end - y_begin + 1,
                    ;
                    assert(span_x * span_y <= 9) by (nonlinear_arith)
                        requires
                            1 <= span_x <= 3,
                            span_y <= 3,
                    ;
                    assert(span_y <= 3);
                    lemma_take_push_flatten(rows, cell);
                    assert(rows[cell] == reflecting_row_2d(w, h, cell));
                    assert(reflecting_row_2d(w, h, cell) =~= Seq::new(
                        (span_x * span_y) as nat,
                        entry,
                    ));
                    assert(neighbors@ =~= rows.take(cell + 1).flatten());
                }
                offsets.push(neighbors.len() as u32);
                x = x + 1;
            }
            y = y + 1;
        }
        assert(rows.take(w * h) =~= rows);
        assert(offsets@ =~= csr_offsets(rows));
        CellGraph2d { width, height, offsets, neighbors }
    }

    /// Number of columns.
    pub fn width(&self) -> (width: u32)
        ensures
            width == self.width_view(),
    {
        self.width
    }

    /// Number of rows.
    pub fn height(&self) -> (height: u32)
        ensures
            height == self.height_view(),
    {
        self.height
    }

    /// Number of cells, `width * height`.
    pub fn cell_count(&self) -> (count: u32)
        requires
            self.width_view() * self.height_view() <= u32::MAX,
        ensures
            count == self.width_view() * self.height_view(),
    {
        proof {
            use_type_invariant(self);
        }
        self.width * self.height
    }

    /// The CSR offset array: one entry per cell plus one.
    pub fn offsets(&self) -> (offsets: &[u32])
        ensures
            offsets@ == self.offsets_view(),
    {
        self.offsets.as_slice()
    }

    /// The CSR neighbor array: all rows back to back.
    pub fn neighbors(&self) -> (neighbors: &[u32])
        ensures
            neighbors@ == self.neighbors_view(),
    {
        self.neighbors.as_slice()
    }

    /// The neighbors of `cell`: the slice of the neighbor array between its offsets.
    ///
    /// When the neighbor array is short enough for its offsets to fit in `u32`, this is
    /// exactly `reflecting_row_2d(width, height, cell)`.
    pub fn row(&self, cell: u32) -> (row: &[u32])
        requires
            cell < self.width_view() * self.height_view(),
            self.width_view() * self.height_view() <= u32::MAX,
            self.offsets_view()[cell as int] <= self.offsets_view()[cell + 1],
            self.offsets_view()[cell + 1] <= self.neighbors_view().len(),
        ensures
            row@ == self.row_view(cell as int),
            csr_len(reflecting_rows_2d(self.width_view() as int, self.height_view() as int))
                <= u32::MAX ==> row@ == reflecting_row_2d(
                self.width_view() as int,
                self.height_view() as int,
                cell as int,
            ),
    {
        proof {
            use_type_invariant(self);
            self.lemma_row_exact(cell as int);
        }
        let begin = self.offsets[cell as usize] as usize;
        let end = self.offsets[cell as usize + 1] as usize;
        &self.neighbors.as_slice()[begin..end]
    }

    /// Without truncated offsets, the stored row of `cell` is its reflecting row.
    proof fn lemma_row_exact(self, cell: int)
        requires
            self.well_formed(),
            0 <= cell < self.width_view() * self.height_view(),
        ensures
            csr_len(reflecting_rows_2d(self.width_view() as int, self.height_view() as int))
                <= u32::MAX ==> self.row_view(cell) == reflecting_row_2d(
                self.width_view() as int,
                self.height_view() as int,
                cell,
            ),
    {
        let rows = reflecting_rows_2d(self.width_view() as int, self.height_view() as int);
        if csr_len(rows) <= u32::MAX {
            lemma_csr_row(rows, cell);
            lemma_csr_offsets_monotone(rows, cell + 1, rows.len() as int);
        }
    }
}

/// Column and row of entry `i` of the row of `cell`, and the cell index they make.
proof fn lemma_reflecting_row_2d_entry(width: int, height: int, cell: int, i: int)
    requires
        0 < width,
        0 < height,
        width * height <= u32::MAX + 1,
        0 <= cell < width * height,
        0 <= i < reflecting_row_2d(width, height, cell).len(),
    ensures
        ({
            let x = cell % width;
            let y = cell / width;
            let span_x = span_1d(width, x);
            let column = row_begin_1d(x) + i % span_x;
            let line = row_begin_1d(y) + i / span_x;
            &&& 0 <= x < width
            &&& 0 <= y < height
            &&& 1 <= span_x <= 3
            &&& 0 <= column < width
            &&& 0 <= line < height
            &&& x - 1 <= column <= x + 1
            &&& y - 1 <= line <= y + 1
            &&& reflecting_row_2d(width, height, cell)[i] as int == column + width * line
            &&& (column + width * line) % width == column
            &&& (column + width * line) / width == line
            &&& 0 <= i % span_x < span_x
            &&& i == span_x * (i / span_x) + i % span_x
        }),
{
    let x = cell % width;
    let y = cell / width;
    let span_x = span_1d(width, x);
    let span_y = span_1d(height, y);
    vstd::arithmetic::div_mod::lemma_fundamental_div_mod(cell, width);
    assert(0 <= x < width);
    assert(0 <= y < height) by (nonlinear_arith)
        requires
            cell == width * y + x,
            0 <= x < width,
            0 <= cell < width * height,
            0 < width,
    ;
    vstd::arithmetic::div_mod::lemma_fundamental_div_mod(i, span_x);
    let q = i / span_x;
    let r = i % span_x;
    assert(0 <= r < span_x);
    assert(0 <= q < span_y) by (nonlinear_arith)
        requires
            i == span_x * q + r,
            0 <= r < span_x,
            0 <= i < span_x * span_y,
            0 < span_x,
    ;
    let column = row_begin_1d(x) + r;
    let line = row_begin_1d(y) + q;
    assert(column + width * line <= width * height - 1) by (nonlinear_arith)
        requires
            0 <= column < width,
            0 <= line < height,
    ;
    assert(0 <= width * line) by (nonlinear_arith)
        requires
            0 <= line,
            0 < width,
    ;
    assert(line * width + column == column + width * line) by (nonlinear_arith);
    lemma_fundamental_div_mod_converse(column + width * line, width, line, column);
}

/// The row of `cell` holds exactly the cells whose column and row each differ by at most
/// one from those of `cell`, and in particular `cell` itself. Its length is the product of
/// the number of such columns and the number of such rows: four at a corner, six on an
/// edge, nine inside.
pub proof fn lemma_reflecting_row_2d_members(width: u32, height: u32, cell: u32)
    requires
        0 < width,
        0 < height,
        width * height <= u32::MAX + 1,
        cell < width * height,
    ensures
        forall|other: u32|
            #![trigger reflecting_row_2d(width as int, height as int, cell as int).contains(other)]
            reflecting_row_2d(width as int, height as int, cell as int).contains(other) <==> {
                &&& other < width * height
                &&& other % width + 1 >= cell % width
                &&& other % width <= cell % width + 1
                &&& other / width + 1 >= cell / width
                &&& other / width <= cell / width + 1
            },
        reflecting_row_2d(width as int, height as int, cell as int).contains(cell),
        reflecting_row_2d(width as int, height as int, cell as int).len() == (1 + (if cell % width
            > 0 {
            1int
        } else {
            0int
        }) + (if cell % width + 1 < width {
            1int
        } else {
            0int
        })) * (1 + (if cell / width > 0 {
            1int
        } else {
            0int
        }) + (if cell / width + 1 < height {
            1int
        } else {
            0int
        })),
{
    let w = width as int;
    let h = height as int;
    let c = cell as int;
    let row = reflecting_row_2d(w, h, c);
    let x = c % w;
    let y = c / w;
    let x_begin = row_begin_1d(x);
    let y_begin = row_begin_1d(y);
    let span_x = span_1d(w, x);
    let span_y = span_1d(h, y);
    vstd::arithmetic::div_mod::lemma_fundamental_div_mod(c, w);
    assert(0 <= y < h) by (nonlinear_arith)
        requires
            c == w * y + x,
            0 <= x < w,
            0 <= c < w * h,
            0 < w,
    ;
    assert forall|other: u32| #[trigger] row.contains(other) <==> {
        &&& other < width * height
        &&& other % width + 1 >= cell % width
        &&& other % width <= cell % width + 1
        &&& other / width + 1 >= cell / width
        &&& other / width <= cell / width + 1
    } by {
        if row.contains(other) {
            let i = choose|i: int| 0 <= i < row.len() && row[i] == other;
            lemma_reflecting_row_2d_entry(w, h, c, i);
            let column = x_begin + i % span_x;
            let line = y_begin + i / span_x;
            assert(other as int == column + w * line);
            assert(column + w * line < w * h) by (nonlinear_arith)
                requires
                    0 <= column < w,
                    0 <= line < h,
            ;
        }
        if other < width * height && other % width + 1 >= cell % width && other % width <= cell
            % width + 1 && other / width + 1 >= cell / width && other / width <= cell / width
            + 1 {
            let o = other as int;
            vstd::arithmetic::div_mod::lemma_fundamental_div_mod(o, w);
            let column = o % w;
            let line = o / w;
            assert(0 <= line < h) by (nonlinear_arith)
                requires
                    o == w * line + column,
                    0 <= column < w,
                    0 <= o < w * h,
                    0 < w,
            ;
            let i = (line - y_begin) * span_x + (column - x_begin);
            assert(0 <= column - x_begin < span_x);
            assert(0 <= line - y_begin < span_y);
            assert(i == (line - y_begin) * span_x + (column - x_begin));
            assert(0 <= i < span_x * span_y) by (nonlinear_arith)
                requires
                    i == (line - y_begin) * span_x + (column - x_begin),
                    0 <= column - x_begin < span_x,
                    0 <= line - y_begin < span_y,
            ;
            lemma_fundamental_div_mod_converse(i, span_x, line - y_begin, column - x_begin);
            lemma_reflecting_row_2d_entry(w, h, c, i);
            assert(w * line + column == column + w * line);
            assert(row[i] == other);
        }
    }
    assert(row.contains(cell)) by {
        assert(cell % width == x);
        assert(cell / width == y);
    }
}

/// Within a row of the 2D graph the cells are strictly increasing, so no cell is listed twice.
pub proof fn lemma_reflecting_row_2d_increasing(width: u32, height: u32, cell: u32)
    requires
        0 < width,
        0 < height,
        width * height <= u32::MAX + 1,
        cell < width * height,
    ensures
        forall|i: int, j: int|
            0 <= i < j < reflecting_row_2d(width as int, height as int, cell as int).len()
                ==> #[trigger] reflecting_row_2d(width as int, height as int, cell as int)[i]
                < #[trigger] reflecting_row_2d(width as int, height as int, cell as int)[j],
{
    let w = width as int;
    let h = height as int;
    let c = cell as int;
    let row = reflecting_row_2d(w, h, c);
    assert forall|i: int, j: int| 0 <= i < j < row.len() implies #[trigger] row[i]
        < #[trigger] row[j] by {
        lemma_reflecting_row_2d_entry(w, h, c, i);
        lemma_reflecting_row_2d_entry(w, h, c, j);
        let span_x = span_1d(w, c % w);
        let qi = i / span_x;
        let qj = j / span_x;
        let ri = i % span_x;
        let rj = j % span_x;
        vstd::arithmetic::div_mod::lemma_div_is_ordered(i, j, span_x);
        if qi == qj {
            assert(ri < rj);
        } else {
            let ci = row_begin_1d(c % w) + ri;
            let cj = row_begin_1d(c % w) + rj;
            let li = row_begin_1d(c / w) + qi;
            let lj = row_begin_1d(c / w) + qj;
            assert(ci + w * li < cj + w * lj) by (nonlinear_arith)
                requires
                    0 <= ci < w,
                    0 <= cj,
                    li < lj,
            ;
        }
    }
}

/// Adjacency in the 2D graph is symmetric: `b` is in the row of `a` exactly when `a` is in
/// the row of `b`.
pub proof fn lemma_reflecting_rows_2d_symmetric(width: u32, height: u32, a: u32, b: u32)
    requires
        0 < width,
        0 < height,
        width * height <= u32::MAX + 1,
        a < width * height,
        b < width * height,
    ensures
        reflecting_row_2d(width as int, height as int, a as int).contains(b)
            <==> reflecting_row_2d(width as int, height as int, b as int).contains(a),
{
    lemma_reflecting_row_2d_members(width, height, a);
    lemma_reflecting_row_2d_members(width, height, b);
}

/// The offsets of a 2D graph have one entry per cell plus one and start at zero. When the
/// neighbor array is short enough for its offsets to fit in `u32`, the offsets never
/// decrease, the last one is the length of the neighbor array, and every stored row is
/// the reflecting row of its cell.
pub proof fn lemma_cell_graph_2d_layout(graph: CellGraph2d)
    requires
        graph.well_formed(),
    ensures
        graph.offsets_view().len() == graph.width_view() * graph.height_view() + 1,
        graph.offsets_view()[0] == 0,
        csr_len(reflecting_rows_2d(graph.width_view() as int, graph.height_view() as int))
            <= u32::MAX ==> {
            let n = graph.width_view() * graph.height_view();
            &&& graph.offsets_view()[n as int] == graph.neighbors_view().len()
            &&& forall|j: int, m: int|
                0 <= j <= m <= n ==> #[trigger] graph.offsets_view()[j]
                    <= #[trigger] graph.offsets_view()[m]
            &&& forall|cell: int|
                0 <= cell < n ==> #[trigger] graph.row_view(cell) == reflecting_row_2d(
                    graph.width_view() as int,
                    graph.height_view() as int,
                    cell,
                )
        },
{
    let w = graph.width_view() as int;
    let h = graph.height_view() as int;
    let n = w * h;
    let rows = reflecting_rows_2d(w, h);
    assert(rows.take(0) =~= Seq::<Seq<u32>>::empty());
    assert(csr_offset(rows, 0) == 0);
    if csr_len(rows) <= u32::MAX {
        lemma_csr_offsets_monotone(rows, n, n);
        assert forall|j: int, m: int| 0 <= j <= m <= n implies #[trigger] graph.offsets_view()[j]
            <= #[trigger] graph.offsets_view()[m] by {
            lemma_csr_offsets_monotone(rows, j, m);
            lemma_csr_offsets_monotone(rows, m, n);
        }
        assert forall|cell: int| 0 <= cell < n implies #[trigger] graph.row_view(cell)
            == reflecting_row_2d(w, h, cell) by {
            graph.lemma_row_exact(cell);
        }
    }
}

/// Offset of cell `k` of the 2D graph as a combination of 1D offsets: all earlier grid
/// rows contribute the full 1D total of the columns times their own spans, and the
/// current grid row contributes its span times the 1D offset of the column.
proof fn lemma_reflecting_offset_2d(width: int, height: int, k: int)
    requires
        0 < width,
        0 < height,
        width * height <= u32::MAX + 1,
        0 <= k <= width * height,
    ensures
        csr_offset(reflecting_rows_2d(width, height), k) == csr_offset(
            reflecting_rows_1d(width),
            width,
        ) * csr_offset(reflecting_rows_1d(height), k / width) + span_1d(height, k / width)
            * csr_offset(reflecting_rows_1d(width), k % width),
    decreases k,
{
    let rows = reflecting_rows_2d(width, height);
    let columns = reflecting_rows_1d(width);
    let lines = reflecting_rows_1d(height);
    let total_x = csr_offset(columns, width);
    if k == 0 {
        assert(rows.take(0) =~= Seq::<Seq<u32>>::empty());
        assert(columns.take(0) =~= Seq::<Seq<u32>>::empty());
        assert(lines.take(0) =~= Seq::<Seq<u32>>::empty());
        assert(0int / width == 0 && 0int % width == 0) by (nonlinear_arith)
            requires
                0 < width,
        ;
        let offset_y = csr_offset(lines, k / width);
        let offset_x = csr_offset(columns, k % width);
        assert(offset_y == 0 && offset_x == 0);
        assert(total_x * offset_y + span_1d(height, k / width) * offset_x == 0) by (nonlinear_arith)
            requires
                offset_y == 0,
                offset_x == 0,
        ;
    } else {
        let j = k - 1;
        lemma_reflecting_offset_2d(width, height, j);
        lemma_take_push_flatten(rows, j);
        vstd::arithmetic::div_mod::lemma_fundamental_div_mod(j, width);
        let x = j % width;
        let y = j / width;
        assert(0 <= y < height) by (nonlinear_arith)
            requires
                j == width * y + x,
                0 <= x < width,
                0 <= j < width * height,
                0 < width,
        ;
        let span_x = span_1d(width, x);
        let span_y = span_1d(height, y);
        assert(rows[j] == reflecting_row_2d(width, height, j));
        assert(rows[j].len() == span_x * span_y) by {
            assert(span_x * span_y >= 1) by (nonlinear_arith)
                requires
                    span_x >= 1,
                    span_y >= 1,
            ;
        }
        lemma_take_push_flatten(columns, x);
        assert(columns[x] == reflecting_row_1d(width, x));
        let before = csr_offset(rows, j);
        let offset_x = csr_offset(columns, x);
        let offset_y = csr_offset(lines, y);
        assert(before == total_x * offset_y + span_y * offset_x);
        assert(csr_offset(rows, k) == before + span_x * span_y);
        assert(csr_offset(columns, x + 1) == offset_x + span_x);
        if x + 1 < width {
            assert(k == y * width + (x + 1)) by (nonlinear_arith)
                requires
                    j == width * y + x,
                    k == j + 1,
            ;
            lemma_fundamental_div_mod_converse(k, width, y, x + 1);
            assert(total_x * offset_y + span_y * offset_x + span_x * span_y == total_x * offset_y
                + span_y * (offset_x + span_x)) by (nonlinear_arith);
        } else {
            assert(k == (y + 1) * width + 0) by (nonlinear_arith)
                requires
                    j == width * y + x,
                    k == j + 1,
                    x + 1 == width,
            ;
            lemma_fundamental_div_mod_converse(k, width, y + 1, 0);
            lemma_take_push_flatten(lines, y);
            assert(lines[y] == reflecting_row_1d(height, y));
            assert(offset_x + span_x == total_x);
            assert(columns.take(0) =~= Seq::<Seq<u32>>::empty());
            assert(total_x * offset_y + span_y * offset_x + span_x * span_y == total_x * (offset_y
                + span_y) + span_1d(height, y + 1) * 0) by (nonlinear_arith)
                requires
                    offset_x + span_x == total_x,
            ;
        }
    }
}

/// The 2D graph of a `width` by `height` grid stores the product of the 1D totals of
/// its columns and of its rows: `(3 width - 2) (3 height - 2)` neighbor entries when both
/// exceed one.
pub proof fn lemma_reflecting_rows_2d_total(width: u32, height: u32)
    requires
        0 < width,
        0 < height,
        width * height <= u32::MAX + 1,
    ensures
        csr_len(reflecting_rows_2d(width as int, height as int)) == csr_len(
            reflecting_rows_1d(width as int),
        ) * csr_len(reflecting_rows_1d(height as int)),
        csr_len(reflecting_rows_2d(width as int, height as int)) == (if width == 1 {
            1
        } else {
            3 * width - 2
        }) * (if height == 1 {
            1
        } else {
            3 * height - 2
        }),
{
    let w = width as int;
    let h = height as int;
    let rows = reflecting_rows_2d(w, h);
    let columns = reflecting_rows_1d(w);
    let lines = reflecting_rows_1d(h);
    lemma_reflecting_offset_2d(w, h, w * h);
    assert(w * h == h * w + 0) by (nonlinear_arith);
    lemma_fundamental_div_mod_converse(w * h, w, h, 0);
    assert(columns.take(0) =~= Seq::<Seq<u32>>::empty());
    lemma_csr_offsets_monotone(rows, w * h, w * h);
    lemma_csr_offsets_monotone(columns, w, w);
    lemma_csr_offsets_monotone(lines, h, h);
    let total_x = csr_offset(columns, w);
    let total_y = csr_offset(lines, h);
    let zero = csr_offset(columns, 0);
    assert(zero == 0);
    assert(total_x * total_y + span_1d(h, h) * zero == total_x * total_y) by (nonlinear_arith)
        requires
            zero == 0,
    ;
    assert(csr_len(rows) == csr_len(columns) * csr_len(lines));
    lemma_reflecting_rows_1d_total(width);
    lemma_reflecting_rows_1d_total(height);
}

} // verus!
