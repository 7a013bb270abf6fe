//! Cell-adjacency topology and integer bookkeeping for compressible SPH solvers.
//!
//! The solvers sort particles into a grid of cells whose width equals the kernel
//! support radius, so that every particle's neighbors lie in its own cell or in an
//! adjacent one. The static cell graphs here list, in CSR form, each cell together
//! with its adjacent cells; their contracts state exactly which rows they hold.
//! Beside them stand the integer rules a solver setup must meet, the host-side
//! cell lists, and the median used to summarize timings.
mod cell_list;
mod csr;
mod error;
mod grid;
mod grid2d;
mod stats;
mod validation;

pub use cell_list::{
    bucket_by_cell, cell_members, lemma_cell_members_partition, lemma_neighbor_candidates_1d,
    lemma_neighbor_candidates_2d,
};
pub use csr::{csr_len, csr_offset, csr_offsets};
pub use error::{is_config_error, is_particle_error, Error, Result};
pub use grid::{
    lemma_cell_graph_1d_layout, lemma_reflecting_row_1d_increasing,
    lemma_reflecting_row_1d_members, lemma_reflecting_rows_1d_symmetric,
    lemma_reflecting_rows_1d_total, reflecting_row_1d, reflecting_rows_1d, row_begin_1d,
    row_end_1d, CellGraph1d,
};
pub use grid2d::{
    lemma_cell_graph_2d_layout, lemma_reflecting_row_2d_increasing,
    lemma_reflecting_row_2d_members, lemma_reflecting_rows_2d_symmetric,
    lemma_reflecting_rows_2d_total, reflecting_row_2d, reflecting_rows_2d, span_1d, CellGraph2d,
};
pub use stats::{is_sorted, median, sorted_copy};
pub use validation::{
    grid_dimensions_2d, particle_ids, validate_cell_count_1d, validate_cell_grid_2d,
    validate_particle_columns_1d, validate_particle_columns_2d,
};
