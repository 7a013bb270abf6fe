use sph_gpu::{CellGraph1d, CellGraph2d};

#[test]
fn reflecting_graph_has_expected_rows() {
    let graph = CellGraph1d::reflecting(4);
    assert_eq!(graph.offsets(), &[0, 2, 5, 8, 10]);
    assert_eq!(graph.row(0), &[0, 1]);
    assert_eq!(graph.row(1), &[0, 1, 2]);
    assert_eq!(graph.row(2), &[1, 2, 3]);
    assert_eq!(graph.row(3), &[2, 3]);
}

#[test]
fn two_dimensional_degrees_match_corner_edge_and_interior() {
    let graph = CellGraph2d::reflecting(4, 3);
    assert_eq!(graph.row(0).len(), 4);
    assert_eq!(graph.row(1).len(), 6);
    assert_eq!(graph.row(5).len(), 9);
    assert_eq!(graph.row(11).len(), 4);
}

#[test]
fn csr_rows_are_complete_unique_and_symmetric() {
    for cell_count in 1_u32..128 {
        let graph = CellGraph1d::reflecting(cell_count);
        let offsets = graph.offsets();

        assert_eq!(graph.cell_count(), cell_count);
        assert_eq!(offsets.len(), cell_count as usize + 1);
        assert_eq!(offsets[0], 0);
        assert_eq!(offsets[offsets.len() - 1] as usize, graph.neighbors().len());
        assert!(offsets.windows(2).all(|pair| pair[0] <= pair[1]));

        for cell in 0..cell_count {
            let row = graph.row(cell);
            assert!(row.windows(2).all(|pair| pair[0] < pair[1]));
            assert!(row.contains(&cell));
            for &neighbor in row {
                assert!(neighbor < cell_count);
                assert!(cell.abs_diff(neighbor) <= 1);
                assert!(graph.row(neighbor).contains(&cell));
            }
            for other in 0..cell_count {
                assert_eq!(row.contains(&other), cell.abs_diff(other) <= 1);
            }
        }
    }
}

#[test]
fn csr_2d_rows_are_complete_unique_and_symmetric() {
    for width in 1_u32..16 {
        for height in 1_u32..16 {
            let graph = CellGraph2d::reflecting(width, height);
            let offsets = graph.offsets();
            let cell_count = width * height;

            assert_eq!(graph.width(), width);
            assert_eq!(graph.height(), height);
            assert_eq!(graph.cell_count(), cell_count);
            assert_eq!(offsets.len(), cell_count as usize + 1);
            assert_eq!(offsets[0], 0);
            assert_eq!(offsets[offsets.len() - 1] as usize, graph.neighbors().len());
            assert!(offsets.windows(2).all(|pair| pair[0] <= pair[1]));

            for cell in 0..cell_count {
                let x = cell % width;
                let y = cell / width;
                let row = graph.row(cell);
                assert!(row.windows(2).all(|pair| pair[0] < pair[1]));
                assert!(row.contains(&cell));
                let expected_degree = (1 + usize::from(x > 0) + usize::from(x + 1 < width))
                    * (1 + usize::from(y > 0) + usize::from(y + 1 < height));
                assert_eq!(row.len(), expected_degree);
                for &neighbor in row {
                    let neighbor_x = neighbor % width;
                    let neighbor_y = neighbor / width;
                    assert!(neighbor_x.abs_diff(x) <= 1);
                    assert!(neighbor_y.abs_diff(y) <= 1);
                    assert!(graph.row(neighbor).contains(&cell));
                }
            }
        }
    }
}

#[test]
fn single_cell_graphs_connect_the_cell_to_itself() {
    let graph = CellGraph1d::reflecting(1);
    assert_eq!(graph.offsets(), &[0, 1]);
    assert_eq!(graph.neighbors(), &[0]);
    assert_eq!(graph.row(0), &[0]);

    let graph = CellGraph2d::reflecting(1, 1);
    assert_eq!(graph.offsets(), &[0, 1]);
    assert_eq!(graph.row(0), &[0]);
}

#[test]
fn two_dimensional_rows_are_row_major() {
    let graph = CellGraph2d::reflecting(4, 3);
    assert_eq!(graph.row(0), &[0, 1, 4, 5]);
    assert_eq!(graph.row(5), &[0, 1, 2, 4, 5, 6, 8, 9, 10]);
    assert_eq!(graph.row(11), &[6, 7, 10, 11]);
    assert_eq!(graph.offsets()[..4], [0, 4, 10, 16]);
    // Four corners of degree 4, six edge cells of degree 6, two interior cells of degree 9.
    assert_eq!(graph.neighbors().len(), 4 * 4 + 6 * 6 + 2 * 9);
}

#[test]
fn cloned_graphs_keep_their_rows() {
    let graph = CellGraph1d::reflecting(5);
    let copy = graph.clone();
    assert_eq!(copy, graph);
    let graph = CellGraph2d::reflecting(3, 2);
    let copy = graph.clone();
    assert_eq!(copy, graph);
}

#[test]
fn neighbor_arrays_have_the_closed_form_length() {
    assert_eq!(CellGraph1d::reflecting(1).neighbors().len(), 1);
    for cell_count in 2_u32..64 {
        let graph = CellGraph1d::reflecting(cell_count);
        assert_eq!(graph.neighbors().len(), 3 * cell_count as usize - 2);
    }
    let span = |extent: u32| if extent == 1 { 1 } else { 3 * extent as usize - 2 };
    for width in 1_u32..12 {
        for height in 1_u32..12 {
            let graph = CellGraph2d::reflecting(width, height);
            assert_eq!(graph.neighbors().len(), span(width) * span(height));
        }
    }
}
