use sph_gpu::{bucket_by_cell, CellGraph1d, CellGraph2d};

#[test]
fn particles_are_bucketed_by_cell_in_index_order() {
    let cells = bucket_by_cell(&[2, 0, 2, 1, 0, 2], 4);
    assert_eq!(cells.len(), 4);
    assert_eq!(cells[0], vec![1, 4]);
    assert_eq!(cells[1], vec![3]);
    assert_eq!(cells[2], vec![0, 2, 5]);
    assert!(cells[3].is_empty());
}

#[test]
fn every_particle_lands_in_exactly_one_bucket() {
    let cell_ids: Vec<usize> = (0..200).map(|index| (index * 7 + 3) % 13).collect();
    let cells = bucket_by_cell(&cell_ids, 13);
    let mut seen = vec![0_usize; cell_ids.len()];
    for (cell, members) in cells.iter().enumerate() {
        assert!(members.windows(2).all(|pair| pair[0] < pair[1]));
        for &index in members {
            assert_eq!(cell_ids[index], cell);
            seen[index] += 1;
        }
    }
    assert!(seen.iter().all(|&count| count == 1));
}

#[test]
fn no_particles_give_empty_buckets() {
    let cells = bucket_by_cell(&[], 3);
    assert_eq!(cells, vec![Vec::<usize>::new(); 3]);
    assert!(bucket_by_cell(&[], 0).is_empty());
}

#[test]
fn walking_a_cell_row_visits_each_adjacent_particle_once_1d() {
    let cell_count = 9_u32;
    let cell_ids: Vec<usize> = (0..60).map(|index| (index * 5 + 1) % 9).collect();
    let cells = bucket_by_cell(&cell_ids, cell_count as usize);
    let graph = CellGraph1d::reflecting(cell_count);
    for cell in 0..cell_count {
        let mut visits = vec![0_usize; cell_ids.len()];
        for &neighbor in graph.row(cell) {
            for &particle in &cells[neighbor as usize] {
                visits[particle] += 1;
            }
        }
        for (particle, &count) in visits.iter().enumerate() {
            let adjacent = (cell_ids[particle] as u32).abs_diff(cell) <= 1;
            assert_eq!(count, usize::from(adjacent));
        }
    }
}

#[test]
fn walking_a_cell_row_visits_each_adjacent_particle_once_2d() {
    let (width, height) = (5_u32, 4_u32);
    let cell_count = width * height;
    let cell_ids: Vec<usize> = (0..150).map(|index| (index * 7 + 2) % 20).collect();
    let cells = bucket_by_cell(&cell_ids, cell_count as usize);
    let graph = CellGraph2d::reflecting(width, height);
    for cell in 0..cell_count {
        let mut visits = vec![0_usize; cell_ids.len()];
        for &neighbor in graph.row(cell) {
            for &particle in &cells[neighbor as usize] {
                visits[particle] += 1;
            }
        }
        for (particle, &count) in visits.iter().enumerate() {
            let other = cell_ids[particle] as u32;
            let adjacent = (other % width).abs_diff(cell % width) <= 1
                && (other / width).abs_diff(cell / width) <= 1;
            assert_eq!(count, usize::from(adjacent));
        }
    }
}
