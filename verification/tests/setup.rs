use sph_gpu::{
    grid_dimensions_2d, median, particle_ids, sorted_copy, validate_cell_count_1d,
    validate_cell_grid_2d, validate_particle_columns_1d, validate_particle_columns_2d, Error,
};

fn config_message(result: Result<impl std::fmt::Debug, Error>) -> String {
    match result {
        Err(Error::InvalidConfig(message)) => message,
        other => panic!("expected a configuration error, got {other:?}"),
    }
}

fn particle_message(result: Result<(), Error>) -> String {
    match result {
        Err(Error::InvalidParticles(message)) => message,
        other => panic!("expected a particle error, got {other:?}"),
    }
}

#[test]
fn one_dimensional_cell_counts_must_fit_in_u32() {
    assert_eq!(validate_cell_count_1d(50).unwrap(), 50);
    assert_eq!(validate_cell_count_1d(u32::MAX as usize).unwrap(), u32::MAX);
    assert_eq!(
        config_message(validate_cell_count_1d(u32::MAX as usize + 1)),
        "cell count exceeds u32::MAX"
    );
}

#[test]
fn two_dimensional_grids_reject_overflowing_cell_counts() {
    assert_eq!(validate_cell_grid_2d(80, 80).unwrap(), 6400);
    assert_eq!(validate_cell_grid_2d(65536, 65535).unwrap(), 65536 * 65535);
    assert_eq!(
        config_message(validate_cell_grid_2d(65536, 65536)),
        "2D cell count exceeds u32::MAX"
    );
    assert_eq!(
        config_message(validate_cell_grid_2d(usize::MAX, 2)),
        "2D cell count overflow"
    );
    assert_eq!(validate_cell_grid_2d(0, usize::MAX).unwrap(), 0);
}

#[test]
fn two_dimensional_grid_dimensions_are_converted_one_at_a_time() {
    assert_eq!(grid_dimensions_2d(80, 40).unwrap(), (80, 40));
    assert_eq!(
        config_message(grid_dimensions_2d(u32::MAX as usize + 1, 1)),
        "2D grid width exceeds u32::MAX"
    );
    assert_eq!(
        config_message(grid_dimensions_2d(1, u32::MAX as usize + 1)),
        "2D grid height exceeds u32::MAX"
    );
    assert_eq!(
        config_message(grid_dimensions_2d(u32::MAX as usize + 1, u32::MAX as usize + 1)),
        "2D grid width exceeds u32::MAX"
    );
}

#[test]
fn one_dimensional_particle_columns_must_agree() {
    assert!(validate_particle_columns_1d(4, 4, 4, 4).is_ok());
    assert_eq!(
        particle_message(validate_particle_columns_1d(0, 0, 0, 0)),
        "at least one particle is required"
    );
    assert_eq!(
        particle_message(validate_particle_columns_1d(4, 4, 3, 4)),
        "position, velocity, internal-energy, and mass lengths differ"
    );
    let huge = u32::MAX as usize + 1;
    assert_eq!(
        particle_message(validate_particle_columns_1d(huge, huge, huge, huge)),
        "particle count exceeds u32::MAX"
    );
}

#[test]
fn two_dimensional_particle_columns_must_agree() {
    assert!(validate_particle_columns_2d(9, 9, 9, 9, 9, 9).is_ok());
    assert_eq!(
        particle_message(validate_particle_columns_2d(0, 0, 0, 0, 0, 0)),
        "at least one 2D particle is required"
    );
    assert_eq!(
        particle_message(validate_particle_columns_2d(9, 9, 9, 8, 9, 9)),
        "2D particle column lengths differ"
    );
    let huge = u32::MAX as usize + 1;
    assert_eq!(
        particle_message(validate_particle_columns_2d(huge, huge, huge, huge, huge, huge)),
        "2D particle count exceeds u32::MAX"
    );
}

#[test]
fn particle_ids_count_up_from_zero() {
    assert_eq!(particle_ids(4), vec![0, 1, 2, 3]);
    assert!(particle_ids(0).is_empty());
}

#[test]
fn median_takes_the_upper_middle_sample() {
    assert_eq!(median(vec![7]), 7);
    assert_eq!(median(vec![30, 10, 20]), 20);
    assert_eq!(median(vec![40, 10, 30, 20]), 30);
    assert_eq!(median(vec![5, 5, 1, 9, 5]), 5);
}

#[test]
fn sorted_copy_keeps_every_sample() {
    let samples = vec![3, 1, 4, 1, 5, 9, 2, 6];
    assert_eq!(sorted_copy(&samples), vec![1, 1, 2, 3, 4, 5, 6, 9]);
    assert!(sorted_copy(&Vec::new()).is_empty());
}
