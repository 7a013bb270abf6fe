//! The integer rules that a solver setup must meet: grid sizes that fit the `u32`
//! cell indices used on the device, and particle columns of one common length.
use vstd::prelude::*;

use crate::error::{is_config_error, is_particle_error, Error, Result};

verus! {

/// Accepts the number of cells of a one-dimensional grid when it fits in `u32`, and
/// returns it as `u32`.
pub fn validate_cell_count_1d(cell_count: usize) -> (result: Result<u32>)
    ensures
        cell_count <= u32::MAX <==> result is Ok,
        result matches Ok(count) ==> count == cell_count,
        result matches Err(error) ==> is_config_error(error, "cell count exceeds u32::MAX"@),
{
    if cell_count > u32::MAX as usize {
        return Err(Error::InvalidConfig("cell count exceeds u32::MAX".to_owned()));
    }
    Ok(cell_count as u32)
}

/// Accepts the column and row counts of a two-dimensional grid when their product
/// neither overflows `usize` nor exceeds `u32::MAX`, and returns that product.
pub fn validate_cell_grid_2d(cell_count_x: usize, cell_count_y: usize) -> (result: Result<u32>)
    ensures
        cell_count_x * cell_count_y <= u32::MAX <==> result is Ok,
        result matches Ok(cells) ==> cells == cell_count_x * cell_count_y,
        cell_count_x * cell_count_y > usize::MAX ==> (result matches Err(error)
            && is_config_error(error, "2D cell count overflow"@)),
        usize::MAX >= cell_count_x * cell_count_y > u32::MAX ==> (result matches Err(error)
            && is_config_error(error, "2D cell count exceeds u32::MAX"@)),
{
    let cells = match cell_count_x.checked_mul(cell_count_y) {
        Some(cells) => cells,
        None => {
            return Err(Error::InvalidConfig("2D cell count overflow".to_owned()));
        },
    };
    if cells > u32::MAX as usize {
        return Err(Error::InvalidConfig("2D cell count exceeds u32::MAX".to_owned()));
    }
    Ok(cells as u32)
}

/// Converts the column and row counts of a two-dimensional grid to `u32`, rejecting
/// the first that does not fit.
pub fn grid_dimensions_2d(cell_count_x: usize, cell_count_y: usize) -> (result: Result<(u32, u32)>)
    ensures
        (cell_count_x <= u32::MAX && cell_count_y <= u32::MAX) <==> result is Ok,
        result matches Ok(dimensions) ==> dimensions.0 == cell_count_x && dimensions.1
            == cell_count_y,
        cell_count_x > u32::MAX ==> (result matches Err(error) && is_config_error(
            error,
            "2D grid width exceeds u32::MAX"@,
        )),
        cell_count_x <= u32::MAX < cell_count_y ==> (result matches Err(error)
            && is_config_error(error, "2D grid height exceeds u32::MAX"@)),
{
    if cell_count_x > u32::MAX as usize {
        return Err(Error::InvalidConfig("2D grid width exceeds u32::MAX".to_owned()));
    }
    if cell_count_y > u32::MAX as usize {
        return Err(Error::InvalidConfig("2D grid height exceeds u32::MAX".to_owned()));
    }
    Ok((cell_count_x as u32, cell_count_y as u32))
}

/// Accepts the column lengths of one-dimensional particle data when there is at least
/// one particle, all four columns have the same length, and that length fits in `u32`.
pub fn validate_particle_columns_1d(
    positions: usize,
    velocities: usize,
    internal_energy: usize,
    masses: usize,
) -> (result: Result<()>)
    ensures
        (positions > 0 && velocities == positions && internal_energy == positions && masses
            == positions && positions <= u32::MAX) <==> result is Ok,
        positions == 0 ==> (result matches Err(error) && is_particle_error(
            error,
            "at least one particle is required"@,
        )),
        (positions > 0 && (velocities != positions || internal_energy != positions || masses
            != positions)) ==> (result matches Err(error) && is_particle_error(
            error,
            "position, velocity, internal-energy, and mass lengths differ"@,
        )),
        (positions > u32::MAX && velocities == positions && internal_energy == positions
            && masses == positions) ==> (result matches Err(error) && is_particle_error(
            error,
            "particle count exceeds u32::MAX"@,
        )),
{
    if positions == 0 {
        return Err(Error::InvalidParticles("at least one particle is required".to_owned()));
    }
    if velocities != positions || internal_energy != positions || masses != positions {
        return Err(
            Error::InvalidParticles(
                "position, velocity, internal-energy, and mass lengths differ".to_owned(),
            ),
        );
    }
    if positions > u32::MAX as usize {
        return Err(Error::InvalidParticles("particle count exceeds u32::MAX".to_owned()));
    }
    Ok(())
}

/// Accepts the column lengths of two-dimensional particle data when there is at least
/// one particle, all six columns have the same length, and that length fits in `u32`.
pub fn validate_particle_columns_2d(
    positions_x: usize,
    positions_y: usize,
    velocities_x: usize,
    velocities_y: usize,
    internal_energy: usize,
    masses: usize,
) -> (result: Result<()>)
    ensures
        ({
            let same = positions_y == positions_x && velocities_x == positions_x && velocities_y
                == positions_x && internal_energy == positions_x && masses == positions_x;
            &&& (positions_x > 0 && same && positions_x <= u32::MAX) <==> result is Ok
            &&& positions_x == 0 ==> (result matches Err(error) && is_particle_error(
                error,
                "at least one 2D particle is required"@,
            ))
            &&& (positions_x > 0 && !same) ==> (result matches Err(error) && is_particle_error(
                error,
                "2D particle column lengths differ"@,
            ))
            &&& (positions_x > u32::MAX && same) ==> (result matches Err(error)
                && is_particle_error(error, "2D particle count exceeds u32::MAX"@))
        }),
{
    let len = positions_x;
    if len == 0 {
        return Err(Error::InvalidParticles("at least one 2D particle is required".to_owned()));
    }
    if positions_y != len || velocities_x != len || velocities_y != len || internal_energy != len
        || masses != len {
        return Err(Error::InvalidParticles("2D particle column lengths differ".to_owned()));
    }
    if len > u32::MAX as usize {
        return Err(Error::InvalidParticles("2D particle count exceeds u32::MAX".to_owned()));
    }
    Ok(())
}

/// The identifiers `0, 1, ...` given to `len` uploaded particles, one per particle, the
/// count taken as `len as u32`.
pub fn particle_ids(len: usize) -> (ids: Vec<u32>)
    ensures
        ids@ == Seq::new((len as u32) as nat, |i: int| i as u32),
{
    let count = len as u32;
    let mut ids: Vec<u32> = Vec::new();
    let mut id: u32 = 0;
    while id < count
        invariant
            id <= count,
            ids@ == Seq::new(id as nat, |i: int| i as u32),
        decreases count - id,
    {
        ids.push(id);
        id = id + 1;
    }
    ids
}

} // verus!
