//! Grid constants and bin index arithmetic.
use vstd::prelude::*;

verus! {

/// Particles laid out along x in the initial block.
pub const PARTICLES_X: u32 = 500;

/// Particles laid out along y in the initial block.
pub const PARTICLES_Y: u32 = 500;

/// Number of particles of the initial block.
pub const TOTAL_NUM_PARTICLES: usize = 250000;

/// Capacity of the particle buffers.
pub const MAX_PARTICLES: u32 = PARTICLES_X * PARTICLES_Y;

/// Size of a grid cell, counted in particle diameters.
pub const GRID_CELL_SIZE_PARTICLE: u32 = 1;

/// Bins along one side of the simulation area (window size over particle diameter).
pub const NUM_BINS_X: u32 = 100;

/// Bins along one side, with one padding bin on each edge.
pub const NUM_BINS_WITH_PADDING: u32 = NUM_BINS_X + 2;

/// Bins of the simulation area, without padding.
pub const TOTAL_NUM_BINS: usize = 10000;

/// Bins of the padded grid.
pub const TOTAL_NUM_BINS_WITH_PADDING: usize = 10404;

/// Entries of the bin start table: one per padded bin, plus one closing entry.
pub const TOTAL_NUM_BIN_INDICES: usize = TOTAL_NUM_BINS_WITH_PADDING + 1;

/// Physics substeps per frame.
pub const SUBSTEPS: usize = 4;

/// Particles handled by one workgroup of the update shader.
pub const PARTICLES_PER_GROUP: u32 = 64;

/// Threads per workgroup of the compute shaders.
pub const THREADS_PER_GROUP: u32 = 256;

/// Workgroups that cover every particle of the initial block.
pub const COMPUTE_GROUPS: u32 = (PARTICLES_X * PARTICLES_Y + THREADS_PER_GROUP - 1) / THREADS_PER_GROUP;

/// Index of the bin at `row`, `col` of the padded grid, row-major.
pub open spec fn bin_index(row: int, col: int) -> int {
    col + NUM_BINS_WITH_PADDING * row
}

/// Row of a padded-grid bin index.
pub open spec fn bin_row(bin: int) -> int {
    bin / (NUM_BINS_WITH_PADDING as int)
}

/// Column of a padded-grid bin index.
pub open spec fn bin_col(bin: int) -> int {
    bin % (NUM_BINS_WITH_PADDING as int)
}

/// A bin index gives back its row and column.
pub proof fn lemma_bin_index_decode(row: int, col: int)
    requires
        0 <= row,
        0 <= col < NUM_BINS_WITH_PADDING,
    ensures
        bin_row(bin_index(row, col)) == row,
        bin_col(bin_index(row, col)) == col,
{
    vstd::arithmetic::div_mod::lemma_fundamental_div_mod_converse(
        bin_index(row, col),
        NUM_BINS_WITH_PADDING as int,
        row,
        col,
    );
}

/// Index of the bin at `row`, `col` of the padded grid.
pub fn get_bin_index(row: u32, col: u32) -> (bin: u32)
    requires
        bin_index(row as int, col as int) <= u32::MAX,
    ensures
        bin == bin_index(row as int, col as int),
{
    col + (NUM_BINS_WITH_PADDING * row)
}

/// The bin one row above `bin`; the caller keeps `bin` off the top edge.
pub fn get_bin_index_above(bin: u32) -> (above: u32)
    requires
        bin + NUM_BINS_WITH_PADDING <= u32::MAX,
    ensures
        above == bin + NUM_BINS_WITH_PADDING,
{
    bin + NUM_BINS_WITH_PADDING
}

/// The bin one row below `bin`; the caller keeps `bin` off the bottom edge.
pub fn get_bin_index_below(bin: u32) -> (below: u32)
    requires
        bin >= NUM_BINS_WITH_PADDING,
    ensures
        below == bin - NUM_BINS_WITH_PADDING,
{
    bin - NUM_BINS_WITH_PADDING
}

/// Bin of a particle whose position, shifted one cell up and right, lies in
/// grid cell `cell_x`, `cell_y` (counted in particle diameters).
pub fn get_bin_id_from_cell(cell_x: u32, cell_y: u32) -> (bin: usize)
    requires
        bin_index((cell_y / GRID_CELL_SIZE_PARTICLE) as int, (cell_x / GRID_CELL_SIZE_PARTICLE) as int) <= u32::MAX,
    ensures
        bin == bin_index((cell_y / GRID_CELL_SIZE_PARTICLE) as int, (cell_x / GRID_CELL_SIZE_PARTICLE) as int),
{
    let grid_pos_x = cell_x / GRID_CELL_SIZE_PARTICLE;
    let grid_pos_y = cell_y / GRID_CELL_SIZE_PARTICLE;
    (grid_pos_x + (grid_pos_y * NUM_BINS_WITH_PADDING)) as usize
}

/// Moving one row up and then one row down returns to the same bin, and the
/// bin one row up is in the next row, same column.
pub proof fn lemma_above_below_inverse(bin: int)
    requires
        0 <= bin,
    ensures
        (bin + NUM_BINS_WITH_PADDING) - NUM_BINS_WITH_PADDING == bin,
        bin_row(bin + NUM_BINS_WITH_PADDING) == bin_row(bin) + 1,
        bin_col(bin + NUM_BINS_WITH_PADDING) == bin_col(bin),
{
    let q = bin_row(bin);
    let r = bin_col(bin);
    vstd::arithmetic::div_mod::lemma_fundamental_div_mod(bin, NUM_BINS_WITH_PADDING as int);
    vstd::arithmetic::div_mod::lemma_fundamental_div_mod_converse(
        bin + NUM_BINS_WITH_PADDING,
        NUM_BINS_WITH_PADDING as int,
        q + 1,
        r,
    );
}

} // verus!
