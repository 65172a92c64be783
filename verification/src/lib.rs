mod field;
mod generate;
mod grid;
mod number;
mod pos;
mod solve;

pub use field::Field;
pub use generate::generate;
pub use grid::{
    assign_of, block_cells, cell_digit, col_cells, fits, fresh_conflict, fresh_ok, full_assign,
    grid_of, keeps_solutions, lemma_assign_of, lemma_sees_sym, lemma_solved_grid_units,
    lemma_unit_pigeonhole, no_empty_kept, no_neighbor_has, ns_count, propagated, row_cells,
    set_mono, shrink_justified, sol_of, solved_cells_kept, solved_kept, unit_covered,
    valid_assign, Grid,
};
pub use number::Number;
pub use pos::{pos_at, same_block, Pos};
pub use solve::{reported, solve, SolveOptions};
