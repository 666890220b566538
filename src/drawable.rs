use crate::cell::{Size, TreeType};
use vstd::prelude::*;

verus! {

/// A surface the forest is drawn on.
pub trait TreeDrawable {
    /// The dimensions of the surface: its width gives the grid's columns,
    /// its height the grid's rows.
    fn size(&self) -> &Size;

    /// Shows one snapshot of the grid, row by row.
    fn draw_tree(&mut self, trees: &Vec<Vec<TreeType>>);
}

} // verus!
