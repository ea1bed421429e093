//! A concrete grid of integer cells backed by a vector of rows.

use vstd::prelude::*;
use crate::grid::{rows_view, Grid};

verus! {

/// A grid whose cells are `i32` values, with `0` as the default cell.
pub struct IntGrid {
    /// The backing rows, outermost vector first by row, then by column.
    pub grid: Vec<Vec<i32>>,
}

impl Grid for IntGrid {
    type Field = i32;

    open spec fn cells(&self) -> Seq<Seq<i32>> {
        rows_view(self.grid@)
    }

    open spec fn default_field_spec() -> i32 {
        0
    }

    fn get_grid(&self) -> (g: Vec<Vec<i32>>) {
        let mut g: Vec<Vec<i32>> = Vec::new();
        let mut i: usize = 0;
        while i < self.grid.len()
            invariant
                i <= self.grid.len(),
                g@.len() == i,
                forall|k: int| 0 <= k < i ==> #[trigger] g@[k]@ == self.grid@[k]@,
            decreases self.grid.len() - i,
        {
            let src = &self.grid[i];
            let mut row: Vec<i32> = Vec::new();
            let mut j: usize = 0;
            while j < src.len()
                invariant
                    j <= src.len(),
                    row@ == src@.take(j as int),
                decreases src.len() - j,
            {
                row.push(src[j]);
                proof {
                    assert(row@ =~= src@.take(j + 1 as int));
                }
                j += 1;
            }
            proof {
                assert(row@ =~= src@);
            }
            g.push(row);
            i += 1;
        }
        proof {
            assert(rows_view(g@) =~= self.cells());
        }
        g
    }

    fn get_grid_ref(&self) -> (g: &Vec<Vec<i32>>) {
        &self.grid
    }

    fn get_grid_mut(&mut self) -> (g: &mut Vec<Vec<i32>>) {
        &mut self.grid
    }

    fn set_grid(&mut self, grid: Vec<Vec<i32>>) {
        self.grid = grid;
    }

    fn get_field_box(&self, y: usize, x: usize) -> (r: Option<Box<i32>>) {
        if y < self.grid.len() {
            let row = &self.grid[y];
            proof {
                assert(self.grid@[y as int]@ == self.cells()[y as int]);
            }
            if x < row.len() {
                Some(Box::new(row[x]))
            } else {
                None
            }
        } else {
            None
        }
    }

    fn default_field() -> (r: i32) {
        0
    }

    fn clone_field(f: &i32) -> (r: i32) {
        *f
    }
}

} // verus!
