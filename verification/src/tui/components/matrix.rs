use vstd::prelude::*;

verus! {

/// The scroll position of the processing times table.
pub struct MatrixState {
    pub row_offset: usize,
    pub col_offset: usize,
}

impl MatrixState {
    /// One column to the left, unless at the first one.
    pub open spec fn after_left(self) -> MatrixState {
        MatrixState {
            col_offset: if self.col_offset > 0 { (self.col_offset - 1) as usize } else { 0 },
            ..self
        }
    }

    /// One column to the right, unless at the last of `max_cols`.
    pub open spec fn after_right(self, max_cols: usize) -> MatrixState {
        MatrixState {
            col_offset: if self.col_offset + 1 < max_cols {
                (self.col_offset + 1) as usize
            } else {
                self.col_offset
            },
            ..self
        }
    }

    /// One row up, unless at the first one.
    pub open spec fn after_up(self) -> MatrixState {
        MatrixState {
            row_offset: if self.row_offset > 0 { (self.row_offset - 1) as usize } else { 0 },
            ..self
        }
    }

    /// One row down, unless at the last of `max_rows`.
    pub open spec fn after_down(self, max_rows: usize) -> MatrixState {
        MatrixState {
            row_offset: if self.row_offset + 1 < max_rows {
                (self.row_offset + 1) as usize
            } else {
                self.row_offset
            },
            ..self
        }
    }

    /// The table at its top left corner.
    pub fn new() -> (s: Self)
        ensures
            s.row_offset == 0,
            s.col_offset == 0,
    {
        MatrixState { row_offset: 0, col_offset: 0 }
    }

    /// One column to the left, unless at the first one.
    pub fn move_left(&mut self)
        ensures
            *final(self) == old(self).after_left(),
    {
        if self.col_offset > 0 {
            self.col_offset -= 1;
        }
    }

    /// One column to the right, unless at the last of `max_cols`.
    pub fn move_right(&mut self, max_cols: usize)
        ensures
            *final(self) == old(self).after_right(max_cols),
    {
        if max_cols > 0 && self.col_offset < max_cols - 1 {
            self.col_offset += 1;
        }
    }

    /// One row up, unless at the first one.
    pub fn move_up(&mut self)
        ensures
            *final(self) == old(self).after_up(),
    {
        if self.row_offset > 0 {
            self.row_offset -= 1;
        }
    }

    /// One row down, unless at the last of `max_rows`.
    pub fn move_down(&mut self, max_rows: usize)
        ensures
            *final(self) == old(self).after_down(max_rows),
    {
        if max_rows > 0 && self.row_offset < max_rows - 1 {
            self.row_offset += 1;
        }
    }
}

/// Moves keep a position inside a table of `rows` by `cols` inside it, and
/// a move right (or down) away from the edge is undone by a move left (or up).
pub proof fn lemma_moves_stay_in_table(m: MatrixState, rows: usize, cols: usize)
    requires
        m.row_offset < rows,
        m.col_offset < cols,
    ensures
        m.after_left().col_offset < cols,
        m.after_right(cols).col_offset < cols,
        m.after_up().row_offset < rows,
        m.after_down(rows).row_offset < rows,
        m.col_offset + 1 < cols ==> m.after_right(cols).after_left() == m,
        m.row_offset + 1 < rows ==> m.after_down(rows).after_up() == m,
{
}

} // verus!
