//! The contents of one square of the playing field.

use vstd::prelude::*;

verus! {

/// What occupies a cell, independently of its goal marker.
#[derive(Clone, Copy, PartialEq, Eq, Structural, Debug)]
pub enum CellType {
    Wall,
    Crate,
    Empty,
    Block,
    Exit,
}

/// One square of the field: its contents and whether it is a goal.
#[derive(Clone, Copy, PartialEq, Eq, Structural, Debug)]
pub struct Cell {
    pub kind: CellType,
    pub goal: bool,
}

impl Cell {
    /// The player may step onto the cell: it is empty, or it is the exit and
    /// the board is solved.
    pub open spec fn free(self, solved: bool) -> bool {
        self.kind == CellType::Empty || (self.kind == CellType::Exit && solved)
    }

    /// The cell holds something that a push can displace.
    pub open spec fn movable(self) -> bool {
        self.kind == CellType::Block || self.kind == CellType::Crate
    }

    /// A goal that no block satisfies yet.
    pub open spec fn open_goal(self) -> bool {
        self.goal && self.kind != CellType::Block
    }

    pub fn is_free(&self, solved: bool) -> (r: bool)
        ensures
            r == self.free(solved),
    {
        match self.kind {
            CellType::Wall => false,
            CellType::Exit => solved,
            CellType::Block => false,
            CellType::Empty => true,
            CellType::Crate => false,
        }
    }

    pub fn is_movable(&self) -> (r: bool)
        ensures
            r == self.movable(),
    {
        match self.kind {
            CellType::Block => true,
            CellType::Crate => true,
            _ => false,
        }
    }

    pub fn is_crate(&self) -> (r: bool)
        ensures
            r == (self.kind == CellType::Crate),
    {
        match self.kind {
            CellType::Crate => true,
            _ => false,
        }
    }

    pub fn is_goal(&self) -> (r: bool)
        ensures
            r == self.goal,
    {
        self.goal
    }

    pub fn is_exit(&self) -> (r: bool)
        ensures
            r == (self.kind == CellType::Exit),
    {
        match self.kind {
            CellType::Exit => true,
            _ => false,
        }
    }

    /// A cell of the given kind that is not a goal.
    pub fn non_goal(kind: CellType) -> (c: Cell)
        ensures
            c == (Cell { kind, goal: false }),
    {
        Cell { kind, goal: false }
    }
}

} // verus!
