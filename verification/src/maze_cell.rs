//! The cells of the maze grid: a position, a kind marker, a set id, and the
//! in-bounds orthogonal neighbour positions, precomputed once.

use vstd::prelude::*;

verus! {

/// A grid coordinate. Signed, so that off-grid neighbour candidates can be
/// represented and bounds-checked before use.
#[derive(Clone, Copy, Debug, PartialEq)]
pub struct Pos {
    pub x: isize,
    pub y: isize,
}

/// The in-bounds orthogonal neighbour positions of a cell; a side beyond the
/// grid edge is `None`.
#[derive(Clone, Copy, Debug, PartialEq)]
pub struct Neighbours {
    pub top: Option<Pos>,
    pub bot: Option<Pos>,
    pub left: Option<Pos>,
    pub right: Option<Pos>,
}

impl Neighbours {
    /// A cell with no neighbour positions recorded yet.
    pub fn new() -> (n: Neighbours)
        ensures
            n.top is None,
            n.bot is None,
            n.left is None,
            n.right is None,
    {
        Neighbours { top: None, bot: None, left: None, right: None }
    }
}

/// One cell of the grid: its coordinate, its kind (`WALL` or `GROUND`), the
/// id of the connected component it belongs to (0 for walls), and its
/// precomputed neighbour positions.
#[derive(Clone, Copy, Debug, PartialEq)]
pub struct Cell {
    pub pos: Pos,
    pub cell_type: u8,
    pub id: usize,
    pub neighbours: Neighbours,
}

impl Cell {
    /// A fresh cell at `(x, y)` with the given kind and id and no neighbours.
    pub fn new(x: isize, y: isize, cell_type: u8, id: usize) -> (c: Cell)
        ensures
            c.pos == (Pos { x, y }),
            c.cell_type == cell_type,
            c.id == id,
            c.neighbours.top is None,
            c.neighbours.bot is None,
            c.neighbours.left is None,
            c.neighbours.right is None,
    {
        Cell { pos: Pos { x, y }, cell_type, id, neighbours: Neighbours::new() }
    }

    /// The recorded upper neighbour position; the caller must know it exists.
    pub fn get_top_pos(&self) -> (p: &Pos)
        requires
            self.neighbours.top is Some,
        ensures
            self.neighbours.top == Some(*p),
    {
        self.neighbours.top.as_ref().unwrap()
    }

    /// The recorded lower neighbour position; the caller must know it exists.
    pub fn get_bot_pos(&self) -> (p: &Pos)
        requires
            self.neighbours.bot is Some,
        ensures
            self.neighbours.bot == Some(*p),
    {
        self.neighbours.bot.as_ref().unwrap()
    }

    /// The recorded left neighbour position; the caller must know it exists.
    pub fn get_left_pos(&self) -> (p: &Pos)
        requires
            self.neighbours.left is Some,
        ensures
            self.neighbours.left == Some(*p),
    {
        self.neighbours.left.as_ref().unwrap()
    }

    /// The recorded right neighbour position; the caller must know it exists.
    pub fn get_right_pos(&self) -> (p: &Pos)
        requires
            self.neighbours.right is Some,
        ensures
            self.neighbours.right == Some(*p),
    {
        self.neighbours.right.as_ref().unwrap()
    }

    /// Whether both the upper and the lower neighbour exist in bounds.
    pub fn is_verticaly_bound(&self) -> (r: bool)
        ensures
            r == (self.neighbours.top is Some && self.neighbours.bot is Some),
    {
        self.neighbours.top.is_some() && self.neighbours.bot.is_some()
    }

    /// Whether both the left and the right neighbour exist in bounds.
    pub fn is_horizontaly_bound(&self) -> (r: bool)
        ensures
            r == (self.neighbours.left is Some && self.neighbours.right is Some),
    {
        self.neighbours.left.is_some() && self.neighbours.right.is_some()
    }
}

} // verus!
