//! The description of a level: board size, snake start and walls.
use crate::geometry::{Direction, Point};
use crate::shape::Shape;
use vstd::prelude::*;

verus! {

/// Board dimensions, the snake's length, start cell and direction, and
/// the wall shapes.
#[derive(Clone, Debug)]
pub struct Level {
    pub height: isize,
    pub width: isize,
    pub snake_len: usize,
    pub snake_start: Point,
    pub start_dir: Direction,
    pub walls: Vec<Shape>,
}

} // verus!
