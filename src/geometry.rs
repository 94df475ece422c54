//! Integer coordinates, directions and wraparound arithmetic.
use vstd::arithmetic::div_mod::{
    lemma_fundamental_div_mod, lemma_fundamental_div_mod_converse, lemma_mod_twice,
};
use vstd::prelude::*;

verus! {

/// Largest magnitude a coordinate or a scale may have; keeps every
/// intermediate value of the drawing algorithms inside `isize`.
pub const COORD_LIMIT: isize = 0x100_0000;

/// True modulo: the representative of `v` in `[0, m)` for a positive `m`.
pub open spec fn wrap(v: int, m: int) -> int {
    ((v % m) + m) % m
}

/// For a positive modulus, wrapping is the Euclidean remainder.
pub proof fn lemma_wrap_is_mod(v: int, m: int)
    requires
        m > 0,
    ensures
        wrap(v, m) == v % m,
        0 <= wrap(v, m) < m,
{
    let r = v % m;
    assert(0 <= r < m);
    lemma_fundamental_div_mod(v, m);
    lemma_fundamental_div_mod_converse(r + m, m, 1, r);
}

/// Wrapping lands in `[0, m)` and keeps the value's residue modulo `m`.
pub proof fn lemma_wrap_range_and_residue(x: int, m: int)
    requires
        m > 0,
    ensures
        0 <= wrap(x, m) < m,
        wrap(x, m) % m == x % m,
{
    lemma_wrap_is_mod(x, m);
    lemma_mod_twice(x, m);
}

/// Wraps `n` into `[0, m)`, correct for negative `n`.
pub fn n_mod_m(n: isize, m: isize) -> (r: isize)
    requires
        m > 0,
    ensures
        r == wrap(n as int, m as int),
        0 <= r < m,
{
    proof {
        lemma_wrap_is_mod(n as int, m as int);
    }
    match n.checked_rem_euclid(m) {
        Some(r) => r,
        None => 0,
    }
}


/// An integer position on the grid.
#[derive(Clone, Copy, Debug, PartialEq, Eq, Structural)]
pub struct Point {
    pub x: isize,
    pub y: isize,
}

/// One of the four axis directions; `Up` decreases `y`.
#[derive(Clone, Copy, Debug, PartialEq, Eq, Structural)]
pub enum Direction {
    Left,
    Right,
    Up,
    Down,
}

/// The opposite direction: Left and Right swap, Up and Down swap.
pub open spec fn opposite_of(d: Direction) -> Direction {
    match d {
        Direction::Left => Direction::Right,
        Direction::Right => Direction::Left,
        Direction::Up => Direction::Down,
        Direction::Down => Direction::Up,
    }
}

/// The x step of one move in direction `d`.
pub open spec fn step_x(d: Direction) -> int {
    match d {
        Direction::Left => -1,
        Direction::Right => 1,
        _ => 0,
    }
}

/// The y step of one move in direction `d`.
pub open spec fn step_y(d: Direction) -> int {
    match d {
        Direction::Up => -1,
        Direction::Down => 1,
        _ => 0,
    }
}

impl Direction {
    pub fn oposite(&self) -> (r: Direction)
        ensures
            r == opposite_of(*self),
    {
        match self {
            Direction::Left => Direction::Right,
            Direction::Right => Direction::Left,
            Direction::Up => Direction::Down,
            Direction::Down => Direction::Up,
        }
    }
}

impl core::ops::Add for Point {
    type Output = Point;

    /// Componentwise sum.
    fn add(self, other: Point) -> Point {
        Point { x: self.x + other.x, y: self.y + other.y }
    }
}

impl vstd::std_specs::ops::AddSpecImpl for Point {
    open spec fn obeys_add_spec() -> bool {
        true
    }

    open spec fn add_req(self, rhs: Point) -> bool {
        isize::MIN <= self.x + rhs.x <= isize::MAX && isize::MIN <= self.y + rhs.y <= isize::MAX
    }

    open spec fn add_spec(self, rhs: Point) -> Point {
        Point { x: (self.x + rhs.x) as isize, y: (self.y + rhs.y) as isize }
    }
}

impl core::ops::Sub for Point {
    type Output = Point;

    /// Componentwise difference.
    fn sub(self, other: Point) -> Point {
        Point { x: self.x - other.x, y: self.y - other.y }
    }
}

impl vstd::std_specs::ops::SubSpecImpl for Point {
    open spec fn obeys_sub_spec() -> bool {
        true
    }

    open spec fn sub_req(self, rhs: Point) -> bool {
        isize::MIN <= self.x - rhs.x <= isize::MAX && isize::MIN <= self.y - rhs.y <= isize::MAX
    }

    open spec fn sub_spec(self, rhs: Point) -> Point {
        Point { x: (self.x - rhs.x) as isize, y: (self.y - rhs.y) as isize }
    }
}

impl Point {
    pub fn new(x: isize, y: isize) -> (r: Point)
        ensures
            r.x == x,
            r.y == y,
    {
        Point { x, y }
    }

    /// Moves the point one unit in direction `dir`.
    pub fn shift(&mut self, dir: Direction)
        requires
            isize::MIN < old(self).x < isize::MAX,
            isize::MIN < old(self).y < isize::MAX,
        ensures
            final(self).x == old(self).x + step_x(dir),
            final(self).y == old(self).y + step_y(dir),
    {
        match dir {
            Direction::Left => self.x = self.x - 1,
            Direction::Right => self.x = self.x + 1,
            Direction::Up => self.y = self.y - 1,
            Direction::Down => self.y = self.y + 1,
        }
    }

    /// The point one unit away in direction `dir`.
    pub fn shifted(&self, dir: Direction) -> (r: Point)
        requires
            isize::MIN < self.x < isize::MAX,
            isize::MIN < self.y < isize::MAX,
        ensures
            r.x == self.x + step_x(dir),
            r.y == self.y + step_y(dir),
    {
        match dir {
            Direction::Left => Point { x: self.x - 1, y: self.y },
            Direction::Right => Point { x: self.x + 1, y: self.y },
            Direction::Up => Point { x: self.x, y: self.y - 1 },
            Direction::Down => Point { x: self.x, y: self.y + 1 },
        }
    }
}

} // verus!
