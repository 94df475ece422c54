//! Built-in letterforms, as shapes on a grid five cells wide and seven tall.
use crate::geometry::{Point, COORD_LIMIT};
use crate::shape::Shape;
use vstd::prelude::*;

verus! {

/// The characters with a built-in letterform.
pub open spec fn has_letter(c: char) -> bool {
    c == 'A' || c == 'B' || c == 'O'
}

/// The point `(x, y)`.
pub open spec fn pt(x: int, y: int) -> Point {
    Point { x: x as isize, y: y as isize }
}

/// The line from `(ax, ay)` to `(bx, by)`.
pub open spec fn ln(ax: int, ay: int, bx: int, by: int) -> Shape {
    Shape::Line(pt(ax, ay), pt(bx, by))
}

/// The shapes of letter `c` with its top-left corner at `(x, y)`, each grid
/// unit `sc` cells wide.
pub open spec fn letter_shapes(x: int, y: int, sc: int, c: char) -> Seq<Shape> {
    if c == 'A' {
        seq![
            ln(x, y + sc, x, y + 6 * sc),
            ln(x + 4 * sc, y + sc, x + 4 * sc, y + 6 * sc),
            ln(x + sc, y + 2 * sc, x + 3 * sc, y + 2 * sc),
            ln(x + sc, y, x + 3 * sc, y),
        ]
    } else if c == 'B' {
        seq![
            ln(x, y, x, y + 6 * sc),
            ln(x + 4 * sc, y + 3 * sc, x + 4 * sc, y + 5 * sc),
            Shape::Point(pt(x + 4 * sc, y + sc)),
            ln(x + sc, y, x + 3 * sc, y),
            ln(x + sc, y + 2 * sc, x + 3 * sc, y + 2 * sc),
            ln(x + sc, y + 6 * sc, x + 3 * sc, y + 6 * sc),
        ]
    } else {
        seq![
            ln(x + sc, y, x + 3 * sc, y),
            ln(x + sc, y + 6 * sc, x + 3 * sc, y + 6 * sc),
            ln(x, y + sc, x, y + 5 * sc),
            ln(x + 4 * sc, y + sc, x + 4 * sc, y + 5 * sc),
        ]
    }
}

/// The shapes of letter `c` at `(x, y)` with scale `sc`, and the advance
/// to the next letter, `6 · sc`.
pub fn convertor(x: isize, y: isize, sc: isize, c: char) -> (r: (isize, Vec<Shape>))
    requires
        has_letter(c),
        -COORD_LIMIT <= x <= COORD_LIMIT,
        -COORD_LIMIT <= y <= COORD_LIMIT,
        -COORD_LIMIT <= sc <= COORD_LIMIT,
    ensures
        r.0 == 6 * sc,
        r.1@ == letter_shapes(x as int, y as int, sc as int, c),
{
    let r = if c == 'A' {
        (
            6 * sc,
            vec![
                Shape::new_line(x, y + sc, x, y + 6 * sc),
                Shape::new_line(x + 4 * sc, y + sc, x + 4 * sc, y + 6 * sc),
                Shape::new_line(x + sc, y + 2 * sc, x + 3 * sc, y + 2 * sc),
                Shape::new_line(x + sc, y, x + 3 * sc, y),
            ],
        )
    } else if c == 'B' {
        (
            6 * sc,
            vec![
                Shape::new_line(x, y, x, y + 6 * sc),
                Shape::new_line(x + 4 * sc, y + 3 * sc, x + 4 * sc, y + 5 * sc),
                Shape::new_point(x + 4 * sc, y + sc),
                Shape::new_line(x + sc, y, x + 3 * sc, y),
                Shape::new_line(x + sc, y + 2 * sc, x + 3 * sc, y + 2 * sc),
                Shape::new_line(x + sc, y + 6 * sc, x + 3 * sc, y + 6 * sc),
            ],
        )
    } else {
        (
            6 * sc,
            vec![
                Shape::new_line(x + sc, y, x + 3 * sc, y),
                Shape::new_line(x + sc, y + 6 * sc, x + 3 * sc, y + 6 * sc),
                Shape::new_line(x, y + sc, x, y + 5 * sc),
                Shape::new_line(x + 4 * sc, y + sc, x + 4 * sc, y + 5 * sc),
            ],
        )
    };
    proof {
        assert(r.1@ =~= letter_shapes(x as int, y as int, sc as int, c));
    }
    r
}

} // verus!
