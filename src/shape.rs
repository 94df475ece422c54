//! Geometry descriptors that carry no color or scale of their own.
use crate::geometry::Point;
use crate::raster::{in_block, line_covers, line_ok, rect_covers, DrawBuffer};
use vstd::prelude::*;

verus! {

/// A point, a line between two points, or an axis-aligned rectangle given
/// by two corners and whether it is filled.
#[derive(Clone, Copy, Debug, PartialEq, Eq, Structural)]
pub enum Shape {
    Point(Point),
    Line(Point, Point),
    Rectangle(Point, Point, bool),
}

/// A shape that `draw` accepts: coordinates in range and no filled rectangle.
pub open spec fn shape_ok(s: Shape) -> bool {
    match s {
        Shape::Point(p) => line_ok(p, p, 1),
        Shape::Line(a, b) => line_ok(a, b, 1),
        Shape::Rectangle(a, b, fil) => line_ok(a, b, 1) && !fil,
    }
}

/// The cells that drawing `s` at scale 1 paints on a `w × h` grid.
pub open spec fn shape_covers(s: Shape, w: int, h: int, cx: int, cy: int) -> bool {
    match s {
        Shape::Point(p) => in_block(p.x as int, p.y as int, 1, w, h, cx, cy),
        Shape::Line(a, b) => line_covers(a, b, 1, w, h, cx, cy),
        Shape::Rectangle(a, b, _) => rect_covers(a, b, 1, w, h, cx, cy),
    }
}

impl Shape {
    pub fn new_point(x: isize, y: isize) -> (r: Shape)
        ensures
            r == Shape::Point(Point { x, y }),
    {
        Shape::Point(Point::new(x, y))
    }

    pub fn new_line(stx: isize, sty: isize, lsx: isize, lsy: isize) -> (r: Shape)
        ensures
            r == Shape::Line(Point { x: stx, y: sty }, Point { x: lsx, y: lsy }),
    {
        Shape::Line(Point::new(stx, sty), Point::new(lsx, lsy))
    }

    pub fn new_rect(minx: isize, miny: isize, maxx: isize, maxy: isize, filled: bool) -> (r: Shape)
        ensures
            r == Shape::Rectangle(Point { x: minx, y: miny }, Point { x: maxx, y: maxy }, filled),
    {
        Shape::Rectangle(Point::new(minx, miny), Point::new(maxx, maxy), filled)
    }

    /// Paints the shape onto `buf` in `col` at scale 1.
    pub fn draw(&self, buf: &mut DrawBuffer, col: u32)
        requires
            old(buf).wf(),
            shape_ok(*self),
        ensures
            final(buf).wf(),
            final(buf).same_shape(old(buf)),
            forall|cx: int, cy: int|
                #![trigger final(buf).at(cx, cy)]
                old(buf).on_grid(cx, cy) ==> final(buf).at(cx, cy) == if shape_covers(
                    *self,
                    old(buf).width(),
                    old(buf).height(),
                    cx,
                    cy,
                ) {
                    col
                } else {
                    old(buf).at(cx, cy)
                },
    {
        match self {
            Shape::Point(p) => buf.draw_point(*p, 1, col),
            Shape::Line(st, ls) => buf.draw_line(*st, *ls, 1, col),
            Shape::Rectangle(st, ls, fil) => buf.draw_rect(*st, *ls, *fil, 1, col),
        }
    }
}

} // verus!
