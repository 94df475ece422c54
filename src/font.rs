//! Text as obstacle geometry: glyphs are shape lists placed side by side.
use crate::geometry::Point;
use crate::shape::Shape;
use std::collections::HashMap;
use vstd::prelude::*;

verus! {

broadcast use vstd::std_specs::hash::group_hash_axioms;

/// One line of a font description: a character and its shapes.
pub enum KV {
    KV(char, Vec<Shape>),
}

/// The x a glyph shape reaches: a point's x, or the x of the second point
/// of a line or rectangle.
pub open spec fn right_of(s: Shape) -> int {
    match s {
        Shape::Point(p) => p.x as int,
        Shape::Line(_, b) => b.x as int,
        Shape::Rectangle(_, b, _) => b.x as int,
    }
}

/// The largest `right_of` over the first `n` shapes, and at least 0.
pub open spec fn glyph_right(g: Seq<Shape>, n: int) -> int
    decreases n,
{
    if n <= 0 {
        0
    } else {
        let r = glyph_right(g, n - 1);
        if right_of(g[n - 1]) > r {
            right_of(g[n - 1])
        } else {
            r
        }
    }
}

/// A glyph coordinate scaled by `sc` and moved by `o`.
pub open spec fn place(v: int, o: int, sc: int) -> int {
    o + v * sc
}

/// `place(v, o, sc)` and its product fit in `isize`.
pub open spec fn place_fits(v: int, o: int, sc: int) -> bool {
    isize::MIN <= v * sc <= isize::MAX && isize::MIN <= place(v, o, sc) <= isize::MAX
}

/// Both coordinates of `p` can be placed.
pub open spec fn point_fits(p: Point, x: int, y: int, sc: int) -> bool {
    place_fits(p.x as int, x, sc) && place_fits(p.y as int, y, sc)
}

/// The point `p` scaled by `sc` and moved to `(x, y)`.
pub open spec fn placed_point(p: Point, x: int, y: int, sc: int) -> Point {
    Point { x: place(p.x as int, x, sc) as isize, y: place(p.y as int, y, sc) as isize }
}

/// Every coordinate of `s` can be placed at `(x, y)` with scale `sc`, and
/// the glyph's right edge leaves room for the gap after it.
pub open spec fn shape_fits(s: Shape, x: int, y: int, sc: int) -> bool {
    &&& right_of(s) <= isize::MAX - 2
    &&& match s {
        Shape::Point(p) => point_fits(p, x, y, sc),
        Shape::Line(a, b) => point_fits(a, x, y, sc) && point_fits(b, x, y, sc),
        Shape::Rectangle(a, b, _) => point_fits(a, x, y, sc) && point_fits(b, x, y, sc),
    }
}

/// The shape `s` scaled by `sc` and moved to `(x, y)`.
pub open spec fn placed_shape(s: Shape, x: int, y: int, sc: int) -> Shape {
    match s {
        Shape::Point(p) => Shape::Point(placed_point(p, x, y, sc)),
        Shape::Line(a, b) => Shape::Line(placed_point(a, x, y, sc), placed_point(b, x, y, sc)),
        Shape::Rectangle(a, b, fil) => Shape::Rectangle(
            placed_point(a, x, y, sc),
            placed_point(b, x, y, sc),
            fil,
        ),
    }
}

/// Glyphs by character.
pub struct Font {
    map: HashMap<u32, Vec<Shape>>,
}

impl Font {
    /// The characters the font has a glyph for, by code point.
    pub closed spec fn has_glyph(&self, c: char) -> bool {
        self.map@.contains_key(c as u32)
    }

    /// The glyph of `c`.
    pub closed spec fn glyph(&self, c: char) -> Seq<Shape> {
        self.map@[c as u32]@
    }

    /// A font without glyphs.
    pub fn new() -> (r: Font)
        ensures
            forall|c: char| !r.has_glyph(c),
    {
        Font { map: HashMap::new() }
    }

    /// Sets the glyph of `c`, replacing any earlier one.
    pub fn insert(&mut self, c: char, shapes: Vec<Shape>)
        ensures
            final(self).has_glyph(c),
            final(self).glyph(c) == shapes@,
            forall|d: char|
                d as u32 != c as u32 ==> (final(self).has_glyph(d) == old(self).has_glyph(d) && final(self).glyph(d)
                    == old(self).glyph(d)),
    {
        self.map.insert(c as u32, shapes);
    }

    /// The glyph of `c` scaled by `sc` and moved to `(x, y)`, with the
    /// advance to the next glyph: its right edge plus 2.
    pub fn convert(&self, x: isize, y: isize, sc: isize, c: char) -> (r: (isize, Vec<Shape>))
        requires
            self.has_glyph(c),
            forall|i: int|
                0 <= i < self.glyph(c).len() ==> shape_fits(
                    #[trigger] self.glyph(c)[i],
                    x as int,
                    y as int,
                    sc as int,
                ),
        ensures
            r.0 == glyph_right(self.glyph(c), self.glyph(c).len() as int) + 2,
            r.1@.len() == self.glyph(c).len(),
            forall|i: int|
                0 <= i < r.1@.len() ==> #[trigger] r.1@[i] == placed_shape(
                    self.glyph(c)[i],
                    x as int,
                    y as int,
                    sc as int,
                ),
    {
        let glyph = match self.map.get(&(c as u32)) {
            Some(g) => g,
            None => {
                return (2, Vec::new());
            },
        };
        let mut res: Vec<Shape> = Vec::new();
        let mut maxx: isize = 0;
        let mut i: usize = 0;
        while i < glyph.len()
            invariant
                glyph@ == self.glyph(c),
                0 <= i <= glyph@.len(),
                forall|k: int| 0 <= k < glyph@.len() ==> shape_fits(#[trigger] glyph@[k], x as int, y as int, sc as int),
                maxx == glyph_right(glyph@, i as int),
                res@.len() == i,
                forall|k: int|
                    0 <= k < i ==> #[trigger] res@[k] == placed_shape(glyph@[k], x as int, y as int, sc as int),
            decreases glyph@.len() - i,
        {
            let s = glyph[i];
            assert(shape_fits(glyph@[i as int], x as int, y as int, sc as int));
            let next = match s {
                Shape::Point(p) => {
                    if p.x > maxx {
                        maxx = p.x;
                    }
                    Shape::new_point(x + p.x * sc, y + p.y * sc)
                },
                Shape::Line(mn, mx) => {
                    if mx.x > maxx {
                        maxx = mx.x;
                    }
                    Shape::new_line(x + mn.x * sc, y + mn.y * sc, x + mx.x * sc, y + mx.y * sc)
                },
                Shape::Rectangle(min, mx, fil) => {
                    if mx.x > maxx {
                        maxx = mx.x;
                    }
                    Shape::new_rect(x + min.x * sc, y + min.y * sc, x + mx.x * sc, y + mx.y * sc, fil)
                },
            };
            res.push(next);
            i = i + 1;
        }
        proof {
            lemma_glyph_right_bounded(glyph@, glyph@.len() as int, x as int, y as int, sc as int);
        }
        (maxx + 2, res)
    }
}

/// How far the pen moves after `c`: the glyph's advance, one less after an
/// `f` or `F`, whose glyph leans into the next one.
pub open spec fn advance(f: Font, c: char) -> int {
    glyph_right(f.glyph(c), f.glyph(c).len() as int) + 2 - if c == 'f' || c == 'F' {
        1int
    } else {
        0int
    }
}

/// Pen position after the first `n` characters of `t`.
pub open spec fn text_shift(f: Font, t: Seq<char>, n: int) -> int
    decreases n,
{
    if n <= 0 {
        0
    } else {
        text_shift(f, t, n - 1) + advance(f, t[n - 1])
    }
}

/// The glyph of `c` placed at `(x, y)` with scale `sc`.
pub open spec fn placed_glyph(f: Font, c: char, x: int, y: int, sc: int) -> Seq<Shape> {
    f.glyph(c).map_values(|s: Shape| placed_shape(s, x, y, sc))
}

/// The shapes of the first `n` characters of `t`, laid out from `(x, y)`.
pub open spec fn text_shapes(f: Font, t: Seq<char>, n: int, x: int, y: int, sc: int) -> Seq<Shape>
    decreases n,
{
    if n <= 0 {
        seq![]
    } else {
        text_shapes(f, t, n - 1, x, y, sc) + placed_glyph(f, t[n - 1], x + text_shift(f, t, n - 1), y, sc)
    }
}

/// Every character of `t` has a glyph, and laying `t` out from `(x, y)`
/// keeps every coordinate and pen position inside `isize`.
pub open spec fn text_fits(f: Font, t: Seq<char>, x: int, y: int, sc: int) -> bool {
    &&& forall|k: int| 0 <= k < t.len() ==> f.has_glyph(#[trigger] t[k])
    &&& forall|k: int, i: int|
        0 <= k < t.len() && 0 <= i < f.glyph(t[k]).len() ==> shape_fits(
            #[trigger] f.glyph(t[k])[i],
            x + text_shift(f, t, k),
            y,
            sc,
        )
    &&& forall|k: int|
        0 <= k <= t.len() ==> isize::MIN <= #[trigger] text_shift(f, t, k) && text_shift(f, t, k) + 1
            <= isize::MAX && isize::MIN <= x + text_shift(f, t, k) <= isize::MAX
}

/// Lays `txt` out as shapes from `(x, y)`, glyph after glyph, and returns
/// the total advance with them.
pub fn convert(f: &Font, x: isize, y: isize, sc: isize, txt: &str) -> (r: (isize, Vec<Shape>))
    requires
        text_fits(*f, txt@, x as int, y as int, sc as int),
    ensures
        r.0 == text_shift(*f, txt@, txt@.len() as int),
        r.1@ == text_shapes(*f, txt@, txt@.len() as int, x as int, y as int, sc as int),
{
    let mut res: Vec<Shape> = Vec::new();
    let mut shift: isize = 0;
    let ghost t = txt@;
    for c in it: txt.chars()
        invariant
            it.seq() == t,
            text_fits(*f, t, x as int, y as int, sc as int),
            shift == text_shift(*f, t, it.index() as int),
            res@ == text_shapes(*f, t, it.index() as int, x as int, y as int, sc as int),
    {
        let ghost k = it.index() as int;
        assert(t[k] == c);
        assert(f.has_glyph(c));
        assert forall|i: int| 0 <= i < f.glyph(c).len() implies shape_fits(
            #[trigger] f.glyph(c)[i],
            x + shift,
            y as int,
            sc as int,
        ) by {
            assert(shape_fits(f.glyph(t[k])[i], x + text_shift(*f, t, k), y as int, sc as int));
        }
        assert(isize::MIN <= text_shift(*f, t, k + 1) && text_shift(*f, t, k + 1) + 1 <= isize::MAX);
        let (p, mut v) = f.convert(x + shift, y, sc, c);
        shift = shift + p;
        if c == 'f' || c == 'F' {
            shift = shift - 1;
        }
        proof {
            assert(v@ =~= placed_glyph(*f, c, x + text_shift(*f, t, k), y as int, sc as int));
        }
        res.append(&mut v);
    }
    (shift, res)
}

proof fn lemma_glyph_right_bounded(g: Seq<Shape>, n: int, x: int, y: int, sc: int)
    requires
        0 <= n <= g.len(),
        forall|k: int| 0 <= k < g.len() ==> shape_fits(#[trigger] g[k], x, y, sc),
    ensures
        0 <= glyph_right(g, n) <= isize::MAX - 2,
    decreases n,
{
    if n > 0 {
        assert(shape_fits(g[n - 1], x, y, sc));
        lemma_glyph_right_bounded(g, n - 1, x, y, sc);
    }
}

} // verus!
