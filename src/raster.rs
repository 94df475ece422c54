//! A width × height grid of colors addressed with wraparound on both axes.
use crate::geometry::{n_mod_m, wrap, lemma_wrap_is_mod, Point, COORD_LIMIT};
use vstd::arithmetic::div_mod::{lemma_fundamental_div_mod_converse, lemma_small_mod};
use vstd::prelude::*;

verus! {

/// The run of `n` cells that starts at `a`, wrapped modulo `m`, holds `c`.
pub open spec fn run_hits(a: int, n: int, m: int, c: int) -> bool {
    exists|k: int| 0 <= k < n && #[trigger] wrap(a + k, m) == c
}

/// The `sc × sc` block anchored at `(ax, ay)` covers the cell `(cx, cy)`
/// of a `w × h` grid.
pub open spec fn in_block(ax: int, ay: int, sc: int, w: int, h: int, cx: int, cy: int) -> bool {
    run_hits(ax, sc, w, cx) && run_hits(ay, sc, h, cy)
}

/// A value that the drawing operations accept as a coordinate.
pub open spec fn coord_ok(v: int) -> bool {
    -COORD_LIMIT <= v <= COORD_LIMIT
}

/// Extending a run by one cell adds exactly that cell.
pub proof fn lemma_run_extend(a: int, n: int, m: int, c: int)
    requires
        n >= 0,
    ensures
        run_hits(a, n + 1, m, c) == (run_hits(a, n, m, c) || wrap(a + n, m) == c),
{
    if wrap(a + n, m) == c {
        assert(0 <= n < n + 1 && wrap(a + n, m) == c);
    }
    if run_hits(a, n, m, c) {
        let k = choose|k: int| 0 <= k < n && #[trigger] wrap(a + k, m) == c;
        assert(0 <= k < n + 1 && wrap(a + k, m) == c);
    }
}

/// Row-major indices of distinct in-range cells are distinct and in range.
pub proof fn lemma_index_unique(w: int, h: int, x1: int, y1: int, x2: int, y2: int)
    requires
        0 <= x1 < w,
        0 <= y1 < h,
        0 <= x2 < w,
        0 <= y2 < h,
    ensures
        0 <= y1 * w + x1 < w * h,
        (y1 * w + x1 == y2 * w + x2) == (x1 == x2 && y1 == y2),
{
    assert(0 <= y1 * w + x1 < w * h) by (nonlinear_arith)
        requires
            0 <= x1 < w,
            0 <= y1 < h,
    ;
    if y1 < y2 {
        assert(y1 * w + x1 < y2 * w + x2) by (nonlinear_arith)
            requires
                0 <= x1 < w,
                0 <= x2,
                y1 < y2,
        ;
    } else if y2 < y1 {
        assert(y2 * w + x2 < y1 * w + x1) by (nonlinear_arith)
            requires
                0 <= x2 < w,
                0 <= x1,
                y2 < y1,
        ;
    }
}

/// Wrapping leaves an in-range value alone.
pub proof fn lemma_wrap_small(v: int, m: int)
    requires
        0 <= v < m,
    ensures
        wrap(v, m) == v,
{
    lemma_wrap_is_mod(v, m);
    lemma_small_mod(v as nat, m as nat);
}

/// Offset along the minor axis after `k` steps along the driving axis of a
/// line that spans `major` cells on the driving axis and `minor` on the
/// other: `k · minor / major` rounded to the nearest integer, halves down.
pub open spec fn bres_offset(k: int, minor: int, major: int) -> int {
    if major <= 0 {
        0
    } else {
        (2 * k * minor + major - 1) / (2 * major)
    }
}

/// Direction of travel along an axis: `-1` for a negative difference, else `1`.
pub open spec fn sign_of(d: int) -> int {
    if d < 0 {
        -1
    } else {
        1
    }
}

/// Absolute value.
pub open spec fn abs(d: int) -> int {
    if d < 0 {
        -d
    } else {
        d
    }
}

/// x of the `k`-th anchor of the line from `a` to `b`; the driving axis is
/// y when `steep`, else x.
pub open spec fn anchor_x(a: Point, b: Point, steep: bool, k: int) -> int {
    if steep {
        a.x + sign_of(b.x - a.x) * bres_offset(k, abs(b.x - a.x), b.y - a.y)
    } else {
        a.x + k
    }
}

/// y of the `k`-th anchor of the line from `a` to `b`.
pub open spec fn anchor_y(a: Point, b: Point, steep: bool, k: int) -> int {
    if steep {
        a.y + k
    } else {
        a.y + sign_of(b.y - a.y) * bres_offset(k, abs(b.y - a.y), b.x - a.x)
    }
}

/// The block drawn at the `k`-th anchor covers `(cx, cy)`.
pub open spec fn anchor_hits(
    a: Point,
    b: Point,
    steep: bool,
    k: int,
    sc: int,
    w: int,
    h: int,
    cx: int,
    cy: int,
) -> bool {
    in_block(anchor_x(a, b, steep, k), anchor_y(a, b, steep, k), sc, w, h, cx, cy)
}

/// One of the first `n` anchors' blocks covers `(cx, cy)`.
pub open spec fn anchors_hit(
    a: Point,
    b: Point,
    steep: bool,
    n: int,
    sc: int,
    w: int,
    h: int,
    cx: int,
    cy: int,
) -> bool {
    exists|k: int| 0 <= k < n && #[trigger] anchor_hits(a, b, steep, k, sc, w, h, cx, cy)
}

/// The cells that `draw_line(st, ls, sc, _)` paints on a `w × h` grid. A
/// line with `|Δy| < |Δx|` is driven by x from its left end, any other by
/// y from its top end; one anchor per step of the driving axis, each painted
/// as an `sc × sc` block.
pub open spec fn line_covers(st: Point, ls: Point, sc: int, w: int, h: int, cx: int, cy: int) -> bool {
    if abs(ls.y - st.y) < abs(ls.x - st.x) {
        if st.x > ls.x {
            anchors_hit(ls, st, false, st.x - ls.x + 1, sc, w, h, cx, cy)
        } else {
            anchors_hit(st, ls, false, ls.x - st.x + 1, sc, w, h, cx, cy)
        }
    } else {
        if st.y > ls.y {
            anchors_hit(ls, st, true, st.y - ls.y + 1, sc, w, h, cx, cy)
        } else {
            anchors_hit(st, ls, true, ls.y - st.y + 1, sc, w, h, cx, cy)
        }
    }
}

/// The cells of the outline that `draw_rect(min, max, false, sc, _)`
/// paints: the four sides, each drawn as a line between two corners.
pub open spec fn rect_covers(min: Point, max: Point, sc: int, w: int, h: int, cx: int, cy: int) -> bool {
    let c1 = Point { x: min.x, y: max.y };
    let c2 = Point { x: max.x, y: min.y };
    line_covers(min, c1, sc, w, h, cx, cy) || line_covers(min, c2, sc, w, h, cx, cy) || line_covers(
        c1,
        max,
        sc,
        w,
        h,
        cx,
        cy,
    ) || line_covers(c2, max, sc, w, h, cx, cy)
}

/// Both endpoints and the scale are in the accepted range.
pub open spec fn line_ok(st: Point, ls: Point, sc: int) -> bool {
    coord_ok(st.x as int) && coord_ok(st.y as int) && coord_ok(ls.x as int) && coord_ok(ls.y as int)
        && sc <= COORD_LIMIT
}

proof fn lemma_anchors_extend(
    a: Point,
    b: Point,
    steep: bool,
    n: int,
    sc: int,
    w: int,
    h: int,
    cx: int,
    cy: int,
)
    requires
        n >= 0,
    ensures
        anchors_hit(a, b, steep, n + 1, sc, w, h, cx, cy) == (anchors_hit(a, b, steep, n, sc, w, h, cx, cy)
            || anchor_hits(a, b, steep, n, sc, w, h, cx, cy)),
{
    if anchors_hit(a, b, steep, n + 1, sc, w, h, cx, cy) {
        let k = choose|k: int| 0 <= k < n + 1 && #[trigger] anchor_hits(a, b, steep, k, sc, w, h, cx, cy);
        if k < n {
            assert(0 <= k < n && anchor_hits(a, b, steep, k, sc, w, h, cx, cy));
        }
    }
    if anchors_hit(a, b, steep, n, sc, w, h, cx, cy) {
        let k = choose|k: int| 0 <= k < n && #[trigger] anchor_hits(a, b, steep, k, sc, w, h, cx, cy);
        assert(0 <= k < n + 1 && anchor_hits(a, b, steep, k, sc, w, h, cx, cy));
    }
}

/// The error bounds that the drawing loops keep pin the rounded offset.
proof fn lemma_offset_exact(k: int, minor: int, major: int, m: int)
    requires
        major > 0,
        2 * major * m <= 2 * k * minor + major - 1 < 2 * major * m + 2 * major,
    ensures
        bres_offset(k, minor, major) == m,
{
    let r = 2 * k * minor + major - 1 - 2 * major * m;
    assert(2 * major * m == m * (2 * major)) by (nonlinear_arith);
    lemma_fundamental_div_mod_converse(2 * k * minor + major - 1, 2 * major, m, r);
}

/// Within the line the offset never passes the minor extent.
proof fn lemma_offset_bounded(k: int, minor: int, major: int, m: int)
    requires
        major > 0,
        0 <= k <= major,
        0 <= minor,
        2 * major * m <= 2 * k * minor + major - 1,
    ensures
        m <= minor,
{
    assert(2 * k * minor <= 2 * major * minor) by (nonlinear_arith)
        requires
            0 <= k <= major,
            0 <= minor,
    ;
    assert(m <= minor) by (nonlinear_arith)
        requires
            major > 0,
            2 * major * m <= 2 * major * minor + major - 1,
    ;
}

/// A run of one cell covers exactly the cell its start wraps onto.
pub proof fn lemma_run_single(a: int, m: int, c: int)
    ensures
        run_hits(a, 1, m, c) == (wrap(a, m) == c),
{
    assert(a + 0 == a);
    if wrap(a, m) == c {
        assert(0 <= 0 < 1 && wrap(a + 0, m) == c);
    }
}

/// Anchors of a line with no extent on its minor axis, drawn at scale 1,
/// cover one straight run.
proof fn lemma_flat_anchors(a: Point, b: Point, steep: bool, n: int, w: int, h: int, cx: int, cy: int)
    requires
        n >= 1,
        steep ==> a.x == b.x && n == b.y - a.y + 1,
        !steep ==> a.y == b.y && n == b.x - a.x + 1,
    ensures
        anchors_hit(a, b, steep, n, 1, w, h, cx, cy) == if steep {
            cx == wrap(a.x as int, w) && run_hits(a.y as int, n, h, cy)
        } else {
            cy == wrap(a.y as int, h) && run_hits(a.x as int, n, w, cx)
        },
{
    let major = n - 1;
    assert forall|k: int| 0 <= k < n implies anchor_x(a, b, steep, k) == if steep {
        a.x as int
    } else {
        a.x + k
    } && anchor_y(a, b, steep, k) == if steep {
        a.y + k
    } else {
        a.y as int
    } by {
        if major > 0 {
            assert(2 * k * 0 == 0) by (nonlinear_arith);
            lemma_offset_exact(k, 0, major, 0);
        }
    }
    assert forall|k: int| 0 <= k < n implies #[trigger] anchor_hits(a, b, steep, k, 1, w, h, cx, cy) == (
    wrap(anchor_x(a, b, steep, k), w) == cx && wrap(anchor_y(a, b, steep, k), h) == cy) by {
        lemma_run_single(anchor_x(a, b, steep, k), w, cx);
        lemma_run_single(anchor_y(a, b, steep, k), h, cy);
    }
    if anchors_hit(a, b, steep, n, 1, w, h, cx, cy) {
        let k = choose|k: int| 0 <= k < n && #[trigger] anchor_hits(a, b, steep, k, 1, w, h, cx, cy);
        assert(wrap(a.x + 0, w) == wrap(a.x as int, w));
        assert(wrap(a.y + 0, h) == wrap(a.y as int, h));
        if steep {
            assert(wrap(a.y + k, h) == cy);
        } else {
            assert(wrap(a.x + k, w) == cx);
        }
    }
    if steep {
        if cx == wrap(a.x as int, w) && run_hits(a.y as int, n, h, cy) {
            let k = choose|k: int| 0 <= k < n && #[trigger] wrap(a.y + k, h) == cy;
            assert(anchor_hits(a, b, steep, k, 1, w, h, cx, cy));
        }
    } else {
        if cy == wrap(a.y as int, h) && run_hits(a.x as int, n, w, cx) {
            let k = choose|k: int| 0 <= k < n && #[trigger] wrap(a.x + k, w) == cx;
            assert(anchor_hits(a, b, steep, k, 1, w, h, cx, cy));
        }
    }
}

/// A line paints the same cells whichever endpoint is given first.
pub proof fn lemma_line_symmetric(a: Point, b: Point, sc: int, w: int, h: int, cx: int, cy: int)
    ensures
        line_covers(a, b, sc, w, h, cx, cy) == line_covers(b, a, sc, w, h, cx, cy),
{
    if abs(b.y - a.y) >= abs(b.x - a.x) && a.y == b.y {
        assert(a == b);
    }
}

/// At scale 1 a line with equal y paints exactly the run of x from the
/// smaller to the larger end, wrapped, on the row that y wraps onto.
pub proof fn lemma_horizontal_line(a: Point, b: Point, w: int, h: int, cx: int, cy: int)
    requires
        a.y == b.y,
    ensures
        line_covers(a, b, 1, w, h, cx, cy) == (cy == wrap(a.y as int, h) && run_hits(
            if a.x <= b.x {
                a.x as int
            } else {
                b.x as int
            },
            abs(b.x - a.x) + 1,
            w,
            cx,
        )),
{
    if a.x < b.x {
        lemma_flat_anchors(a, b, false, b.x - a.x + 1, w, h, cx, cy);
    } else if a.x > b.x {
        lemma_flat_anchors(b, a, false, a.x - b.x + 1, w, h, cx, cy);
    } else {
        assert(a == b);
        lemma_flat_anchors(a, b, true, 1, w, h, cx, cy);
        lemma_run_single(a.x as int, w, cx);
        lemma_run_single(a.y as int, h, cy);
    }
}

/// At scale 1 a line with equal x paints exactly the run of y from the
/// smaller to the larger end, wrapped, on the column that x wraps onto.
pub proof fn lemma_vertical_line(a: Point, b: Point, w: int, h: int, cx: int, cy: int)
    requires
        a.x == b.x,
    ensures
        line_covers(a, b, 1, w, h, cx, cy) == (cx == wrap(a.x as int, w) && run_hits(
            if a.y <= b.y {
                a.y as int
            } else {
                b.y as int
            },
            abs(b.y - a.y) + 1,
            h,
            cy,
        )),
{
    if a.y <= b.y {
        lemma_flat_anchors(a, b, true, b.y - a.y + 1, w, h, cx, cy);
    } else {
        lemma_flat_anchors(b, a, true, a.y - b.y + 1, w, h, cx, cy);
    }
}

/// A grid of colors, stored row-major, with toroidal addressing.
#[derive(Clone, Debug)]
pub struct DrawBuffer {
    buf: Vec<u32>,
    bounds: Point,
}

impl DrawBuffer {
    /// Number of columns.
    pub closed spec fn width(&self) -> int {
        self.bounds.x as int
    }

    /// Number of rows.
    pub closed spec fn height(&self) -> int {
        self.bounds.y as int
    }

    /// The colors, row by row.
    pub closed spec fn pixels(&self) -> Seq<u32> {
        self.buf@
    }

    /// Positive dimensions and one color per cell.
    pub open spec fn wf(&self) -> bool {
        &&& 0 < self.width() <= isize::MAX
        &&& 0 < self.height() <= isize::MAX
        &&& self.pixels().len() == self.width() * self.height()
        &&& self.pixels().len() <= usize::MAX
    }

    /// Row-major index of the in-range cell `(x, y)`.
    pub open spec fn index(&self, x: int, y: int) -> int {
        y * self.width() + x
    }

    /// Color of the in-range cell `(x, y)`.
    pub open spec fn at(&self, x: int, y: int) -> u32 {
        self.pixels()[self.index(x, y)]
    }

    /// Color of the cell that `(x, y)` wraps onto.
    pub open spec fn cell(&self, x: int, y: int) -> u32 {
        self.at(wrap(x, self.width()), wrap(y, self.height()))
    }

    /// `(x, y)` lies on the grid.
    pub open spec fn on_grid(&self, x: int, y: int) -> bool {
        0 <= x < self.width() && 0 <= y < self.height()
    }

    /// Both buffers have the same dimensions.
    pub open spec fn same_shape(&self, other: &DrawBuffer) -> bool {
        self.width() == other.width() && self.height() == other.height()
    }

    /// A `x × y` grid with every cell set to `col`.
    pub fn new(x: isize, y: isize, col: u32) -> (r: DrawBuffer)
        requires
            x > 0,
            y > 0,
            x * y <= usize::MAX,
        ensures
            r.wf(),
            r.width() == x,
            r.height() == y,
            forall|i: int| 0 <= i < r.pixels().len() ==> r.pixels()[i] == col,
    {
        let n: usize = (x as usize) * (y as usize);
        DrawBuffer { buf: vec![col; n], bounds: Point::new(x, y) }
    }

    /// Index of the cell that `(x, y)` wraps onto.
    fn offset(&self, x: isize, y: isize) -> (r: usize)
        requires
            self.wf(),
        ensures
            r == self.index(wrap(x as int, self.width()), wrap(y as int, self.height())),
            r < self.pixels().len(),
            self.on_grid(wrap(x as int, self.width()), wrap(y as int, self.height())),
    {
        let nx = self.normalized_x(x);
        let ny = self.normalized_y(y);
        proof {
            lemma_index_unique(self.width(), self.height(), nx as int, ny as int, nx as int, ny as int);
            assert((ny as usize) * (self.bounds.x as usize) == ny * self.width());
        }
        (ny as usize) * (self.bounds.x as usize) + (nx as usize)
    }

    /// Color of the cell that `(x, y)` wraps onto.
    pub fn get(&self, x: isize, y: isize) -> (r: u32)
        requires
            self.wf(),
        ensures
            r == self.cell(x as int, y as int),
    {
        let i = self.offset(x, y);
        self.buf[i]
    }

    /// Paints the cell that `(x, y)` wraps onto.
    pub fn set(&mut self, x: isize, y: isize, col: u32)
        requires
            old(self).wf(),
        ensures
            final(self).wf(),
            final(self).same_shape(old(self)),
            final(self).pixels() == old(self).pixels().update(
                old(self).index(wrap(x as int, old(self).width()), wrap(y as int, old(self).height())),
                col,
            ),
            forall|cx: int, cy: int|
                #![trigger final(self).at(cx, cy)]
                old(self).on_grid(cx, cy) ==> final(self).at(cx, cy) == if cx == wrap(
                    x as int,
                    old(self).width(),
                ) && cy == wrap(y as int, old(self).height()) {
                    col
                } else {
                    old(self).at(cx, cy)
                },
    {
        let i = self.offset(x, y);
        self.buf.set(i, col);
        proof {
            let w = old(self).width();
            let h = old(self).height();
            assert forall|cx: int, cy: int| #![trigger self.at(cx, cy)] old(self).on_grid(cx, cy) implies self.at(cx, cy) == if cx == wrap(x as int, w) && cy == wrap(y as int, h) {
                col
            } else {
                old(self).at(cx, cy)
            } by {
                lemma_index_unique(w, h, cx, cy, wrap(x as int, w), wrap(y as int, h));
            }
        }
    }

    /// Paints the `sc × sc` block whose top-left cell is `(x, y)`; nothing
    /// when `sc <= 0`.
    pub fn set_with_sc(&mut self, x: isize, y: isize, sc: isize, col: u32)
        requires
            old(self).wf(),
            coord_ok(x as int),
            coord_ok(y as int),
            sc <= COORD_LIMIT,
        ensures
            final(self).wf(),
            final(self).same_shape(old(self)),
            forall|cx: int, cy: int|
                #![trigger final(self).at(cx, cy)]
                old(self).on_grid(cx, cy) ==> final(self).at(cx, cy) == if in_block(
                    x as int,
                    y as int,
                    sc as int,
                    old(self).width(),
                    old(self).height(),
                    cx,
                    cy,
                ) {
                    col
                } else {
                    old(self).at(cx, cy)
                },
    {
        let ghost start = *self;
        let ghost w = start.width();
        let ghost h = start.height();
        let mut i: isize = 0;
        while i < sc
            invariant
                self.wf(),
                self.same_shape(&start),
                start.wf(),
                w == start.width(),
                h == start.height(),
                0 <= i,
                i <= sc || sc <= 0,
                coord_ok(x as int),
                coord_ok(y as int),
                sc <= COORD_LIMIT,
                forall|cx: int, cy: int|
                    #![trigger self.at(cx, cy)]
                    start.on_grid(cx, cy) ==> self.at(cx, cy) == if run_hits(x as int, i as int, w, cx)
                        && run_hits(y as int, sc as int, h, cy) {
                        col
                    } else {
                        start.at(cx, cy)
                    },
            decreases sc - i,
        {
            let mut j: isize = 0;
            while j < sc
                invariant
                    self.wf(),
                    self.same_shape(&start),
                    start.wf(),
                    w == start.width(),
                    h == start.height(),
                    0 <= i < sc,
                    0 <= j <= sc,
                    coord_ok(x as int),
                    coord_ok(y as int),
                    sc <= COORD_LIMIT,
                    forall|cx: int, cy: int|
                        #![trigger self.at(cx, cy)]
                        start.on_grid(cx, cy) ==> self.at(cx, cy) == if (run_hits(x as int, i as int, w, cx)
                            && run_hits(y as int, sc as int, h, cy)) || (wrap(x + i, w) == cx
                            && run_hits(y as int, j as int, h, cy)) {
                            col
                        } else {
                            start.at(cx, cy)
                        },
                decreases sc - j,
            {
                let ghost prev = *self;
                self.set(x + i, y + j, col);
                proof {
                    assert forall|cx: int, cy: int| #![trigger self.at(cx, cy)] start.on_grid(cx, cy) implies self.at(cx, cy) == if (run_hits(x as int, i as int, w, cx)
                        && run_hits(y as int, sc as int, h, cy)) || (wrap(x + i, w) == cx
                        && run_hits(y as int, j + 1, h, cy)) {
                        col
                    } else {
                        start.at(cx, cy)
                    } by {
                        lemma_run_extend(y as int, j as int, h, cy);
                        assert(prev.on_grid(cx, cy));
                                assert(self.pixels() == prev.pixels().update(prev.index(wrap(x + i, w), wrap(y + j, h)), col));
                        assert(self.at(cx, cy) == if cx == wrap(x + i, w) && cy == wrap(y + j, h) {
                            col
                        } else {
                            prev.at(cx, cy)
                        });
                        assert(prev.at(cx, cy) == if (run_hits(x as int, i as int, w, cx)
                            && run_hits(y as int, sc as int, h, cy)) || (wrap(x + i, w) == cx
                            && run_hits(y as int, j as int, h, cy)) {
                            col
                        } else {
                            start.at(cx, cy)
                        });
                    }
                }
                j = j + 1;
            }
            proof {
                assert forall|cx: int| #![auto] run_hits(x as int, i + 1, w, cx) == (run_hits(x as int, i as int, w, cx) || wrap(x + i, w) == cx) by {
                    lemma_run_extend(x as int, i as int, w, cx);
                }
            }
            i = i + 1;
        }
        proof {
            if sc <= 0 {
                assert forall|cx: int| !run_hits(x as int, sc as int, w, cx) by {}
            }
        }
    }

    /// Paints the `sc × sc` block anchored at `st`.
    pub fn draw_point(&mut self, st: Point, sc: isize, col: u32)
        requires
            old(self).wf(),
            coord_ok(st.x as int),
            coord_ok(st.y as int),
            sc <= COORD_LIMIT,
        ensures
            final(self).wf(),
            final(self).same_shape(old(self)),
            forall|cx: int, cy: int|
                #![trigger final(self).at(cx, cy)]
                old(self).on_grid(cx, cy) ==> final(self).at(cx, cy) == if in_block(
                    st.x as int,
                    st.y as int,
                    sc as int,
                    old(self).width(),
                    old(self).height(),
                    cx,
                    cy,
                ) {
                    col
                } else {
                    old(self).at(cx, cy)
                },
    {
        self.set_with_sc(st.x, st.y, sc, col);
    }

    /// Draws the line from `st` to `ls` driven by x, left to right.
    fn pos_slope(&mut self, st: Point, ls: Point, sc: isize, col: u32)
        requires
            old(self).wf(),
            line_ok(st, ls, sc as int),
            st.x <= ls.x,
            abs(ls.y - st.y) <= ls.x - st.x,
        ensures
            final(self).wf(),
            final(self).same_shape(old(self)),
            forall|cx: int, cy: int|
                #![trigger final(self).at(cx, cy)]
                old(self).on_grid(cx, cy) ==> final(self).at(cx, cy) == if anchors_hit(
                    st,
                    ls,
                    false,
                    ls.x - st.x + 1,
                    sc as int,
                    old(self).width(),
                    old(self).height(),
                    cx,
                    cy,
                ) {
                    col
                } else {
                    old(self).at(cx, cy)
                },
    {
        let ghost start = *self;
        let ghost w = start.width();
        let ghost h = start.height();
        let dx = ls.x - st.x;
        let mut dy = ls.y - st.y;
        let mut y = st.y;
        let mut yi: isize = 1;
        if dy < 0 {
            dy = -dy;
            yi = -1;
        }
        let mut slope = 2 * dy - dx;
        let mut x = st.x;
        let ghost mut m: int = 0;
        let ghost mut kd: int = 0;
        let ghost mut md: int = 0;
        proof {
            assert(2 * (x - st.x) * dy == 0) by (nonlinear_arith)
                requires
                    x == st.x,
            ;
            if dx > 0 {
                lemma_offset_exact(0, dy as int, dx as int, 0);
            }
        }
        while x <= ls.x
            invariant
                self.wf(),
                self.same_shape(&start),
                start.wf(),
                w == start.width(),
                h == start.height(),
                line_ok(st, ls, sc as int),
                dx == ls.x - st.x,
                dy == abs(ls.y - st.y),
                yi == sign_of(ls.y - st.y),
                0 <= dy <= dx,
                st.x <= x <= ls.x + 1,
                y == st.y + yi * m,
                0 <= m,
                x <= ls.x ==> m <= dy,
                m == bres_offset(x - st.x, dy as int, dx as int),
                kd == 2 * (x - st.x) * dy,
                md == 2 * dx * m,
                dx > 0 ==> md <= kd + dx - 1 < md + 2 * dx,
                dx == 0 ==> m == 0 && slope == 0,
                dx > 0 ==> slope == 2 * dy - dx + kd - md,
                forall|cx: int, cy: int|
                    #![trigger self.at(cx, cy)]
                    start.on_grid(cx, cy) ==> self.at(cx, cy) == if anchors_hit(
                        st,
                        ls,
                        false,
                        x - st.x,
                        sc as int,
                        w,
                        h,
                        cx,
                        cy,
                    ) {
                        col
                    } else {
                        start.at(cx, cy)
                    },
            decreases ls.x + 1 - x,
        {
            assert(yi == 1 || yi == -1);
            assert(coord_ok(y as int));
            let ghost prev = *self;
            self.set_with_sc(x, y, sc, col);
            proof {
                let k = x - st.x;
                assert(anchor_x(st, ls, false, k) == x);
                assert(anchor_y(st, ls, false, k) == y);
                assert forall|cx: int, cy: int| #![trigger self.at(cx, cy)] start.on_grid(cx, cy) implies self.at(cx, cy) == if anchors_hit(st, ls, false, k + 1, sc as int, w, h, cx, cy) {
                    col
                } else {
                    start.at(cx, cy)
                } by {
                    lemma_anchors_extend(st, ls, false, k, sc as int, w, h, cx, cy);
                    assert(prev.on_grid(cx, cy));
                }
            }
            let ghost k0 = x - st.x;
            let ghost m0 = m;
            if slope > 0 {
                y = y + yi;
                slope = slope - 2 * dx;
                proof {
                    m = m + 1;
                }
            }
            slope = slope + 2 * dy;
            x = x + 1;
            proof {
                assert(2 * (k0 + 1) * dy == 2 * k0 * dy + 2 * dy) by (nonlinear_arith);
                assert(2 * dx * (m0 + 1) == 2 * dx * m0 + 2 * dx) by (nonlinear_arith);
                kd = kd + 2 * dy;
                md = 2 * dx * m;
                if dx > 0 {
                    lemma_offset_exact(k0 + 1, dy as int, dx as int, m);
                    if x <= ls.x {
                        lemma_offset_bounded(k0 + 1, dy as int, dx as int, m);
                    }
                }
            }
        }
    }

    /// Draws the line from `st` to `ls` driven by y, top to bottom.
    fn neg_slope(&mut self, st: Point, ls: Point, sc: isize, col: u32)
        requires
            old(self).wf(),
            line_ok(st, ls, sc as int),
            st.y <= ls.y,
            abs(ls.x - st.x) <= ls.y - st.y,
        ensures
            final(self).wf(),
            final(self).same_shape(old(self)),
            forall|cx: int, cy: int|
                #![trigger final(self).at(cx, cy)]
                old(self).on_grid(cx, cy) ==> final(self).at(cx, cy) == if anchors_hit(
                    st,
                    ls,
                    true,
                    ls.y - st.y + 1,
                    sc as int,
                    old(self).width(),
                    old(self).height(),
                    cx,
                    cy,
                ) {
                    col
                } else {
                    old(self).at(cx, cy)
                },
    {
        let ghost start = *self;
        let ghost w = start.width();
        let ghost h = start.height();
        let dy = ls.y - st.y;
        let mut dx = ls.x - st.x;
        let mut x = st.x;
        let mut xi: isize = 1;
        if dx < 0 {
            dx = -dx;
            xi = -1;
        }
        let mut slope = 2 * dx - dy;
        let mut y = st.y;
        let ghost mut m: int = 0;
        let ghost mut kd: int = 0;
        let ghost mut md: int = 0;
        proof {
            assert(2 * (y - st.y) * dx == 0) by (nonlinear_arith)
                requires
                    y == st.y,
            ;
            if dy > 0 {
                lemma_offset_exact(0, dx as int, dy as int, 0);
            }
        }
        while y <= ls.y
            invariant
                self.wf(),
                self.same_shape(&start),
                start.wf(),
                w == start.width(),
                h == start.height(),
                line_ok(st, ls, sc as int),
                dy == ls.y - st.y,
                dx == abs(ls.x - st.x),
                xi == sign_of(ls.x - st.x),
                0 <= dx <= dy,
                st.y <= y <= ls.y + 1,
                x == st.x + xi * m,
                0 <= m,
                y <= ls.y ==> m <= dx,
                m == bres_offset(y - st.y, dx as int, dy as int),
                kd == 2 * (y - st.y) * dx,
                md == 2 * dy * m,
                dy > 0 ==> md <= kd + dy - 1 < md + 2 * dy,
                dy == 0 ==> m == 0 && slope == 0,
                dy > 0 ==> slope == 2 * dx - dy + kd - md,
                forall|cx: int, cy: int|
                    #![trigger self.at(cx, cy)]
                    start.on_grid(cx, cy) ==> self.at(cx, cy) == if anchors_hit(
                        st,
                        ls,
                        true,
                        y - st.y,
                        sc as int,
                        w,
                        h,
                        cx,
                        cy,
                    ) {
                        col
                    } else {
                        start.at(cx, cy)
                    },
            decreases ls.y + 1 - y,
        {
            assert(xi == 1 || xi == -1);
            assert(coord_ok(x as int));
            let ghost prev = *self;
            self.set_with_sc(x, y, sc, col);
            proof {
                let k = y - st.y;
                assert(anchor_x(st, ls, true, k) == x);
                assert(anchor_y(st, ls, true, k) == y);
                assert forall|cx: int, cy: int| #![trigger self.at(cx, cy)] start.on_grid(cx, cy) implies self.at(cx, cy) == if anchors_hit(st, ls, true, k + 1, sc as int, w, h, cx, cy) {
                    col
                } else {
                    start.at(cx, cy)
                } by {
                    lemma_anchors_extend(st, ls, true, k, sc as int, w, h, cx, cy);
                    assert(prev.on_grid(cx, cy));
                }
            }
            let ghost k0 = y - st.y;
            let ghost m0 = m;
            if slope > 0 {
                x = x + xi;
                slope = slope - 2 * dy;
                proof {
                    m = m + 1;
                }
            }
            slope = slope + 2 * dx;
            y = y + 1;
            proof {
                assert(2 * (k0 + 1) * dx == 2 * k0 * dx + 2 * dx) by (nonlinear_arith);
                assert(2 * dy * (m0 + 1) == 2 * dy * m0 + 2 * dy) by (nonlinear_arith);
                kd = kd + 2 * dx;
                md = 2 * dy * m;
                if dy > 0 {
                    lemma_offset_exact(k0 + 1, dx as int, dy as int, m);
                    if y <= ls.y {
                        lemma_offset_bounded(k0 + 1, dx as int, dy as int, m);
                    }
                }
            }
        }
    }

    /// Draws the line from `st` to `ls` as `sc × sc` blocks. The cells
    /// painted do not depend on which endpoint comes first.
    pub fn draw_line(&mut self, st: Point, ls: Point, sc: isize, col: u32)
        requires
            old(self).wf(),
            line_ok(st, ls, sc as int),
        ensures
            final(self).wf(),
            final(self).same_shape(old(self)),
            forall|cx: int, cy: int|
                #![trigger final(self).at(cx, cy)]
                old(self).on_grid(cx, cy) ==> final(self).at(cx, cy) == if line_covers(
                    st,
                    ls,
                    sc as int,
                    old(self).width(),
                    old(self).height(),
                    cx,
                    cy,
                ) {
                    col
                } else {
                    old(self).at(cx, cy)
                },
    {
        let ddx = ls.x - st.x;
        let ddy = ls.y - st.y;
        let adx = if ddx < 0 {
            -ddx
        } else {
            ddx
        };
        let ady = if ddy < 0 {
            -ddy
        } else {
            ddy
        };
        if ady < adx {
            if st.x > ls.x {
                self.pos_slope(ls, st, sc, col);
            } else {
                self.pos_slope(st, ls, sc, col);
            }
        } else {
            if st.y > ls.y {
                self.neg_slope(ls, st, sc, col);
            } else {
                self.neg_slope(st, ls, sc, col);
            }
        }
    }

    /// Draws the outline of the rectangle with corners `min` and `max`.
    /// Filled rectangles are not supported.
    pub fn draw_rect(&mut self, min: Point, max: Point, fil: bool, sc: isize, col: u32)
        requires
            old(self).wf(),
            line_ok(min, max, sc as int),
            !fil,
        ensures
            final(self).wf(),
            final(self).same_shape(old(self)),
            forall|cx: int, cy: int|
                #![trigger final(self).at(cx, cy)]
                old(self).on_grid(cx, cy) ==> final(self).at(cx, cy) == if rect_covers(
                    min,
                    max,
                    sc as int,
                    old(self).width(),
                    old(self).height(),
                    cx,
                    cy,
                ) {
                    col
                } else {
                    old(self).at(cx, cy)
                },
    {
        let c1 = Point { x: min.x, y: max.y };
        let c2 = Point { x: max.x, y: min.y };
        self.draw_line(min, c1, sc, col);
        self.draw_line(min, c2, sc, col);
        self.draw_line(c1, max, sc, col);
        self.draw_line(c2, max, sc, col);
    }

    /// Some cell holds `col`.
    pub open spec fn has_color(&self, col: u32) -> bool {
        exists|cx: int, cy: int| self.on_grid(cx, cy) && #[trigger] self.at(cx, cy) == col
    }

    /// The first cell in row-major order that holds `col`, if any.
    pub fn find_color(&self, col: u32) -> (r: Option<Point>)
        requires
            self.wf(),
        ensures
            r is Some ==> self.on_grid(r->0.x as int, r->0.y as int) && self.at(
                r->0.x as int,
                r->0.y as int,
            ) == col,
            r is Some ==> forall|cx: int, cy: int|
                #![trigger self.at(cx, cy)]
                self.on_grid(cx, cy) && (cy < r->0.y || (cy == r->0.y && cx < r->0.x)) ==> self.at(cx, cy)
                    != col,
            r is None ==> !self.has_color(col),
    {
        let mut y: isize = 0;
        while y < self.bounds.y
            invariant
                self.wf(),
                0 <= y <= self.height(),
                forall|cx: int, cy: int| #![trigger self.at(cx, cy)] self.on_grid(cx, cy) && cy < y ==> self.at(cx, cy) != col,
            decreases self.height() - y,
        {
            let mut x: isize = 0;
            while x < self.bounds.x
                invariant
                    self.wf(),
                    0 <= y < self.height(),
                    0 <= x <= self.width(),
                    forall|cx: int, cy: int|
                        #![trigger self.at(cx, cy)]
                        self.on_grid(cx, cy) && (cy < y || (cy == y && cx < x)) ==> self.at(cx, cy) != col,
                decreases self.width() - x,
            {
                proof {
                    lemma_wrap_small(x as int, self.width());
                    lemma_wrap_small(y as int, self.height());
                }
                if self.get(x, y) == col {
                    return Some(Point::new(x, y));
                }
                x = x + 1;
            }
            y = y + 1;
        }
        None
    }

    /// The colors, row by row.
    pub fn as_vec_u32(&self) -> (r: &Vec<u32>)
        ensures
            r@ == self.pixels(),
    {
        &self.buf
    }

    /// Wraps both coordinates of `p` onto the grid.
    pub fn normalize(&mut self, p: &mut Point)
        requires
            old(self).wf(),
        ensures
            *final(self) == *old(self),
            final(p).x == wrap(old(p).x as int, old(self).width()),
            final(p).y == wrap(old(p).y as int, old(self).height()),
            final(self).on_grid(final(p).x as int, final(p).y as int),
    {
        p.x = self.normalized_x(p.x);
        p.y = self.normalized_y(p.y);
    }

    fn normalized_x(&self, x: isize) -> (r: isize)
        requires
            self.wf(),
        ensures
            r == wrap(x as int, self.width()),
            0 <= r < self.width(),
    {
        n_mod_m(x, self.bounds.x)
    }

    fn normalized_y(&self, y: isize) -> (r: isize)
        requires
            self.wf(),
        ensures
            r == wrap(y as int, self.height()),
            0 <= r < self.height(),
    {
        n_mod_m(y, self.bounds.y)
    }
}

} // verus!
