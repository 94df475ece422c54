//! The snake engine: owns the board and the segments and advances them one
//! tick at a time.
use crate::color;
use crate::geometry::{lemma_wrap_is_mod, opposite_of, step_x, step_y, wrap, Direction, Point};
use crate::raster::{lemma_index_unique, lemma_wrap_small, DrawBuffer};
use crate::shape::{shape_covers, shape_ok, Shape};
use rand::rngs::StdRng;
use std::collections::VecDeque;
use vstd::arithmetic::div_mod::lemma_add_mod_noop_right;
use vstd::prelude::*;

verus! {

pub const BACK_COL: u32 = color::WHITE;

pub const BODY_COL: u32 = color::GREY;

pub const APPL_COL: u32 = color::RED;

pub const WALL_COL: u32 = color::BLACK;

/// Random cells drawn when looking for a free cell before falling back to
/// a scan of the board.
pub const PICKUP_TRIES: u32 = 4096;

/// rand's `StdRng`, held opaque: the engine's own seeded random source.
#[verifier::external_type_specification]
#[verifier::external_body]
pub struct ExStdRng(rand::rngs::StdRng);

/// Relies on rand's `SeedableRng::seed_from_u64` for `StdRng`: a generator
/// whose output depends on the seed alone.
#[verifier::external_body]
fn seeded_rng(seed: u64) -> StdRng {
    <StdRng as rand::SeedableRng>::seed_from_u64(seed)
}

/// Relies on rand's `Rng::gen::<isize>` (the `Standard` distribution): any
/// `isize` may come back.
#[verifier::external_body]
fn random_isize(rng: &mut StdRng) -> isize {
    rand::Rng::gen::<isize>(rng)
}

/// A key as the engine reads it: the arrow keys, the WASD keys, or anything
/// else.
#[derive(Clone, Copy, Debug, PartialEq, Eq, Structural)]
pub enum Key {
    Left,
    Right,
    Up,
    Down,
    A,
    D,
    W,
    S,
    Other,
}

/// The direction a key requests: arrows and WASD, two keys per direction.
pub open spec fn key_direction(k: Key) -> Option<Direction> {
    match k {
        Key::Left | Key::A => Some(Direction::Left),
        Key::Right | Key::D => Some(Direction::Right),
        Key::Up | Key::W => Some(Direction::Up),
        Key::Down | Key::S => Some(Direction::Down),
        Key::Other => None,
    }
}

/// The direction after key `k` while travelling in `d`: a request for the
/// opposite of `d` is refused, as is a key that requests nothing.
pub open spec fn turn(d: Direction, k: Key) -> Direction {
    match key_direction(k) {
        Some(nd) => if nd == opposite_of(d) {
            d
        } else {
            nd
        },
        None => d,
    }
}

/// The direction after the first `n` keys of `keys`, starting from `d`.
pub open spec fn turn_all(d: Direction, keys: Seq<Key>, n: int) -> Direction
    decreases n,
{
    if n <= 0 {
        d
    } else {
        turn(turn_all(d, keys, n - 1), keys[n - 1])
    }
}

/// Head color for each direction of travel.
pub open spec fn head_color_of(d: Direction) -> u32 {
    match d {
        Direction::Left => color::BLUE,
        Direction::Right => color::PURPLE,
        Direction::Up => color::YELLOW,
        Direction::Down => color::ORANGE,
    }
}

/// A batch of keys that each request the reverse of `d` leaves `d` as it is.
pub proof fn lemma_reverse_keys_ignored(d: Direction, keys: Seq<Key>, n: int)
    requires
        0 <= n <= keys.len(),
        forall|i: int| 0 <= i < keys.len() ==> key_direction(#[trigger] keys[i]) == Some(opposite_of(d)),
    ensures
        turn_all(d, keys, n) == d,
    decreases n,
{
    if n > 0 {
        lemma_reverse_keys_ignored(d, keys, n - 1);
    }
}

/// The board after a free cell, if there is one, took the pickup color.
pub open spec fn pickup_placed(before: DrawBuffer, after: DrawBuffer) -> bool {
    &&& after.wf()
    &&& after.same_shape(&before)
    &&& before.has_color(BACK_COL) ==> exists|px: int, py: int|
        #![trigger before.at(px, py)]
        before.on_grid(px, py) && before.at(px, py) == BACK_COL && forall|cx: int, cy: int|
            #![trigger after.at(cx, cy)]
            before.on_grid(cx, cy) ==> after.at(cx, cy) == if cx == px && cy == py {
                APPL_COL
            } else {
                before.at(cx, cy)
            }
    &&& !before.has_color(BACK_COL) ==> forall|cx: int, cy: int|
        #![trigger after.at(cx, cy)]
        before.on_grid(cx, cy) ==> after.at(cx, cy) == before.at(cx, cy)
}

/// Exactly one cell holds the pickup color, and it is not `(ex, ey)`.
pub open spec fn one_pickup_besides(b: DrawBuffer, ex: int, ey: int) -> bool {
    exists|px: int, py: int|
        #![trigger b.at(px, py)]
        b.on_grid(px, py) && b.at(px, py) == APPL_COL && !(px == ex && py == ey) && forall|
            cx: int,
            cy: int,
        |
            #![trigger b.at(cx, cy)]
            b.on_grid(cx, cy) && b.at(cx, cy) == APPL_COL ==> cx == px && cy == py
}

/// The only cell with the pickup color is `(x, y)`.
pub open spec fn only_pickup_at(b: DrawBuffer, x: int, y: int) -> bool {
    forall|cx: int, cy: int|
        #![trigger b.at(cx, cy)]
        b.on_grid(cx, cy) ==> (b.at(cx, cy) == APPL_COL <==> (cx == x && cy == y))
}

/// Column of segment `j` of a snake whose head starts at column `x0` and
/// that travels in `d`: the body trails behind the head.
pub open spec fn body_x(x0: int, d: Direction, j: int, w: int) -> int {
    wrap(x0 - j * step_x(d), w)
}

/// Row of segment `j`, as `body_x`.
pub open spec fn body_y(y0: int, d: Direction, j: int, h: int) -> int {
    wrap(y0 - j * step_y(d), h)
}

/// Segment `j` for some `1 <= j < n` sits on `(cx, cy)`.
pub open spec fn body_covers(x0: int, y0: int, d: Direction, n: int, w: int, h: int, cx: int, cy: int) -> bool {
    exists|j: int| 1 <= j < n && #[trigger] body_x(x0, d, j, w) == cx && body_y(y0, d, j, h) == cy
}

/// Color of a cell after the head and `n - 1` body segments are placed on a
/// background board.
pub open spec fn placed_color(x0: int, y0: int, d: Direction, n: int, w: int, h: int, cx: int, cy: int) -> u32 {
    if body_covers(x0, y0, d, n, w, h, cx, cy) {
        BODY_COL
    } else if cx == body_x(x0, d, 0, w) && cy == body_y(y0, d, 0, h) {
        head_color_of(d)
    } else {
        BACK_COL
    }
}

/// One of the first `n` obstacles covers `(cx, cy)`.
pub open spec fn obstacle_hits(obs: Seq<Shape>, n: int, w: int, h: int, cx: int, cy: int) -> bool {
    exists|j: int| 0 <= j < n && #[trigger] shape_covers(obs[j], w, h, cx, cy)
}

/// Color of a cell of a new game before its first pickup: obstacles over
/// the snake over the background.
pub open spec fn start_color(
    x0: int,
    y0: int,
    d: Direction,
    n: int,
    obs: Seq<Shape>,
    w: int,
    h: int,
    cx: int,
    cy: int,
) -> u32 {
    if obstacle_hits(obs, obs.len() as int, w, h, cx, cy) {
        WALL_COL
    } else {
        placed_color(x0, y0, d, n, w, h, cx, cy)
    }
}

proof fn lemma_body_extend(x0: int, y0: int, d: Direction, n: int, w: int, h: int, cx: int, cy: int)
    requires
        n >= 1,
    ensures
        body_covers(x0, y0, d, n + 1, w, h, cx, cy) == (body_covers(x0, y0, d, n, w, h, cx, cy) || (
        body_x(x0, d, n, w) == cx && body_y(y0, d, n, h) == cy)),
{
    if body_covers(x0, y0, d, n + 1, w, h, cx, cy) {
        let j = choose|j: int| 1 <= j < n + 1 && #[trigger] body_x(x0, d, j, w) == cx && body_y(y0, d, j, h) == cy;
        if j < n {
            assert(1 <= j < n && body_x(x0, d, j, w) == cx && body_y(y0, d, j, h) == cy);
        }
    }
    if body_x(x0, d, n, w) == cx && body_y(y0, d, n, h) == cy {
        assert(1 <= n < n + 1 && body_x(x0, d, n, w) == cx && body_y(y0, d, n, h) == cy);
    }
    if body_covers(x0, y0, d, n, w, h, cx, cy) {
        let j = choose|j: int| 1 <= j < n && #[trigger] body_x(x0, d, j, w) == cx && body_y(y0, d, j, h) == cy;
        assert(1 <= j < n + 1 && body_x(x0, d, j, w) == cx && body_y(y0, d, j, h) == cy);
    }
}

proof fn lemma_obstacles_extend(obs: Seq<Shape>, n: int, w: int, h: int, cx: int, cy: int)
    requires
        0 <= n < obs.len(),
    ensures
        obstacle_hits(obs, n + 1, w, h, cx, cy) == (obstacle_hits(obs, n, w, h, cx, cy) || shape_covers(
            obs[n],
            w,
            h,
            cx,
            cy,
        )),
{
    if obstacle_hits(obs, n + 1, w, h, cx, cy) {
        let j = choose|j: int| 0 <= j < n + 1 && #[trigger] shape_covers(obs[j], w, h, cx, cy);
        if j < n {
            assert(0 <= j < n && shape_covers(obs[j], w, h, cx, cy));
        }
    }
    if obstacle_hits(obs, n, w, h, cx, cy) {
        let j = choose|j: int| 0 <= j < n && #[trigger] shape_covers(obs[j], w, h, cx, cy);
        assert(0 <= j < n + 1 && shape_covers(obs[j], w, h, cx, cy));
    }
}

/// One more step back from segment `j` lands on segment `j + 1`.
proof fn lemma_body_step(v: int, s: int, j: int, m: int)
    requires
        m > 0,
        -1 <= s <= 1,
    ensures
        wrap(wrap(v - j * s, m) - s, m) == wrap(v - (j + 1) * s, m),
{
    assert(v - (j + 1) * s == (v - j * s) - s) by (nonlinear_arith);
    lemma_wrap_is_mod(v - j * s, m);
    lemma_wrap_is_mod(wrap(v - j * s, m) - s, m);
    lemma_wrap_is_mod(v - (j + 1) * s, m);
    lemma_add_mod_noop_right(-s, v - j * s, m);
}

/// The game state: segments from head to tail on a board it owns.
pub struct Snake {
    scales: VecDeque<Point>,
    dir: Direction,
    buf: DrawBuffer,
    score: u32,
    rng: StdRng,
    alive: bool,
}

impl Snake {
    /// Segments, head first.
    pub closed spec fn segments(&self) -> Seq<Point> {
        self.scales@
    }

    /// Current direction of travel.
    pub closed spec fn direction(&self) -> Direction {
        self.dir
    }

    /// The board.
    pub closed spec fn board(&self) -> DrawBuffer {
        self.buf
    }

    /// The score.
    pub closed spec fn points(&self) -> u32 {
        self.score
    }

    /// False once the head has hit a body or wall cell.
    pub closed spec fn living(&self) -> bool {
        self.alive
    }

    /// Column the head moves to on the next tick.
    pub open spec fn next_x(&self) -> int {
        wrap(self.segments()[0].x + step_x(self.direction()), self.board().width())
    }

    /// Row the head moves to on the next tick.
    pub open spec fn next_y(&self) -> int {
        wrap(self.segments()[0].y + step_y(self.direction()), self.board().height())
    }

    /// Color of the cell the head moves to on the next tick.
    pub open spec fn ahead(&self) -> u32 {
        self.board().at(self.next_x(), self.next_y())
    }

    /// The cell the head moves to, as a point.
    pub open spec fn next_head(&self) -> Point {
        Point { x: self.next_x() as isize, y: self.next_y() as isize }
    }

    /// A valid board with at least one segment, every segment on it.
    pub open spec fn wf(&self) -> bool {
        &&& self.board().wf()
        &&& self.segments().len() >= 1
        &&& forall|i: int|
            0 <= i < self.segments().len() ==> self.board().on_grid(
                #[trigger] self.segments()[i].x as int,
                self.segments()[i].y as int,
            )
    }

    /// A new game on a `maxx × maxy` background board: the head at `(x, y)`
    /// (wrapped), `st_len - 1` body segments trailing behind it against
    /// `dir`, the obstacles in wall color over them, then one pickup. `comp`
    /// selects the seed of the pickup generator; both settings use seed 0.
    pub fn new(
        x: isize,
        y: isize,
        st_len: usize,
        maxx: isize,
        maxy: isize,
        dir: Direction,
        comp: bool,
        obs: &Vec<Shape>,
    ) -> (r: Snake)
        requires
            maxx > 0,
            maxy > 0,
            maxx * maxy <= usize::MAX,
            st_len >= 1,
            forall|i: int| 0 <= i < obs@.len() ==> shape_ok(#[trigger] obs@[i]),
        ensures
            r.wf(),
            r.board().width() == maxx,
            r.board().height() == maxy,
            r.direction() == dir,
            r.points() == 0,
            r.living(),
            r.segments().len() == st_len,
            forall|j: int|
                0 <= j < st_len ==> #[trigger] r.segments()[j].x == body_x(x as int, dir, j, maxx as int)
                    && r.segments()[j].y == body_y(y as int, dir, j, maxy as int),
            exists|mid: DrawBuffer|
                #![trigger pickup_placed(mid, r.board())]
                pickup_placed(mid, r.board()) && mid.wf() && mid.width() == maxx && mid.height() == maxy
                    && forall|cx: int, cy: int|
                    #![trigger mid.at(cx, cy)]
                    mid.on_grid(cx, cy) ==> mid.at(cx, cy) == start_color(
                        x as int,
                        y as int,
                        dir,
                        st_len as int,
                        obs@,
                        maxx as int,
                        maxy as int,
                        cx,
                        cy,
                    ),
    {
        let seed: u64 = if comp {
            0
        } else {
            0
        };
        let mut res = Snake {
            scales: VecDeque::new(),
            buf: DrawBuffer::new(maxx, maxy, BACK_COL),
            dir,
            score: 0,
            rng: seeded_rng(seed),
            alive: true,
        };
        let ghost w = maxx as int;
        let ghost h = maxy as int;
        let ghost x0 = x as int;
        let ghost y0 = y as int;
        let mut aux = Point::new(x, y);
        res.buf.normalize(&mut aux);
        proof {
            lemma_wrap_small(aux.x as int, w);
            lemma_wrap_small(aux.y as int, h);
            assert(x0 - 0 * step_x(dir) == x0);
            assert(y0 - 0 * step_y(dir) == y0);
        }
        let c = res.head_color();
        let ghost blank = res.buf;
        res.buf.set(aux.x, aux.y, c);
        res.scales.push_back(aux);
        proof {
            assert forall|cx: int, cy: int| #![trigger res.buf.at(cx, cy)] res.buf.on_grid(cx, cy) implies res.buf.at(cx, cy) == placed_color(x0, y0, dir, 1, w, h, cx, cy) by {
                lemma_index_unique(w, h, cx, cy, cx, cy);
                assert(blank.at(cx, cy) == BACK_COL);
            }
        }
        let op = dir.oposite();
        let mut k: usize = 1;
        while k < st_len
            invariant
                res.buf.wf(),
                res.buf.width() == w,
                res.buf.height() == h,
                w == maxx,
                h == maxy,
                x0 == x,
                y0 == y,
                op == opposite_of(dir),
                res.dir == dir,
                res.score == 0,
                res.alive,
                1 <= k <= st_len,
                res.scales@.len() == k,
                aux == res.scales@[k - 1],
                forall|j: int|
                    0 <= j < k ==> #[trigger] res.scales@[j].x == body_x(x0, dir, j, w) && res.scales@[j].y
                        == body_y(y0, dir, j, h),
                forall|cx: int, cy: int|
                    #![trigger res.buf.at(cx, cy)]
                    res.buf.on_grid(cx, cy) ==> res.buf.at(cx, cy) == placed_color(x0, y0, dir, k as int, w, h, cx, cy),
            decreases st_len - k,
        {
            proof {
                lemma_wrap_is_mod(x0 - (k - 1) * step_x(dir), w);
                lemma_wrap_is_mod(y0 - (k - 1) * step_y(dir), h);
            }
            aux.shift(op);
            res.buf.normalize(&mut aux);
            proof {
                lemma_body_step(x0, step_x(dir), k - 1, w);
                lemma_body_step(y0, step_y(dir), k - 1, h);
                lemma_wrap_small(aux.x as int, w);
                lemma_wrap_small(aux.y as int, h);
            }
            let ghost before = res.buf;
            res.buf.set(aux.x, aux.y, BODY_COL);
            res.scales.push_back(aux);
            proof {
                assert forall|cx: int, cy: int| #![trigger res.buf.at(cx, cy)] res.buf.on_grid(cx, cy) implies res.buf.at(cx, cy) == placed_color(x0, y0, dir, k + 1, w, h, cx, cy) by {
                    lemma_body_extend(x0, y0, dir, k as int, w, h, cx, cy);
                    assert(before.at(cx, cy) == placed_color(x0, y0, dir, k as int, w, h, cx, cy));
                }
            }
            k = k + 1;
        }
        let mut i: usize = 0;
        while i < obs.len()
            invariant
                res.buf.wf(),
                res.buf.width() == w,
                res.buf.height() == h,
                w == maxx,
                h == maxy,
                x0 == x,
                y0 == y,
                res.dir == dir,
                res.score == 0,
                res.alive,
                res.scales@.len() == st_len,
                forall|j: int|
                    0 <= j < st_len ==> #[trigger] res.scales@[j].x == body_x(x0, dir, j, w) && res.scales@[j].y
                        == body_y(y0, dir, j, h),
                forall|i: int| 0 <= i < obs@.len() ==> shape_ok(#[trigger] obs@[i]),
                0 <= i <= obs@.len(),
                forall|cx: int, cy: int|
                    #![trigger res.buf.at(cx, cy)]
                    res.buf.on_grid(cx, cy) ==> res.buf.at(cx, cy) == if obstacle_hits(obs@, i as int, w, h, cx, cy) {
                        WALL_COL
                    } else {
                        placed_color(x0, y0, dir, st_len as int, w, h, cx, cy)
                    },
            decreases obs@.len() - i,
        {
            let ghost before = res.buf;
            obs[i].draw(&mut res.buf, WALL_COL);
            proof {
                assert forall|cx: int, cy: int| #![trigger res.buf.at(cx, cy)] res.buf.on_grid(cx, cy) implies res.buf.at(cx, cy) == if obstacle_hits(obs@, i + 1, w, h, cx, cy) {
                    WALL_COL
                } else {
                    placed_color(x0, y0, dir, st_len as int, w, h, cx, cy)
                } by {
                    lemma_obstacles_extend(obs@, i as int, w, h, cx, cy);
                    assert(before.on_grid(cx, cy));
                }
            }
            i = i + 1;
        }
        let ghost mid = res.buf;
        res.gen_pickups();
        proof {
            assert forall|j: int| 0 <= j < res.segments().len() implies res.board().on_grid(
                #[trigger] res.segments()[j].x as int,
                res.segments()[j].y as int,
            ) by {
                lemma_wrap_is_mod(x0 - j * step_x(dir), w);
                lemma_wrap_is_mod(y0 - j * step_y(dir), h);
            }
            assert(pickup_placed(mid, res.board()));
        }
        res
    }

    /// Marks a free cell with the pickup color: random cells first, then the
    /// first free cell of the board; nothing when no cell is free.
    pub fn gen_pickups(&mut self)
        requires
            old(self).board().wf(),
        ensures
            pickup_placed(old(self).board(), final(self).board()),
            final(self).segments() == old(self).segments(),
            final(self).direction() == old(self).direction(),
            final(self).points() == old(self).points(),
            final(self).living() == old(self).living(),
    {
        let mut tries: u32 = 0;
        while tries < PICKUP_TRIES
            invariant
                self.buf == old(self).buf,
                self.scales == old(self).scales,
                self.dir == old(self).dir,
                self.score == old(self).score,
                self.alive == old(self).alive,
                self.buf.wf(),
            decreases PICKUP_TRIES - tries,
        {
            let mut p = Point::new(random_isize(&mut self.rng), random_isize(&mut self.rng));
            self.buf.normalize(&mut p);
            if self.buf.get(p.x, p.y) == BACK_COL {
                proof {
                    lemma_wrap_small(p.x as int, self.buf.width());
                    lemma_wrap_small(p.y as int, self.buf.height());
                }
                self.buf.set(p.x, p.y, APPL_COL);
                return;
            }
            tries = tries + 1;
        }
        match self.buf.find_color(BACK_COL) {
            Some(p) => {
                proof {
                    lemma_wrap_small(p.x as int, self.buf.width());
                    lemma_wrap_small(p.y as int, self.buf.height());
                }
                self.buf.set(p.x, p.y, APPL_COL);
            },
            None => {},
        }
    }

    /// Advances one tick. Onto a body or wall cell: the snake dies and
    /// nothing else changes. Onto the pickup: one point, a new pickup, and
    /// the tail stays. Otherwise the tail cell is cleared and dropped. Then
    /// the old head turns to body color and the new head is painted.
    pub fn shift_draw(&mut self)
        requires
            old(self).wf(),
            old(self).points() < u32::MAX,
        ensures
            final(self).wf(),
            final(self).direction() == old(self).direction(),
            final(self).board().same_shape(&old(self).board()),
            ({
                let o = *old(self);
                let f = *final(self);
                let (nx, ny) = (o.next_x(), o.next_y());
                let (hx, hy) = (o.segments()[0].x as int, o.segments()[0].y as int);
                let last = o.segments()[o.segments().len() - 1];
                let hc = head_color_of(o.direction());
                if o.ahead() == BODY_COL || o.ahead() == WALL_COL {
                    &&& !f.living()
                    &&& f.board() == o.board()
                    &&& f.segments() == o.segments()
                    &&& f.points() == o.points()
                } else if o.ahead() == APPL_COL {
                    &&& f.living() == o.living()
                    &&& f.points() == o.points() + 1
                    &&& f.segments() == seq![o.next_head()] + o.segments()
                    &&& exists|mid: DrawBuffer|
                        pickup_placed(o.board(), mid) && forall|cx: int, cy: int|
                            #![trigger f.board().at(cx, cy)]
                            o.board().on_grid(cx, cy) ==> f.board().at(cx, cy) == if cx == nx && cy
                                == ny {
                                hc
                            } else if cx == hx && cy == hy {
                                BODY_COL
                            } else {
                                mid.at(cx, cy)
                            }
                } else {
                    &&& f.living() == o.living()
                    &&& f.points() == o.points()
                    &&& f.segments() == seq![o.next_head()] + o.segments().drop_last()
                    &&& forall|cx: int, cy: int|
                        #![trigger f.board().at(cx, cy)]
                        o.board().on_grid(cx, cy) ==> f.board().at(cx, cy) == if cx == nx && cy
                            == ny {
                            hc
                        } else if o.segments().len() >= 2 && cx == hx && cy == hy {
                            BODY_COL
                        } else if cx == last.x && cy == last.y {
                            BACK_COL
                        } else {
                            o.board().at(cx, cy)
                        }
                }
            }),
            old(self).ahead() == APPL_COL && only_pickup_at(
                old(self).board(),
                old(self).next_x(),
                old(self).next_y(),
            ) && old(self).board().has_color(BACK_COL) && old(self).board().at(
                old(self).segments()[0].x as int,
                old(self).segments()[0].y as int,
            ) != BACK_COL ==> {
                &&& final(self).segments().len() == old(self).segments().len() + 1
                &&& final(self).points() == old(self).points() + 1
                &&& one_pickup_besides(final(self).board(), old(self).next_x(), old(self).next_y())
            },
    {
        let ghost o = *self;
        assert(o.board().on_grid(o.segments()[0].x as int, o.segments()[0].y as int));
        let last_head = self.scales[0];
        let mut new_head = last_head.shifted(self.dir);
        self.buf.normalize(&mut new_head);
        proof {
            lemma_wrap_small(new_head.x as int, self.buf.width());
            lemma_wrap_small(new_head.y as int, self.buf.height());
            lemma_wrap_small(last_head.x as int, self.buf.width());
            lemma_wrap_small(last_head.y as int, self.buf.height());
        }
        let nxt_tile = self.buf.get(new_head.x, new_head.y);
        let ghost mut mid = self.buf;
        if nxt_tile == APPL_COL {
            self.score = self.score + 1;
            self.gen_pickups();
            proof {
                mid = self.buf;
            }
        } else if nxt_tile == BODY_COL || nxt_tile == WALL_COL {
            self.alive = false;
            return;
        } else {
            let n = self.scales.len();
            let cur_back = self.scales[n - 1];
            proof {
                lemma_wrap_small(cur_back.x as int, self.buf.width());
                lemma_wrap_small(cur_back.y as int, self.buf.height());
            }
            self.buf.set(cur_back.x, cur_back.y, BACK_COL);
            self.scales.pop_back();
        }
        let ghost mid2 = self.buf;
        if self.scales.len() != 0 {
            self.buf.set(last_head.x, last_head.y, BODY_COL);
        }
        let c = self.head_color();
        self.buf.set(new_head.x, new_head.y, c);
        self.scales.push_front(new_head);
        proof {
            assert(new_head == o.next_head());
            if nxt_tile == APPL_COL {
                assert(pickup_placed(o.board(), mid));
                let (nx, ny) = (o.next_x(), o.next_y());
                let (hx, hy) = (last_head.x as int, last_head.y as int);
                if o.board().has_color(BACK_COL) && only_pickup_at(o.board(), nx, ny) && o.board().at(
                    hx,
                    hy,
                ) != BACK_COL {
                    let (px, py) = choose|px: int, py: int|
                        #![trigger o.board().at(px, py)]
                        o.board().on_grid(px, py) && o.board().at(px, py) == BACK_COL && forall|cx: int, cy: int|
                            #![trigger mid.at(cx, cy)]
                            o.board().on_grid(cx, cy) ==> mid.at(cx, cy) == if cx == px && cy == py {
                                APPL_COL
                            } else {
                                o.board().at(cx, cy)
                            };
                    assert(self.board().at(px, py) == APPL_COL);
                    assert forall|cx: int, cy: int|
                        #![trigger self.board().at(cx, cy)]
                        self.board().on_grid(cx, cy) && self.board().at(cx, cy) == APPL_COL implies cx == px && cy == py by {
                        assert(o.board().on_grid(cx, cy));
                    }
                    assert(one_pickup_besides(self.board(), nx, ny));
                }
            } else {
                assert(self.segments() == seq![o.next_head()] + o.segments().drop_last());
            }
            assert forall|i: int| 0 <= i < self.segments().len() implies self.board().on_grid(
                #[trigger] self.segments()[i].x as int,
                self.segments()[i].y as int,
            ) by {
                if i > 0 {
                    assert(self.segments()[i] == o.segments()[i - 1]);
                }
            }
        }
    }

    /// The board's colors, row by row.
    pub fn buf_as_vec_u32(&self) -> (r: &Vec<u32>)
        ensures
            r@ == self.board().pixels(),
    {
        self.buf.as_vec_u32()
    }

    /// The board.
    pub fn board_ref(&self) -> (r: &DrawBuffer)
        ensures
            *r == self.board(),
    {
        &self.buf
    }

    /// Whether the game is still running.
    pub fn is_alive(&self) -> (r: bool)
        ensures
            r == self.living(),
    {
        self.alive
    }

    /// The score.
    pub fn get_score(&self) -> (r: u32)
        ensures
            r == self.points(),
    {
        self.score
    }

    /// The current direction of travel.
    pub fn get_dir(&self) -> (r: Direction)
        ensures
            r == self.direction(),
    {
        self.dir
    }

    /// The segments, head first.
    pub fn body_points(&self) -> (r: Vec<Point>)
        ensures
            r@ == self.segments(),
    {
        let mut r: Vec<Point> = Vec::new();
        let mut i: usize = 0;
        while i < self.scales.len()
            invariant
                0 <= i <= self.scales@.len(),
                r@ == self.scales@.subrange(0, i as int),
            decreases self.scales@.len() - i,
        {
            r.push(self.scales[i]);
            i = i + 1;
        }
        proof {
            assert(r@ =~= self.scales@);
        }
        r
    }

    /// Color of the head for the current direction.
    pub fn head_color(&self) -> (r: u32)
        ensures
            r == head_color_of(self.direction()),
    {
        match self.dir {
            Direction::Left => color::BLUE,
            Direction::Right => color::PURPLE,
            Direction::Up => color::YELLOW,
            Direction::Down => color::ORANGE,
        }
    }

    /// Applies a batch of keys in order, refusing any that asks to reverse,
    /// then repaints the head cell in the resulting direction's color.
    pub fn parse_keys(&mut self, keys: Vec<Key>)
        requires
            old(self).wf(),
        ensures
            final(self).wf(),
            final(self).direction() == turn_all(old(self).direction(), keys@, keys@.len() as int),
            final(self).segments() == old(self).segments(),
            final(self).points() == old(self).points(),
            final(self).living() == old(self).living(),
            final(self).board().same_shape(&old(self).board()),
            final(self).board().pixels() == old(self).board().pixels().update(
                old(self).board().index(
                    old(self).segments()[0].x as int,
                    old(self).segments()[0].y as int,
                ),
                head_color_of(final(self).direction()),
            ),
    {
        let mut i: usize = 0;
        while i < keys.len()
            invariant
                0 <= i <= keys@.len(),
                self.dir == turn_all(old(self).dir, keys@, i as int),
                self.scales == old(self).scales,
                self.buf == old(self).buf,
                self.score == old(self).score,
                self.alive == old(self).alive,
            decreases keys@.len() - i,
        {
            let new_dir = match keys[i] {
                Key::Left | Key::A => Direction::Left,
                Key::Right | Key::D => Direction::Right,
                Key::Up | Key::W => Direction::Up,
                Key::Down | Key::S => Direction::Down,
                Key::Other => self.dir,
            };
            if new_dir != self.dir.oposite() {
                self.dir = new_dir;
            }
            i = i + 1;
        }
        let head = self.scales[0];
        proof {
            lemma_wrap_small(head.x as int, self.buf.width());
            lemma_wrap_small(head.y as int, self.buf.height());
        }
        let c = self.head_color();
        self.buf.set(head.x, head.y, c);
    }
}

} // verus!
