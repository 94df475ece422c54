use snake::color::{BLACK, RED, WHITE};
use snake::geometry::{n_mod_m, Direction, Point};
use snake::raster::DrawBuffer;
use snake::shape::Shape;

fn lit(buf: &DrawBuffer, w: isize, h: isize, col: u32) -> Vec<(isize, isize)> {
    let mut out = Vec::new();
    for y in 0..h {
        for x in 0..w {
            if buf.get(x, y) == col {
                out.push((x, y));
            }
        }
    }
    out
}

fn sorted(mut v: Vec<(isize, isize)>) -> Vec<(isize, isize)> {
    v.sort();
    v
}

#[test]
fn wrap_is_true_modulo() {
    assert_eq!(n_mod_m(-1, 5), 4);
    assert_eq!(n_mod_m(-5, 5), 0);
    assert_eq!(n_mod_m(-6, 5), 4);
    assert_eq!(n_mod_m(7, 5), 2);
    assert_eq!(n_mod_m(0, 5), 0);
    for x in -20..20isize {
        let r = n_mod_m(x, 7);
        assert!((0..7).contains(&r));
        assert_eq!((r - x).rem_euclid(7), 0);
    }
}

#[test]
fn normalize_wraps_both_axes() {
    let mut buf = DrawBuffer::new(4, 3, WHITE);
    let mut p = Point::new(-1, 7);
    buf.normalize(&mut p);
    assert_eq!(p, Point::new(3, 1));
}

#[test]
fn get_and_set_wrap() {
    let mut buf = DrawBuffer::new(4, 3, WHITE);
    buf.set(-1, -1, RED);
    assert_eq!(buf.get(3, 2), RED);
    assert_eq!(buf.get(7, 5), RED);
    assert_eq!(buf.as_vec_u32()[2 * 4 + 3], RED);
    assert_eq!(lit(&buf, 4, 3, RED), vec![(3, 2)]);
}

#[test]
fn horizontal_line_on_five_by_five() {
    let mut buf = DrawBuffer::new(5, 5, WHITE);
    buf.draw_line(Point::new(0, 0), Point::new(4, 0), 1, RED);
    assert_eq!(lit(&buf, 5, 5, RED), vec![(0, 0), (1, 0), (2, 0), (3, 0), (4, 0)]);
}

#[test]
fn reversed_horizontal_line_is_the_same_run() {
    let mut buf = DrawBuffer::new(5, 5, WHITE);
    buf.draw_line(Point::new(3, 2), Point::new(1, 2), 1, RED);
    assert_eq!(lit(&buf, 5, 5, RED), vec![(1, 2), (2, 2), (3, 2)]);
}

#[test]
fn vertical_line_wraps_around() {
    let mut buf = DrawBuffer::new(5, 5, WHITE);
    buf.draw_line(Point::new(3, -2), Point::new(3, 1), 1, RED);
    assert_eq!(sorted(lit(&buf, 5, 5, RED)), vec![(3, 0), (3, 1), (3, 3), (3, 4)]);
}

#[test]
fn shallow_line_rounds_halves_down() {
    let mut buf = DrawBuffer::new(8, 8, WHITE);
    buf.draw_line(Point::new(0, 0), Point::new(4, 1), 1, RED);
    assert_eq!(sorted(lit(&buf, 8, 8, RED)), vec![(0, 0), (1, 0), (2, 0), (3, 1), (4, 1)]);
}

#[test]
fn steep_line_cells() {
    let mut buf = DrawBuffer::new(8, 8, WHITE);
    buf.draw_line(Point::new(0, 0), Point::new(1, 4), 1, RED);
    assert_eq!(sorted(lit(&buf, 8, 8, RED)), vec![(0, 0), (0, 1), (0, 2), (1, 3), (1, 4)]);
}

#[test]
fn lines_are_symmetric() {
    let ends = [
        (Point::new(1, 1), Point::new(7, 4)),
        (Point::new(6, 0), Point::new(0, 3)),
        (Point::new(2, 7), Point::new(4, 0)),
        (Point::new(0, 0), Point::new(5, 5)),
        (Point::new(-3, 2), Point::new(4, -1)),
        (Point::new(3, 3), Point::new(3, 3)),
    ];
    for (a, b) in ends.iter() {
        let mut one = DrawBuffer::new(9, 9, WHITE);
        let mut two = DrawBuffer::new(9, 9, WHITE);
        one.draw_line(*a, *b, 1, RED);
        two.draw_line(*b, *a, 1, RED);
        assert_eq!(one.as_vec_u32(), two.as_vec_u32());
    }
}

#[test]
fn scaled_point_wraps_at_the_corner() {
    let mut buf = DrawBuffer::new(5, 5, WHITE);
    buf.draw_point(Point::new(4, 4), 2, RED);
    assert_eq!(sorted(lit(&buf, 5, 5, RED)), vec![(0, 0), (0, 4), (4, 0), (4, 4)]);
}

#[test]
fn zero_scale_paints_nothing() {
    let mut buf = DrawBuffer::new(5, 5, WHITE);
    buf.set_with_sc(1, 1, 0, RED);
    assert!(lit(&buf, 5, 5, RED).is_empty());
}

#[test]
fn rectangle_is_an_outline() {
    let mut buf = DrawBuffer::new(5, 5, WHITE);
    buf.draw_rect(Point::new(1, 1), Point::new(3, 3), false, 1, BLACK);
    assert_eq!(
        sorted(lit(&buf, 5, 5, BLACK)),
        vec![(1, 1), (1, 2), (1, 3), (2, 1), (2, 3), (3, 1), (3, 2), (3, 3)]
    );
    assert_eq!(buf.get(2, 2), WHITE);
}

#[test]
fn shapes_draw_through_the_buffer() {
    let mut buf = DrawBuffer::new(6, 6, WHITE);
    Shape::new_point(5, 5).draw(&mut buf, RED);
    Shape::new_line(0, 0, 0, 2).draw(&mut buf, BLACK);
    assert_eq!(lit(&buf, 6, 6, RED), vec![(5, 5)]);
    assert_eq!(sorted(lit(&buf, 6, 6, BLACK)), vec![(0, 0), (0, 1), (0, 2)]);
    let mut rect = DrawBuffer::new(6, 6, WHITE);
    Shape::new_rect(2, 2, 3, 3, false).draw(&mut rect, RED);
    assert_eq!(sorted(lit(&rect, 6, 6, RED)), vec![(2, 2), (2, 3), (3, 2), (3, 3)]);
}

#[test]
fn shape_constructors() {
    assert_eq!(Shape::new_point(1, 2), Shape::Point(Point::new(1, 2)));
    assert_eq!(Shape::new_line(1, 2, 3, 4), Shape::Line(Point::new(1, 2), Point::new(3, 4)));
    assert_eq!(
        Shape::new_rect(1, 2, 3, 4, true),
        Shape::Rectangle(Point::new(1, 2), Point::new(3, 4), true)
    );
}

#[test]
fn shift_and_opposite() {
    let mut p = Point::new(0, 0);
    p.shift(Direction::Up);
    assert_eq!(p, Point::new(0, -1));
    p.shift(Direction::Left);
    assert_eq!(p, Point::new(-1, -1));
    assert_eq!(p.shifted(Direction::Right), Point::new(0, -1));
    assert_eq!(p.shifted(Direction::Down), Point::new(-1, 0));
    assert_eq!(Direction::Left.oposite(), Direction::Right);
    assert_eq!(Direction::Right.oposite(), Direction::Left);
    assert_eq!(Direction::Up.oposite(), Direction::Down);
    assert_eq!(Direction::Down.oposite(), Direction::Up);
}

#[test]
fn find_color_scans_row_major() {
    let mut buf = DrawBuffer::new(4, 4, WHITE);
    assert_eq!(buf.find_color(RED), None);
    buf.set(2, 3, RED);
    buf.set(3, 1, RED);
    assert_eq!(buf.find_color(RED), Some(Point::new(3, 1)));
}

#[test]
fn point_arithmetic() {
    assert_eq!(Point::new(1, -2) + Point::new(3, 4), Point::new(4, 2));
    assert_eq!(Point::new(1, -2) - Point::new(3, 4), Point::new(-2, -6));
}
