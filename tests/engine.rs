use snake::color::{BLUE, ORANGE, PURPLE, YELLOW};
use snake::font::{convert, Font};
use snake::game::{Key, Snake, APPL_COL, BACK_COL, BODY_COL, WALL_COL};
use snake::geometry::{Direction, Point};
use snake::letters::convertor;
use snake::shape::Shape;

fn count(s: &Snake, col: u32) -> usize {
    s.buf_as_vec_u32().iter().filter(|c| **c == col).count()
}

fn pts(v: &[(isize, isize)]) -> Vec<Point> {
    v.iter().map(|(x, y)| Point::new(*x, *y)).collect()
}

#[test]
fn construction_places_snake_and_one_pickup() {
    let s = Snake::new(10, 3, 5, 24, 24, Direction::Right, true, &vec![]);
    assert_eq!(s.body_points(), pts(&[(10, 3), (9, 3), (8, 3), (7, 3), (6, 3)]));
    let b = s.board_ref();
    assert_eq!(b.get(10, 3), PURPLE);
    for x in 6..10 {
        assert_eq!(b.get(x, 3), BODY_COL);
    }
    assert_eq!(count(&s, APPL_COL), 1);
    assert_eq!(count(&s, BODY_COL), 4);
    assert_eq!(count(&s, PURPLE), 1);
    assert_eq!(count(&s, BACK_COL), 24 * 24 - 6);
    assert!(s.is_alive());
    assert_eq!(s.get_score(), 0);
    assert_eq!(s.get_dir(), Direction::Right);
}

#[test]
fn construction_wraps_the_body() {
    let s = Snake::new(1, 0, 4, 6, 2, Direction::Right, false, &vec![]);
    assert_eq!(s.body_points(), pts(&[(1, 0), (0, 0), (5, 0), (4, 0)]));
}

#[test]
fn obstacles_are_drawn_over_the_body() {
    let s = Snake::new(10, 3, 5, 24, 24, Direction::Right, true, &vec![Shape::new_point(8, 3)]);
    assert_eq!(s.board_ref().get(8, 3), WALL_COL);
    assert_eq!(s.body_points().len(), 5);
}

#[test]
fn plain_tick_moves_head_and_clears_tail() {
    let mut s = Snake::new(10, 3, 5, 24, 24, Direction::Right, true, &vec![]);
    if s.board_ref().get(11, 3) == APPL_COL {
        s.parse_keys(vec![Key::Down]);
    }
    let dir = s.get_dir();
    let head = s.body_points()[0];
    let next = head.shifted(dir);
    let tail = *s.body_points().last().unwrap();
    let before = s.buf_as_vec_u32().clone();
    s.shift_draw();
    let body = s.body_points();
    assert_eq!(body.len(), 5);
    assert_eq!(body[0], next);
    assert_eq!(body[1], head);
    let b = s.board_ref();
    assert_eq!(b.get(tail.x, tail.y), BACK_COL);
    assert_eq!(b.get(head.x, head.y), BODY_COL);
    assert_eq!(b.get(next.x, next.y), s.head_color());
    let after = s.buf_as_vec_u32();
    let changed = before.iter().zip(after.iter()).filter(|(a, b)| a != b).count();
    assert_eq!(changed, 3);
    assert_eq!(s.get_score(), 0);
    assert!(s.is_alive());
}

#[test]
fn eating_grows_scores_and_respawns() {
    let mut s = Snake::new(1, 0, 2, 8, 1, Direction::Right, true, &vec![]);
    let mut ate = false;
    for _ in 0..8 {
        let head = s.body_points()[0];
        let next = head.shifted(s.get_dir());
        let nx = next.x.rem_euclid(8);
        if s.board_ref().get(nx, 0) == APPL_COL {
            let len = s.body_points().len();
            s.shift_draw();
            assert_eq!(s.body_points().len(), len + 1);
            assert_eq!(s.get_score(), 1);
            assert_eq!(count(&s, APPL_COL), 1);
            assert_ne!(s.board_ref().get(nx, 0), APPL_COL);
            ate = true;
            break;
        }
        s.shift_draw();
    }
    assert!(ate);
    assert!(s.is_alive());
}

#[test]
fn running_into_a_wall_kills_and_changes_nothing() {
    let mut s = Snake::new(10, 3, 5, 24, 24, Direction::Right, true, &vec![Shape::new_point(11, 3)]);
    let before = s.buf_as_vec_u32().clone();
    let body = s.body_points();
    s.shift_draw();
    assert!(!s.is_alive());
    assert_eq!(s.buf_as_vec_u32(), &before);
    assert_eq!(s.body_points(), body);
}

#[test]
fn running_into_the_body_kills() {
    let mut s = Snake::new(10, 3, 5, 24, 24, Direction::Right, true, &vec![]);
    s.parse_keys(vec![Key::Down]);
    s.shift_draw();
    s.parse_keys(vec![Key::Left]);
    s.shift_draw();
    s.parse_keys(vec![Key::Up]);
    let before = s.buf_as_vec_u32().clone();
    s.shift_draw();
    assert!(!s.is_alive());
    assert_eq!(s.buf_as_vec_u32(), &before);
}

#[test]
fn reverse_request_is_ignored() {
    let mut s = Snake::new(10, 3, 5, 24, 24, Direction::Right, true, &vec![]);
    s.parse_keys(vec![Key::Left]);
    assert_eq!(s.get_dir(), Direction::Right);
    s.parse_keys(vec![Key::Left, Key::A]);
    assert_eq!(s.get_dir(), Direction::Right);
    assert_eq!(s.board_ref().get(10, 3), PURPLE);
}

#[test]
fn last_accepted_key_wins() {
    let mut s = Snake::new(10, 3, 5, 24, 24, Direction::Right, true, &vec![]);
    s.parse_keys(vec![Key::S, Key::Left]);
    assert_eq!(s.get_dir(), Direction::Left);
    assert_eq!(s.board_ref().get(10, 3), BLUE);
    s.parse_keys(vec![Key::Other]);
    assert_eq!(s.get_dir(), Direction::Left);
    s.parse_keys(vec![Key::W]);
    assert_eq!(s.get_dir(), Direction::Up);
    assert_eq!(s.head_color(), YELLOW);
    s.parse_keys(vec![Key::Right, Key::Down]);
    assert_eq!(s.get_dir(), Direction::Down);
    assert_eq!(s.head_color(), ORANGE);
}

#[test]
fn letter_a_shapes() {
    let (adv, shapes) = convertor(1, 2, 2, 'A');
    assert_eq!(adv, 12);
    assert_eq!(
        shapes,
        vec![
            Shape::new_line(1, 4, 1, 14),
            Shape::new_line(9, 4, 9, 14),
            Shape::new_line(3, 6, 7, 6),
            Shape::new_line(3, 2, 7, 2),
        ]
    );
    assert_eq!(convertor(0, 0, 1, 'B').1.len(), 6);
    assert_eq!(convertor(0, 0, 1, 'O').1[2], Shape::new_line(0, 1, 0, 5));
}

#[test]
fn font_scales_and_advances() {
    let mut f = Font::new();
    f.insert('x', vec![Shape::new_point(1, 1), Shape::new_line(0, 0, 3, 2), Shape::new_rect(0, 0, 2, 4, false)]);
    let (adv, shapes) = f.convert(10, 20, 2, 'x');
    assert_eq!(adv, 5);
    assert_eq!(
        shapes,
        vec![Shape::new_point(12, 22), Shape::new_line(10, 20, 16, 24), Shape::new_rect(10, 20, 14, 28, false)]
    );
}

#[test]
fn text_layout_advances_per_glyph() {
    let mut f = Font::new();
    f.insert('a', vec![Shape::new_line(0, 0, 2, 0)]);
    f.insert('f', vec![Shape::new_point(1, 0)]);
    let (shift, shapes) = convert(&f, 5, 1, 1, "afa");
    assert_eq!(shift, 4 + 2 + 4);
    assert_eq!(
        shapes,
        vec![Shape::new_line(5, 1, 7, 1), Shape::new_point(10, 1), Shape::new_line(11, 1, 13, 1)]
    );
    let (empty_shift, none) = convert(&f, 0, 0, 1, "");
    assert_eq!(empty_shift, 0);
    assert!(none.is_empty());
}

#[test]
fn spawning_marks_one_more_free_cell() {
    let mut s = Snake::new(2, 2, 3, 6, 6, Direction::Up, true, &vec![]);
    assert_eq!(count(&s, APPL_COL), 1);
    s.gen_pickups();
    assert_eq!(count(&s, APPL_COL), 2);
    assert_eq!(count(&s, BACK_COL), 6 * 6 - 3 - 2);
}

#[test]
fn full_board_gets_no_pickup() {
    let s = Snake::new(1, 0, 2, 2, 1, Direction::Right, true, &vec![]);
    assert_eq!(count(&s, APPL_COL), 0);
    assert_eq!(s.body_points(), pts(&[(1, 0), (0, 0)]));
}
