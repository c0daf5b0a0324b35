use aoc22::rope::{Direction, Motion, Position, Rope, Rope3, count_tail_positions};
use aoc22::text::ParseError;

fn motions(lines: &[&str]) -> Vec<Motion> {
    lines.iter().map(|l| Motion::parse(l).unwrap()).collect()
}

#[test]
fn test_parse_motion() {
    assert_eq!(Motion::parse("R 4"), Ok(Motion::new(4, Direction::Right)));
    assert_eq!(Motion::parse("L 1"), Ok(Motion::new(1, Direction::Left)));
    assert_eq!(Motion::parse("U 13"), Ok(Motion::new(13, Direction::Up)));
    assert_eq!(Motion::parse("D 2"), Ok(Motion::new(2, Direction::Down)));
}

#[test]
fn test_parse_motion_invalid_direction() {
    assert_eq!(Motion::parse("X 4"), Err(ParseError::InvalidDirection));
    assert_eq!(Motion::parse("R4"), Err(ParseError::InvalidDirection));
    assert_eq!(Motion::parse(""), Err(ParseError::InvalidDirection));
}

#[test]
fn test_parse_motion_invalid_count() {
    assert_eq!(Motion::parse("R x"), Err(ParseError::InvalidCount));
    assert_eq!(Motion::parse("R 0"), Err(ParseError::InvalidCount));
    assert_eq!(Motion::parse("R "), Err(ParseError::InvalidCount));
    assert_eq!(Motion::parse("R 99999999999"), Err(ParseError::InvalidCount));
}

#[test]
fn test_render_round_trip() {
    for line in ["R 4", "U 13", "L 1", "D 210", "R 4294967295"] {
        let m = Motion::parse(line).unwrap();
        assert_eq!(m.render(), line);
    }
}

#[test]
fn test_two_knot_example() {
    let ms = motions(&["R 4", "U 4", "L 3", "D 1", "R 4", "D 1", "L 5", "R 2"]);
    assert_eq!(count_tail_positions(&ms, 2), 13);
}

#[test]
fn test_ten_knot_example() {
    let ms = motions(&["R 4", "U 4", "L 3", "D 1", "R 4", "D 1", "L 5", "R 2"]);
    assert_eq!(count_tail_positions(&ms, 10), 1);
}

#[test]
fn test_pre_expanded_motions_same_count() {
    let ms = motions(&["R 4", "U 4", "L 3", "D 1", "R 4", "D 1", "L 5", "R 2"]);
    let mut expanded: Vec<Motion> = Vec::new();
    for m in &ms {
        for _ in 0..m.steps {
            expanded.push(Motion::new(1, m.dir));
        }
    }
    assert_eq!(count_tail_positions(&expanded, 2), count_tail_positions(&ms, 2));
    assert_eq!(count_tail_positions(&expanded, 10), count_tail_positions(&ms, 10));
}

#[test]
fn test_rope3_new_and_tail() {
    let rope = Rope3::new(3);
    assert_eq!(rope.tail(), Some(Position { x: 0, y: 0 }));
}

#[test]
fn test_rope3_step_drags_tail() {
    let mut rope = Rope3::new(2);
    rope.step(&Direction::Right);
    assert_eq!(rope.tail(), Some(Position { x: 0, y: 0 }));
    rope.step(&Direction::Right);
    assert_eq!(rope.tail(), Some(Position { x: 1, y: 0 }));
    rope.step(&Direction::Up);
    assert_eq!(rope.tail(), Some(Position { x: 1, y: 0 }));
    rope.step(&Direction::Up);
    // The tail snaps diagonally onto the head's column.
    assert_eq!(rope.tail(), Some(Position { x: 2, y: 1 }));
}

#[test]
fn test_two_knot_rope_matches_chain() {
    let ms = motions(&["R 4", "U 4", "L 3", "D 1", "R 4", "D 1", "L 5", "R 2"]);
    let mut rope = Rope::default();
    let mut chain = Rope3::new(2);
    for m in &ms {
        for _ in 0..m.steps {
            rope.step(&m.dir);
            chain.step(&m.dir);
            assert_eq!(chain.tail(), Some(rope.tail()));
        }
    }
    assert_eq!(rope.head(), Position { x: 2, y: 2 });
    assert_eq!(rope.tail(), Position { x: 1, y: 2 });
}

#[test]
fn test_update_follower_rules() {
    // Two apart on one axis: one step along that axis.
    let mut f = Position { x: 0, y: 0 };
    Rope3::update_follower(&Position { x: 2, y: 0 }, &mut f);
    assert_eq!(f, Position { x: 1, y: 0 });

    // Touching diagonally: no move.
    let mut f = Position { x: 0, y: 0 };
    Rope3::update_follower(&Position { x: 1, y: 1 }, &mut f);
    assert_eq!(f, Position { x: 0, y: 0 });

    // L-shaped gap: align on the leader's row, then step.
    let mut f = Position { x: 0, y: 0 };
    Rope3::update_follower(&Position { x: 2, y: 1 }, &mut f);
    assert_eq!(f, Position { x: 1, y: 1 });

    // Mirrored L-shaped gap: align on the leader's column.
    let mut f = Position { x: 0, y: 0 };
    Rope3::update_follower(&Position { x: -1, y: 2 }, &mut f);
    assert_eq!(f, Position { x: -1, y: 1 });

    // Double-diagonal gap: one diagonal step.
    let mut f = Position { x: 0, y: 0 };
    Rope3::update_follower(&Position { x: 2, y: -2 }, &mut f);
    assert_eq!(f, Position { x: 1, y: -1 });
}
