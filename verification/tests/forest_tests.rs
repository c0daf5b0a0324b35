use aoc22::forest::{Coord, Forest, Forest2, Row, Tree};
use aoc22::text::ParseError;

const GRID: &str = "30373\n25512\n65332\n33549\n35390";

#[test]
fn test_parse_grid() {
    let g = Forest2::parse(GRID).unwrap();
    assert_eq!(g.width(), 5);
    assert_eq!(g.height(), 5);
    assert_eq!(g.get(0, 0), 3);
    assert_eq!(g.get(4, 4), 0);
    assert_eq!(g.get(3, 3), 4);
}

#[test]
fn test_parse_grid_not_rectangular() {
    assert!(matches!(Forest2::parse("123\n45"), Err(ParseError::NonRectangular)));
    assert!(matches!(Forest2::parse(""), Err(ParseError::NonRectangular)));
}

#[test]
fn test_parse_grid_invalid_digit() {
    assert!(matches!(Forest2::parse("12a\n456"), Err(ParseError::InvalidDigit)));
}

#[test]
fn test_visible_from_edge_example() {
    let g = Forest2::parse(GRID).unwrap();
    let visible = g.visible_from_edge();
    assert_eq!(visible.len(), 21);
    assert!(visible.contains(&Coord(0, 0)));
    // The interior 5 at (2, 1) is visible from the right edge.
    assert!(visible.contains(&Coord(2, 1)));
    // The interior 3 at (3, 1) is hidden from every edge.
    assert!(!visible.contains(&Coord(3, 1)));
}

#[test]
fn test_is_visible_interior() {
    let g = Forest2::parse(GRID).unwrap();
    assert!(g.is_visible(1, 1));
    assert!(g.is_visible(2, 1));
    assert!(!g.is_visible(3, 1));
    assert!(!g.is_visible(2, 2));
}

#[test]
fn test_scenic_score_example() {
    let g = Forest2::parse(GRID).unwrap();
    assert_eq!(g.scenic_score(2, 1), 4);
    assert_eq!(g.scenic_score(2, 3), 8);
    assert_eq!(g.scenic_score(0, 0), 0);
}

#[test]
fn test_max_scenic_score_example() {
    let g = Forest2::parse(GRID).unwrap();
    assert_eq!(g.max_scenic_score(), 8);
}

#[test]
fn test_tree_visible_scan() {
    let trees: Vec<Tree> = vec![
        Tree::new(0, 0, 3),
        Tree::new(1, 0, 0),
        Tree::new(2, 0, 3),
        Tree::new(3, 0, 7),
        Tree::new(4, 0, 3),
    ];
    let kept = Tree::visible(&trees);
    assert_eq!(kept.len(), 2);
    assert_eq!(kept[0], Tree::new(0, 0, 3));
    assert_eq!(kept[1], Tree::new(3, 0, 7));
}

#[test]
fn test_tree_visible_empty() {
    let trees: Vec<Tree> = Vec::new();
    assert_eq!(Tree::visible(&trees).len(), 0);
}

#[test]
fn test_iter_row_and_col() {
    let g = Forest2::parse(GRID).unwrap();
    let row = g.iter_row(1);
    assert_eq!(row.len(), 5);
    assert_eq!(row[0], Tree::new(0, 1, 2));
    assert_eq!(row[4], Tree::new(4, 1, 2));
    let col = g.iter_col(2);
    assert_eq!(col.len(), 5);
    assert_eq!(col[0], Tree::new(2, 0, 3));
    assert_eq!(col[4], Tree::new(2, 4, 3));
}

#[test]
fn test_forest_draft_parse_and_rows() {
    let f = Forest::parse(GRID).unwrap();
    assert_eq!(f.height(), 5);
    assert_eq!(f.width(), 5);
    // In this draft a cell's x is its row index.
    let row = f.iter_row(2);
    assert_eq!(row.len(), 5);
    assert_eq!(row[0], Tree::new(2, 0, 6));
}

#[test]
fn test_forest_left_visible() {
    let f = Forest::parse(GRID).unwrap();
    let vis = f.left_visible();
    assert_eq!(vis.len(), 11);
    assert!(vis.contains(&Coord(0, 0)));
    assert!(vis.contains(&Coord(0, 3)));
    assert!(!vis.contains(&Coord(0, 1)));
}

#[test]
fn test_forest_count_visible() {
    let f = Forest::parse(GRID).unwrap();
    let row = f.iter_row(0);
    let kept = f.count_visible(&row);
    assert_eq!(kept.len(), 2);
}

#[test]
fn test_row_cursor() {
    let f = Forest::parse(GRID).unwrap();
    let mut row = Row::new(4);
    assert_eq!(row.next(&f), Some(Tree::new(4, 0, 3)));
    assert_eq!(row.next(&f), Some(Tree::new(4, 1, 5)));
    for _ in 0..3 {
        assert!(row.next(&f).is_some());
    }
    assert_eq!(row.next(&f), None);
}
