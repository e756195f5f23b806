use aoc24::{Grid, GridError, Vector2d};

#[test]
fn grid_reads_width_and_height() {
    let g = Grid::new("ab\ncd\nef\n").unwrap();
    assert_eq!((g.width, g.height), (2, 3));
    assert_eq!(g.get(Vector2d(1, 2)), Some(b'f'));
    assert_eq!(g.get(Vector2d(0, 1)), Some(b'c'));
}

#[test]
fn grid_outside_is_none() {
    let g = Grid::new("S.E\n").unwrap();
    assert_eq!(g.get(Vector2d(-1, 0)), None);
    assert_eq!(g.get(Vector2d(3, 0)), None);
    assert_eq!(g.get(Vector2d(0, 1)), None);
    assert_eq!(g.get(Vector2d(i32::MIN, i32::MAX)), None);
}

#[test]
fn grid_without_final_newline() {
    let g = Grid::new("ab\ncd").unwrap();
    assert_eq!((g.width, g.height), (2, 2));
    assert_eq!(g.get(Vector2d(1, 1)), Some(b'd'));
}

#[test]
fn grid_ragged_rows_are_refused() {
    assert_eq!(Grid::new("abc\nde\nfgh\n").err(), Some(GridError::Ragged));
    assert_eq!(Grid::new("abc\nabcd\n").err(), Some(GridError::Ragged));
    assert_eq!(Grid::new("").err(), Some(GridError::Empty));
}

#[test]
fn grid_iterates_row_major() {
    let g = Grid::new("ab\ncd\n").unwrap();
    let cells = g.iter();
    assert_eq!(
        cells,
        vec![
            (Vector2d(0, 0), b'a'),
            (Vector2d(1, 0), b'b'),
            (Vector2d(0, 1), b'c'),
            (Vector2d(1, 1), b'd'),
        ]
    );
}

#[test]
fn vector_algebra() {
    let a = Vector2d(3, -7);
    let b = Vector2d(-2, 5);
    assert_eq!(a.add(b).sub(b), a);
    assert_eq!(a.rotate(), Vector2d(7, 3));
    assert_eq!(a.rotate().rotate().rotate().rotate(), a);
    assert_eq!(a.manhattan(), 10);
    assert_eq!(Vector2d(0, 0).manhattan(), 0);
    assert_eq!(a.neg(), Vector2d(-3, 7));
    assert_eq!(Vector2d::from_pair((3, -7)), a);
    let mut c = a;
    c.add_assign(b);
    assert_eq!(c, Vector2d(1, -2));
}

#[test]
fn vector_neighbours_in_direction_order() {
    assert_eq!(
        Vector2d(5, 5).neighbours(),
        vec![Vector2d(6, 5), Vector2d(5, 4), Vector2d(4, 5), Vector2d(5, 6)]
    );
}
