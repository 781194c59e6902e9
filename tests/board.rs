use minesweeper_core::{Board, Cell, Point, Size, Vec2};

/// Get a board where the top-left cell must be a number.
fn get_board_with_number_top_left() -> Board {
    let board = Board::new(1, Size { width: 2, height: 2 });
    if let Some(cell) = board.cell_at(Point::zero()) {
        if cell.is_mine() {
            return get_board_with_number_top_left();
        }
    }
    board
}

#[test]
fn test_top_left_cell() {
    let board = get_board_with_number_top_left();
    let Some(cell) = board.cell_at(Point::zero()) else {
        panic!()
    };
    assert!(cell.number > 0);
}

#[test]
fn test_get_cells_around_top_left_cell() {
    let board = Board::new(1, Size { width: 3, height: 3 });
    let cells = board.get_cells_around(Point::zero());
    assert_eq!(cells.len(), 3);
}

#[test]
fn test_get_cells_around_central_cell() {
    let board = Board::new(1, Size { width: 3, height: 3 });
    let cells = board.get_cells_around(Point { x: 1, y: 1 });
    assert_eq!(cells.len(), 8);
}

#[test]
fn test_get_cells_around_bottom_right_cell() {
    let board = Board::new(1, Size { width: 3, height: 3 });
    let cells = board.get_cells_around(Point { x: 2, y: 2 });
    assert_eq!(cells.len(), 3);
}

#[test]
fn cells_around_edges_of_larger_grid() {
    let board = Board::new_empty(Size { width: 5, height: 5 });
    assert_eq!(board.get_cells_around(Point { x: 0, y: 4 }).len(), 3);
    assert_eq!(board.get_cells_around(Point { x: 4, y: 0 }).len(), 3);
    assert_eq!(board.get_cells_around(Point { x: 0, y: 2 }).len(), 5);
    assert_eq!(board.get_cells_around(Point { x: 2, y: 4 }).len(), 5);
    assert_eq!(board.get_cells_around(Point { x: 3, y: 2 }).len(), 8);
    assert_eq!(board.get_cells_around(Point { x: 9, y: 9 }).len(), 0);
}

#[test]
fn cells_around_come_in_offset_order() {
    let board = Board::new_empty(Size { width: 3, height: 3 });
    let coords: Vec<(usize, usize)> = board
        .get_cells_around(Point { x: 1, y: 0 })
        .iter()
        .map(|c| (c.coordinates.x, c.coordinates.y))
        .collect();
    assert_eq!(coords, vec![(0, 0), (0, 1), (1, 1), (2, 0), (2, 1)]);
}

#[test]
fn new_board_has_exactly_the_mines_asked_for() {
    for mines in [0, 1, 7, 24] {
        let board = Board::new(mines, Size { width: 5, height: 5 });
        let mut count = 0;
        for x in 0..5 {
            for y in 0..5 {
                if board.cell_at(Point { x, y }).unwrap().is_mine() {
                    count += 1;
                }
            }
        }
        assert_eq!(count, mines);
    }
}

#[test]
fn numbers_match_a_brute_force_count() {
    let board = Board::new(20, Size { width: 8, height: 6 });
    assert_eq!(board.get_width(), 8);
    assert_eq!(board.get_height(), 6);
    for x in 0..8i64 {
        for y in 0..6i64 {
            let cell = *board.cell_at(Point { x: x as usize, y: y as usize }).unwrap();
            assert_eq!(cell.coordinates, Point { x: x as usize, y: y as usize });
            assert!(!cell.cleared && !cell.flagged);
            if cell.is_mine() {
                assert_eq!(cell.number, -1);
                continue;
            }
            let mut expected = 0;
            for dx in -1..=1i64 {
                for dy in -1..=1i64 {
                    let (nx, ny) = (x + dx, y + dy);
                    if (dx, dy) != (0, 0) && (0..8).contains(&nx) && (0..6).contains(&ny) {
                        let n = board.cell_at(Point { x: nx as usize, y: ny as usize }).unwrap();
                        if n.is_mine() {
                            expected += 1;
                        }
                    }
                }
            }
            assert_eq!(cell.number, expected);
        }
    }
}

#[test]
fn add_cell_numbers_counts_placed_mines() {
    let mut board = Board::new_empty(Size { width: 3, height: 4 });
    board.replace_cell(Cell::new_mine(Point { x: 0, y: 0 }), Point { x: 0, y: 0 });
    board.replace_cell(Cell::new_mine(Point { x: 1, y: 1 }), Point { x: 1, y: 1 });
    board.add_cell_numbers();
    assert_eq!(board.cell_at(Point { x: 0, y: 1 }).unwrap().number, 2);
    assert_eq!(board.cell_at(Point { x: 2, y: 3 }).unwrap().number, 0);
    assert_eq!(board.cell_at(Point { x: 2, y: 2 }).unwrap().number, 1);
    assert!(board.cell_at(Point { x: 1, y: 1 }).unwrap().is_mine());
}

#[test]
fn empty_board_shape_and_lookups() {
    let board = Board::new_empty(Size { width: 4, height: 2 });
    assert_eq!(board.get_size(), Size { width: 4, height: 2 });
    assert!(board.cell_at(Point { x: 4, y: 0 }).is_none());
    assert!(board.cell_at(Point { x: 0, y: 2 }).is_none());
    let c = board.cell_at(Point { x: 3, y: 1 }).unwrap();
    assert_eq!(*c, Cell { number: 0, cleared: false, flagged: false, coordinates: Point { x: 3, y: 1 } });
    let none = Board::new_empty(Size::default());
    assert_eq!(none.get_width(), 0);
    assert_eq!(none.get_height(), 0);
}

#[test]
fn for_each_cell_stops_where_asked() {
    let board = Board::new_empty(Size { width: 3, height: 3 });
    let stop = board.for_each_cell(|p, _| p == Point { x: 1, y: 2 });
    assert_eq!(stop, Some(Point { x: 1, y: 2 }));
    assert_eq!(board.for_each_cell(|_, c| c.is_mine()), None);
}

#[test]
fn for_each_cell_mut_leaves_cells_after_the_stop() {
    let mut board = Board::new_empty(Size { width: 2, height: 2 });
    let stop = board.for_each_cell_mut(|p, c| {
        (Cell { flagged: true, ..*c }, p == Point { x: 1, y: 0 })
    });
    assert_eq!(stop, Some(Point { x: 1, y: 0 }));
    assert!(board.cell_at(Point { x: 0, y: 0 }).unwrap().flagged);
    assert!(board.cell_at(Point { x: 0, y: 1 }).unwrap().flagged);
    assert!(board.cell_at(Point { x: 1, y: 0 }).unwrap().flagged);
    assert!(!board.cell_at(Point { x: 1, y: 1 }).unwrap().flagged);
}

#[test]
fn vec2_on_ragged_rows() {
    let mut v = Vec2::new(vec![vec![1u8, 2, 3], vec![4u8]]);
    assert_eq!(v.get_width(), 2);
    assert_eq!(v.get_height(), 3);
    assert_eq!(v.get_element(Point { x: 1, y: 0 }), Some(&4));
    assert_eq!(v.get_element(Point { x: 1, y: 1 }), None);
    v.replace_at(9, Point { x: 0, y: 2 });
    assert_eq!(v.data, vec![vec![1, 2, 9], vec![4]]);
    let stop = v.for_each_element_mut(|_, e| (*e + 1, false));
    assert_eq!(stop, None);
    assert_eq!(v.data, vec![vec![2, 3, 10], vec![5]]);
    assert_eq!(v.for_each_element(|_, e| *e == 5), Some(Point { x: 1, y: 0 }));
}

#[test]
fn random_points_stay_in_their_ranges() {
    for _ in 0..200 {
        let p = Point::random_between(3..7, 10..11);
        assert!((3..7).contains(&p.x));
        assert_eq!(p.y, 10);
    }
}
