use minesweeper_core::{Board, Cell, Difficulty, Game, Point, Size};

fn print_board(board: &Board) {
    let mut last_row = 0;
    let mut line = String::new();
    for x in 0..board.get_width() {
        for y in 0..board.get_height() {
            let cell = board.cell_at(Point { x, y }).unwrap();
            if last_row != cell.coordinates.x {
                last_row = cell.coordinates.x;
                println!("{}", line);
                line.clear();
            }
            let number = cell.number;
            if !cell.cleared {
                line.push_str("[ \u{25AE}]");
            } else if number == -1 {
                line.push_str("[ *]");
            } else if number == 0 {
                line.push_str("[  ]");
            } else {
                line.push_str(&format!("[ {}]", number));
            }
        }
    }
    println!("{}", line);
}

#[test]
fn test_is_gameover() {
    let mut game = Game::new(Difficulty::Easy);
    game.board.for_each_cell_mut(|_, cell| {
        if cell.is_mine() {
            (Cell { cleared: true, ..*cell }, true)
        } else {
            (*cell, false)
        }
    });
    assert!(game.is_game_over());
}

#[test]
fn test_is_win() {
    let mut game = Game::new(Difficulty::Easy);
    game.board.for_each_cell_mut(|_, cell| {
        if cell.is_mine() {
            (Cell { flagged: true, ..*cell }, false)
        } else {
            (*cell, false)
        }
    });
    assert!(game.is_win());
}

#[test]
fn test_clear_white_cells() {
    let mut board = Board::new_empty(Size { width: 5, height: 5 });
    let mine_coordinates = Point { x: 2, y: 2 };
    board.replace_cell(Cell::new_mine(mine_coordinates), mine_coordinates);
    board.add_cell_numbers();

    let mut game = Game { board, total_mines: 1 };

    game.selected_at(Point { x: 0, y: 4 });

    println!(" ");

    print_board(&game.board);

    game.board.for_each_cell(|_, cell| {
        if cell.is_mine() {
            assert!(!cell.cleared);
        } else {
            assert!(cell.cleared);
        }
        false
    });
}

fn board_with_mines(size: Size, mines: &[(usize, usize)]) -> Board {
    let mut board = Board::new_empty(size);
    for &(x, y) in mines {
        board.replace_cell(Cell::new_mine(Point { x, y }), Point { x, y });
    }
    board.add_cell_numbers();
    board
}

#[test]
fn cascade_stops_at_the_numbered_border() {
    // A wall of mines in row 2 keeps the reveal in rows 0 and 1.
    let board = board_with_mines(Size { width: 5, height: 4 }, &[(2, 0), (2, 1), (2, 2), (2, 3)]);
    let mut game = Game { board, total_mines: 4 };
    let before = game.selected_at(Point { x: 0, y: 0 });
    assert_eq!(before.number, 0);
    assert!(!before.cleared);
    for x in 0..5 {
        for y in 0..4 {
            let c = game.board.cell_at(Point { x, y }).unwrap();
            assert_eq!(c.cleared, x < 2, "cell {} {}", x, y);
        }
    }
    assert!(!game.is_game_over());
}

#[test]
fn selecting_a_number_clears_only_it() {
    let board = board_with_mines(Size { width: 4, height: 4 }, &[(0, 0)]);
    let mut game = Game { board, total_mines: 1 };
    let before = game.selected_at(Point { x: 1, y: 1 });
    assert_eq!(before.number, 1);
    let cleared = (0..4)
        .flat_map(|x| (0..4).map(move |y| (x, y)))
        .filter(|&(x, y)| game.board.cell_at(Point { x, y }).unwrap().cleared)
        .count();
    assert_eq!(cleared, 1);
}

#[test]
fn selecting_a_mine_ends_the_game_and_opens_nothing_else() {
    let board = board_with_mines(Size { width: 3, height: 3 }, &[(1, 1)]);
    let mut game = Game { board, total_mines: 1 };
    assert!(!game.is_game_over());
    assert_eq!(game.remaining_mines(), 1);
    let before = game.selected_at(Point { x: 1, y: 1 });
    assert!(before.is_mine());
    assert!(game.is_game_over());
    assert!(!game.is_win());
    assert_eq!(game.remaining_mines(), 0);
    for x in 0..3 {
        for y in 0..3 {
            assert_eq!(game.board.cell_at(Point { x, y }).unwrap().cleared, (x, y) == (1, 1));
        }
    }
}

#[test]
fn selecting_off_the_board_changes_nothing() {
    let board = board_with_mines(Size { width: 3, height: 3 }, &[(0, 2)]);
    let mut game = Game { board, total_mines: 1 };
    let r = game.selected_at(Point { x: 3, y: 0 });
    assert_eq!(r, Cell::default());
    assert_eq!(game.board.for_each_cell(|_, c| c.cleared), None);
}

#[test]
fn game_over_is_false_at_start() {
    for d in [Difficulty::Easy, Difficulty::Medium, Difficulty::Hard] {
        let game = Game::new(d);
        assert!(!game.is_game_over());
        assert!(!game.is_win());
    }
}

#[test]
fn presets_have_their_sizes_and_mines() {
    let cases = [
        (Difficulty::Easy, 11, 10, 10),
        (Difficulty::Medium, 41, 16, 16),
        (Difficulty::Hard, 99, 30, 16),
    ];
    for (d, mines, w, h) in cases {
        let game = Game::new(d);
        assert_eq!(game.total_mines, mines);
        assert_eq!(game.get_board().get_size(), Size { width: w, height: h });
        assert_eq!(game.remaining_mines(), mines as u32);
    }
}

#[test]
fn remaining_mines_follows_flags_and_clears() {
    let board = board_with_mines(Size { width: 4, height: 4 }, &[(0, 0), (3, 3), (0, 3)]);
    let mut game = Game { board, total_mines: 3 };
    assert_eq!(game.remaining_mines(), 3);
    game.toggle_flagged(Point { x: 0, y: 0 });
    assert_eq!(game.remaining_mines(), 2);
    game.toggle_flagged(Point { x: 1, y: 1 });
    assert_eq!(game.remaining_mines(), 2);
    game.selected_at(Point { x: 3, y: 3 });
    assert_eq!(game.remaining_mines(), 1);
    game.toggle_flagged(Point { x: 0, y: 3 });
    assert_eq!(game.remaining_mines(), 0);
    assert!(game.is_game_over());
    assert!(!game.is_win());
}

#[test]
fn win_needs_every_mine_flagged_or_covered() {
    let board = board_with_mines(Size { width: 3, height: 3 }, &[(0, 0), (2, 2)]);
    let mut game = Game { board, total_mines: 2 };
    game.toggle_flagged(Point { x: 0, y: 0 });
    assert!(!game.is_win());
    game.toggle_flagged(Point { x: 2, y: 2 });
    assert!(game.is_win());
    game.clear_all_non_mines();
    assert!(game.is_win());
    assert!(game.board.cell_at(Point { x: 1, y: 1 }).unwrap().cleared);
    assert!(!game.board.cell_at(Point { x: 0, y: 0 }).unwrap().cleared);
}

#[test]
fn toggle_flagged_twice_and_on_cleared_cells() {
    let board = board_with_mines(Size { width: 3, height: 3 }, &[(0, 0)]);
    let mut game = Game { board, total_mines: 1 };
    let p = Point { x: 2, y: 2 };
    game.toggle_flagged(p);
    assert!(game.board.cell_at(p).unwrap().flagged);
    game.toggle_flagged(p);
    assert!(!game.board.cell_at(p).unwrap().flagged);
    let q = Point { x: 1, y: 0 };
    game.selected_at(q);
    assert!(game.board.cell_at(q).unwrap().cleared);
    game.toggle_flagged(q);
    assert!(!game.board.cell_at(q).unwrap().flagged);
    game.toggle_flagged(Point { x: 7, y: 7 });
}

#[test]
fn clear_all_twice_equals_once() {
    let mut game = Game::new(Difficulty::Medium);
    game.toggle_flagged(Point { x: 3, y: 3 });
    game.clear_all();
    let once = game.board.clone();
    game.clear_all();
    assert_eq!(game.board.cells.data, once.cells.data);
    assert!(game.is_game_over());
    assert_eq!(game.board.for_each_cell(|_, c| !c.cleared), None);
}
